//! What is known of the devices found on the network: their readable and
//! writable properties, the converters of those properties, and the protocol
//! information they report.
use vstd::prelude::*;
use crate::converters::{Converter, ConverterView};
use crate::descriptions::TextDescription;
use crate::text::{concat3, contains_string, owned, reverse_vec, texts};

verus! {

/// A scanned device: its host, its object (`0x`-prefixed), and the EPCs of the
/// properties it can read and write.
#[derive(Debug)]
pub struct DeviceInfo {
    pub host: String,
    pub eoj: String,
    pub r: Vec<String>,
    pub w: Vec<String>,
}

/// A scanned device, strings as character sequences.
pub struct DeviceInfoView {
    pub host: Seq<char>,
    pub eoj: Seq<char>,
    pub r: Seq<Seq<char>>,
    pub w: Seq<Seq<char>>,
}

impl View for DeviceInfo {
    type V = DeviceInfoView;

    open spec fn view(&self) -> DeviceInfoView {
        DeviceInfoView {
            host: self.host@,
            eoj: self.eoj@,
            r: texts(self.r@),
            w: texts(self.w@),
        }
    }
}

impl DeviceInfo {
    /// A device with no known properties.
    pub fn new(host: String, eoj: String) -> (r: Self)
        ensures
            r.host == host,
            r.eoj == eoj,
            r.r@.len() == 0,
            r.w@.len() == 0,
    {
        DeviceInfo { host, eoj, r: Vec::new(), w: Vec::new() }
    }
}

/// A property of a device instance, with its converter and whether it is writable.
#[derive(Debug)]
pub struct EchonetProperty {
    pub converter: Converter,
    pub w: bool,
    pub epc: String,
    pub name: String,
}

/// A property of a device instance, strings as character sequences.
pub struct PropertyModel {
    pub converter: ConverterView,
    pub w: bool,
    pub epc: Seq<char>,
    pub name: Seq<char>,
}

impl View for EchonetProperty {
    type V = PropertyModel;

    open spec fn view(&self) -> PropertyModel {
        PropertyModel { converter: self.converter.model(), w: self.w, epc: self.epc@, name: self.name@ }
    }
}

/// Properties as models.
pub open spec fn props_view(v: Seq<EchonetProperty>) -> Seq<PropertyModel> {
    v.map_values(|p: EchonetProperty| p@)
}

impl EchonetProperty {
    /// A property from its parts.
    pub fn new(name: String, epc: String, w: bool, converter: Converter) -> (r: EchonetProperty)
        ensures
            r.name == name,
            r.epc == epc,
            r.w == w,
            r.converter == converter,
    {
        EchonetProperty { name, epc, w, converter }
    }

    /// An equal copy.
    pub fn duplicate(&self) -> (r: Self)
        ensures
            r@ == self@,
    {
        EchonetProperty {
            converter: self.converter.duplicate(),
            w: self.w,
            epc: self.epc.clone(),
            name: self.name.clone(),
        }
    }
}

/// A device instance with the properties it offers.
#[derive(Debug)]
pub struct EchonetDevice {
    pub host: String,
    pub eoj: String,
    pub properties: Vec<EchonetProperty>,
}

/// A device instance, strings as character sequences.
pub struct DeviceModel {
    pub host: Seq<char>,
    pub eoj: Seq<char>,
    pub properties: Seq<PropertyModel>,
}

impl View for EchonetDevice {
    type V = DeviceModel;

    open spec fn view(&self) -> DeviceModel {
        DeviceModel { host: self.host@, eoj: self.eoj@, properties: props_view(self.properties@) }
    }
}

/// The properties of a class that a scanned device offers, in the class's order:
/// those it can read or write, each marked writable exactly when it can write it.
pub open spec fn combined(props: Seq<PropertyModel>, r: Seq<Seq<char>>, w: Seq<Seq<char>>) -> Seq<
    PropertyModel,
>
    decreases props.len(),
{
    if props.len() == 0 {
        Seq::empty()
    } else {
        let rest = combined(props.drop_last(), r, w);
        let p = props.last();
        if r.contains(p.epc) || w.contains(p.epc) {
            rest.push(PropertyModel { w: w.contains(p.epc), ..p })
        } else {
            rest
        }
    }
}

/// What [`EchonetDevice::combine`] keeps: each kept property is one of the class's
/// properties (up to its writable flag) that the scan lists as readable or writable,
/// marked writable exactly when the scan lists it as writable; and each class
/// property that the scan lists is kept, so marked.
pub proof fn lemma_combined(props: Seq<PropertyModel>, r: Seq<Seq<char>>, w: Seq<Seq<char>>)
    ensures
        combined(props, r, w).len() <= props.len(),
        forall|i: int|
            #![trigger combined(props, r, w)[i]]
            0 <= i < combined(props, r, w).len() ==> {
                let c = combined(props, r, w)[i];
                &&& r.contains(c.epc) || w.contains(c.epc)
                &&& c.w == w.contains(c.epc)
                &&& exists|k: int|
                    0 <= k < props.len() && (#[trigger] props[k]).epc == c.epc && props[k].name
                        == c.name && props[k].converter == c.converter
            },
        forall|p: PropertyModel|
            props.contains(p) && (r.contains(p.epc) || w.contains(p.epc)) ==> #[trigger] combined(
                props,
                r,
                w,
            ).contains(PropertyModel { w: w.contains(p.epc), ..p }),
    decreases props.len(),
{
    if props.len() > 0 {
        let d = props.drop_last();
        let p = props.last();
        let rest = combined(d, r, w);
        lemma_combined(d, r, w);
        let c = combined(props, r, w);
        let q = PropertyModel { w: w.contains(p.epc), ..p };
        if r.contains(p.epc) || w.contains(p.epc) {
            assert(c == rest.push(q));
        } else {
            assert(c == rest);
        }
        assert forall|i: int| #![trigger c[i]] 0 <= i < c.len() implies {
            let x = c[i];
            &&& r.contains(x.epc) || w.contains(x.epc)
            &&& x.w == w.contains(x.epc)
            &&& exists|k: int|
                0 <= k < props.len() && (#[trigger] props[k]).epc == x.epc && props[k].name == x.name
                    && props[k].converter == x.converter
        } by {
            if i < rest.len() {
                assert(c[i] == rest[i]);
                let x = rest[i];
                let k = choose|k: int|
                    0 <= k < d.len() && (#[trigger] d[k]).epc == x.epc && d[k].name == x.name
                        && d[k].converter == x.converter;
                assert(props[k] == d[k]);
            } else {
                assert(c[i] == q);
                assert(props[props.len() - 1] == p);
            }
        }
        assert forall|p2: PropertyModel|
            props.contains(p2) && (r.contains(p2.epc) || w.contains(p2.epc)) implies #[trigger] c.contains(
            PropertyModel { w: w.contains(p2.epc), ..p2 },
        ) by {
            let q2 = PropertyModel { w: w.contains(p2.epc), ..p2 };
            let k = choose|k: int| 0 <= k < props.len() && props[k] == p2;
            if k < props.len() - 1 {
                assert(d[k] == p2);
                assert(d.contains(p2));
                assert(rest.contains(q2));
                let m = choose|m: int| 0 <= m < rest.len() && rest[m] == q2;
                assert(c[m] == q2);
            } else {
                assert(p2 == p);
                assert(c[rest.len() as int] == q2);
            }
        }
    }
}

impl EchonetDevice {
    /// A device without properties.
    pub fn new(host: String, eoj: String) -> (r: Self)
        ensures
            r.host == host,
            r.eoj == eoj,
            r.properties@.len() == 0,
    {
        EchonetDevice { host, eoj, properties: vec![] }
    }

    /// Appends a property.
    pub fn add(&mut self, property: EchonetProperty)
        ensures
            final(self).host == old(self).host,
            final(self).eoj == old(self).eoj,
            final(self).properties@ == old(self).properties@.push(property),
    {
        self.properties.push(property)
    }

    /// The device that a scan found, with those of the class's properties that it
    /// can read or write.
    pub fn combine(info: DeviceInfo, properties: Vec<EchonetProperty>) -> (r: EchonetDevice)
        ensures
            r.host == info.host,
            r.eoj == info.eoj,
            props_view(r.properties@) == combined(props_view(properties@), info@.r, info@.w),
    {
        let ghost pv = props_view(properties@);
        let n = properties.len();
        let mut rev = reverse_vec(properties);
        let mut out: Vec<EchonetProperty> = Vec::new();
        let mut i: usize = 0;
        assert(pv.take(0) =~= Seq::<PropertyModel>::empty());
        assert(props_view(out@) =~= Seq::<PropertyModel>::empty());
        while i < n
            invariant
                i <= n,
                n == pv.len(),
                rev@.len() == n - i,
                forall|k: int| 0 <= k < n - i ==> (#[trigger] rev@[k])@ == pv[n - 1 - k],
                props_view(out@) == combined(pv.take(i as int), info@.r, info@.w),
            decreases n - i,
        {
            let mut p = rev.pop().unwrap();
            proof {
                assert(p@ == pv[i as int]);
                let pre = pv.take(i + 1);
                assert(pre.drop_last() =~= pv.take(i as int));
                assert(pre.last() == pv[i as int]);
            }
            let in_r = contains_string(&info.r, p.epc.as_str());
            let in_w = contains_string(&info.w, p.epc.as_str());
            if in_r || in_w {
                let ghost before = props_view(out@);
                p.w = in_w;
                out.push(p);
                assert(props_view(out@) =~= before.push(p@));
            }
            i = i + 1;
        }
        assert(pv.take(n as int) =~= pv);
        EchonetDevice { properties: out, host: info.host, eoj: info.eoj }
    }

    /// `host:eoj`, the identifier of a device instance.
    pub fn hosteoj(&self) -> (r: String)
        ensures
            r@ == self.host@ + ":"@ + self.eoj@,
    {
        concat3(self.host.as_str(), ":", self.eoj.as_str())
    }
}

/// The protocol that a device speaks and its version (appendix release).
#[derive(Debug)]
pub struct ProtocolInfo {
    pub protocol: String,
    pub appendix: String,
}

/// The manufacturer of a device.
#[derive(Debug)]
pub struct ManufacturerInfo {
    pub code: String,
    pub descriptions: TextDescription,
}

/// What a device reports of its type, protocol and manufacturer.
#[derive(Debug)]
pub struct DeviceProtocolInfo {
    pub id: String,
    pub device_type: String,
    pub protocol: ProtocolInfo,
    pub manufacturer: ManufacturerInfo,
}

/// Protocol information, strings as character sequences.
pub struct ProtoView {
    pub id: Seq<char>,
    pub device_type: Seq<char>,
    pub protocol: Seq<char>,
    pub appendix: Seq<char>,
    pub code: Seq<char>,
    pub en: Seq<char>,
    pub ja: Seq<char>,
}

impl View for DeviceProtocolInfo {
    type V = ProtoView;

    open spec fn view(&self) -> ProtoView {
        ProtoView {
            id: self.id@,
            device_type: self.device_type@,
            protocol: self.protocol.protocol@,
            appendix: self.protocol.appendix@,
            code: self.manufacturer.code@,
            en: self.manufacturer.descriptions.en@,
            ja: self.manufacturer.descriptions.ja@,
        }
    }
}

/// The protocol information of a device of which nothing but its identifier is known.
pub open spec fn unknown_proto(id: Seq<char>) -> ProtoView {
    ProtoView {
        id,
        device_type: "unavailable"@,
        protocol: "N/A"@,
        appendix: "N/A"@,
        code: "N/A"@,
        en: "N/A"@,
        ja: "不明"@,
    }
}

impl DeviceProtocolInfo {
    /// The information of a device of which nothing is known yet.
    pub fn new(id: String) -> (r: DeviceProtocolInfo)
        ensures
            r.id == id,
            r.device_type@ == "unavailable"@,
            r.protocol.protocol@ == "N/A"@,
            r.protocol.appendix@ == "N/A"@,
            r.manufacturer.code@ == "N/A"@,
            r.manufacturer.descriptions.en@ == "N/A"@,
            r.manufacturer.descriptions.ja@ == "不明"@,
    {
        DeviceProtocolInfo {
            id,
            device_type: owned("unavailable"),
            protocol: ProtocolInfo { protocol: owned("N/A"), appendix: owned("N/A") },
            manufacturer: ManufacturerInfo {
                code: owned("N/A"),
                descriptions: TextDescription { en: owned("N/A"), ja: owned("不明") },
            },
        }
    }

    /// The same information with the device type set.
    pub fn with_type(self, device_type: String) -> (r: Self)
        ensures
            r == (DeviceProtocolInfo { device_type, ..self }),
    {
        DeviceProtocolInfo { device_type, ..self }
    }

    /// The same information with the protocol set.
    pub fn with_protocol(self, protocol: String) -> (r: Self)
        ensures
            r == (DeviceProtocolInfo { protocol: ProtocolInfo { protocol, ..self.protocol }, ..self }),
    {
        DeviceProtocolInfo { protocol: ProtocolInfo { protocol, ..self.protocol }, ..self }
    }

    /// The same information with the protocol version (appendix) set.
    pub fn with_appendix(self, appendix: String) -> (r: Self)
        ensures
            r == (DeviceProtocolInfo { protocol: ProtocolInfo { appendix, ..self.protocol }, ..self }),
    {
        DeviceProtocolInfo { protocol: ProtocolInfo { appendix, ..self.protocol }, ..self }
    }

    /// The same information with the manufacturer code set.
    pub fn with_code(self, code: String) -> (r: Self)
        ensures
            r == (DeviceProtocolInfo {
                manufacturer: ManufacturerInfo { code, ..self.manufacturer },
                ..self
            }),
    {
        DeviceProtocolInfo { manufacturer: ManufacturerInfo { code, ..self.manufacturer }, ..self }
    }
}

} // verus!
