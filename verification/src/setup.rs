//! Putting the service together: converters for the properties of each described
//! class, device instances from the scan, and the descriptions of the instances.
use vstd::prelude::*;
use crate::converters::{
    AdditionalInfo, Ais, Converter, Entry, InfoView, PropertyInfo, fuse, index_of_key, keys_of, try_fuse,
    lemma_map_insert,
    lemma_index_of_key_absent, lemma_index_of_key_first, lemma_index_of_key_spec, map_insert,
    member_converter,
};
use crate::descriptions::{DescriptionView, DeviceDescription, PropertyView, properties_view};
use crate::echoinfo::{
    DeviceInfo, DeviceInfoView, DeviceModel, EchonetDevice, EchonetProperty, PropertyModel, combined, props_view,
};
use crate::text::{
    byte_prefix, byte_suffix, concat3, is_byte_boundary, is_prefix, owned, reverse_vec,
    split_at_byte, starts_with, str_eq, texts, contains_string, lemma_push_contains,
};

verus! {

/// The additional information of one class, as models.
pub open spec fn ai_list_view(v: Seq<PropertyInfo>) -> Seq<(Seq<char>, InfoView)> {
    v.map_values(|p: PropertyInfo| (p.epc@, p.info.model()))
}

/// All additional information, as models.
pub open spec fn ais_view(a: Ais) -> Seq<(Seq<char>, Seq<(Seq<char>, InfoView)>)> {
    a.entries@.map_values(|e: Entry| (e.eoj@, ai_list_view(e.ai@)))
}

/// The additional information of class `eoj`, from its first entry.
pub open spec fn class_ai(aisv: Seq<(Seq<char>, Seq<(Seq<char>, InfoView)>)>, eoj: Seq<char>) -> Option<
    Seq<(Seq<char>, InfoView)>,
> {
    let j = index_of_key(aisv, eoj);
    if j >= 0 {
        Some(aisv[j].1)
    } else {
        None
    }
}

/// The additional information of property `epc`, from the first entry of its class's list.
pub open spec fn prop_ai(cls: Option<Seq<(Seq<char>, InfoView)>>, epc: Seq<char>) -> Option<InfoView> {
    match cls {
        None => None,
        Some(l) => {
            let j = index_of_key(l, epc);
            if j >= 0 {
                Some(l[j].1)
            } else {
                None
            }
        },
    }
}

/// The additional information of the property with EPC `dd`: the first entry for
/// it in a class's list.
pub fn get_ai<'a>(dd: &str, ai: Option<&'a Vec<PropertyInfo>>) -> (r: Option<&'a AdditionalInfo>)
    ensures
        match ai {
            None => r is None,
            Some(v) => {
                let j = index_of_key(ai_list_view(v@), dd@);
                &&& j < 0 ==> r is None
                &&& j >= 0 ==> (r matches Some(a) && *a == v@[j].info)
            },
        },
{
    let v = match ai {
        None => {
            return None;
        },
        Some(v) => v,
    };
    let ghost lv = ai_list_view(v@);
    let mut i: usize = 0;
    while i < v.len()
        invariant
            i <= v.len(),
            ai == Some(v),
            lv == ai_list_view(v@),
            forall|j: int| 0 <= j < i ==> lv[j].0 != dd@,
        decreases v.len() - i,
    {
        if str_eq(v[i].epc.as_str(), dd) {
            proof {
                lemma_index_of_key_first(lv, dd@, i as int);
            }
            return Some(&v[i].info);
        }
        i = i + 1;
    }
    proof {
        lemma_index_of_key_absent(lv, dd@);
    }
    None
}

/// The properties of a class that can be converted, in description order, each
/// with its converter: fused with the property's additional information where
/// there is some, from its schema alone otherwise. Properties without a
/// converter are left out.
pub open spec fn class_properties(
    props: Seq<(Seq<char>, PropertyView)>,
    cls: Option<Seq<(Seq<char>, InfoView)>>,
) -> Seq<PropertyModel>
    decreases props.len(),
{
    if props.len() == 0 {
        Seq::empty()
    } else {
        let rest = class_properties(props.drop_last(), cls);
        let p = props.last();
        match member_converter(p.1.schema, prop_ai(cls, p.1.epc)) {
            Some(Ok(c)) => rest.push(
                PropertyModel { converter: c, w: p.1.writable, epc: p.1.epc, name: p.0 },
            ),
            _ => rest,
        }
    }
}

/// No property of the descriptions pairs its schema with additional information
/// of a kind that cannot be fused with it.
pub open spec fn fusable(
    dds: Seq<DescriptionView>,
    aisv: Seq<(Seq<char>, Seq<(Seq<char>, InfoView)>)>,
) -> bool {
    forall|i: int, k: int|
        0 <= i < dds.len() && 0 <= k < dds[i].properties.len() ==> #[trigger] member_converter(
            dds[i].properties[k].1.schema,
            prop_ai(class_ai(aisv, dds[i].eoj), dds[i].properties[k].1.epc),
        ) is Some
}

/// The properties of each class, keyed by the class's object; a later
/// description of the same object replaces an earlier one.
pub open spec fn fuse_them_spec(
    dds: Seq<DescriptionView>,
    aisv: Seq<(Seq<char>, Seq<(Seq<char>, InfoView)>)>,
) -> Seq<(Seq<char>, Seq<PropertyModel>)>
    decreases dds.len(),
{
    if dds.len() == 0 {
        Seq::empty()
    } else {
        let d = dds.last();
        map_insert(
            fuse_them_spec(dds.drop_last(), aisv),
            d.eoj,
            class_properties(d.properties, class_ai(aisv, d.eoj)),
        )
    }
}

/// Properties of each class, as models.
pub open spec fn classes_view(v: Seq<(String, Vec<EchonetProperty>)>) -> Seq<(Seq<char>, Seq<PropertyModel>)> {
    v.map_values(|p: (String, Vec<EchonetProperty>)| (p.0@, props_view(p.1@)))
}

/// Descriptions as views.
pub open spec fn descriptions_view(v: Seq<DeviceDescription>) -> Seq<DescriptionView> {
    v.map_values(|d: DeviceDescription| d@)
}

fn insert_class(m: &mut Vec<(String, Vec<EchonetProperty>)>, k: String, v: Vec<EchonetProperty>)
    ensures
        classes_view(final(m)@) == map_insert(classes_view(old(m)@), k@, props_view(v@)),
{
    let ghost pv = classes_view(m@);
    let mut i: usize = 0;
    while i < m.len()
        invariant
            i <= m.len(),
            pv == classes_view(m@),
            pv == classes_view(old(m)@),
            forall|j: int| 0 <= j < i ==> pv[j].0 != k@,
        decreases m.len() - i,
    {
        if str_eq(m[i].0.as_str(), k.as_str()) {
            proof {
                lemma_index_of_key_first(pv, k@, i as int);
            }
            let ghost kv = k@;
            let ghost vv = props_view(v@);
            m.set(i, (k, v));
            assert(classes_view(m@) =~= pv.update(i as int, (kv, vv)));
            return;
        }
        i = i + 1;
    }
    proof {
        lemma_index_of_key_absent(pv, k@);
    }
    let ghost kv = k@;
    let ghost vv = props_view(v@);
    m.push((k, v));
    assert(classes_view(m@) =~= pv.push((kv, vv)));
}

fn class_converters(dd: DeviceDescription, dd_ais: Option<&Vec<PropertyInfo>>, aisv: Ghost<Seq<(Seq<char>, Seq<(Seq<char>, InfoView)>)>>) -> (r: Vec<EchonetProperty>)
    requires
        dd_ais matches Some(l) ==> class_ai(aisv@, dd@.eoj) == Some(ai_list_view(l@)),
        dd_ais is None ==> class_ai(aisv@, dd@.eoj) is None,
        forall|k: int|
            0 <= k < dd@.properties.len() ==> #[trigger] member_converter(
                dd@.properties[k].1.schema,
                prop_ai(class_ai(aisv@, dd@.eoj), dd@.properties[k].1.epc),
            ) is Some,
    ensures
        props_view(r@) == class_properties(dd@.properties, class_ai(aisv@, dd@.eoj)),
{
    let ghost dv = dd@;
    let ghost cls = class_ai(aisv@, dd@.eoj);
    let ghost pv = dv.properties;
    let n = dd.properties.len();
    let mut rev = reverse_vec(dd.properties);
    let mut props: Vec<EchonetProperty> = Vec::new();
    let mut i: usize = 0;
    assert(pv.take(0) =~= Seq::<(Seq<char>, PropertyView)>::empty());
    assert(props_view(props@) =~= Seq::<PropertyModel>::empty());
    while i < n
        invariant
            i <= n,
            n == pv.len(),
            rev@.len() == n - i,
            forall|k: int| 0 <= k < n - i ==> (#[trigger] rev@[k]).0@ == pv[n - 1 - k].0 && rev@[k].1@ == pv[n - 1 - k].1,
            forall|k: int|
                0 <= k < pv.len() ==> #[trigger] member_converter(pv[k].1.schema, prop_ai(cls, pv[k].1.epc)) is Some,
            dd_ais matches Some(l) ==> cls == Some(ai_list_view(l@)),
            dd_ais is None ==> cls is None,
            props_view(props@) == class_properties(pv.take(i as int), cls),
        decreases n - i,
    {
        let ghost before_rev = rev@;
        let (name, prop) = rev.pop().unwrap();
        proof {
            assert(before_rev[n - i - 1] == (name, prop));
            assert(prop@ == pv[i as int].1);
            assert(name@ == pv[i as int].0);
            let pre = pv.take(i + 1);
            assert(pre.drop_last() =~= pv.take(i as int));
            assert(pre.last() == pv[i as int]);
            assert(member_converter(pv[i as int].1.schema, prop_ai(cls, pv[i as int].1.epc)) is Some);
        }
        let found = get_ai(prop.epc.as_str(), dd_ais);
        let conv_res = match found {
            Some(ai) => {
                proof {
                    let l = dd_ais->0;
                    let lv = ai_list_view(l@);
                    let j = index_of_key(lv, prop.epc@);
                    assert(j >= 0);
                    lemma_index_of_key_spec(lv, prop.epc@);
                    assert(lv[j].1 == l@[j].info.model());
                    assert(prop_ai(cls, prop.epc@) == Some(ai.model()));
                }
                fuse(&prop.schema, ai)
            },
            None => {
                assert(prop_ai(cls, prop.epc@) is None);
                Converter::try_from(prop.schema)
            },
        };
        match conv_res {
            Ok(conv) => {
                let ghost before = props_view(props@);
                let p = EchonetProperty::new(name, prop.epc, prop.writable, conv);
                props.push(p);
                assert(props_view(props@) =~= before.push(p@));
            },
            Err(_) => {},
        }
        i = i + 1;
    }
    assert(pv.take(n as int) =~= pv);
    props
}

/// The properties of each described class with their converters, keyed by the
/// class's object (see [`fuse_them_spec`]). Properties for which no converter can
/// be made are left out.
pub fn fuse_them(descriptions: Vec<DeviceDescription>, ais: Ais) -> (r: Vec<(String, Vec<EchonetProperty>)>)
    requires
        fusable(descriptions_view(descriptions@), ais_view(ais)),
    ensures
        classes_view(r@) == fuse_them_spec(descriptions_view(descriptions@), ais_view(ais)),
{
    let ghost dv = descriptions_view(descriptions@);
    let ghost aisv = ais_view(ais);
    let n = descriptions.len();
    let mut rev = reverse_vec(descriptions);
    let mut map: Vec<(String, Vec<EchonetProperty>)> = Vec::new();
    let mut i: usize = 0;
    assert(dv.take(0) =~= Seq::<DescriptionView>::empty());
    assert(classes_view(map@) =~= Seq::<(Seq<char>, Seq<PropertyModel>)>::empty());
    while i < n
        invariant
            i <= n,
            n == dv.len(),
            aisv == ais_view(ais),
            fusable(dv, aisv),
            rev@.len() == n - i,
            forall|k: int| 0 <= k < n - i ==> (#[trigger] rev@[k])@ == dv[n - 1 - k],
            classes_view(map@) == fuse_them_spec(dv.take(i as int), aisv),
        decreases n - i,
    {
        let dd = rev.pop().unwrap();
        proof {
            let pre = dv.take(i + 1);
            assert(pre.drop_last() =~= dv.take(i as int));
            assert(pre.last() == dv[i as int]);
            assert(dd@ == dv[i as int]);
            assert forall|k: int| 0 <= k < dd@.properties.len() implies #[trigger] member_converter(
                dd@.properties[k].1.schema,
                prop_ai(class_ai(aisv, dd@.eoj), dd@.properties[k].1.epc),
            ) is Some by {
                assert(member_converter(
                    dv[i as int].properties[k].1.schema,
                    prop_ai(class_ai(aisv, dv[i as int].eoj), dv[i as int].properties[k].1.epc),
                ) is Some);
            }
        }
        let dd_ais = ais.properties(dd.eoj.as_str());
        proof {
            lemma_index_of_key_spec(aisv, dd@.eoj);
            match dd_ais {
                Some(l) => {
                    let j = choose|j: int|
                        0 <= j < ais.entries@.len() && ais.entries@[j].eoj@ == dd.eoj@ && *l
                            == ais.entries@[j].ai && forall|q: int|
                            0 <= q < j ==> (#[trigger] ais.entries@[q]).eoj@ != dd.eoj@;
                    assert forall|q: int| 0 <= q < j implies aisv[q].0 != dd@.eoj by {
                        assert(ais.entries@[q].eoj@ != dd.eoj@);
                    }
                    lemma_index_of_key_first(aisv, dd@.eoj, j);
                },
                None => {
                    assert forall|q: int| 0 <= q < aisv.len() implies aisv[q].0 != dd@.eoj by {
                        assert(ais.entries@[q].eoj@ != dd.eoj@);
                    }
                    lemma_index_of_key_absent(aisv, dd@.eoj);
                },
            }
        }
        let eoj = dd.eoj.clone();
        let props = class_converters(dd, dd_ais, Ghost(aisv));
        insert_class(&mut map, eoj, props);
        i = i + 1;
    }
    assert(dv.take(n as int) =~= dv);
    map
}

/// The classes that [`fuse_them`] keys its result by are distinct and are exactly
/// the objects of the descriptions; each object gives the properties of the last
/// description of it.
pub proof fn lemma_fuse_them_classes(
    dds: Seq<DescriptionView>,
    aisv: Seq<(Seq<char>, Seq<(Seq<char>, InfoView)>)>,
)
    ensures
        keys_of(fuse_them_spec(dds, aisv)).no_duplicates(),
        forall|k: Seq<char>|
            #[trigger] index_of_key(fuse_them_spec(dds, aisv), k) >= 0 <==> exists|i: int|
                0 <= i < dds.len() && (#[trigger] dds[i]).eoj == k,
        forall|i: int|
            #![trigger dds[i]]
            0 <= i < dds.len() && (forall|j: int| i < j < dds.len() ==> (#[trigger] dds[j]).eoj != dds[i].eoj)
                ==> {
                let f = fuse_them_spec(dds, aisv);
                &&& index_of_key(f, dds[i].eoj) >= 0
                &&& f[index_of_key(f, dds[i].eoj)].1 == class_properties(
                    dds[i].properties,
                    class_ai(aisv, dds[i].eoj),
                )
            },
    decreases dds.len(),
{
    let f = fuse_them_spec(dds, aisv);
    if dds.len() == 0 {
        assert(keys_of(f) =~= Seq::<Seq<char>>::empty());
    } else {
        let d = dds.drop_last();
        let l = dds.last();
        let fd = fuse_them_spec(d, aisv);
        let cp = class_properties(l.properties, class_ai(aisv, l.eoj));
        lemma_fuse_them_classes(d, aisv);
        lemma_map_insert(fd, l.eoj, cp);
        assert(f == map_insert(fd, l.eoj, cp));
        assert forall|k: Seq<char>|
            #[trigger] index_of_key(f, k) >= 0 <==> exists|i: int|
                0 <= i < dds.len() && (#[trigger] dds[i]).eoj == k by {
            if k == l.eoj {
                assert(dds[dds.len() - 1].eoj == k);
            } else {
                assert(index_of_key(f, k) == index_of_key(fd, k));
                if exists|i: int| 0 <= i < dds.len() && (#[trigger] dds[i]).eoj == k {
                    let i = choose|i: int| 0 <= i < dds.len() && (#[trigger] dds[i]).eoj == k;
                    assert(i < dds.len() - 1);
                    assert(d[i] == dds[i]);
                }
                if exists|i: int| 0 <= i < d.len() && (#[trigger] d[i]).eoj == k {
                    let i = choose|i: int| 0 <= i < d.len() && (#[trigger] d[i]).eoj == k;
                    assert(dds[i] == d[i]);
                }
            }
        }
        assert forall|i: int|
            #![trigger dds[i]]
            0 <= i < dds.len() && (forall|j: int| i < j < dds.len() ==> (#[trigger] dds[j]).eoj != dds[i].eoj)
                implies {
                &&& index_of_key(f, dds[i].eoj) >= 0
                &&& f[index_of_key(f, dds[i].eoj)].1 == class_properties(
                    dds[i].properties,
                    class_ai(aisv, dds[i].eoj),
                )
            } by {
            if i < dds.len() - 1 {
                let e = dds[i].eoj;
                assert(dds[dds.len() - 1].eoj != e);
                assert(d[i] == dds[i]);
                assert forall|j: int| i < j < d.len() implies (#[trigger] d[j]).eoj != d[i].eoj by {
                    assert(d[j] == dds[j]);
                }
                assert(index_of_key(f, e) == index_of_key(fd, e));
                let x = index_of_key(fd, e);
                lemma_index_of_key_spec(fd, e);
                assert(f[x] == fd[x]);
            }
        }
    }
}

/// The keys that [`generate_updated_device_descriptions`] gives its descriptions
/// are distinct.
pub proof fn lemma_updated_keys(descs: Seq<DescriptionView>, sup: DescriptionView, insts: Seq<DeviceModel>)
    ensures
        keys_of(updated_spec(descs, sup, insts)).no_duplicates(),
    decreases insts.len(),
{
    if insts.len() == 0 {
        assert(keys_of(updated_spec(descs, sup, insts)) =~= Seq::<Seq<char>>::empty());
    } else {
        let rest = updated_spec(descs, sup, insts.drop_last());
        lemma_updated_keys(descs, sup, insts.drop_last());
        let inst = insts.last();
        let j = first_described(descs, inst.eoj);
        if j >= 0 {
            let (k, d) = adjust_spec(inst, descs[j], sup);
            lemma_map_insert(rest, k, d);
        }
    }
}

/// A keyed description is that of an instance: keyed by its `host:eoj`, with its
/// object, and only with properties whose EPC it offers.
pub open spec fn describes_instance(e: (Seq<char>, DescriptionView), inst: DeviceModel) -> bool {
    &&& e.0 == inst.host + ":"@ + inst.eoj
    &&& e.1.eoj == inst.eoj
    &&& forall|k: int|
        0 <= k < e.1.properties.len() ==> instance_epcs(inst).contains(
            (#[trigger] e.1.properties[k]).1.epc,
        )
}

/// A keyed description is that of one of the instances.
pub open spec fn of_some_instance(e: (Seq<char>, DescriptionView), insts: Seq<DeviceModel>) -> bool {
    exists|x: int| 0 <= x < insts.len() && #[trigger] describes_instance(e, insts[x])
}

/// Each description that [`generate_updated_device_descriptions`] gives is that of
/// one of the instances (see [`describes_instance`]).
pub proof fn lemma_updated_descriptions(
    descs: Seq<DescriptionView>,
    sup: DescriptionView,
    insts: Seq<DeviceModel>,
)
    ensures
        forall|i: int|
            #![trigger updated_spec(descs, sup, insts)[i]]
            0 <= i < updated_spec(descs, sup, insts).len() ==> of_some_instance(
                updated_spec(descs, sup, insts)[i],
                insts,
            ),
    decreases insts.len(),
{
    if insts.len() > 0 {
        let pre = insts.drop_last();
        let rest = updated_spec(descs, sup, pre);
        lemma_updated_descriptions(descs, sup, pre);
        let inst = insts.last();
        let n = insts.len() - 1;
        let j = first_described(descs, inst.eoj);
        assert(insts[n] == inst);
        assert forall|i: int|
            #![trigger updated_spec(descs, sup, insts)[i]]
            0 <= i < updated_spec(descs, sup, insts).len() implies of_some_instance(
                updated_spec(descs, sup, insts)[i],
                insts,
            ) by {
            let r = updated_spec(descs, sup, insts);
            let key = adjust_spec(inst, descs[j], sup).0;
            let d = adjust_spec(inst, descs[j], sup).1;
            let q = index_of_key(rest, key);
            lemma_index_of_key_spec(rest, key);
            let hit = j >= 0 && ((q >= 0 && i == q) || (q < 0 && i == rest.len()));
            if j >= 0 {
                lemma_adjusted_props(descs[j].properties + sup.properties, instance_epcs(inst));
                assert(r == map_insert(rest, key, d));
            } else {
                assert(r == rest);
            }
            if hit {
                assert(r[i] == (key, d));
                assert(describes_instance(r[i], insts[n]));
            } else {
                assert(r[i] == rest[i]);
                assert(0 <= i < rest.len());
                assert(of_some_instance(rest[i], pre));
                let x = choose|x: int| 0 <= x < pre.len() && #[trigger] describes_instance(rest[i], pre[x]);
                assert(insts[x] == pre[x]);
                assert(describes_instance(r[i], insts[x]));
            }
        }
    } else {
        assert(updated_spec(descs, sup, insts).len() == 0);
    }
}

/// The properties of an adjusted description have distinct names, and each is one
/// whose EPC the instance offers.
pub proof fn lemma_adjusted_props(all: Seq<(Seq<char>, PropertyView)>, epcs: Seq<Seq<char>>)
    ensures
        keys_of(adjusted_props(all, epcs)).no_duplicates(),
        forall|i: int|
            0 <= i < adjusted_props(all, epcs).len() ==> epcs.contains(
                (#[trigger] adjusted_props(all, epcs)[i]).1.epc,
            ),
    decreases all.len(),
{
    if all.len() == 0 {
        assert(keys_of(adjusted_props(all, epcs)) =~= Seq::<Seq<char>>::empty());
    } else {
        let rest = adjusted_props(all.drop_last(), epcs);
        lemma_adjusted_props(all.drop_last(), epcs);
        let p = all.last();
        if epcs.contains(p.1.epc) {
            lemma_map_insert(rest, p.0, p.1);
            let r = map_insert(rest, p.0, p.1);
            assert forall|i: int| 0 <= i < r.len() implies epcs.contains((#[trigger] r[i]).1.epc) by {
                if i < rest.len() && rest[i].0 != p.0 {
                    assert(r[i] == rest[i]);
                } else {
                    lemma_index_of_key_spec(rest, p.0);
                    if i < rest.len() {
                        assert(keys_of(rest)[i] == p.0);
                        assert(index_of_key(rest, p.0) >= 0);
                        assert(index_of_key(rest, p.0) == i) by {
                            if index_of_key(rest, p.0) != i {
                                assert(keys_of(rest)[index_of_key(rest, p.0)] == p.0);
                            }
                        }
                    }
                    assert(r[i] == (p.0, p.1));
                }
            }
        }
    }
}

/// Whether [`fuse_them`] can be given these descriptions and this information:
/// no property pairs its schema with information of a kind that cannot be fused
/// with it (see [`fusable`]).
pub fn all_fusable(descriptions: &Vec<DeviceDescription>, ais: &Ais) -> (r: bool)
    ensures
        r == fusable(descriptions_view(descriptions@), ais_view(*ais)),
{
    let ghost dv = descriptions_view(descriptions@);
    let ghost aisv = ais_view(*ais);
    let mut i: usize = 0;
    while i < descriptions.len()
        invariant
            i <= descriptions.len(),
            dv == descriptions_view(descriptions@),
            aisv == ais_view(*ais),
            forall|i2: int, k: int|
                0 <= i2 < i && 0 <= k < dv[i2].properties.len() ==> #[trigger] member_converter(
                    dv[i2].properties[k].1.schema,
                    prop_ai(class_ai(aisv, dv[i2].eoj), dv[i2].properties[k].1.epc),
                ) is Some,
        decreases descriptions.len() - i,
    {
        let dd = &descriptions[i];
        assert(dd@ == dv[i as int]);
        let dd_ais = ais.properties(dd.eoj.as_str());
        proof {
            lemma_index_of_key_spec(aisv, dd@.eoj);
            match dd_ais {
                Some(l) => {
                    let j = choose|j: int|
                        0 <= j < ais.entries@.len() && ais.entries@[j].eoj@ == dd.eoj@ && *l
                            == ais.entries@[j].ai && forall|q: int|
                            0 <= q < j ==> (#[trigger] ais.entries@[q]).eoj@ != dd.eoj@;
                    assert forall|q: int| 0 <= q < j implies aisv[q].0 != dd@.eoj by {
                        assert(ais.entries@[q].eoj@ != dd.eoj@);
                    }
                    lemma_index_of_key_first(aisv, dd@.eoj, j);
                },
                None => {
                    assert forall|q: int| 0 <= q < aisv.len() implies aisv[q].0 != dd@.eoj by {
                        assert(ais.entries@[q].eoj@ != dd.eoj@);
                    }
                    lemma_index_of_key_absent(aisv, dd@.eoj);
                },
            }
        }
        let ghost cls = class_ai(aisv, dd@.eoj);
        let mut k: usize = 0;
        while k < dd.properties.len()
            invariant
                k <= dd.properties.len(),
                i < dv.len(),
                dv == descriptions_view(descriptions@),
                aisv == ais_view(*ais),
                dd@ == dv[i as int],
                cls == class_ai(aisv, dd@.eoj),
                dd_ais matches Some(l) ==> cls == Some(ai_list_view(l@)),
                dd_ais is None ==> cls is None,
                forall|k2: int|
                    0 <= k2 < k ==> #[trigger] member_converter(
                        dd@.properties[k2].1.schema,
                        prop_ai(cls, dd@.properties[k2].1.epc),
                    ) is Some,
            decreases dd.properties.len() - k,
        {
            let prop = &dd.properties[k].1;
            assert(dd@.properties[k as int].1 == prop@);
            match get_ai(prop.epc.as_str(), dd_ais) {
                Some(ai) => {
                    proof {
                        let l = dd_ais->0;
                        let lv = ai_list_view(l@);
                        let j = index_of_key(lv, prop.epc@);
                        lemma_index_of_key_spec(lv, prop.epc@);
                        assert(lv[j].1 == l@[j].info.model());
                        assert(prop_ai(cls, prop.epc@) == Some(ai.model()));
                    }
                    if try_fuse(&prop.schema, ai).is_none() {
                        assert(!(member_converter(
                            dv[i as int].properties[k as int].1.schema,
                            prop_ai(class_ai(aisv, dv[i as int].eoj), dv[i as int].properties[k as int].1.epc),
                        ) is Some));
                        return false;
                    }
                },
                None => {
                    assert(prop_ai(cls, prop.epc@) is None);
                },
            }
            k = k + 1;
        }
        assert forall|i2: int, k2: int|
            0 <= i2 < i + 1 && 0 <= k2 < dv[i2].properties.len() implies #[trigger] member_converter(
                dv[i2].properties[k2].1.schema,
                prop_ai(class_ai(aisv, dv[i2].eoj), dv[i2].properties[k2].1.epc),
            ) is Some by {
            if i2 == i {
                assert(member_converter(
                    dd@.properties[k2].1.schema,
                    prop_ai(cls, dd@.properties[k2].1.epc),
                ) is Some);
            }
        }
        i = i + 1;
    }
    true
}

/// The properties listed under class `k`.
pub open spec fn lookup_class(m: Seq<(Seq<char>, Seq<PropertyModel>)>, k: Seq<char>) -> Seq<PropertyModel> {
    m[index_of_key(m, k)].1
}

/// The class of an object: its first six bytes (`0x` and four hex digits).
pub open spec fn class_key(eoj: Seq<char>) -> Seq<char> {
    byte_prefix(eoj, 6)
}

/// The instance that a scanned device becomes: its class's properties followed
/// by the common ones (class `0x00`), those it can read or write.
pub open spec fn instance_of(d: DeviceInfoView, m: Seq<(Seq<char>, Seq<PropertyModel>)>) -> DeviceModel {
    DeviceModel {
        host: d.host,
        eoj: d.eoj,
        properties: combined(lookup_class(m, class_key(d.eoj)) + lookup_class(m, "0x00"@), d.r, d.w),
    }
}


fn find_class(m: &Vec<(String, Vec<EchonetProperty>)>, k: &str) -> (r: Option<usize>)
    ensures
        match r {
            Some(i) => index_of_key(classes_view(m@), k@) == i as int && i < m@.len(),
            None => index_of_key(classes_view(m@), k@) == -1,
        },
{
    let ghost mv = classes_view(m@);
    let mut i: usize = 0;
    while i < m.len()
        invariant
            i <= m.len(),
            mv == classes_view(m@),
            forall|j: int| 0 <= j < i ==> mv[j].0 != k@,
        decreases m.len() - i,
    {
        if str_eq(m[i].0.as_str(), k) {
            proof {
                lemma_index_of_key_first(mv, k@, i as int);
            }
            return Some(i);
        }
        i = i + 1;
    }
    proof {
        lemma_index_of_key_absent(mv, k@);
    }
    None
}

fn append_copies(out: &mut Vec<EchonetProperty>, v: &Vec<EchonetProperty>)
    ensures
        props_view(final(out)@) == props_view(old(out)@) + props_view(v@),
{
    let ghost start = props_view(out@);
    let mut i: usize = 0;
    while i < v.len()
        invariant
            i <= v.len(),
            start == props_view(old(out)@),
            props_view(out@) == start + props_view(v@.take(i as int)),
        decreases v.len() - i,
    {
        let ghost before = props_view(out@);
        out.push(v[i].duplicate());
        assert(props_view(out@) =~= before.push(v@[i as int]@));
        assert(props_view(v@.take(i + 1)) =~= props_view(v@.take(i as int)).push(v@[i as int]@));
        i = i + 1;
    }
    assert(v@.take(v.len() as int) =~= v@);
}

/// The device instances of the scanned devices (see [`instance_of`]): every
/// device's class, and where there are devices the common class `0x00`, must
/// have properties.
pub fn instantiate_devices(devices: Vec<DeviceInfo>, prop_sets: Vec<(String, Vec<EchonetProperty>)>) -> (r: Vec<
    EchonetDevice,
>)
    requires
        forall|i: int|
            0 <= i < devices@.len() ==> is_byte_boundary((#[trigger] devices@[i]).eoj@, 6) && index_of_key(
                classes_view(prop_sets@),
                class_key(devices@[i].eoj@),
            ) >= 0,
        devices@.len() > 0 ==> index_of_key(classes_view(prop_sets@), "0x00"@) >= 0,
    ensures
        r@.map_values(|d: EchonetDevice| d@) == devices@.map_values(
            |d: DeviceInfo| instance_of(d@, classes_view(prop_sets@)),
        ),
{
    let ghost m = classes_view(prop_sets@);
    let ghost ds = devices@;
    let n = devices.len();
    let mut rev = reverse_vec(devices);
    let mut out: Vec<EchonetDevice> = Vec::new();
    let mut i: usize = 0;
    let common = "0x00";
    let found_common = find_class(&prop_sets, common);
    let ci = match found_common {
        Some(c) => c,
        None => {
            assert(out@.map_values(|d: EchonetDevice| d@) =~= ds.map_values(
                |d: DeviceInfo| instance_of(d@, m),
            ));
            return out;
        },
    };
    proof {
        lemma_index_of_key_spec(m, "0x00"@);
    }
    while i < n
        invariant
            i <= n,
            n == ds.len(),
            m == classes_view(prop_sets@),
            ci < prop_sets@.len(),
            index_of_key(m, "0x00"@) == ci,
            forall|k: int|
                0 <= k < ds.len() ==> is_byte_boundary((#[trigger] ds[k]).eoj@, 6) && index_of_key(
                    m,
                    class_key(ds[k].eoj@),
                ) >= 0,
            rev@.len() == n - i,
            forall|k: int| 0 <= k < n - i ==> #[trigger] rev@[k] == ds[n - 1 - k],
            out@.len() == i,
            forall|k: int| 0 <= k < i ==> (#[trigger] out@[k])@ == instance_of(ds[k]@, m),
        decreases n - i,
    {
        let d = rev.pop().unwrap();
        assert(d == ds[i as int]);
        let (key, _) = split_at_byte(d.eoj.as_str(), 6);
        let idx = match find_class(&prop_sets, key) {
            Some(x) => x,
            None => {
                assert(false);
                return out;
            },
        };
        let mut props: Vec<EchonetProperty> = Vec::new();
        append_copies(&mut props, &prop_sets[idx].1);
        append_copies(&mut props, &prop_sets[ci].1);
        proof {
            assert(props_view(props@) =~= lookup_class(m, class_key(d.eoj@)) + lookup_class(m, "0x00"@));
        }
        let dev = EchonetDevice::combine(d, props);
        out.push(dev);
        i = i + 1;
    }
    assert(out@.map_values(|d: EchonetDevice| d@) =~= ds.map_values(|d: DeviceInfo| instance_of(d@, m)));
    out
}

/// The named properties, in order, whose EPC the instance offers; a later
/// property of the same name replaces an earlier one in place.
pub open spec fn adjusted_props(all: Seq<(Seq<char>, PropertyView)>, epcs: Seq<Seq<char>>) -> Seq<
    (Seq<char>, PropertyView),
>
    decreases all.len(),
{
    if all.len() == 0 {
        Seq::empty()
    } else {
        let rest = adjusted_props(all.drop_last(), epcs);
        let p = all.last();
        if epcs.contains(p.1.epc) {
            map_insert(rest, p.0, p.1)
        } else {
            rest
        }
    }
}

/// The EPCs of an instance's properties.
pub open spec fn instance_epcs(d: DeviceModel) -> Seq<Seq<char>> {
    d.properties.map_values(|p: PropertyModel| p.epc)
}

/// The description of an instance: its class's description with the class's and
/// the common properties that the instance offers, and the instance's object;
/// keyed by `host:eoj`.
pub open spec fn adjust_spec(inst: DeviceModel, desc: DescriptionView, sup: DescriptionView) -> (
    Seq<char>,
    DescriptionView,
) {
    (
        inst.host + ":"@ + inst.eoj,
        DescriptionView {
            eoj: inst.eoj,
            properties: adjusted_props(desc.properties + sup.properties, instance_epcs(inst)),
            ..desc
        },
    )
}

fn has_epc(instance: &EchonetDevice, epc: &str) -> (r: bool)
    ensures
        r == instance_epcs(instance@).contains(epc@),
{
    let ghost es = instance_epcs(instance@);
    let mut i: usize = 0;
    while i < instance.properties.len()
        invariant
            i <= instance.properties.len(),
            es == instance_epcs(instance@),
            forall|j: int| 0 <= j < i ==> es[j] != epc@,
        decreases instance.properties.len() - i,
    {
        if str_eq(instance.properties[i].epc.as_str(), epc) {
            assert(es[i as int] == epc@);
            return true;
        }
        i = i + 1;
    }
    false
}

fn insert_property(
    m: &mut Vec<(String, crate::descriptions::DeviceProperty)>,
    k: String,
    v: crate::descriptions::DeviceProperty,
)
    ensures
        properties_view(final(m)@) == map_insert(properties_view(old(m)@), k@, v@),
{
    let ghost pv = properties_view(m@);
    let mut i: usize = 0;
    while i < m.len()
        invariant
            i <= m.len(),
            pv == properties_view(m@),
            pv == properties_view(old(m)@),
            forall|j: int| 0 <= j < i ==> pv[j].0 != k@,
        decreases m.len() - i,
    {
        if str_eq(m[i].0.as_str(), k.as_str()) {
            proof {
                lemma_index_of_key_first(pv, k@, i as int);
            }
            let ghost kv = k@;
            let ghost vv = v@;
            m.set(i, (k, v));
            assert(properties_view(m@) =~= pv.update(i as int, (kv, vv)));
            return;
        }
        i = i + 1;
    }
    proof {
        lemma_index_of_key_absent(pv, k@);
    }
    let ghost kv = k@;
    let ghost vv = v@;
    m.push((k, v));
    assert(properties_view(m@) =~= pv.push((kv, vv)));
}

/// The description of an instance (see [`adjust_spec`]).
pub fn adjust(instance: &EchonetDevice, description: &DeviceDescription, superclass_dd: &DeviceDescription) -> (r: (
    String,
    DeviceDescription,
))
    ensures
        (r.0@, r.1@) == adjust_spec(instance@, description@, superclass_dd@),
{
    let mut all = crate::descriptions::dup_properties(&description.properties);
    let mut more = crate::descriptions::dup_properties(&superclass_dd.properties);
    all.append(&mut more);
    let ghost av = properties_view(all@);
    assert(av =~= description@.properties + superclass_dd@.properties);
    let ghost epcs = instance_epcs(instance@);
    let n = all.len();
    let mut rev = reverse_vec(all);
    let mut kept: Vec<(String, crate::descriptions::DeviceProperty)> = Vec::new();
    let mut i: usize = 0;
    assert(av.take(0) =~= Seq::<(Seq<char>, PropertyView)>::empty());
    assert(properties_view(kept@) =~= Seq::<(Seq<char>, PropertyView)>::empty());
    while i < n
        invariant
            i <= n,
            n == av.len(),
            epcs == instance_epcs(instance@),
            rev@.len() == n - i,
            forall|k: int| 0 <= k < n - i ==> (#[trigger] rev@[k]).0@ == av[n - 1 - k].0 && rev@[k].1@ == av[n - 1 - k].1,
            properties_view(kept@) == adjusted_props(av.take(i as int), epcs),
        decreases n - i,
    {
        let ghost before_rev = rev@;
        let (name, prop) = rev.pop().unwrap();
        proof {
            assert(before_rev[n - i - 1] == (name, prop));
            let pre = av.take(i + 1);
            assert(pre.drop_last() =~= av.take(i as int));
            assert(pre.last() == av[i as int]);
        }
        if has_epc(instance, prop.epc.as_str()) {
            insert_property(&mut kept, name, prop);
        }
        i = i + 1;
    }
    assert(av.take(n as int) =~= av);
    let adjusted = DeviceDescription {
        device_type: description.device_type.clone(),
        eoj: instance.eoj.clone(),
        descriptions: description.descriptions.duplicate(),
        properties: kept,
    };
    (instance.hosteoj(), adjusted)
}

/// Position of the first description whose object the instance's object starts
/// with, or -1.
pub open spec fn first_described(descs: Seq<DescriptionView>, eoj: Seq<char>) -> int
    decreases descs.len(),
{
    if descs.len() == 0 {
        -1
    } else {
        let j = first_described(descs.drop_last(), eoj);
        if j >= 0 {
            j
        } else if is_prefix(descs.last().eoj, eoj) {
            descs.len() - 1
        } else {
            -1
        }
    }
}

/// The descriptions of the instances that a description covers, keyed by
/// `host:eoj`; a later instance with the same key replaces an earlier one.
pub open spec fn updated_spec(descs: Seq<DescriptionView>, sup: DescriptionView, insts: Seq<DeviceModel>) -> Seq<
    (Seq<char>, DescriptionView),
>
    decreases insts.len(),
{
    if insts.len() == 0 {
        Seq::empty()
    } else {
        let rest = updated_spec(descs, sup, insts.drop_last());
        let inst = insts.last();
        let j = first_described(descs, inst.eoj);
        if j >= 0 {
            let (k, d) = adjust_spec(inst, descs[j], sup);
            map_insert(rest, k, d)
        } else {
            rest
        }
    }
}

/// Keyed descriptions as views.
pub open spec fn keyed_view(v: Seq<(String, DeviceDescription)>) -> Seq<(Seq<char>, DescriptionView)> {
    v.map_values(|p: (String, DeviceDescription)| (p.0@, p.1@))
}

fn find_described(descs: &Vec<DeviceDescription>, eoj: &str) -> (r: Option<usize>)
    ensures
        match r {
            Some(j) => first_described(descriptions_view(descs@), eoj@) == j as int && j < descs@.len(),
            None => first_described(descriptions_view(descs@), eoj@) == -1,
        },
{
    let ghost dv = descriptions_view(descs@);
    let mut i: usize = 0;
    while i < descs.len()
        invariant
            i <= descs.len(),
            dv == descriptions_view(descs@),
            first_described(dv.take(i as int), eoj@) == -1,
        decreases descs.len() - i,
    {
        proof {
            let pre = dv.take(i + 1);
            assert(pre.drop_last() =~= dv.take(i as int));
        }
        if starts_with(eoj, descs[i].eoj.as_str()) {
            proof {
                let pre = dv.take(i + 1);
                assert(pre.drop_last() =~= dv.take(i as int));
                assert(pre.last() == dv[i as int]);
                assert(first_described(pre, eoj@) == i);
                lemma_first_described_prefix(dv, i as int + 1, dv.len() as int, eoj@);
                assert(dv.take(dv.len() as int) =~= dv);
            }
            return Some(i);
        }
        i = i + 1;
    }
    assert(dv.take(descs.len() as int) =~= dv);
    None
}

proof fn lemma_first_described_prefix(dv: Seq<DescriptionView>, a: int, b: int, e: Seq<char>)
    requires
        0 <= a <= b <= dv.len(),
        first_described(dv.take(a), e) >= 0,
    ensures
        first_described(dv.take(b), e) == first_described(dv.take(a), e),
    decreases b - a,
{
    if a < b {
        lemma_first_described_prefix(dv, a, b - 1, e);
        assert(dv.take(b).drop_last() =~= dv.take(b - 1));
    }
}

fn insert_keyed(m: &mut Vec<(String, DeviceDescription)>, k: String, v: DeviceDescription)
    ensures
        keyed_view(final(m)@) == map_insert(keyed_view(old(m)@), k@, v@),
{
    let ghost pv = keyed_view(m@);
    let mut i: usize = 0;
    while i < m.len()
        invariant
            i <= m.len(),
            pv == keyed_view(m@),
            pv == keyed_view(old(m)@),
            forall|j: int| 0 <= j < i ==> pv[j].0 != k@,
        decreases m.len() - i,
    {
        if str_eq(m[i].0.as_str(), k.as_str()) {
            proof {
                lemma_index_of_key_first(pv, k@, i as int);
            }
            let ghost kv = k@;
            let ghost vv = v@;
            m.set(i, (k, v));
            assert(keyed_view(m@) =~= pv.update(i as int, (kv, vv)));
            return;
        }
        i = i + 1;
    }
    proof {
        lemma_index_of_key_absent(pv, k@);
    }
    let ghost kv = k@;
    let ghost vv = v@;
    m.push((k, v));
    assert(keyed_view(m@) =~= pv.push((kv, vv)));
}

/// The descriptions of the instances, each from the first description whose
/// object the instance's object starts with (see [`updated_spec`]).
pub fn generate_updated_device_descriptions(
    descriptions: Vec<DeviceDescription>,
    superclass_dd: DeviceDescription,
    instances: &[EchonetDevice],
) -> (r: Vec<(String, DeviceDescription)>)
    ensures
        keyed_view(r@) == updated_spec(
            descriptions_view(descriptions@),
            superclass_dd@,
            instances@.map_values(|d: EchonetDevice| d@),
        ),
{
    let ghost dv = descriptions_view(descriptions@);
    let ghost iv = instances@.map_values(|d: EchonetDevice| d@);
    let mut out: Vec<(String, DeviceDescription)> = Vec::new();
    let mut i: usize = 0;
    assert(iv.take(0) =~= Seq::<DeviceModel>::empty());
    assert(keyed_view(out@) =~= Seq::<(Seq<char>, DescriptionView)>::empty());
    while i < instances.len()
        invariant
            i <= instances@.len(),
            dv == descriptions_view(descriptions@),
            iv == instances@.map_values(|d: EchonetDevice| d@),
            keyed_view(out@) == updated_spec(dv, superclass_dd@, iv.take(i as int)),
        decreases instances@.len() - i,
    {
        let inst = &instances[i];
        proof {
            let pre = iv.take(i + 1);
            assert(pre.drop_last() =~= iv.take(i as int));
            assert(pre.last() == inst@);
        }
        match find_described(&descriptions, inst.eoj.as_str()) {
            Some(j) => {
                let (k, d) = adjust(inst, &descriptions[j], &superclass_dd);
                insert_keyed(&mut out, k, d);
            },
            None => {},
        }
        i = i + 1;
    }
    assert(iv.take(instances@.len() as int) =~= iv);
    out
}

/// The classes of the descriptions: each object without its `0x` (its first two
/// bytes), each once.
pub fn available_classes(descs: &Vec<DeviceDescription>) -> (r: Vec<String>)
    requires
        forall|i: int| 0 <= i < descs@.len() ==> is_byte_boundary((#[trigger] descs@[i]).eoj@, 2),
    ensures
        texts(r@).no_duplicates(),
        forall|x: Seq<char>|
            texts(r@).contains(x) <==> exists|i: int|
                0 <= i < descs@.len() && x == byte_suffix((#[trigger] descs@[i]).eoj@, 2),
{
    let mut all: Vec<String> = Vec::new();
    let mut i: usize = 0;
    while i < descs.len()
        invariant
            i <= descs.len(),
            forall|k: int| 0 <= k < descs@.len() ==> is_byte_boundary((#[trigger] descs@[k]).eoj@, 2),
            all@.len() == i,
            forall|k: int| 0 <= k < i ==> (#[trigger] all@[k])@ == byte_suffix(descs@[k].eoj@, 2),
        decreases descs.len() - i,
    {
        let (_, class) = split_at_byte(descs[i].eoj.as_str(), 2);
        all.push(owned(class));
        i = i + 1;
    }
    let r = crate::lineproto::dedup_strings(&all);
    proof {
        assert forall|x: Seq<char>|
            texts(all@).contains(x) <==> exists|i: int|
                0 <= i < descs@.len() && x == byte_suffix((#[trigger] descs@[i]).eoj@, 2) by {
            if texts(all@).contains(x) {
                let k = choose|k: int| 0 <= k < texts(all@).len() && #[trigger] texts(all@)[k] == x;
                assert(all@[k]@ == x);
            }
            if exists|i: int| 0 <= i < descs@.len() && x == byte_suffix((#[trigger] descs@[i]).eoj@, 2) {
                let k = choose|i: int| 0 <= i < descs@.len() && x == byte_suffix((#[trigger] descs@[i]).eoj@, 2);
                assert(texts(all@)[k] == x);
            }
        }
    }
    r
}

/// The descriptions of the classes to serve, in order, then the common description.
pub open spec fn select_spec(descs: Seq<DescriptionView>, classes: Seq<Seq<char>>) -> Seq<DescriptionView>
    decreases descs.len(),
{
    if descs.len() == 0 {
        Seq::empty()
    } else {
        let rest = select_spec(descs.drop_last(), classes);
        if classes.contains(descs.last().eoj) {
            rest.push(descs.last())
        } else {
            rest
        }
    }
}

/// The descriptions whose object is one of `classes`, followed by a copy of the
/// common description.
pub fn select_descriptions(
    available: Vec<DeviceDescription>,
    classes: &Vec<String>,
    superclass_dd: &DeviceDescription,
) -> (r: Vec<DeviceDescription>)
    ensures
        descriptions_view(r@) == select_spec(descriptions_view(available@), texts(classes@)).push(
            superclass_dd@,
        ),
{
    let ghost dv = descriptions_view(available@);
    let n = available.len();
    let mut rev = reverse_vec(available);
    let mut out: Vec<DeviceDescription> = Vec::new();
    let mut i: usize = 0;
    assert(dv.take(0) =~= Seq::<DescriptionView>::empty());
    assert(descriptions_view(out@) =~= Seq::<DescriptionView>::empty());
    while i < n
        invariant
            i <= n,
            n == dv.len(),
            rev@.len() == n - i,
            forall|k: int| 0 <= k < n - i ==> (#[trigger] rev@[k])@ == dv[n - 1 - k],
            descriptions_view(out@) == select_spec(dv.take(i as int), texts(classes@)),
        decreases n - i,
    {
        let d = rev.pop().unwrap();
        proof {
            let pre = dv.take(i + 1);
            assert(pre.drop_last() =~= dv.take(i as int));
            assert(pre.last() == d@);
        }
        if contains_string(classes, d.eoj.as_str()) {
            let ghost before = descriptions_view(out@);
            let ghost dd = d@;
            out.push(d);
            assert(descriptions_view(out@) =~= before.push(dd));
        }
        i = i + 1;
    }
    assert(dv.take(n as int) =~= dv);
    let ghost before = descriptions_view(out@);
    out.push(superclass_dd.duplicate());
    assert(descriptions_view(out@) =~= before.push(superclass_dd@));
    out
}

} // verus!
