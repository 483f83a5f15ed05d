//! The line protocol of the backend: one response per line,
//! `OK|NG:host:eoj:epc[,data]`, and what the device scans make of the responses.
use vstd::prelude::*;
use vstd::string::StrSliceExecFns;
use crate::converters::{
    index_of_key, keys_of, lemma_index_of_key_absent, lemma_index_of_key_first, lemma_index_of_key_spec,
    lemma_map_insert, map_insert,
};
use crate::echoinfo::{DeviceInfo, DeviceInfoView, DeviceProtocolInfo, ProtoView, unknown_proto};
use crate::hex::{self, hex_bytes, hex_digits, upper_digit};
use crate::text::{
    byte_prefix, byte_suffix, concat, concat3, is_byte_boundary, is_prefix, owned, split_at_byte,
    split_fields, split_fields_spec, starts_with, str_eq, texts, reverse_vec, lemma_push_contains, trim, trimmed,
};

verus! {

broadcast use vstd::string::group_string_axioms;

/// The status of a response.
#[derive(PartialEq, Eq, Debug, Structural, Clone, Copy)]
pub enum LineResult {
    OK,
    NG,
}

/// One response of the backend, its fields borrowed from the response line.
#[derive(Debug)]
pub struct LineResponse<'a> {
    pub result: LineResult,
    pub host: &'a str,
    pub eoj: &'a str,
    pub property: &'a str,
    pub data: Option<&'a str>,
}

/// A response, fields as character sequences.
pub struct LineView {
    pub result: LineResult,
    pub host: Seq<char>,
    pub eoj: Seq<char>,
    pub property: Seq<char>,
    pub data: Option<Seq<char>>,
}

impl<'a> View for LineResponse<'a> {
    type V = LineView;

    open spec fn view(&self) -> LineView {
        LineView {
            result: self.result,
            host: self.host@,
            eoj: self.eoj@,
            property: self.property@,
            data: match self.data {
                Some(d) => Some(d@),
                None => None,
            },
        }
    }
}

/// The response that a line holds: the line is trimmed and split at every `:`
/// and `,`; the first field must be `OK` or `NG`, three more (host, object,
/// property) must follow, and a fifth, if present, is the data.
pub open spec fn parse_line(s: Seq<char>) -> Option<LineView> {
    let parts = split_fields_spec(trimmed(s));
    let result = if parts[0] == seq!['O', 'K'] {
        Some(LineResult::OK)
    } else if parts[0] == seq!['N', 'G'] {
        Some(LineResult::NG)
    } else {
        None
    };
    match result {
        None => None,
        Some(res) => if parts.len() < 4 {
            None
        } else {
            Some(
                LineView {
                    result: res,
                    host: parts[1],
                    eoj: parts[2],
                    property: parts[3],
                    data: if parts.len() >= 5 {
                        Some(parts[4])
                    } else {
                        None
                    },
                },
            )
        },
    }
}

impl<'a> LineResponse<'a> {
    /// `host:0xeoj`, the identifier of the responding device.
    pub fn hosteoj(&self) -> (r: String)
        ensures
            r@ == self.host@ + ":0x"@ + self.eoj@,
    {
        concat3(self.host, ":0x", self.eoj)
    }

    /// The device class: `0x` and the first four bytes of the object.
    pub fn hexclass(&self) -> (r: String)
        requires
            is_byte_boundary(self.eoj@, 4),
        ensures
            r@ == "0x"@ + byte_prefix(self.eoj@, 4),
    {
        let (class, _) = split_at_byte(self.eoj, 4);
        concat("0x", class)
    }

    /// The object, `0x`-prefixed.
    pub fn eoj(&self) -> (r: String)
        ensures
            r@ == "0x"@ + self.eoj@,
    {
        concat("0x", self.eoj)
    }

    /// The host.
    pub fn host(&self) -> (r: String)
        ensures
            r@ == self.host@,
    {
        owned(self.host)
    }

    /// Whether the response reports success.
    pub fn is_ok(&self) -> (r: bool)
        ensures
            r == (self.result == LineResult::OK),
    {
        match self.result {
            LineResult::OK => true,
            LineResult::NG => false,
        }
    }

    /// Reads a response line; `Err` when it is not one.
    pub fn try_from(source: &'a str) -> (r: Result<LineResponse<'a>, ()>)
        ensures
            match r {
                Ok(l) => parse_line(source@) == Some(l@),
                Err(_) => parse_line(source@) is None,
            },
    {
        let line = trim(source);
        let parts = split_fields(line);
        let ghost ps = split_fields_spec(line@);
        proof {
            assert(parts@.map_values(|p: &str| p@) == ps);
            assert(ps.len() == parts@.len());
            assert forall|k: int| 0 <= k < parts@.len() implies (#[trigger] parts@[k])@ == ps[k] by {
                assert(parts@.map_values(|p: &str| p@)[k] == parts@[k]@);
            }
            lemma_split_nonempty(line@);
            assert(ps == split_fields_spec(trimmed(source@)));
        }
        let ok = "OK";
        let ng = "NG";
        proof {
            reveal_strlit("OK");
            reveal_strlit("NG");
            assert(ok@ =~= seq!['O', 'K']);
            assert(ng@ =~= seq!['N', 'G']);
        }
        let result = if str_eq(parts[0], ok) {
            LineResult::OK
        } else if str_eq(parts[0], ng) {
            LineResult::NG
        } else {
            return Err(());
        };
        if parts.len() < 4 {
            return Err(());
        }
        let data = if parts.len() >= 5 {
            Some(parts[4])
        } else {
            None
        };
        Ok(LineResponse { result, host: parts[1], eoj: parts[2], property: parts[3], data })
    }
}

proof fn lemma_split_nonempty(s: Seq<char>)
    ensures
        split_fields_spec(s).len() >= 1,
    decreases s.len(),
{
    if s.len() > 0 {
        lemma_split_nonempty(s.drop_last());
    }
}

/// Bit `i` of `b` is set.
pub open spec fn bit_set(b: u8, i: u8) -> bool {
    (b >> i) & 1 == 1
}

/// The property codes that bits `0..k` of byte `nth` of a binary property map
/// stand for: bit `i` of byte `nth` stands for `0x80 + nth + 0x10 * i`.
pub open spec fn byte_codes(nth: u8, b: u8, k: u8) -> Seq<u8>
    decreases k,
{
    if k == 0 {
        Seq::empty()
    } else {
        byte_codes(nth, b, (k - 1) as u8) + if bit_set(b, (k - 1) as u8) {
            seq![(0x80 + nth + 0x10 * (k - 1)) as u8]
        } else {
            Seq::empty()
        }
    }
}

/// The property codes of the bytes of a binary property map (the map without
/// its count byte), byte by byte.
pub open spec fn binary_codes(bytes: Seq<u8>) -> Seq<u8>
    decreases bytes.len(),
{
    if bytes.len() == 0 {
        Seq::empty()
    } else {
        binary_codes(bytes.drop_last()) + byte_codes((bytes.len() - 1) as u8, bytes.last(), 8)
    }
}

/// The property codes that a property map lists: below 16 properties the codes
/// follow the count byte as they are; from 16 on the map is a 16-byte bitmap.
pub open spec fn property_map_spec(pm: Seq<u8>) -> Option<Seq<u8>> {
    if pm.len() == 0 {
        None
    } else if pm[0] < 16 {
        Some(pm.skip(1))
    } else if pm.len() != 17 {
        None
    } else {
        Some(binary_codes(pm.skip(1)))
    }
}

/// The property codes that a property map lists (see [`property_map_spec`]).
pub fn parse_property_map(property_map: &[u8]) -> (r: Option<Vec<u8>>)
    ensures
        match r {
            Some(v) => property_map_spec(property_map@) == Some(v@),
            None => property_map_spec(property_map@) is None,
        },
{
    if property_map.len() == 0 {
        return None;
    }
    let howmany = property_map[0];
    if howmany < 16u8 {
        let rest = vstd::slice::slice_subrange(property_map, 1, property_map.len());
        assert(rest@ =~= property_map@.skip(1));
        Some(vstd::slice::slice_to_vec(rest))
    } else {
        parse_binary_map(property_map)
    }
}

fn parse_binary_map(property_map: &[u8]) -> (r: Option<Vec<u8>>)
    ensures
        match r {
            Some(v) => property_map@.len() == 17 && v@ == binary_codes(property_map@.skip(1)),
            None => property_map@.len() != 17,
        },
{
    if property_map.len() != 17 {
        return None;
    }
    let ghost bytes = property_map@.skip(1);
    let mut acc: Vec<u8> = Vec::new();
    let mut nth: usize = 0;
    assert(bytes.take(0) =~= Seq::<u8>::empty());
    while nth < 16
        invariant
            nth <= 16,
            property_map@.len() == 17,
            bytes == property_map@.skip(1),
            acc@ == binary_codes(bytes.take(nth as int)),
        decreases 16 - nth,
    {
        let byte = property_map[nth + 1];
        let ghost base = acc@;
        let mut i: u8 = 0;
        assert(byte_codes(nth as u8, byte, 0) =~= Seq::<u8>::empty());
        assert(base + byte_codes(nth as u8, byte, 0) =~= base);
        while i < 8
            invariant
                i <= 8,
                nth < 16,
                acc@ == base + byte_codes(nth as u8, byte, i),
            decreases 8 - i,
        {
            proof {
                assert(i < 8 ==> ((byte & (1u8 << i)) != 0) == ((byte >> i) & 1 == 1)) by (bit_vector);
            }
            if byte & (1u8 << i) != 0 {
                acc.push(0x80u8 + (nth as u8) + (0x10u8 * i));
            }
            assert(acc@ =~= base + byte_codes(nth as u8, byte, (i + 1) as u8));
            i = i + 1;
        }
        proof {
            let pre = bytes.take(nth + 1);
            assert(pre.drop_last() =~= bytes.take(nth as int));
            assert(pre.last() == byte);
            assert(acc@ =~= binary_codes(pre));
        }
        nth = nth + 1;
    }
    assert(bytes.take(16) =~= bytes);
    Some(acc)
}

/// `0x` and a property code as two upper-case hex digits, right-aligned in a
/// field of two (`0x 5` for a code below 16).
pub open spec fn epc_text(b: u8) -> Seq<char> {
    if b < 16 {
        seq!['0', 'x', ' ', upper_digit(b as nat)]
    } else {
        seq!['0', 'x', upper_digit(b as nat / 16), upper_digit(b as nat % 16)]
    }
}

/// A property code written as [`epc_text`].
pub fn epc_string(b: u8) -> (r: String)
    ensures
        r@ == epc_text(b),
{
    proof {
        reveal_strlit("0x ");
        reveal_strlit("0x");
    }
    if b < 16 {
        concat("0x ", hex::upper_digit_str(b))
    } else {
        concat3("0x", hex::upper_digit_str(b / 16), hex::upper_digit_str(b % 16))
    }
}

/// The identifier under which a response's device is collected: `host:0xeoj`.
pub open spec fn device_key(l: LineView) -> Seq<char> {
    l.host + ":0x"@ + l.eoj
}

/// The collected devices after one more response: a successful response with
/// data registers its device (if new) and, when the data is a property map of
/// the get (`0x9F`) or set (`0x9E`) map, appends the listed codes to the
/// device's readable or writable properties.
pub open spec fn devices_step(acc: Seq<(Seq<char>, DeviceInfoView)>, l: LineView) -> Seq<
    (Seq<char>, DeviceInfoView),
> {
    if l.result == LineResult::NG || l.data is None {
        acc
    } else {
        let key = device_key(l);
        let j = index_of_key(acc, key);
        let acc1 = if j >= 0 {
            acc
        } else {
            acc.push(
                (
                    key,
                    DeviceInfoView {
                        host: l.host,
                        eoj: "0x"@ + l.eoj,
                        r: Seq::empty(),
                        w: Seq::empty(),
                    },
                ),
            )
        };
        let idx = if j >= 0 {
            j
        } else {
            acc.len() as int
        };
        match hex_digits(l.data->0) {
            None => acc1,
            Some(d) => match property_map_spec(hex_bytes(d)) {
                None => acc1,
                Some(props) => {
                    let texts = props.map_values(|b: u8| epc_text(b));
                    let e = acc1[idx].1;
                    if l.property == "0x9F"@ {
                        acc1.update(idx, (key, DeviceInfoView { r: e.r + texts, ..e }))
                    } else if l.property == "0x9E"@ {
                        acc1.update(idx, (key, DeviceInfoView { w: e.w + texts, ..e }))
                    } else {
                        acc1
                    }
                },
            },
        }
    }
}

/// The devices collected from a sequence of responses, in order of first appearance.
pub open spec fn devices_spec(ls: Seq<LineView>) -> Seq<(Seq<char>, DeviceInfoView)>
    decreases ls.len(),
{
    if ls.len() == 0 {
        Seq::empty()
    } else {
        devices_step(devices_spec(ls.drop_last()), ls.last())
    }
}

/// The devices that scan responses describe are keyed by distinct identifiers,
/// each the device's `host:eoj`.
pub proof fn lemma_devices_keys(ls: Seq<LineView>)
    ensures
        keys_of(devices_spec(ls)).no_duplicates(),
        forall|i: int|
            0 <= i < devices_spec(ls).len() ==> (#[trigger] devices_spec(ls)[i]).0 == devices_spec(ls)[i].1.host
                + ":"@ + devices_spec(ls)[i].1.eoj,
    decreases ls.len(),
{
    let r = devices_spec(ls);
    if ls.len() == 0 {
        assert(keys_of(r) =~= Seq::<Seq<char>>::empty());
    } else {
        let acc = devices_spec(ls.drop_last());
        let l = ls.last();
        lemma_devices_keys(ls.drop_last());
        assert(r == devices_step(acc, l));
        if !(l.result == LineResult::NG || l.data is None) {
            let key = device_key(l);
            let j = index_of_key(acc, key);
            lemma_index_of_key_spec(acc, key);
            let entry = DeviceInfoView { host: l.host, eoj: "0x"@ + l.eoj, r: Seq::empty(), w: Seq::empty() };
            let acc1 = if j >= 0 {
                acc
            } else {
                acc.push((key, entry))
            };
            let idx = if j >= 0 {
                j
            } else {
                acc.len() as int
            };
            reveal_strlit(":0x");
            reveal_strlit(":");
            reveal_strlit("0x");
            assert(key =~= l.host + ":"@ + ("0x"@ + l.eoj));
            if j < 0 {
                lemma_map_insert(acc, key, entry);
                assert(map_insert(acc, key, entry) == acc1);
            }
            assert(keys_of(acc1).no_duplicates());
            assert(forall|i: int|
                0 <= i < acc1.len() ==> (#[trigger] acc1[i]).0 == acc1[i].1.host + ":"@ + acc1[i].1.eoj);
            assert(acc1[idx].0 == key);
            if let Some(d) = hex_digits(l.data->0) {
                if let Some(props) = property_map_spec(hex_bytes(d)) {
                    let txt = props.map_values(|b: u8| epc_text(b));
                    let e = acc1[idx].1;
                    let u1 = acc1.update(idx, (key, DeviceInfoView { r: e.r + txt, ..e }));
                    let u2 = acc1.update(idx, (key, DeviceInfoView { w: e.w + txt, ..e }));
                    assert(keys_of(u1) =~= keys_of(acc1));
                    assert(keys_of(u2) =~= keys_of(acc1));
                }
            }
        }
    }
}

/// Collected devices with their entries as views.
pub open spec fn devices_view(v: Seq<(String, DeviceInfo)>) -> Seq<(Seq<char>, DeviceInfoView)> {
    v.map_values(|p: (String, DeviceInfo)| (p.0@, p.1@))
}

/// Responses as views.
pub open spec fn lines_view<'a>(v: Seq<LineResponse<'a>>) -> Seq<LineView> {
    v.map_values(|l: LineResponse<'a>| l@)
}

fn append_texts(v: &mut Vec<String>, codes: &Vec<u8>)
    ensures
        texts(final(v)@) == texts(old(v)@) + codes@.map_values(
            |b: u8| epc_text(b),
        ),
{
    let ghost start = texts(old(v)@);
    let mut i: usize = 0;
    while i < codes.len()
        invariant
            i <= codes.len(),
            start == texts(old(v)@),
            texts(v@) == start + codes@.take(i as int).map_values(
                |b: u8| epc_text(b),
            ),
        decreases codes.len() - i,
    {
        let ghost before = texts(v@);
        v.push(epc_string(codes[i]));
        assert(texts(v@) =~= before.push(epc_text(codes@[i as int])));
        assert(codes@.take(i + 1).map_values(|b: u8| epc_text(b)) =~= codes@.take(i as int).map_values(
            |b: u8| epc_text(b),
        ).push(epc_text(codes@[i as int])));
        i = i + 1;
    }
    assert(codes@.take(codes.len() as int) =~= codes@);
}

fn find_device(out: &Vec<(String, DeviceInfo)>, key: &str) -> (r: Option<usize>)
    ensures
        match r {
            Some(i) => index_of_key(devices_view(out@), key@) == i as int,
            None => index_of_key(devices_view(out@), key@) == -1,
        },
{
    let ghost mv = devices_view(out@);
    let mut i: usize = 0;
    while i < out.len()
        invariant
            i <= out.len(),
            mv == devices_view(out@),
            forall|j: int| 0 <= j < i ==> mv[j].0 != key@,
        decreases out.len() - i,
    {
        if str_eq(out[i].0.as_str(), key) {
            proof {
                lemma_index_of_key_first(mv, key@, i as int);
            }
            return Some(i);
        }
        i = i + 1;
    }
    proof {
        lemma_index_of_key_absent(mv, key@);
    }
    None
}

/// The devices that scan responses describe, each with the properties that its
/// property maps list (see [`devices_spec`]); keyed by `host:0xeoj`.
pub fn generate_devices<'a>(parsed: Vec<LineResponse<'a>>) -> (r: Vec<(String, DeviceInfo)>)
    ensures
        devices_view(r@) == devices_spec(lines_view(parsed@)),
{
    let ghost ls = lines_view(parsed@);
    let mut out: Vec<(String, DeviceInfo)> = Vec::new();
    let mut i: usize = 0;
    proof {
        reveal_strlit("0x9F");
        reveal_strlit("0x9E");
    }
    assert(ls.take(0) =~= Seq::<LineView>::empty());
    assert(devices_view(out@) =~= Seq::<(Seq<char>, DeviceInfoView)>::empty());
    while i < parsed.len()
        invariant
            i <= parsed.len(),
            ls == lines_view(parsed@),
            devices_view(out@) == devices_spec(ls.take(i as int)),
        decreases parsed.len() - i,
    {
        let resp = &parsed[i];
        let ghost acc = devices_view(out@);
        proof {
            let pre = ls.take(i + 1);
            assert(pre.drop_last() =~= ls.take(i as int));
            assert(pre.last() == resp@);
            assert(devices_spec(ls.take(i + 1)) == devices_step(acc, resp@));
        }
        if resp.result == LineResult::NG || resp.data.is_none() {
            i = i + 1;
            continue;
        }
        let key = resp.hosteoj();
        let found = find_device(&out, key.as_str());
        proof {
            lemma_index_of_key_spec(acc, key@);
        }
        let idx = match found {
            Some(j) => j,
            None => {
                let entry = DeviceInfo::new(resp.host(), resp.eoj());
                proof {
                    assert(entry@.r =~= Seq::<Seq<char>>::empty());
                    assert(entry@.w =~= Seq::<Seq<char>>::empty());
                    assert(entry@ == DeviceInfoView {
                        host: resp@.host,
                        eoj: "0x"@ + resp@.eoj,
                        r: Seq::empty(),
                        w: Seq::empty(),
                    });
                    assert(key@ == device_key(resp@));
                }
                out.push((key, entry));
                assert(devices_view(out@) =~= acc.push(
                    (
                        device_key(resp@),
                        DeviceInfoView {
                            host: resp@.host,
                            eoj: "0x"@ + resp@.eoj,
                            r: Seq::empty(),
                            w: Seq::empty(),
                        },
                    ),
                ));
                out.len() - 1
            },
        };
        let ghost acc1 = devices_view(out@);
        let data = match resp.data {
            Some(d) => d,
            None => {
                i = i + 1;
                continue;
            },
        };
        let props_u8 = match hex::to_bytes(data) {
            Some(b) => b,
            None => {
                i = i + 1;
                continue;
            },
        };
        let props = match parse_property_map(props_u8.as_slice()) {
            Some(p) => p,
            None => {
                i = i + 1;
                continue;
            },
        };
        let is_get = str_eq(resp.property, "0x9F");
        let is_set = str_eq(resp.property, "0x9E");
        if is_get || is_set {
            let (k, mut info) = out.remove(idx);
            let ghost e = acc1[idx as int].1;
            assert(info@ == e);
            if is_get {
                append_texts(&mut info.r, &props);
            } else {
                append_texts(&mut info.w, &props);
            }
            out.insert(idx, (k, info));
            assert(devices_view(out@) =~= devices_step(acc, resp@));
        }
        i = i + 1;
    }
    assert(ls.take(parsed.len() as int) =~= ls);
    out
}

/// The data of a response line whose data can be cut after four bytes, as the
/// class scan does; other lines have nothing to cut.
pub open spec fn class_data_ok(line: Seq<char>) -> bool {
    parse_line(line) matches Some(l) ==> (l.data matches Some(d) ==> is_byte_boundary(d, 4))
}

/// The class digits that the responses to the node scan carry: the data of each
/// response after its first four bytes, all joined.
pub open spec fn class_chars(rs: Seq<Seq<char>>) -> Seq<char>
    decreases rs.len(),
{
    if rs.len() == 0 {
        Seq::empty()
    } else {
        class_chars(rs.drop_last()) + match parse_line(rs.last()) {
            Some(l) => match l.data {
                Some(d) => byte_suffix(d, 4),
                None => Seq::empty(),
            },
            None => Seq::empty(),
        }
    }
}

/// Chunk `m` of four characters (the last may be shorter).
pub open spec fn chunk_of(cs: Seq<char>, m: int) -> Seq<char> {
    cs.subrange(4 * m, if 4 * m + 4 <= cs.len() {
        4 * m + 4
    } else {
        cs.len() as int
    })
}

/// The chunks of four characters of `cs`.
pub open spec fn chunks4(cs: Seq<char>) -> Seq<Seq<char>> {
    Seq::new(((cs.len() + 3) / 4) as nat, |m: int| chunk_of(cs, m))
}


/// The distinct strings of `v`, each once, in order of first appearance.
pub fn dedup_strings(v: &Vec<String>) -> (r: Vec<String>)
    ensures
        texts(r@).no_duplicates(),
        forall|x: Seq<char>| texts(r@).contains(x) <==> texts(v@).contains(x),
{
    let mut r: Vec<String> = Vec::new();
    let mut i: usize = 0;
    while i < v.len()
        invariant
            i <= v.len(),
            texts(r@).no_duplicates(),
            forall|x: Seq<char>| texts(r@).contains(x) <==> texts(v@.take(i as int)).contains(x),
        decreases v.len() - i,
    {
        let ghost before = texts(r@);
        let ghost vi = v@[i as int]@;
        proof {
            assert(texts(v@.take(i + 1)) =~= texts(v@.take(i as int)).push(vi));
        }
        if !crate::text::contains_string(&r, v[i].as_str()) {
            r.push(v[i].clone());
            assert(texts(r@) =~= before.push(vi));
            assert forall|a: int, b: int|
                0 <= a < texts(r@).len() && 0 <= b < texts(r@).len() && a != b implies texts(r@)[a]
                != texts(r@)[b] by {
                if a < before.len() && b < before.len() {
                } else if a == before.len() {
                    assert(before[b] == texts(r@)[b]);
                    assert(before.contains(before[b]));
                } else {
                    assert(before[a] == texts(r@)[a]);
                    assert(before.contains(before[a]));
                }
            }
            assert forall|x: Seq<char>| texts(r@).contains(x) <==> texts(v@.take(i + 1)).contains(x) by {
                lemma_push_contains(before, vi, x);
                lemma_push_contains(texts(v@.take(i as int)), vi, x);
            }
        } else {
            assert forall|x: Seq<char>| texts(r@).contains(x) <==> texts(v@.take(i + 1)).contains(x) by {
                lemma_push_contains(texts(v@.take(i as int)), vi, x);
            }
        }
        i = i + 1;
    }
    assert(v@.take(v.len() as int) =~= v@);
    r
}

/// The device classes that the responses to a node-list request (`0xD7`) report:
/// the data of each successful or failed response after its first four bytes,
/// joined and cut into chunks of four, each chunk once.
pub fn classes_from_responses(res: &Vec<String>) -> (r: Vec<String>)
    requires
        forall|k: int| 0 <= k < res@.len() ==> class_data_ok((#[trigger] res@[k])@),
    ensures
        texts(r@).no_duplicates(),
        forall|x: Seq<char>| texts(r@).contains(x) <==> chunks4(class_chars(texts(res@))).contains(x),
{
    let ghost rs = texts(res@);
    let mut pieces: Vec<&str> = Vec::new();
    let mut k: usize = 0;
    assert(rs.take(0) =~= Seq::<Seq<char>>::empty());
    while k < res.len()
        invariant
            k <= res.len(),
            rs == texts(res@),
            forall|j: int| 0 <= j < res@.len() ==> class_data_ok((#[trigger] res@[j])@),
            pieces@.len() == class_chars(rs.take(k as int)).len(),
            forall|j: int|
                0 <= j < pieces@.len() ==> (#[trigger] pieces@[j])@ == seq![
                    class_chars(rs.take(k as int))[j],
                ],
        decreases res.len() - k,
    {
        let ghost before = class_chars(rs.take(k as int));
        proof {
            let pre = rs.take(k + 1);
            assert(pre.drop_last() =~= rs.take(k as int));
            assert(pre.last() == res@[k as int]@);
            assert(class_data_ok(res@[k as int]@));
        }
        match LineResponse::try_from(res[k].as_str()) {
            Ok(l) => match l.data {
                Some(d) => {
                    let (_, tail) = split_at_byte(d, 4);
                    let t = crate::text::chars_of(tail);
                    let mut c: usize = 0;
                    while c < t.len()
                        invariant
                            c <= t.len(),
                            t@ == tail@,
                            pieces@.len() == before.len() + c,
                            forall|j: int|
                                0 <= j < before.len() ==> (#[trigger] pieces@[j])@ == seq![before[j]],
                            forall|j: int|
                                0 <= j < c ==> (#[trigger] pieces@[before.len() + j])@ == seq![
                                    tail@[j],
                                ],
                        decreases t.len() - c,
                    {
                        let one = tail.substring_char(c, c + 1);
                        assert(one@ =~= seq![tail@[c as int]]);
                        pieces.push(one);
                        c = c + 1;
                    }
                    proof {
                        let now = class_chars(rs.take(k + 1));
                        assert(now =~= before + tail@);
                        assert forall|j: int| 0 <= j < pieces@.len() implies (#[trigger] pieces@[j])@
                            == seq![now[j]] by {
                            if j >= before.len() {
                                assert(pieces@[before.len() + (j - before.len())]@ == seq![
                                    tail@[j - before.len()],
                                ]);
                            }
                        }
                    }
                },
                None => {
                    assert(class_chars(rs.take(k + 1)) =~= before);
                },
            },
            Err(_) => {
                assert(class_chars(rs.take(k + 1)) =~= before);
            },
        }
        k = k + 1;
    }
    assert(rs.take(res.len() as int) =~= rs);
    let ghost cs = class_chars(rs);
    let n = pieces.len();
    let mut chunks: Vec<String> = Vec::new();
    let mut m: usize = 0;
    while m < n
        invariant
            n == pieces@.len(),
            n == cs.len(),
            forall|j: int| 0 <= j < n ==> (#[trigger] pieces@[j])@ == seq![cs[j]],
            m <= n,
            m % 4 == 0 || m == n,
            chunks@.len() == (m + 3) / 4,
            forall|j: int| 0 <= j < chunks@.len() ==> (#[trigger] chunks@[j])@ == chunk_of(cs, j),
        decreases n + 4 - m,
    {
        let end = if n - m >= 4 {
            m + 4
        } else {
            n
        };
        let mut s = String::new();
        let mut q = m;
        while q < end
            invariant
                m <= q <= end <= n,
                n == cs.len(),
                n == pieces@.len(),
                forall|j: int| 0 <= j < n ==> (#[trigger] pieces@[j])@ == seq![cs[j]],
                s@ == cs.subrange(m as int, q as int),
            decreases end - q,
        {
            let ghost old_s = s@;
            let piece = pieces[q];
            assert(piece@ == seq![cs[q as int]]);
            s = s.concat(piece);
            assert(s@ =~= old_s + seq![cs[q as int]]);
            assert(s@ =~= cs.subrange(m as int, q + 1));
            q = q + 1;
        }
        assert(s@ == chunk_of(cs, (m / 4) as int));
        chunks.push(s);
        m = end;
    }
    proof {
        assert forall|x: Seq<char>| texts(chunks@).contains(x) <==> chunks4(cs).contains(x) by {
            let c4 = chunks4(cs);
            assert(texts(chunks@).len() == c4.len());
            assert forall|j: int| 0 <= j < c4.len() implies texts(chunks@)[j] == c4[j] by {
                assert(chunks@[j]@ == chunk_of(cs, j));
            }
            assert(texts(chunks@) =~= c4);
        }
    }
    dedup_strings(&chunks)
}

/// The classes that are both described and discovered, each `0x`-prefixed, in
/// the order of the described ones.
pub open spec fn intersect_spec(available: Seq<Seq<char>>, discovered: Seq<Seq<char>>) -> Seq<Seq<char>>
    decreases available.len(),
{
    if available.len() == 0 {
        Seq::empty()
    } else {
        let rest = intersect_spec(available.drop_last(), discovered);
        if discovered.contains(available.last()) {
            rest.push("0x"@ + available.last())
        } else {
            rest
        }
    }
}

/// The classes that were discovered but are not described, in discovery order.
pub open spec fn uncovered_spec(available: Seq<Seq<char>>, discovered: Seq<Seq<char>>) -> Seq<Seq<char>>
    decreases discovered.len(),
{
    if discovered.len() == 0 {
        Seq::empty()
    } else {
        let rest = uncovered_spec(available, discovered.drop_last());
        if available.contains(discovered.last()) {
            rest
        } else {
            rest.push(discovered.last())
        }
    }
}

/// The device classes to scan: those both described (`available`) and
/// discovered, `0x`-prefixed.
pub fn class_intersect(available: &Vec<String>, discovered: &Vec<String>) -> (r: Vec<String>)
    ensures
        texts(r@) == intersect_spec(texts(available@), texts(discovered@)),
{
    let ghost av = texts(available@);
    let ghost dv = texts(discovered@);
    let mut r: Vec<String> = Vec::new();
    let mut i: usize = 0;
    assert(av.take(0) =~= Seq::<Seq<char>>::empty());
    assert(texts(r@) =~= Seq::<Seq<char>>::empty());
    while i < available.len()
        invariant
            i <= available.len(),
            av == texts(available@),
            dv == texts(discovered@),
            texts(r@) == intersect_spec(av.take(i as int), dv),
        decreases available.len() - i,
    {
        let ghost before = texts(r@);
        proof {
            let pre = av.take(i + 1);
            assert(pre.drop_last() =~= av.take(i as int));
            assert(pre.last() == available@[i as int]@);
        }
        if crate::text::contains_string(discovered, available[i].as_str()) {
            r.push(concat("0x", available[i].as_str()));
            assert(texts(r@) =~= before.push("0x"@ + available@[i as int]@));
        }
        i = i + 1;
    }
    assert(av.take(available.len() as int) =~= av);
    r
}

/// The classes that were discovered but are not covered by any description.
pub fn uncovered_classes(available: &Vec<String>, discovered: &Vec<String>) -> (r: Vec<String>)
    ensures
        texts(r@) == uncovered_spec(texts(available@), texts(discovered@)),
{
    let ghost av = texts(available@);
    let ghost dv = texts(discovered@);
    let mut r: Vec<String> = Vec::new();
    let mut i: usize = 0;
    assert(dv.take(0) =~= Seq::<Seq<char>>::empty());
    assert(texts(r@) =~= Seq::<Seq<char>>::empty());
    while i < discovered.len()
        invariant
            i <= discovered.len(),
            av == texts(available@),
            dv == texts(discovered@),
            texts(r@) == uncovered_spec(av, dv.take(i as int)),
        decreases discovered.len() - i,
    {
        let ghost before = texts(r@);
        proof {
            let pre = dv.take(i + 1);
            assert(pre.drop_last() =~= dv.take(i as int));
            assert(pre.last() == discovered@[i as int]@);
        }
        if !crate::text::contains_string(available, discovered[i].as_str()) {
            r.push(discovered[i].clone());
            assert(texts(r@) =~= before.push(discovered@[i as int]@));
        }
        i = i + 1;
    }
    assert(dv.take(discovered.len() as int) =~= dv);
    r
}

/// The scan command: for each class, a request for instance `00`'s get property
/// map (`0x9F`) and set property map (`0x9E`), one per line.
pub open spec fn scan_command_spec(classes: Seq<Seq<char>>) -> Seq<char>
    decreases classes.len(),
{
    if classes.len() == 0 {
        Seq::empty()
    } else {
        scan_command_spec(classes.drop_last()) + "224.0.23.0:"@ + classes.last()
            + "00:0x9F\n224.0.23.0:"@ + classes.last() + "00:0x9E\n"@
    }
}

/// The command that asks every instance `00` of the given classes for its
/// property maps.
pub fn scan_command(classes: &Vec<String>) -> (r: String)
    ensures
        r@ == scan_command_spec(texts(classes@)),
{
    let ghost cv = texts(classes@);
    let mut out = String::new();
    let mut i: usize = 0;
    assert(cv.take(0) =~= Seq::<Seq<char>>::empty());
    while i < classes.len()
        invariant
            i <= classes.len(),
            cv == texts(classes@),
            out@ == scan_command_spec(cv.take(i as int)),
        decreases classes.len() - i,
    {
        proof {
            let pre = cv.take(i + 1);
            assert(pre.drop_last() =~= cv.take(i as int));
            assert(pre.last() == classes@[i as int]@);
        }
        let c = classes[i].as_str();
        out = out.concat("224.0.23.0:").concat(c).concat("00:0x9F\n224.0.23.0:").concat(c).concat(
            "00:0x9E\n",
        );
        i = i + 1;
    }
    assert(cv.take(classes.len() as int) =~= cv);
    out
}

/// The protocol scan command: the node profile's protocol version (`0x82`) and
/// manufacturer code (`0x8A`), then each class's appendix release (`0x82`).
pub open spec fn protoinfo_command_spec(classes: Seq<Seq<char>>) -> Seq<char>
    decreases classes.len(),
{
    if classes.len() == 0 {
        "224.0.23.0:0ef000:0x82\n"@ + "224.0.23.0:0ef000:0x8A\n"@
    } else {
        protoinfo_command_spec(classes.drop_last()) + "224.0.23.0:"@ + classes.last() + "00:0x82\n"@
    }
}

/// The command that asks for the protocol information of the node and of the
/// given classes.
pub fn protoinfo_command(classes: &Vec<String>) -> (r: String)
    ensures
        r@ == protoinfo_command_spec(texts(classes@)),
{
    let ghost cv = texts(classes@);
    let mut out = concat("224.0.23.0:0ef000:0x82\n", "224.0.23.0:0ef000:0x8A\n");
    let mut i: usize = 0;
    assert(cv.take(0) =~= Seq::<Seq<char>>::empty());
    while i < classes.len()
        invariant
            i <= classes.len(),
            cv == texts(classes@),
            out@ == protoinfo_command_spec(cv.take(i as int)),
        decreases classes.len() - i,
    {
        proof {
            let pre = cv.take(i + 1);
            assert(pre.drop_last() =~= cv.take(i as int));
            assert(pre.last() == classes@[i as int]@);
        }
        out = out.concat("224.0.23.0:").concat(classes[i].as_str()).concat("00:0x82\n");
        i = i + 1;
    }
    assert(cv.take(classes.len() as int) =~= cv);
    out
}

/// The devices that report their appendix release: one entry per response to a
/// `0x82` request that does not come from the node profile (`0ef0...`),
/// identified by `host:0xeoj`, with the release where the response has data.
pub open spec fn appendix_infos(ls: Seq<LineView>) -> Seq<ProtoView>
    decreases ls.len(),
{
    if ls.len() == 0 {
        Seq::empty()
    } else {
        let rest = appendix_infos(ls.drop_last());
        let l = ls.last();
        if l.property == "0x82"@ && !is_prefix("0ef0"@, l.eoj) {
            rest.push(
                match l.data {
                    Some(d) => ProtoView { appendix: d, ..unknown_proto(device_key(l)) },
                    None => unknown_proto(device_key(l)),
                },
            )
        } else {
            rest
        }
    }
}

/// The data of the first successful response to `prop` from a host that the
/// identifier `id` starts with.
pub open spec fn first_data(ls: Seq<LineView>, id: Seq<char>, prop: Seq<char>) -> Option<Seq<char>>
    decreases ls.len(),
{
    if ls.len() == 0 {
        None
    } else if is_prefix(ls[0].host, id) && ls[0].result == LineResult::OK && ls[0].property == prop
        && ls[0].data is Some {
        ls[0].data
    } else {
        first_data(ls.drop_first(), id, prop)
    }
}

/// A device's information completed from the responses: protocol version from
/// the first `0x82` response of its host, manufacturer code from the first
/// `0x8A` response.
pub open spec fn map_info_spec(info: ProtoView, ls: Seq<LineView>) -> ProtoView {
    let i1 = match first_data(ls, info.id, "0x82"@) {
        Some(d) => ProtoView { protocol: d, ..info },
        None => info,
    };
    match first_data(ls, i1.id, "0x8A"@) {
        Some(d) => ProtoView { code: d, ..i1 },
        None => i1,
    }
}

/// The protocol information that the responses to the protocol scan give.
pub open spec fn protoinfo_spec(ls: Seq<LineView>) -> Seq<ProtoView> {
    appendix_infos(ls).map_values(|i: ProtoView| map_info_spec(i, ls))
}

fn find_data<'a>(responses: &Vec<LineResponse<'a>>, id: &str, prop: &str) -> (r: Option<&'a str>)
    ensures
        match r {
            Some(d) => first_data(lines_view(responses@), id@, prop@) == Some(d@),
            None => first_data(lines_view(responses@), id@, prop@) is None,
        },
{
    let ghost ls = lines_view(responses@);
    let mut i: usize = 0;
    assert(ls.skip(0) =~= ls);
    while i < responses.len()
        invariant
            i <= responses.len(),
            ls == lines_view(responses@),
            first_data(ls, id@, prop@) == first_data(ls.skip(i as int), id@, prop@),
        decreases responses.len() - i,
    {
        let resp = &responses[i];
        assert(ls.skip(i as int)[0] == resp@);
        assert(ls.skip(i as int).drop_first() =~= ls.skip(i + 1));
        if starts_with(id, resp.host) && resp.is_ok() && str_eq(resp.property, prop) {
            match resp.data {
                Some(d) => {
                    return Some(d);
                },
                None => {},
            }
        }
        i = i + 1;
    }
    None
}

fn map_info<'a>(info: DeviceProtocolInfo, responses: &Vec<LineResponse<'a>>) -> (r: DeviceProtocolInfo)
    ensures
        r@ == map_info_spec(info@, lines_view(responses@)),
{
    proof {
        reveal_strlit("0x82");
        reveal_strlit("0x8A");
    }
    let info = match find_data(responses, info.id.as_str(), "0x82") {
        Some(d) => info.with_protocol(owned(d)),
        None => info,
    };
    match find_data(responses, info.id.as_str(), "0x8A") {
        Some(d) => info.with_code(owned(d)),
        None => info,
    }
}

/// The protocol information of the devices that answered the protocol scan
/// (see [`protoinfo_spec`]).
pub fn collect_protoinfo<'a>(responses: &Vec<LineResponse<'a>>) -> (r: Vec<DeviceProtocolInfo>)
    ensures
        r@.map_values(|i: DeviceProtocolInfo| i@) == protoinfo_spec(lines_view(responses@)),
{
    let ghost ls = lines_view(responses@);
    proof {
        reveal_strlit("0x82");
        reveal_strlit("0ef0");
    }
    let mut infos: Vec<DeviceProtocolInfo> = Vec::new();
    let mut i: usize = 0;
    assert(ls.take(0) =~= Seq::<LineView>::empty());
    assert(infos@.map_values(|i: DeviceProtocolInfo| i@) =~= Seq::<ProtoView>::empty());
    while i < responses.len()
        invariant
            i <= responses.len(),
            ls == lines_view(responses@),
            infos@.map_values(|i: DeviceProtocolInfo| i@) == appendix_infos(ls.take(i as int)),
        decreases responses.len() - i,
    {
        let lr = &responses[i];
        let ghost before = infos@.map_values(|i: DeviceProtocolInfo| i@);
        proof {
            let pre = ls.take(i + 1);
            assert(pre.drop_last() =~= ls.take(i as int));
            assert(pre.last() == lr@);
        }
        if str_eq(lr.property, "0x82") && !starts_with(lr.eoj, "0ef0") {
            let info = DeviceProtocolInfo::new(lr.hosteoj());
            let info = match lr.data {
                Some(d) => info.with_appendix(owned(d)),
                None => info,
            };
            infos.push(info);
            assert(infos@.map_values(|i: DeviceProtocolInfo| i@) =~= appendix_infos(ls.take(i + 1)));
        }
        i = i + 1;
    }
    assert(ls.take(responses.len() as int) =~= ls);
    let ghost base = infos@.map_values(|i: DeviceProtocolInfo| i@);
    let n = infos.len();
    let mut rev = reverse_vec(infos);
    let mut out: Vec<DeviceProtocolInfo> = Vec::new();
    let mut j: usize = 0;
    while j < n
        invariant
            j <= n,
            n == base.len(),
            ls == lines_view(responses@),
            rev@.len() == n - j,
            forall|k: int| 0 <= k < n - j ==> (#[trigger] rev@[k])@ == base[n - 1 - k],
            out@.len() == j,
            forall|k: int| 0 <= k < j ==> (#[trigger] out@[k])@ == map_info_spec(base[k], ls),
        decreases n - j,
    {
        let info = rev.pop().unwrap();
        out.push(map_info(info, responses));
        j = j + 1;
    }
    assert(out@.map_values(|i: DeviceProtocolInfo| i@) =~= protoinfo_spec(ls));
    out
}

/// An element is in a concatenation exactly when it is in one of its parts.
pub proof fn lemma_concat_contains<A>(a: Seq<A>, b: Seq<A>, x: A)
    ensures
        (a + b).contains(x) <==> (a.contains(x) || b.contains(x)),
{
    if a.contains(x) {
        let k = choose|k: int| 0 <= k < a.len() && #[trigger] a[k] == x;
        assert((a + b)[k] == x);
    }
    if b.contains(x) {
        let k = choose|k: int| 0 <= k < b.len() && #[trigger] b[k] == x;
        assert((a + b)[a.len() + k] == x);
    }
    if (a + b).contains(x) {
        let k = choose|k: int| 0 <= k < (a + b).len() && #[trigger] (a + b)[k] == x;
        if k < a.len() {
            assert(a[k] == x);
        } else {
            assert(b[k - a.len()] == x);
        }
    }
}

/// A concatenation of two sequences without repeats that share no element has no repeats.
pub proof fn lemma_concat_no_duplicates<A>(a: Seq<A>, b: Seq<A>)
    requires
        a.no_duplicates(),
        b.no_duplicates(),
        forall|x: A| a.contains(x) ==> !b.contains(x),
    ensures
        (a + b).no_duplicates(),
{
    let c = a + b;
    assert forall|i: int, j: int| 0 <= i < c.len() && 0 <= j < c.len() && i != j implies c[i] != c[j] by {
        if i < a.len() && j >= a.len() {
            assert(a.contains(c[i]));
            assert(b[j - a.len()] == c[j]);
            assert(b.contains(c[j]));
        } else if i >= a.len() && j < a.len() {
            assert(a.contains(c[j]));
            assert(b[i - a.len()] == c[i]);
            assert(b.contains(c[i]));
        } else if i < a.len() && j < a.len() {
            assert(a[i] == c[i] && a[j] == c[j]);
        } else {
            assert(b[i - a.len()] == c[i] && b[j - a.len()] == c[j]);
        }
    }
}

proof fn lemma_byte_codes(nth: u8, b: u8, k: u8)
    requires
        nth < 16,
        k <= 8,
    ensures
        byte_codes(nth, b, k).no_duplicates(),
        forall|c: u8|
            byte_codes(nth, b, k).contains(c) <==> (c >= 0x80 && c % 16 == nth && c / 16 - 8 < k
                && bit_set(b, (c / 16 - 8) as u8)),
    decreases k,
{
    if k > 0 {
        let j = (k - 1) as u8;
        lemma_byte_codes(nth, b, j);
        let prev = byte_codes(nth, b, j);
        let code = (0x80 + nth + 0x10 * j) as u8;
        assert(code as nat == 0x80 + nth + 0x10 * j);
        assert(code % 16 == nth && code / 16 == 8 + j) by {
            assert(code as nat == 16 * (8 + j) + nth);
        }
        let extra = if bit_set(b, j) {
            seq![code]
        } else {
            Seq::<u8>::empty()
        };
        assert(byte_codes(nth, b, k) == prev + extra);
        assert forall|c: u8|
            byte_codes(nth, b, k).contains(c) <==> (c >= 0x80 && c % 16 == nth && c / 16 - 8 < k
                && bit_set(b, (c / 16 - 8) as u8)) by {
            lemma_concat_contains(prev, extra, c);
            if extra.contains(c) {
                assert(extra[0] == c);
                assert(c == code);
            }
            if c >= 0x80 && c % 16 == nth && c / 16 - 8 == j {
                assert(c as nat == 16 * (c as nat / 16) + c as nat % 16);
                assert(c == code);
                if bit_set(b, j) {
                    assert(extra[0] == c);
                    assert(extra.contains(c));
                }
            }
        }
        assert forall|x: u8| prev.contains(x) implies !extra.contains(x) by {
            if extra.contains(x) {
                assert(extra[0] == x);
            }
        }
        lemma_concat_no_duplicates(prev, extra);
    }
}

/// The codes of a binary property map are distinct, and code `c` is listed exactly
/// when it is at least `0x80` and bit `c / 16 - 8` of byte `c % 16` of the map is
/// set: the bitmap form of an ECHONET Lite property map.
pub proof fn lemma_binary_codes(bytes: Seq<u8>)
    requires
        bytes.len() <= 16,
    ensures
        binary_codes(bytes).no_duplicates(),
        forall|c: u8|
            binary_codes(bytes).contains(c) <==> (c >= 0x80 && (c % 16) < bytes.len() && bit_set(
                bytes[(c % 16) as int],
                (c / 16 - 8) as u8,
            )),
    decreases bytes.len(),
{
    if bytes.len() > 0 {
        let d = bytes.drop_last();
        let nth = (bytes.len() - 1) as u8;
        lemma_binary_codes(d);
        lemma_byte_codes(nth, bytes.last(), 8);
        let prev = binary_codes(d);
        let last = byte_codes(nth, bytes.last(), 8);
        assert forall|c: u8|
            binary_codes(bytes).contains(c) <==> (c >= 0x80 && (c % 16) < bytes.len() && bit_set(
                bytes[(c % 16) as int],
                (c / 16 - 8) as u8,
            )) by {
            lemma_concat_contains(prev, last, c);
            if c % 16 < d.len() {
                assert(d[(c % 16) as int] == bytes[(c % 16) as int]);
            }
            if c >= 0x80 {
                assert(c / 16 - 8 < 8) by {
                    assert(c as nat / 16 <= 15);
                }
            }
        }
        assert forall|x: u8| prev.contains(x) implies !last.contains(x) by {}
        lemma_concat_no_duplicates(prev, last);
    }
}

/// A response that can complete the information of device `id` for `prop`: a
/// successful response to `prop`, with data, from a host that `id` starts with.
pub open spec fn answers_for(l: LineView, id: Seq<char>, prop: Seq<char>) -> bool {
    &&& is_prefix(l.host, id)
    &&& l.result == LineResult::OK
    &&& l.property == prop
    &&& l.data is Some
}

/// The data found for a device is that of the first response that answers for it:
/// never that of another host's response, and none when no response answers.
pub proof fn lemma_first_data(ls: Seq<LineView>, id: Seq<char>, prop: Seq<char>)
    ensures
        first_data(ls, id, prop) is None <==> forall|i: int|
            0 <= i < ls.len() ==> !answers_for(#[trigger] ls[i], id, prop),
        first_data(ls, id, prop) is Some ==> exists|i: int|
            0 <= i < ls.len() && answers_for(#[trigger] ls[i], id, prop) && ls[i].data == first_data(
                ls,
                id,
                prop,
            ) && forall|j: int| 0 <= j < i ==> !answers_for(#[trigger] ls[j], id, prop),
    decreases ls.len(),
{
    if ls.len() > 0 {
        let t = ls.drop_first();
        lemma_first_data(t, id, prop);
        assert forall|i: int| 0 <= i < t.len() implies #[trigger] t[i] == ls[i + 1] by {}
        if answers_for(ls[0], id, prop) {
            assert(first_data(ls, id, prop) == ls[0].data);
        } else {
            assert(first_data(ls, id, prop) == first_data(t, id, prop));
            if first_data(t, id, prop) is Some {
                let i = choose|i: int|
                    0 <= i < t.len() && answers_for(#[trigger] t[i], id, prop) && t[i].data == first_data(
                        t,
                        id,
                        prop,
                    ) && forall|j: int| 0 <= j < i ==> !answers_for(#[trigger] t[j], id, prop);
                assert(answers_for(ls[i + 1], id, prop));
                assert forall|j: int| 0 <= j < i + 1 implies !answers_for(#[trigger] ls[j], id, prop) by {
                    if j > 0 {
                        assert(ls[j] == t[j - 1]);
                    }
                }
            } else {
                assert forall|i: int| 0 <= i < ls.len() implies !answers_for(#[trigger] ls[i], id, prop) by {
                    if i > 0 {
                        assert(ls[i] == t[i - 1]);
                    }
                }
            }
        }
    }
}

/// Each device's protocol version and manufacturer code come from a response of
/// its own host: either a successful `0x82` (`0x8A`) response with that data from
/// a host its identifier starts with, or `N/A` when no such response came.
pub proof fn lemma_protoinfo_sources(ls: Seq<LineView>)
    ensures
        forall|k: int|
            #![trigger protoinfo_spec(ls)[k]]
            0 <= k < protoinfo_spec(ls).len() ==> {
                let p = protoinfo_spec(ls)[k];
                &&& (exists|i: int|
                    0 <= i < ls.len() && answers_for(#[trigger] ls[i], p.id, "0x82"@) && ls[i].data
                        == Some(p.protocol)) || (p.protocol == "N/A"@ && forall|i: int|
                    0 <= i < ls.len() ==> !answers_for(#[trigger] ls[i], p.id, "0x82"@))
                &&& (exists|i: int|
                    0 <= i < ls.len() && answers_for(#[trigger] ls[i], p.id, "0x8A"@) && ls[i].data
                        == Some(p.code)) || (p.code == "N/A"@ && forall|i: int|
                    0 <= i < ls.len() ==> !answers_for(#[trigger] ls[i], p.id, "0x8A"@))
            },
{
    let a = appendix_infos(ls);
    lemma_appendix_infos_unknown(ls);
    assert forall|k: int|
        #![trigger protoinfo_spec(ls)[k]]
        0 <= k < protoinfo_spec(ls).len() implies {
            let p = protoinfo_spec(ls)[k];
            &&& (exists|i: int|
                0 <= i < ls.len() && answers_for(#[trigger] ls[i], p.id, "0x82"@) && ls[i].data
                    == Some(p.protocol)) || (p.protocol == "N/A"@ && forall|i: int|
                0 <= i < ls.len() ==> !answers_for(#[trigger] ls[i], p.id, "0x82"@))
            &&& (exists|i: int|
                0 <= i < ls.len() && answers_for(#[trigger] ls[i], p.id, "0x8A"@) && ls[i].data
                    == Some(p.code)) || (p.code == "N/A"@ && forall|i: int|
                0 <= i < ls.len() ==> !answers_for(#[trigger] ls[i], p.id, "0x8A"@))
        } by {
        let info = a[k];
        let p = protoinfo_spec(ls)[k];
        assert(p == map_info_spec(info, ls));
        lemma_first_data(ls, info.id, "0x82"@);
        lemma_first_data(ls, info.id, "0x8A"@);
        assert(p.id == info.id);
    }
}

/// Before they are completed, the protocol version and manufacturer code of the
/// devices of the protocol scan are `N/A`.
proof fn lemma_appendix_infos_unknown(ls: Seq<LineView>)
    ensures
        forall|k: int|
            0 <= k < appendix_infos(ls).len() ==> (#[trigger] appendix_infos(ls)[k]).protocol == "N/A"@
                && appendix_infos(ls)[k].code == "N/A"@,
    decreases ls.len(),
{
    if ls.len() > 0 {
        let rest = appendix_infos(ls.drop_last());
        lemma_appendix_infos_unknown(ls.drop_last());
        let a = appendix_infos(ls);
        let l = ls.last();
        assert(unknown_proto(device_key(l)).protocol == "N/A"@);
        assert(unknown_proto(device_key(l)).code == "N/A"@);
        assert forall|k: int| 0 <= k < a.len() implies (#[trigger] a[k]).protocol == "N/A"@
            && a[k].code == "N/A"@ by {
            if k < rest.len() {
                assert(a[k] == rest[k]);
            }
        }
    }
}

} // verus!
