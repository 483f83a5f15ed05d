//! Converters between the JSON values of the Web API and the EDT bytes of the
//! ECHONET Lite properties, built from device-description schemas and, where a
//! schema says too little, from additional information.
//!
//! `f32` bounds are held as their IEEE-754 bit patterns (`f32::to_bits`); the
//! arithmetic on them is done by the caller. Name-to-EDT maps are vectors of
//! pairs with distinct names.
use vstd::prelude::*;
use vstd::slice::{slice_subrange, slice_to_vec};
use vstd::std_specs::convert::FromSpecImpl;
use vstd::utf8::{decode_utf8, encode_utf8, valid_utf8};
use crate::descriptions::{self, Schema, SchemaView, TypedSchema, ValueView, opt_view};
use crate::errors::NetError;
use crate::hex::{self, hex_bytes, hex_digits, hex_value, usize_modulus};
use crate::text::{concat, concat3, owned, str_eq};

verus! {

broadcast use vstd::std_specs::vec::axiom_vec_index_decreases;

/// The bit pattern of `1.0f32`, the default `multipleOf`.
pub const ONE_F32_BITS: u32 = 0x3f80_0000u32;

/// How the value of a property is converted between JSON and EDT bytes.
#[derive(Debug)]
pub enum Converter {
    Boolean { true_value: String, false_value: String },
    Time { format: String },
    Passthrough,
    /// Pairs of value name and EDT code.
    Enumlist(Vec<(String, String)>),
    /// Bounds are `f32` bit patterns.
    Number { minimum: u32, maximum: u32, multiple_of: u32 },
    Null { edt: String },
    Object { properties: Vec<(String, Converter)> },
    Array { min_items: Option<u32>, max_items: Option<u32>, items: Box<Converter> },
    OneOf { opts: Vec<Converter> },
}

/// A converter with strings as character sequences.
pub enum ConverterView {
    Boolean { true_value: Seq<char>, false_value: Seq<char> },
    Time { format: Seq<char> },
    Passthrough,
    Enumlist { entries: Seq<(Seq<char>, Seq<char>)> },
    Number { minimum: u32, maximum: u32, multiple_of: u32 },
    Null { edt: Seq<char> },
    Object { properties: Seq<(Seq<char>, ConverterView)> },
    Array { min_items: Option<u32>, max_items: Option<u32>, items: Box<ConverterView> },
    OneOf { opts: Seq<ConverterView> },
}

/// Pairs of strings as pairs of character sequences.
pub open spec fn pairs_view(v: Seq<(String, String)>) -> Seq<(Seq<char>, Seq<char>)> {
    v.map_values(|p: (String, String)| (p.0@, p.1@))
}

impl Converter {
    /// The converter with strings as character sequences.
    pub open spec fn model(&self) -> ConverterView
        decreases self,
    {
        match self {
            Converter::Boolean { true_value, false_value } => ConverterView::Boolean {
                true_value: true_value@,
                false_value: false_value@,
            },
            Converter::Time { format } => ConverterView::Time { format: format@ },
            Converter::Passthrough => ConverterView::Passthrough,
            Converter::Enumlist(m) => ConverterView::Enumlist { entries: pairs_view(m@) },
            Converter::Number { minimum, maximum, multiple_of } => ConverterView::Number {
                minimum: *minimum,
                maximum: *maximum,
                multiple_of: *multiple_of,
            },
            Converter::Null { edt } => ConverterView::Null { edt: edt@ },
            Converter::Object { properties } => ConverterView::Object {
                properties: Seq::new(
                    properties@.len(),
                    |i: int|
                        (
                            properties@[i].0@,
                            if 0 <= i < properties@.len() {
                                properties@[i].1.model()
                            } else {
                                ConverterView::Passthrough
                            },
                        ),
                ),
            },
            Converter::Array { min_items, max_items, items } => ConverterView::Array {
                min_items: *min_items,
                max_items: *max_items,
                items: Box::new((**items).model()),
            },
            Converter::OneOf { opts } => ConverterView::OneOf {
                opts: Seq::new(
                    opts@.len(),
                    |i: int|
                        if 0 <= i < opts@.len() {
                            opts@[i].model()
                        } else {
                            ConverterView::Passthrough
                        },
                ),
            },
        }
    }
}

impl View for Converter {
    type V = ConverterView;

    open spec fn view(&self) -> ConverterView {
        self.model()
    }
}

/// Position of the first pair whose name is `k`, or -1.
pub open spec fn index_of_key<V>(m: Seq<(Seq<char>, V)>, k: Seq<char>) -> int
    decreases m.len(),
{
    if m.len() == 0 {
        -1
    } else {
        let j = index_of_key(m.drop_last(), k);
        if j >= 0 {
            j
        } else if m.last().0 == k {
            m.len() - 1
        } else {
            -1
        }
    }
}

/// A map written as pairs after setting `k` to `v`: the pair named `k` is
/// replaced in place, or a new pair is appended.
pub open spec fn map_insert<V>(m: Seq<(Seq<char>, V)>, k: Seq<char>, v: V) -> Seq<(Seq<char>, V)> {
    let j = index_of_key(m, k);
    if j >= 0 {
        m.update(j, (k, v))
    } else {
        m.push((k, v))
    }
}

/// The name-to-EDT map that a list of values with EDT codes collects into;
/// a later value of the same name wins.
pub open spec fn enum_entries(vals: Seq<ValueView<Seq<char>>>) -> Seq<(Seq<char>, Seq<char>)>
    decreases vals.len(),
{
    if vals.len() == 0 {
        Seq::empty()
    } else {
        map_insert(enum_entries(vals.drop_last()), vals.last().value, vals.last().edt->0)
    }
}

/// The EDT code of the first value equal to `want` that has one.
pub open spec fn first_edt(values: Seq<ValueView<bool>>, want: bool) -> Option<Seq<char>>
    decreases values.len(),
{
    if values.len() == 0 {
        None
    } else if values[0].value == want && values[0].edt is Some {
        values[0].edt
    } else {
        first_edt(values.drop_first(), want)
    }
}

/// The converter that a schema alone determines, or the reason there is none.
pub open spec fn converter_of(s: SchemaView) -> Result<ConverterView, Seq<char>>
    decreases s,
{
    match s {
        SchemaView::String { format: Some(f), .. } => Ok(ConverterView::Time { format: f }),
        SchemaView::String { format: None, enumlist: None, values: None } => Ok(
            ConverterView::Passthrough,
        ),
        SchemaView::String { format: None, enumlist: Some(_), values: None } => Err(
            "String Schema: enumlist without values!"@,
        ),
        SchemaView::String { format: None, values: Some(vals), .. } => {
            if forall|i: int| 0 <= i < vals.len() ==> (#[trigger] vals[i]).edt is Some {
                Ok(ConverterView::Enumlist { entries: enum_entries(vals) })
            } else {
                Err("Enumlist: not all values had edt"@)
            }
        },
        SchemaView::Null { edt: Some(e) } => Ok(ConverterView::Null { edt: e }),
        SchemaView::Null { edt: None } => Err("Null Schema without edt"@),
        SchemaView::Boolean { values } => match first_edt(values, true) {
            None => Err("No true value"@),
            Some(t) => match first_edt(values, false) {
                None => Err("No false value"@),
                Some(f) => Ok(ConverterView::Boolean { true_value: t, false_value: f }),
            },
        },
        SchemaView::Number { minimum: Some(lo), maximum: Some(hi), multiple_of, .. } => Ok(
            ConverterView::Number {
                minimum: lo,
                maximum: hi,
                multiple_of: match multiple_of {
                    Some(m) => m,
                    None => ONE_F32_BITS,
                },
            },
        ),
        SchemaView::Number { .. } => Err("Number schema: min and/or max missing"@),
        SchemaView::Object { .. } => Err("Object Schema: no ordering information"@),
        SchemaView::Array { .. } => Err("Schema Array: unimplemented!"@),
        SchemaView::OneOf { one_of } => {
            if all_convert(one_of) {
                Ok(ConverterView::OneOf { opts: converted(one_of) })
            } else {
                Err("Schema OneOf: cannot convert all schemes"@)
            }
        },
    }
}

/// Every alternative has a converter of its own.
pub open spec fn all_convert(opts: Seq<SchemaView>) -> bool
    decreases opts,
{
    if opts.len() == 0 {
        true
    } else {
        all_convert(opts.drop_last()) && converter_of(opts.last()) is Ok
    }
}

/// The converters of the alternatives.
pub open spec fn converted(opts: Seq<SchemaView>) -> Seq<ConverterView>
    decreases opts,
{
    if opts.len() == 0 {
        Seq::empty()
    } else {
        converted(opts.drop_last()).push(converter_of(opts.last())->Ok_0)
    }
}

proof fn lemma_all_convert_prefix(ov: Seq<SchemaView>, a: int, b: int)
    requires
        0 <= a <= b <= ov.len(),
        !all_convert(ov.take(a)),
    ensures
        !all_convert(ov.take(b)),
    decreases b - a,
{
    if a < b {
        lemma_all_convert_prefix(ov, a, b - 1);
        assert(ov.take(b).drop_last() =~= ov.take(b - 1));
    }
}

/// Additional information that completes a schema where the description says too
/// little for a converter: the order of an object's members, bounds of a number.
/// Bounds are `f32` bit patterns.
#[derive(Debug)]
pub enum AdditionalInfo {
    Boolean { true_value: String, false_value: String },
    String,
    Number { size: Option<u8>, min: Option<u32>, max: Option<u32>, multiple_of: Option<u32> },
    Null { edt: String },
    Object { order: Vec<NamedInfo> },
    Array,
    OneOf,
}

/// A member of an object, in transmission order, with optional information.
#[derive(Debug)]
pub struct NamedInfo {
    pub name: String,
    pub info: Option<AdditionalInfo>,
}

/// The additional information of one property.
#[derive(Debug)]
pub struct PropertyInfo {
    pub epc: String,
    pub info: AdditionalInfo,
}

/// The additional information of one device class.
#[derive(Debug)]
pub struct Entry {
    pub eoj: String,
    pub ai: Vec<PropertyInfo>,
}

/// All the additional information entries available.
#[derive(Debug)]
pub struct Ais {
    pub entries: Vec<Entry>,
}

/// Additional information with strings as character sequences.
pub enum InfoView {
    Boolean { true_value: Seq<char>, false_value: Seq<char> },
    String,
    Number { size: Option<u8>, min: Option<u32>, max: Option<u32>, multiple_of: Option<u32> },
    Null { edt: Seq<char> },
    Object { order: Seq<(Seq<char>, Option<InfoView>)> },
    Array,
    OneOf,
}

impl AdditionalInfo {
    /// The information with strings as character sequences.
    pub open spec fn model(&self) -> InfoView
        decreases self,
    {
        match self {
            AdditionalInfo::Boolean { true_value, false_value } => InfoView::Boolean {
                true_value: true_value@,
                false_value: false_value@,
            },
            AdditionalInfo::String => InfoView::String,
            AdditionalInfo::Number { size, min, max, multiple_of } => InfoView::Number {
                size: *size,
                min: *min,
                max: *max,
                multiple_of: *multiple_of,
            },
            AdditionalInfo::Null { edt } => InfoView::Null { edt: edt@ },
            AdditionalInfo::Object { order } => InfoView::Object {
                order: Seq::new(
                    order@.len(),
                    |i: int|
                        (
                            order@[i].name@,
                            if 0 <= i < order@.len() {
                                match order@[i].info {
                                    Some(a) => Some(a.model()),
                                    None => None,
                                }
                            } else {
                                None
                            },
                        ),
                ),
            },
            AdditionalInfo::Array => InfoView::Array,
            AdditionalInfo::OneOf => InfoView::OneOf,
        }
    }
}

/// The first of two optional values that is present.
pub open spec fn or_else(a: Option<u32>, b: Option<u32>) -> Option<u32> {
    match a {
        Some(x) => Some(x),
        None => b,
    }
}

/// The converter that a schema and its additional information give together;
/// `None` for a combination that is not implemented (number with number and
/// object with object are).
pub open spec fn fuse_spec(d: SchemaView, ai: InfoView) -> Option<Result<ConverterView, Seq<char>>>
    decreases ai, 0int,
{
    match (d, ai) {
        (SchemaView::Object { properties }, InfoView::Object { order }) => fuse_objects_spec(
            properties,
            order,
        ),
        (
            SchemaView::Number { minimum: smin, maximum: smax, multiple_of: smof, .. },
            InfoView::Number { min: amin, max: amax, multiple_of: amof, .. },
        ) => {
            match (or_else(smin, amin), or_else(smax, amax), or_else(smof, amof)) {
                (None, _, _) => Some(Err("fuse numbers: no min spec!"@)),
                (Some(_), None, _) => Some(Err("fuse numbers: no max spec!"@)),
                (Some(_), Some(_), None) => Some(Err("fuse numbers: no multipe_of spec!"@)),
                (Some(lo), Some(hi), Some(m)) => Some(
                    Ok(ConverterView::Number { minimum: lo, maximum: hi, multiple_of: m }),
                ),
            }
        },
        _ => None,
    }
}

/// The converter of an object whose members are converted in the given order.
pub open spec fn fuse_objects_spec(
    props: Seq<(Seq<char>, SchemaView)>,
    order: Seq<(Seq<char>, Option<InfoView>)>,
) -> Option<Result<ConverterView, Seq<char>>>
    decreases order, 1int,
{
    if props.len() != order.len() {
        Some(Err("fuse objects: ordering info different from properties"@))
    } else if exists|i: int| 0 <= i < order.len() && index_of_key(props, (#[trigger] order[i]).0) < 0 {
        Some(Err("fuse objects: properties/order mismatch"@))
    } else {
        match fuse_list(props, order) {
            None => None,
            Some(Err(e)) => Some(Err("fuse objects: some converter failed: "@ + e)),
            Some(Ok(l)) => Some(Ok(ConverterView::Object { properties: l })),
        }
    }
}

/// The converter of one object member: fused with its information where it has
/// some, from its schema alone otherwise.
pub open spec fn member_converter(sch: SchemaView, info: Option<InfoView>) -> Option<Result<ConverterView, Seq<char>>>
    decreases info, 0int,
{
    match info {
        Some(ai) => fuse_spec(sch, ai),
        None => Some(converter_of(sch)),
    }
}

/// The converters of the members named in `order`, in that order, up to the
/// first failure.
pub open spec fn fuse_list(
    props: Seq<(Seq<char>, SchemaView)>,
    order: Seq<(Seq<char>, Option<InfoView>)>,
) -> Option<Result<Seq<(Seq<char>, ConverterView)>, Seq<char>>>
    decreases order, 0int,
{
    if order.len() == 0 {
        Some(Ok(Seq::empty()))
    } else {
        match fuse_list(props, order.drop_last()) {
            None => None,
            Some(Err(e)) => Some(Err(e)),
            Some(Ok(l)) => {
                let name = order.last().0;
                let sch = props[index_of_key(props, name)].1;
                match member_converter(sch, order.last().1) {
                    None => None,
                    Some(Err(e)) => Some(Err(e)),
                    Some(Ok(c)) => Some(Ok(l.push((name, c)))),
                }
            },
        }
    }
}

/// Named schemas with the schemas as models.
pub open spec fn schema_props_view(v: Seq<(String, Schema)>) -> Seq<(Seq<char>, SchemaView)> {
    v.map_values(|p: (String, Schema)| (p.0@, p.1.model()))
}

/// An optional piece of information as a model.
pub open spec fn opt_info_view(i: Option<AdditionalInfo>) -> Option<InfoView> {
    match i {
        Some(a) => Some(a.model()),
        None => None,
    }
}

/// Named information with the information as models.
pub open spec fn order_view(v: Seq<NamedInfo>) -> Seq<(Seq<char>, Option<InfoView>)> {
    v.map_values(|n: NamedInfo| (n.name@, opt_info_view(n.info)))
}

/// Named converters with the converters as models.
pub open spec fn converters_view(v: Seq<(String, Converter)>) -> Seq<(Seq<char>, ConverterView)> {
    v.map_values(|p: (String, Converter)| (p.0@, p.1.model()))
}

/// The position of a name depends on the names alone.
pub proof fn lemma_index_of_key_same_keys<A, B>(
    m1: Seq<(Seq<char>, A)>,
    m2: Seq<(Seq<char>, B)>,
    k: Seq<char>,
)
    requires
        m1.len() == m2.len(),
        forall|i: int| 0 <= i < m1.len() ==> (#[trigger] m1[i]).0 == m2[i].0,
    ensures
        index_of_key(m1, k) == index_of_key(m2, k),
    decreases m1.len(),
{
    if m1.len() > 0 {
        let d1 = m1.drop_last();
        let d2 = m2.drop_last();
        assert forall|i: int| 0 <= i < d1.len() implies (#[trigger] d1[i]).0 == d2[i].0 by {
            assert(d1[i] == m1[i]);
            assert(d2[i] == m2[i]);
        }
        lemma_index_of_key_same_keys(d1, d2, k);
    }
}

/// The position of the first pair named `k` in a vector of named values.
pub fn key_index<V>(m: &Vec<(String, V)>, k: &str) -> (r: Option<usize>)
    ensures
        match r {
            Some(i) => index_of_key(m@.map_values(|p: (String, V)| (p.0@, p.1)), k@) == i as int,
            None => index_of_key(m@.map_values(|p: (String, V)| (p.0@, p.1)), k@) == -1,
        },
{
    let ghost mv = m@.map_values(|p: (String, V)| (p.0@, p.1));
    let mut i: usize = 0;
    while i < m.len()
        invariant
            i <= m.len(),
            mv == m@.map_values(|p: (String, V)| (p.0@, p.1)),
            forall|j: int| 0 <= j < i ==> mv[j].0 != k@,
        decreases m.len() - i,
    {
        if str_eq(m[i].0.as_str(), k) {
            proof {
                lemma_index_of_key_first(mv, k@, i as int);
            }
            return Some(i);
        }
        i = i + 1;
    }
    proof {
        lemma_index_of_key_absent(mv, k@);
    }
    None
}

proof fn lemma_fuse_list_stops(
    props: Seq<(Seq<char>, SchemaView)>,
    order: Seq<(Seq<char>, Option<InfoView>)>,
    a: int,
    b: int,
)
    requires
        0 <= a <= b <= order.len(),
        !(fuse_list(props, order.take(a)) matches Some(Ok(_))),
    ensures
        fuse_list(props, order.take(b)) == fuse_list(props, order.take(a)),
    decreases b - a,
{
    if a < b {
        lemma_fuse_list_stops(props, order, a, b - 1);
        assert(order.take(b).drop_last() =~= order.take(b - 1));
    }
}

/// A result of conversion matches its specification: the same converter, or an
/// error with the same text.
pub open spec fn matches_result(r: Result<Converter, String>, s: Result<ConverterView, Seq<char>>) -> bool {
    match (r, s) {
        (Ok(c), Ok(v)) => c.model() == v,
        (Err(e), Err(m)) => e@ == m,
        _ => false,
    }
}

fn first_edt_exec(values: &Vec<descriptions::PropertyValue<bool>>, want: bool) -> (r: Option<String>)
    ensures
        opt_view(r) == first_edt(values@.map_values(|p: descriptions::PropertyValue<bool>| p@), want),
{
    let ghost vs = values@.map_values(|p: descriptions::PropertyValue<bool>| p@);
    let mut i: usize = 0;
    assert(vs.skip(0) =~= vs);
    while i < values.len()
        invariant
            i <= values.len(),
            vs == values@.map_values(|p: descriptions::PropertyValue<bool>| p@),
            first_edt(vs, want) == first_edt(vs.skip(i as int), want),
        decreases values.len() - i,
    {
        assert(vs.skip(i as int)[0] == vs[i as int]);
        assert(vs.skip(i as int).drop_first() =~= vs.skip(i + 1));
        if values[i].value == want {
            match &values[i].edt {
                Some(e) => {
                    return Some(e.clone());
                },
                None => {},
            }
        }
        i = i + 1;
    }
    assert(vs.skip(i as int).len() == 0);
    None
}

fn enum_insert(m: &mut Vec<(String, String)>, k: String, v: String)
    ensures
        pairs_view(final(m)@) == map_insert(pairs_view(old(m)@), k@, v@),
{
    let ghost pv = pairs_view(m@);
    let mut i: usize = 0;
    while i < m.len()
        invariant
            i <= m.len(),
            pv == pairs_view(m@),
            pv == pairs_view(old(m)@),
            forall|j: int| 0 <= j < i ==> m@[j].0@ != k@,
        decreases m.len() - i,
    {
        if str_eq(m[i].0.as_str(), k.as_str()) {
            proof {
                lemma_index_of_key_first(pv, k@, i as int);
                assert(index_of_key(pv, k@) == i);
            }
            let ghost kv = k@;
            let ghost vv = v@;
            m.set(i, (k, v));
            assert(pairs_view(m@) =~= pv.update(i as int, (kv, vv)));
            assert(pairs_view(m@) =~= map_insert(pv, k@, v@));
            return;
        }
        i = i + 1;
    }
    proof {
        lemma_index_of_key_absent(pv, k@);
    }
    m.push((k, v));
    assert(pairs_view(m@) =~= map_insert(pv, k@, v@));
}

/// The names of a map written as pairs.
pub open spec fn keys_of<V>(m: Seq<(Seq<char>, V)>) -> Seq<Seq<char>> {
    m.map_values(|p: (Seq<char>, V)| p.0)
}

/// Setting a name in a map written as pairs keeps the names distinct; the name
/// then gives the new value, and every other name is found where it was, with the
/// value it had.
pub proof fn lemma_map_insert<V>(m: Seq<(Seq<char>, V)>, k: Seq<char>, v: V)
    requires
        keys_of(m).no_duplicates(),
    ensures
        keys_of(map_insert(m, k, v)).no_duplicates(),
        index_of_key(map_insert(m, k, v), k) >= 0,
        map_insert(m, k, v)[index_of_key(map_insert(m, k, v), k)].1 == v,
        forall|k2: Seq<char>|
            k2 != k ==> #[trigger] index_of_key(map_insert(m, k, v), k2) == index_of_key(m, k2),
        forall|i: int|
            0 <= i < m.len() && m[i].0 != k ==> #[trigger] map_insert(m, k, v)[i] == m[i],
{
    let r = map_insert(m, k, v);
    let j = index_of_key(m, k);
    lemma_index_of_key_spec(m, k);
    if j >= 0 {
        assert forall|i: int| 0 <= i < m.len() implies (#[trigger] m[i]).0 == r[i].0 by {}
        assert forall|k2: Seq<char>| true implies #[trigger] index_of_key(r, k2) == index_of_key(m, k2) by {
            lemma_index_of_key_same_keys(r, m, k2);
        }
        assert(keys_of(r) =~= keys_of(m));
    } else {
        assert(r.drop_last() =~= m);
        assert(keys_of(r) =~= keys_of(m).push(k));
        assert forall|a: int, b: int| 0 <= a < b < keys_of(r).len() implies keys_of(r)[a] != keys_of(r)[b] by {
            if b == m.len() {
                assert(keys_of(r)[a] == m[a].0);
            } else {
                assert(keys_of(m)[a] != keys_of(m)[b]);
            }
        }
        assert(index_of_key(r, k) == m.len());
    }
}

/// The first pair named `k` is at `i` when none before it is named `k`.
pub proof fn lemma_index_of_key_first<V>(m: Seq<(Seq<char>, V)>, k: Seq<char>, i: int)
    requires
        0 <= i < m.len(),
        m[i].0 == k,
        forall|j: int| 0 <= j < i ==> m[j].0 != k,
    ensures
        index_of_key(m, k) == i,
    decreases m.len(),
{
    if i < m.len() - 1 {
        lemma_index_of_key_first(m.drop_last(), k, i);
    } else {
        lemma_index_of_key_absent(m.drop_last(), k);
    }
}

/// No pair is named `k` exactly when the position is -1.
pub proof fn lemma_index_of_key_absent<V>(m: Seq<(Seq<char>, V)>, k: Seq<char>)
    requires
        forall|j: int| 0 <= j < m.len() ==> m[j].0 != k,
    ensures
        index_of_key(m, k) == -1,
    decreases m.len(),
{
    if m.len() > 0 {
        lemma_index_of_key_absent(m.drop_last(), k);
    }
}

/// The position found is that of the first pair named `k`; -1 when there is none.
pub proof fn lemma_index_of_key_spec<V>(m: Seq<(Seq<char>, V)>, k: Seq<char>)
    ensures
        -1 <= index_of_key(m, k) < m.len(),
        index_of_key(m, k) >= 0 ==> m[index_of_key(m, k)].0 == k,
        index_of_key(m, k) >= 0 ==> forall|j: int| 0 <= j < index_of_key(m, k) ==> m[j].0 != k,
        index_of_key(m, k) == -1 ==> forall|j: int| 0 <= j < m.len() ==> m[j].0 != k,
    decreases m.len(),
{
    if m.len() > 0 {
        let d = m.drop_last();
        lemma_index_of_key_spec(d, k);
        assert forall|j: int| 0 <= j < d.len() implies d[j] == m[j] by {}
        let j0 = index_of_key(d, k);
        if j0 >= 0 {
            assert(index_of_key(m, k) == j0);
        } else if m.last().0 == k {
            assert(index_of_key(m, k) == m.len() - 1);
            assert forall|j: int| 0 <= j < m.len() - 1 implies m[j].0 != k by {
                assert(d[j] == m[j]);
            }
        } else {
            assert forall|j: int| 0 <= j < m.len() implies m[j].0 != k by {
                if j < m.len() - 1 {
                    assert(d[j] == m[j]);
                }
            }
        }
    }
}

impl Converter {
    /// An equal copy.
    pub fn duplicate(&self) -> (r: Self)
        ensures
            r.model() == self.model(),
        decreases self,
    {
        match self {
            Converter::Boolean { true_value, false_value } => Converter::Boolean {
                true_value: true_value.clone(),
                false_value: false_value.clone(),
            },
            Converter::Time { format } => Converter::Time { format: format.clone() },
            Converter::Passthrough => Converter::Passthrough,
            Converter::Enumlist(m) => {
                let mut r: Vec<(String, String)> = Vec::new();
                let mut i: usize = 0;
                while i < m.len()
                    invariant
                        i <= m.len(),
                        r@.len() == i,
                        forall|k: int|
                            0 <= k < i ==> #[trigger] r@[k].0@ == m@[k].0@ && r@[k].1@ == m@[k].1@,
                    decreases m.len() - i,
                {
                    r.push((m[i].0.clone(), m[i].1.clone()));
                    i = i + 1;
                }
                assert(pairs_view(r@) =~= pairs_view(m@));
                Converter::Enumlist(r)
            },
            Converter::Number { minimum, maximum, multiple_of } => Converter::Number {
                minimum: *minimum,
                maximum: *maximum,
                multiple_of: *multiple_of,
            },
            Converter::Null { edt } => Converter::Null { edt: edt.clone() },
            Converter::Object { properties } => {
                let mut r: Vec<(String, Converter)> = Vec::new();
                let mut i: usize = 0;
                while i < properties.len()
                    invariant
                        i <= properties.len(),
                        r@.len() == i,
                        *self == (Converter::Object { properties: *properties }),
                        forall|k: int|
                            0 <= k < i ==> r@[k].0@ == properties@[k].0@ && #[trigger] r@[k].1.model()
                                == properties@[k].1.model(),
                    decreases properties.len() - i,
                {
                    proof {
                        assert(decreases_to!(*self => self->properties));
                        assert(decreases_to!(*properties => properties[i as int]));
                        assert(decreases_to!(properties[i as int] => properties[i as int].1));
                    }
                    let c = properties[i].1.duplicate();
                    r.push((properties[i].0.clone(), c));
                    i = i + 1;
                }
                let res = Converter::Object { properties: r };
                proof {
                    let z = match res.model() {
                        ConverterView::Object { properties } => properties,
                        _ => Seq::empty(),
                    };
                    let y = match self.model() {
                        ConverterView::Object { properties } => properties,
                        _ => Seq::empty(),
                    };
                    assert(res.model() == ConverterView::Object { properties: z });
                    assert(self.model() == ConverterView::Object { properties: y });
                    assert forall|k: int| 0 <= k < z.len() implies z[k] == y[k] by {
                        assert(r@[k].1.model() == properties@[k].1.model());
                    }
                    assert(z =~= y);
                }
                res
            },
            Converter::Array { min_items, max_items, items } => {
                proof {
                    assert(decreases_to!(*self => self->items));
                }
                let it = (**items).duplicate();
                Converter::Array { min_items: *min_items, max_items: *max_items, items: Box::new(it) }
            },
            Converter::OneOf { opts } => {
                let mut r: Vec<Converter> = Vec::new();
                let mut i: usize = 0;
                while i < opts.len()
                    invariant
                        i <= opts.len(),
                        r@.len() == i,
                        *self == (Converter::OneOf { opts: *opts }),
                        forall|k: int| 0 <= k < i ==> #[trigger] r@[k].model() == opts@[k].model(),
                    decreases opts.len() - i,
                {
                    proof {
                        assert(decreases_to!(*self => self->opts));
                        assert(decreases_to!(*opts => opts[i as int]));
                    }
                    r.push(opts[i].duplicate());
                    i = i + 1;
                }
                let res = Converter::OneOf { opts: r };
                proof {
                    let z = match res.model() {
                        ConverterView::OneOf { opts } => opts,
                        _ => Seq::empty(),
                    };
                    let y = match self.model() {
                        ConverterView::OneOf { opts } => opts,
                        _ => Seq::empty(),
                    };
                    assert(res.model() == ConverterView::OneOf { opts: z });
                    assert(self.model() == ConverterView::OneOf { opts: y });
                    assert forall|k: int| 0 <= k < z.len() implies z[k] == y[k] by {
                        assert(r@[k].model() == opts@[k].model());
                    }
                    assert(z =~= y);
                }
                res
            },
        }
    }

    /// The converter that a schema alone determines: a `format` gives a time
    /// converter, values with EDT codes an enumeration, true and false values a
    /// boolean, bounds a number, alternatives a `oneOf`; otherwise the reason why
    /// none can be made.
    pub fn try_from(schema: Schema) -> (r: Result<Converter, String>)
        ensures
            matches_result(r, converter_of(schema.model())),
        decreases schema,
    {
        let ghost sm = schema.model();
        match schema {
            Schema::T(TypedSchema::String { format: Some(format), enumlist: _, values: _ }) => Ok(
                Converter::Time { format },
            ),
            Schema::T(TypedSchema::String { format: None, enumlist: None, values: None }) => Ok(
                Converter::Passthrough,
            ),
            Schema::T(TypedSchema::String { format: None, enumlist: Some(_), values: None }) => Err(
                owned("String Schema: enumlist without values!"),
            ),
            Schema::T(TypedSchema::String { format: None, enumlist: _, values: Some(values) }) => {
                let ghost vv = values@.map_values(|p: descriptions::PropertyValue<String>| p@);
                let mut m: Vec<(String, String)> = Vec::new();
                let mut i: usize = 0;
                let n = values.len();
                let mut vals = values;
                // the values are taken from the back; the entries are then inserted in order
                let mut taken: Vec<(String, String)> = Vec::new();
                while i < n
                    invariant
                        i <= n,
                        n == vv.len(),
                        vals@.map_values(|p: descriptions::PropertyValue<String>| p@) == vv.take(
                            n - i,
                        ),
                        vals@.len() == n - i,
                        sm == schema.model(),
                        sm matches SchemaView::String { format: None, values: Some(x), .. } && x == vv,
                        taken@.len() == i,
                        forall|k: int|
                            0 <= k < i ==> #[trigger] taken@[k].0@ == vv[n - 1 - k].value
                                && Some(taken@[k].1@) == vv[n - 1 - k].edt,
                        forall|k: int| n - i <= k < n ==> (#[trigger] vv[k]).edt is Some,
                    decreases n - i,
                {
                    let ghost before = vals@;
                    let p = vals.pop().unwrap();
                    assert(p == before[n - i - 1]);
                    assert(before.map_values(|p: descriptions::PropertyValue<String>| p@)[n - i - 1]
                        == before[n - i - 1]@);
                    assert(vv.take(n - i)[n - i - 1] == vv[n - i - 1]);
                    assert(vals@.map_values(|p: descriptions::PropertyValue<String>| p@) =~= vv.take(
                        n - i - 1,
                    ));
                    assert(p@ == vv[n - i - 1]);
                    match p.edt {
                        Some(edt) => {
                            let ghost ev = edt@;
                            let ghost pv = p.value@;
                            assert(Some(ev) == vv[n - i - 1].edt);
                            assert(pv == vv[n - i - 1].value);
                            taken.push((p.value, edt));
                            assert(taken@[i as int].0@ == vv[n - 1 - i].value);
                        },
                        None => {
                            assert(vv[n - i - 1].edt is None);
                            assert(!(forall|k: int| 0 <= k < vv.len() ==> (#[trigger] vv[k]).edt is Some));
                            return Err(owned("Enumlist: not all values had edt"));
                        },
                    }
                    i = i + 1;
                }
                let mut j: usize = 0;
                while j < n
                    invariant
                        j <= n,
                        n == vv.len(),
                        taken@.len() == n - j,
                        forall|k: int|
                            0 <= k < n - j ==> #[trigger] taken@[k].0@ == vv[n - 1 - k].value
                                && Some(taken@[k].1@) == vv[n - 1 - k].edt,
                        forall|k: int| 0 <= k < n ==> (#[trigger] vv[k]).edt is Some,
                        pairs_view(m@) == enum_entries(vv.take(j as int)),
                    decreases n - j,
                {
                    let (k, v) = taken.pop().unwrap();
                    proof {
                        let pre = vv.take(j + 1);
                        assert(pre.drop_last() =~= vv.take(j as int));
                        assert(pre.last() == vv[j as int]);
                    }
                    enum_insert(&mut m, k, v);
                    j = j + 1;
                }
                assert(vv.take(n as int) =~= vv);
                Ok(Converter::Enumlist(m))
            },
            Schema::T(TypedSchema::Null { edt: Some(edt) }) => Ok(Converter::Null { edt }),
            Schema::T(TypedSchema::Null { edt: None }) => Err(owned("Null Schema without edt")),
            Schema::T(TypedSchema::Boolean { values }) => {
                let true_value = match first_edt_exec(&values, true) {
                    Some(t) => t,
                    None => {
                        return Err(owned("No true value"));
                    },
                };
                let false_value = match first_edt_exec(&values, false) {
                    Some(f) => f,
                    None => {
                        return Err(owned("No false value"));
                    },
                };
                Ok(Converter::Boolean { true_value, false_value })
            },
            Schema::T(
                TypedSchema::Number { unit: _, minimum: Some(minimum), maximum: Some(maximum), multiple_of },
            ) => Ok(
                Converter::Number {
                    minimum,
                    maximum,
                    multiple_of: match multiple_of {
                        Some(m) => m,
                        None => ONE_F32_BITS,
                    },
                },
            ),
            Schema::T(TypedSchema::Number { .. }) => Err(owned("Number schema: min and/or max missing")),
            Schema::T(TypedSchema::Object { properties: _ }) => Err(
                owned("Object Schema: no ordering information"),
            ),
            Schema::T(TypedSchema::Array { .. }) => Err(owned("Schema Array: unimplemented!")),
            Schema::OneOf(opts) => {
                let ghost os = opts.one_of@;
                let ghost ov = os.map_values(|x: Schema| x.model());
                proof {
                    let z = match sm {
                        SchemaView::OneOf { one_of } => one_of,
                        _ => Seq::empty(),
                    };
                    assert(sm == SchemaView::OneOf { one_of: z });
                    assert forall|k: int| 0 <= k < z.len() implies z[k] == ov[k] by {}
                    assert(z =~= ov);
                }
                let n = opts.one_of.len();
                let mut rest = opts.one_of;
                let mut rev: Vec<Schema> = Vec::new();
                let mut i: usize = 0;
                while i < n
                    invariant
                        i <= n,
                        n == os.len(),
                        rest@ == os.take(n - i),
                        rev@.len() == i,
                        forall|k: int| 0 <= k < i ==> #[trigger] rev@[k] == os[n - 1 - k],
                    decreases n - i,
                {
                    let x = rest.pop().unwrap();
                    assert(rest@ =~= os.take(n - i - 1));
                    rev.push(x);
                    i = i + 1;
                }
                let mut out: Vec<Converter> = Vec::new();
                let mut j: usize = 0;
                while j < n
                    invariant
                        j <= n,
                        n == os.len(),
                        ov == os.map_values(|x: Schema| x.model()),
                        sm == (SchemaView::OneOf { one_of: ov }),
                        sm == schema.model(),
                        rev@.len() == n - j,
                        forall|k: int| 0 <= k < n - j ==> #[trigger] rev@[k] == os[n - 1 - k],
                        out@.len() == j,
                        all_convert(ov.take(j as int)),
                        forall|k: int| 0 <= k < j ==> #[trigger] out@[k].model() == converted(ov.take(j as int))[k],
                        converted(ov.take(j as int)).len() == j,
                        decreases_to!(schema => os),
                    decreases n - j,
                {
                    let s = rev.pop().unwrap();
                    proof {
                        assert(s == os[j as int]);
                        assert(decreases_to!(schema => s));
                        let pre = ov.take(j + 1);
                        assert(pre.drop_last() =~= ov.take(j as int));
                        assert(pre.last() == s.model());
                    }
                    match Converter::try_from(s) {
                        Ok(c) => {
                            out.push(c);
                        },
                        Err(_) => {
                            proof {
                                lemma_all_convert_prefix(ov, j + 1, n as int);
                                assert(ov.take(n as int) =~= ov);
                            }
                            return Err(owned("Schema OneOf: cannot convert all schemes"));
                        },
                    }
                    j = j + 1;
                }
                let res = Converter::OneOf { opts: out };
                proof {
                    assert(ov.take(n as int) =~= ov);
                    let z = match res.model() {
                        ConverterView::OneOf { opts } => opts,
                        _ => Seq::empty(),
                    };
                    let y = converted(ov);
                    assert(res.model() == ConverterView::OneOf { opts: z });
                    assert(converter_of(sm)->Ok_0 == ConverterView::OneOf { opts: y });
                    assert forall|k: int| 0 <= k < z.len() implies z[k] == y[k] by {
                        assert(out@[k].model() == y[k]);
                    }
                    assert(z =~= y);
                }
                Ok(res)
            },
        }
    }
}

/// The converter that a schema and its additional information give together:
/// numbers take their bounds from the schema, else from the information; objects
/// take their members' order from the information and convert each member.
/// `None` for a combination that is not implemented.
pub fn try_fuse(description: &Schema, ai: &AdditionalInfo) -> (r: Option<Result<Converter, String>>)
    ensures
        r is None <==> fuse_spec(description.model(), ai.model()) is None,
        r matches Some(x) ==> matches_result(x, fuse_spec(description.model(), ai.model())->0),
    decreases ai, 0int,
{
    match (description, ai) {
        (Schema::T(TypedSchema::Object { properties }), AdditionalInfo::Object { order }) => {
            proof {
                let pz = match description.model() {
                    SchemaView::Object { properties } => properties,
                    _ => Seq::empty(),
                };
                assert(description.model() == SchemaView::Object { properties: pz });
                assert(pz =~= schema_props_view(properties@));
                let oz = match ai.model() {
                    InfoView::Object { order } => order,
                    _ => Seq::empty(),
                };
                assert(ai.model() == InfoView::Object { order: oz });
                assert(oz =~= order_view(order@));
                assert(decreases_to!(*ai => ai->order));
            }
            try_fuse_objects(properties, order)
        },
        (
            Schema::T(TypedSchema::Number { unit: _, minimum: smin, maximum: smax, multiple_of: smof }),
            AdditionalInfo::Number { size: _, min: amin, max: amax, multiple_of: amof },
        ) => {
            let min = match (smin, amin) {
                (Some(x), _) => *x,
                (None, Some(x)) => *x,
                (None, None) => {
                    return Some(Err(owned("fuse numbers: no min spec!")));
                },
            };
            let max = match (smax, amax) {
                (Some(x), _) => *x,
                (None, Some(x)) => *x,
                (None, None) => {
                    return Some(Err(owned("fuse numbers: no max spec!")));
                },
            };
            let mof = match (smof, amof) {
                (Some(x), _) => *x,
                (None, Some(x)) => *x,
                (None, None) => {
                    return Some(Err(owned("fuse numbers: no multipe_of spec!")));
                },
            };
            Some(Ok(Converter::Number { minimum: min, maximum: max, multiple_of: mof }))
        },
        _ => {
            proof {
                assert(fuse_spec(description.model(), ai.model()) is None);
            }
            None
        },
    }
}

/// The converter of an object: checks that the order names exactly the
/// schema's members, then converts each member in that order, with its
/// information where it has some.
/// `None` where a member's combination is not implemented.
pub fn try_fuse_objects(properties: &Vec<(String, Schema)>, order: &Vec<NamedInfo>) -> (r: Option<
    Result<Converter, String>,
>)
    ensures
        r is None <==> fuse_objects_spec(schema_props_view(properties@), order_view(order@)) is None,
        r matches Some(x) ==> matches_result(
            x,
            fuse_objects_spec(schema_props_view(properties@), order_view(order@))->0,
        ),
    decreases order, 1int,
{
    let ghost pv = schema_props_view(properties@);
    let ghost ov = order_view(order@);
    if properties.len() != order.len() {
        return Some(Err(owned("fuse objects: ordering info different from properties")));
    }
    let mut i: usize = 0;
    while i < order.len()
        invariant
            i <= order.len(),
            order.len() == properties.len(),
            pv == schema_props_view(properties@),
            ov == order_view(order@),
            forall|k: int| 0 <= k < i ==> index_of_key(pv, (#[trigger] ov[k]).0) >= 0,
        decreases order.len() - i,
    {
        let found = key_index(properties, order[i].name.as_str());
        proof {
            lemma_index_of_key_same_keys(
                properties@.map_values(|p: (String, Schema)| (p.0@, p.1)),
                pv,
                order[i as int].name@,
            );
            assert(ov[i as int].0 == order[i as int].name@);
        }
        if found.is_none() {
            assert(index_of_key(pv, ov[i as int].0) < 0);
            assert(pv.len() == ov.len());
            return Some(Err(owned("fuse objects: properties/order mismatch")));
        }
        i = i + 1;
    }
    assert(!(exists|k: int| 0 <= k < ov.len() && index_of_key(pv, (#[trigger] ov[k]).0) < 0));
    let mut out: Vec<(String, Converter)> = Vec::new();
    let mut j: usize = 0;
    assert(ov.take(0) =~= Seq::<(Seq<char>, Option<InfoView>)>::empty());
    assert(converters_view(out@) =~= Seq::<(Seq<char>, ConverterView)>::empty());
    while j < order.len()
        invariant
            j <= order.len(),
            order.len() == properties.len(),
            pv == schema_props_view(properties@),
            ov == order_view(order@),
            forall|k: int| 0 <= k < ov.len() ==> index_of_key(pv, (#[trigger] ov[k]).0) >= 0,
            fuse_list(pv, ov.take(j as int)) == Some(
                Ok::<Seq<(Seq<char>, ConverterView)>, Seq<char>>(converters_view(out@)),
            ),
        decreases order.len() - j,
    {
        let ni = &order[j];
        let idx = match key_index(properties, ni.name.as_str()) {
            Some(x) => x,
            None => {
                proof {
                    lemma_index_of_key_same_keys(
                        properties@.map_values(|p: (String, Schema)| (p.0@, p.1)),
                        pv,
                        ni.name@,
                    );
                    assert(ov[j as int].0 == ni.name@);
                }
                return Some(Err(owned("fuse objects: properties/order mismatch")));
            },
        };
        proof {
            lemma_index_of_key_same_keys(
                properties@.map_values(|p: (String, Schema)| (p.0@, p.1)),
                pv,
                ni.name@,
            );
            lemma_index_of_key_spec(pv, ni.name@);
        }
        let ghost pre = ov.take(j + 1);
        let ghost sch = pv[idx as int].1;
        proof {
            assert(pre.drop_last() =~= ov.take(j as int));
            assert(pre.last() == ov[j as int]);
            assert(ov[j as int] == (ni.name@, opt_info_view(ni.info)));
            assert(pv[idx as int].1 == properties@[idx as int].1.model());
        }
        let res = match &ni.info {
            Some(a) => {
                proof {
                    assert(decreases_to!(*order => order[j as int]));
                    assert(decreases_to!(order[j as int] => order[j as int].info));
                    assert(decreases_to!(order[j as int].info => order[j as int].info->0));
                    assert(ov[j as int].1 == Some(a.model()));
                }
                match try_fuse(&properties[idx].1, a) {
                    Some(x) => x,
                    None => {
                        proof {
                            lemma_fuse_list_stops(pv, ov, j + 1, ov.len() as int);
                            assert(ov.take(ov.len() as int) =~= ov);
                        }
                        return None;
                    },
                }
            },
            None => Converter::try_from(properties[idx].1.duplicate()),
        };
        match res {
            Ok(c) => {
                assert(member_converter(sch, ov[j as int].1) == Some(
                    Ok::<ConverterView, Seq<char>>(c.model()),
                ));
                let ghost old_out = converters_view(out@);
                out.push((ni.name.clone(), c));
                assert(converters_view(out@) =~= old_out.push((ni.name@, c.model())));
                assert(converters_view(out@) =~= fuse_list(pv, ov.take(j + 1))->0->Ok_0);
            },
            Err(e) => {
                proof {
                    lemma_fuse_list_stops(pv, ov, j + 1, ov.len() as int);
                    assert(ov.take(ov.len() as int) =~= ov);
                }
                return Some(Err(concat("fuse objects: some converter failed: ", e.as_str())));
            },
        }
        j = j + 1;
    }
    assert(ov.take(order.len() as int) =~= ov);
    let res = Converter::Object { properties: out };
    proof {
        let z = match res.model() {
            ConverterView::Object { properties } => properties,
            _ => Seq::empty(),
        };
        assert(res.model() == ConverterView::Object { properties: z });
        assert(z =~= converters_view(out@));
    }
    Some(Ok(res))
}

/// The converter that a schema and its additional information give together:
/// numbers take their bounds from the schema, else from the information; objects
/// take their members' order from the information and convert each member.
pub fn fuse(description: &Schema, ai: &AdditionalInfo) -> (r: Result<Converter, String>)
    requires
        fuse_spec(description.model(), ai.model()) is Some,
    ensures
        matches_result(r, fuse_spec(description.model(), ai.model())->0),
{
    match try_fuse(description, ai) {
        Some(x) => x,
        None => {
            assert(false);
            Err(owned("fuse: no such combination"))
        },
    }
}

/// The converter of an object: checks that the order names exactly the
/// schema's members, then converts each member in that order, with its
/// information where it has some.
pub fn fuse_objects(properties: &Vec<(String, Schema)>, order: &Vec<NamedInfo>) -> (r: Result<
    Converter,
    String,
>)
    requires
        fuse_objects_spec(schema_props_view(properties@), order_view(order@)) is Some,
    ensures
        matches_result(r, fuse_objects_spec(schema_props_view(properties@), order_view(order@))->0),
{
    match try_fuse_objects(properties, order) {
        Some(x) => x,
        None => {
            assert(false);
            Err(owned("fuse objects: no such combination"))
        },
    }
}

/// A property value with its EDT code, as a converter needs it.
#[derive(Debug)]
pub struct PropertyValue<T> {
    pub value: T,
    pub edt: String,
}

impl<T> PropertyValue<T> {
    /// The value of a description with its EDT code; an error when the
    /// description gives no code.
    pub fn try_from(dp: descriptions::PropertyValue<T>) -> (r: Result<Self, String>)
        ensures
            match r {
                Ok(p) => dp.edt == Some(p.edt) && p.value == dp.value,
                Err(e) => dp.edt is None && e@ == "No edt value in property value"@,
            },
    {
        match dp.edt {
            None => Err(owned("No edt value in property value")),
            Some(edt) => Ok(PropertyValue { value: dp.value, edt }),
        }
    }
}

impl Ais {
    /// The additional information of the device class `eoj`, from its first entry.
    pub fn properties(&self, eoj: &str) -> (r: Option<&Vec<PropertyInfo>>)
        ensures
            match r {
                Some(v) => exists|i: int|
                    0 <= i < self.entries@.len() && self.entries@[i].eoj@ == eoj@ && *v
                        == self.entries@[i].ai && forall|j: int|
                        0 <= j < i ==> (#[trigger] self.entries@[j]).eoj@ != eoj@,
                None => forall|i: int|
                    0 <= i < self.entries@.len() ==> (#[trigger] self.entries@[i]).eoj@ != eoj@,
            },
    {
        let mut i: usize = 0;
        while i < self.entries.len()
            invariant
                i <= self.entries.len(),
                forall|j: int| 0 <= j < i ==> (#[trigger] self.entries@[j]).eoj@ != eoj@,
            decreases self.entries.len() - i,
        {
            if str_eq(self.entries[i].eoj.as_str(), eoj) {
                return Some(&self.entries[i].ai);
            }
            i = i + 1;
        }
        None
    }
}

/// The bytes still to be decoded from a property's EDT.
pub struct BinaryContext<'a> {
    pub data: &'a [u8],
}

impl<'a> From<&'a [u8]> for BinaryContext<'a> {
    fn from(data: &'a [u8]) -> (r: Self) {
        BinaryContext { data }
    }
}

impl<'a> FromSpecImpl<&'a [u8]> for BinaryContext<'a> {
    open spec fn obeys_from_spec() -> bool {
        true
    }

    open spec fn from_spec(v: &'a [u8]) -> BinaryContext<'a> {
        BinaryContext { data: v }
    }
}

/// What `String::from_utf8_lossy` makes of a byte string.
pub uninterp spec fn utf8_lossy(bytes: Seq<u8>) -> Seq<char>;

/// Calls `String::from_utf8_lossy`: text decoded from UTF-8 with invalid sequences
/// replaced. The contract names the result and states what the documentation
/// states of it: valid UTF-8 is decoded unchanged. Which replacement characters
/// stand for invalid input is left unsaid.
#[verifier::external_body]
fn lossy_text(bytes: &[u8]) -> (r: String)
    ensures
        r@ == utf8_lossy(bytes@),
        valid_utf8(bytes@) ==> r@ == decode_utf8(bytes@),
{
    String::from_utf8_lossy(bytes).to_string()
}

/// `0x` and a byte as two lower-case hex digits, right-aligned in a field of two
/// (so a byte below 16 reads `0x 5`).
pub open spec fn edt_text(b: u8) -> Seq<char> {
    if b < 16 {
        seq!['0', 'x', ' ', hex::lower_digit(b as nat)]
    } else {
        seq!['0', 'x', hex::lower_digit(b as nat / 16), hex::lower_digit(b as nat % 16)]
    }
}

fn edt_string(b: u8) -> (r: String)
    ensures
        r@ == edt_text(b),
{
    proof {
        reveal_strlit("0x ");
        reveal_strlit("0x");
    }
    if b < 16 {
        concat("0x ", hex::lower_digit_str(b))
    } else {
        concat3("0x", hex::lower_digit_str(b / 16), hex::lower_digit_str(b % 16))
    }
}

/// The error message of [`Converter::json_enumlist`] for a name without an entry.
pub open spec fn no_entry_message(input: Seq<char>) -> Seq<char> {
    "no entry for: "@ + input
}

/// The error message of [`Converter::json_enumlist`] for an entry that is no hex byte.
pub open spec fn bad_entry_message(input: Seq<char>) -> Seq<char> {
    "json_enum: invalid entry for "@ + input + ", fix ASAP!"@
}

impl Converter {
    /// The UTF-8 bytes of a string.
    pub fn json_passthrough(input: &str) -> (r: Result<Vec<u8>, NetError>)
        ensures
            r is Ok,
            r->Ok_0@ == encode_utf8(input@),
    {
        Ok(slice_to_vec(input.as_bytes()))
    }

    /// The EDT byte of an enumerated value: the low byte of the number that the
    /// EDT code of the first entry named `input` denotes.
    pub fn json_enumlist(input: &str, map: &Vec<(String, String)>) -> (r: Result<Vec<u8>, NetError>)
        ensures
            ({
                let j = index_of_key(pairs_view(map@), input@);
                if j < 0 {
                    r matches Err(NetError::BadRequest(m)) && m@ == no_entry_message(input@)
                } else {
                    match hex_digits(pairs_view(map@)[j].1) {
                        None => r matches Err(NetError::Internal(m)) && m@ == bad_entry_message(
                            input@,
                        ),
                        Some(d) => r is Ok && r->Ok_0@ == seq![(hex_value(d) % 256) as u8],
                    }
                }
            }),
    {
        let ghost mv = pairs_view(map@);
        let found = key_index(map, input);
        proof {
            lemma_index_of_key_same_keys(
                map@.map_values(|p: (String, String)| (p.0@, p.1)),
                mv,
                input@,
            );
            lemma_index_of_key_spec(mv, input@);
        }
        let idx = match found {
            None => {
                return Err(NetError::BadRequest(concat("no entry for: ", input)));
            },
            Some(i) => i,
        };
        match hex::to_usize(map[idx].1.as_str()) {
            None => Err(
                NetError::Internal(concat3("json_enum: invalid entry for ", input, ", fix ASAP!")),
            ),
            Some(v) => {
                let b = v as u8;
                proof {
                    let d = hex_digits(mv[idx as int].1)->0;
                    assert(v as u8 == (v % 256) as u8) by (bit_vector);
                    assert(usize_modulus() == 256 * (usize_modulus() / 256)) by {
                        if usize::BITS == 64 {
                            assert(usize_modulus() == 0x1_0000_0000_0000_0000);
                        } else {
                            assert(usize_modulus() == 0x1_0000_0000);
                        }
                    }
                    vstd::arithmetic::div_mod::lemma_mod_mod(
                        hex_value(d) as int,
                        256,
                        (usize_modulus() / 256) as int,
                    );
                }
                Ok(vec![b])
            },
        }
    }

    /// The EDT bytes of a boolean: those that the true or the false code denotes.
    pub fn json_boolean(value: Option<bool>, true_value: &str, false_value: &str) -> (r: Result<
        Vec<u8>,
        NetError,
    >)
        ensures
            match value {
                None => r matches Err(NetError::BadRequest(m)) && m@ == "not a boolean!"@,
                Some(b) => {
                    let code = if b {
                        true_value@
                    } else {
                        false_value@
                    };
                    match hex_digits(code) {
                        None => r matches Err(NetError::Internal(m)) && m@
                            == "json_boolean: failed to convert to hex, fix asap!"@,
                        Some(d) => r is Ok && r->Ok_0@ == hex_bytes(d),
                    }
                },
            },
    {
        let b = match value {
            None => {
                return Err(NetError::BadRequest(owned("not a boolean!")));
            },
            Some(b) => b,
        };
        match hex::to_bytes(
            if b {
                true_value
            } else {
                false_value
            },
        ) {
            None => Err(NetError::Internal(owned("json_boolean: failed to convert to hex, fix asap!"))),
            Some(bytes) => Ok(bytes),
        }
    }

    /// All remaining bytes as text (decoded as UTF-8, invalid sequences replaced);
    /// consumes them.
    pub fn binary_passthrough(context: &mut BinaryContext) -> (r: Result<String, NetError>)
        ensures
            final(context).data@.len() == 0,
            r is Ok,
            r->Ok_0@ == utf8_lossy(old(context).data@),
            valid_utf8(old(context).data@) ==> r->Ok_0@ == decode_utf8(old(context).data@),
    {
        let data = context.data;
        context.data = slice_subrange(data, data.len(), data.len());
        Ok(lossy_text(data))
    }

    /// The name of the first entry whose EDT code is the next byte, written as
    /// [`edt_text`]; consumes that byte.
    pub fn binary_enumlist(context: &mut BinaryContext, map: &Vec<(String, String)>) -> (r: Result<
        String,
        NetError,
    >)
        requires
            old(context).data@.len() >= 1,
        ensures
            final(context).data@ == old(context).data@.drop_first(),
            ({
                let code = edt_text(old(context).data@[0]);
                let entries = pairs_view(map@);
                if exists|i: int| 0 <= i < entries.len() && (#[trigger] entries[i]).1 == code {
                    r is Ok && exists|i: int|
                        0 <= i < entries.len() && (#[trigger] entries[i]).1 == code && r->Ok_0@
                            == entries[i].0 && forall|j: int|
                            0 <= j < i ==> (#[trigger] entries[j]).1 != code
                } else {
                    r matches Err(NetError::Conversion(m)) && m@ == "binary_enumlist: no key for edt: "@
                        + code
                }
            }),
    {
        let ghost entries = pairs_view(map@);
        let data = context.data;
        let data_string = edt_string(data[0]);
        context.data = slice_subrange(data, 1, data.len());
        assert(context.data@ =~= old(context).data@.drop_first());
        let mut i: usize = 0;
        while i < map.len()
            invariant
                i <= map.len(),
                entries == pairs_view(map@),
                context.data@ == old(context).data@.drop_first(),
                data_string@ == edt_text(old(context).data@[0]),
                forall|j: int| 0 <= j < i ==> (#[trigger] entries[j]).1 != data_string@,
            decreases map.len() - i,
        {
            if str_eq(map[i].1.as_str(), data_string.as_str()) {
                assert(entries[i as int].1 == data_string@);
                return Ok(map[i].0.clone());
            }
            i = i + 1;
        }
        Err(NetError::Conversion(concat("binary_enumlist: no key for edt: ", data_string.as_str())))
    }

    /// `true` when the next byte is the first byte of the true code, `false` when it
    /// is that of the false code; consumes it. An empty context is reported as a
    /// failed read and left as it is.
    pub fn binary_boolean(context: &mut BinaryContext, true_value: &str, false_value: &str) -> (r:
        Result<bool, NetError>)
        ensures
            old(context).data@.len() == 0 ==> (r matches Err(NetError::WriteNG) && final(context).data@
                == old(context).data@),
            old(context).data@.len() > 0 ==> {
                let v = old(context).data@[0];
                &&& final(context).data@ == old(context).data@.drop_first()
                &&& match (hex_digits(true_value@), hex_digits(false_value@)) {
                    (None, _) => r matches Err(NetError::Internal(m)) && m@ == "bad data"@,
                    (Some(_), None) => r matches Err(NetError::Internal(m)) && m@ == "bad data"@,
                    (Some(t), Some(f)) => if v == hex_bytes(t)[0] {
                        r == Ok::<bool, NetError>(true)
                    } else if v == hex_bytes(f)[0] {
                        r == Ok::<bool, NetError>(false)
                    } else {
                        r matches Err(NetError::Conversion(m)) && m@
                            == "binary_boolean: Invalid binary value: "@ + decimal(v as nat)
                    },
                }
            },
    {
        let data = context.data;
        if data.len() == 0 {
            return Err(NetError::WriteNG);
        }
        let val = data[0];
        context.data = slice_subrange(data, 1, data.len());
        let tv = match hex::to_bytes(true_value) {
            Some(b) => b,
            None => {
                return Err(NetError::Internal(owned("bad data")));
            },
        };
        let fv = match hex::to_bytes(false_value) {
            Some(b) => b,
            None => {
                return Err(NetError::Internal(owned("bad data")));
            },
        };
        if val == tv[0] {
            Ok(true)
        } else if val == fv[0] {
            Ok(false)
        } else {
            Err(
                NetError::Conversion(
                    concat("binary_boolean: Invalid binary value: ", decimal_string(val).as_str()),
                ),
            )
        }
    }
}

impl<'a> BinaryContext<'a> {
    /// The big-endian number in the next `size` bytes, which are consumed: the raw
    /// value of a number property before its scale is applied.
    pub fn take_number(&mut self, size: usize) -> (r: u32)
        requires
            size <= 4,
            size <= old(self).data@.len(),
        ensures
            r as nat == hex::be_value(old(self).data@.take(size as int)),
            final(self).data@ == old(self).data@.skip(size as int),
    {
        let data = self.data;
        let head = slice_subrange(data, 0, size);
        self.data = slice_subrange(data, size, data.len());
        assert(head@ =~= data@.take(size as int));
        assert(self.data@ =~= data@.skip(size as int));
        hex::bytes_as_u32(head)
    }
}

/// The decimal digits of a number, most significant first, without leading zeros
/// (`0` for zero).
pub open spec fn decimal(n: nat) -> Seq<char>
    decreases n,
{
    if n < 10 {
        seq![hex::lower_digit(n)]
    } else {
        decimal(n / 10) + seq![hex::lower_digit(n % 10)]
    }
}

/// A byte in decimal.
pub fn decimal_string(v: u8) -> (r: String)
    ensures
        r@ == decimal(v as nat),
{
    if v < 10 {
        owned(hex::lower_digit_str(v))
    } else if v < 100 {
        proof {
            assert(decimal(v as nat) == decimal(v as nat / 10) + seq![hex::lower_digit(v as nat % 10)]);
        }
        concat(hex::lower_digit_str(v / 10), hex::lower_digit_str(v % 10))
    } else {
        proof {
            assert(decimal(v as nat / 10) == decimal(v as nat / 100) + seq![hex::lower_digit((v as nat / 10) % 10)]);
        }
        concat3(
            hex::lower_digit_str(v / 100),
            hex::lower_digit_str((v / 10) % 10),
            hex::lower_digit_str(v % 10),
        )
    }
}


/// A lower-case hex digit reads back as the value it was written for.
proof fn lemma_lower_digit(v: nat)
    requires
        v < 16,
    ensures
        hex::is_hex_digit(hex::lower_digit(v)),
        hex::digit_value(hex::lower_digit(v)) == v,
{
}

/// The code [`edt_text`] writes for a byte from `0x10` on is a well-formed hex string
/// that denotes that byte.
pub proof fn lemma_edt_text_value(b: u8)
    requires
        b >= 16,
    ensures
        hex_digits(edt_text(b)) is Some,
        (hex_value(hex_digits(edt_text(b))->0) % 256) as u8 == b,
{
    let t = edt_text(b);
    let d = seq![hex::lower_digit(b as nat / 16), hex::lower_digit(b as nat % 16)];
    lemma_lower_digit(b as nat / 16);
    lemma_lower_digit(b as nat % 16);
    assert(t.skip(2) =~= d);
    assert(hex::strip_hex_prefix(t) == d);
    assert(hex::is_hex_run(d));
    hex::lemma_one_byte_agrees(d);
    assert(hex_value(d) == hex::digit_value(d[0]) * 16 + hex::digit_value(d[1])) by {
        assert(d.drop_last().drop_last() =~= Seq::<char>::empty());
    }
    assert(hex_value(d) == b as nat);
}

/// Text written as EDT bytes ([`Converter::json_passthrough`]) is valid UTF-8 and
/// reads back ([`Converter::binary_passthrough`]) as the same text.
pub proof fn lemma_passthrough_round_trip(text: Seq<char>)
    ensures
        valid_utf8(encode_utf8(text)),
        decode_utf8(encode_utf8(text)) == text,
{
    vstd::utf8::encode_utf8_valid_utf8(text);
    vstd::utf8::encode_utf8_decode_utf8(text);
}

/// An enumerated value written and read back is the same name: where the first entry
/// named `name` has the code [`edt_text`] gives a byte `b` from `0x10` on, and no
/// entry before it has that code, [`Converter::json_enumlist`] writes `b` and
/// [`Converter::binary_enumlist`] reads `b` as `name`.
pub proof fn lemma_enum_write_read(entries: Seq<(Seq<char>, Seq<char>)>, name: Seq<char>, b: u8)
    requires
        b >= 16,
        index_of_key(entries, name) >= 0,
        entries[index_of_key(entries, name)].1 == edt_text(b),
        forall|i: int|
            0 <= i < index_of_key(entries, name) ==> (#[trigger] entries[i]).1 != edt_text(b),
    ensures
        hex_digits(entries[index_of_key(entries, name)].1) is Some,
        (hex_value(hex_digits(entries[index_of_key(entries, name)].1)->0) % 256) as u8 == b,
        exists|i: int|
            0 <= i < entries.len() && (#[trigger] entries[i]).1 == edt_text(b) && entries[i].0 == name
                && forall|j: int| 0 <= j < i ==> (#[trigger] entries[j]).1 != edt_text(b),
{
    let j = index_of_key(entries, name);
    lemma_index_of_key_spec(entries, name);
    lemma_edt_text_value(b);
    assert(0 <= j < entries.len() && entries[j].1 == edt_text(b) && entries[j].0 == name);
}

/// An enumerated value read and written back is the same byte: where entry `i` is the
/// first with the code [`edt_text`] gives a byte `b` from `0x10` on, and no entry
/// before it has its name, [`Converter::binary_enumlist`] reads `b` as that name and
/// [`Converter::json_enumlist`] writes that name as `b`.
pub proof fn lemma_enum_read_write(entries: Seq<(Seq<char>, Seq<char>)>, b: u8, i: int)
    requires
        b >= 16,
        0 <= i < entries.len(),
        entries[i].1 == edt_text(b),
        forall|j: int| 0 <= j < i ==> (#[trigger] entries[j]).1 != edt_text(b),
        forall|j: int| 0 <= j < i ==> (#[trigger] entries[j]).0 != entries[i].0,
    ensures
        index_of_key(entries, entries[i].0) == i,
        hex_digits(entries[i].1) is Some,
        (hex_value(hex_digits(entries[i].1)->0) % 256) as u8 == b,
{
    lemma_index_of_key_first(entries, entries[i].0, i);
    lemma_edt_text_value(b);
}

/// A boolean written and read back is the same boolean, where both codes are
/// well-formed and their first bytes differ: [`Converter::json_boolean`] writes the
/// bytes of the code for `value`, and [`Converter::binary_boolean`] reads their first
/// byte as `value`.
pub proof fn lemma_boolean_round_trip(true_value: Seq<char>, false_value: Seq<char>, value: bool)
    requires
        hex_digits(true_value) is Some,
        hex_digits(false_value) is Some,
        hex_bytes(hex_digits(true_value)->0)[0] != hex_bytes(hex_digits(false_value)->0)[0],
    ensures
        ({
            let written = hex_bytes(
                hex_digits(
                    if value {
                        true_value
                    } else {
                        false_value
                    },
                )->0,
            );
            &&& written.len() >= 1
            &&& (written[0] == hex_bytes(hex_digits(true_value)->0)[0]) == value
            &&& !value ==> written[0] == hex_bytes(hex_digits(false_value)->0)[0]
        }),
{
}

/// A number schema gives a number converter exactly when it has both bounds; the
/// converter keeps those bounds and the schema's `multipleOf`, and scales by 1.0
/// (`0x3f80_0000`) only when the schema gives no `multipleOf`.
pub proof fn lemma_number_converter(
    unit: Option<Seq<char>>,
    minimum: Option<u32>,
    maximum: Option<u32>,
    multiple_of: Option<u32>,
)
    ensures
        ({
            let c = converter_of(SchemaView::Number { unit, minimum, maximum, multiple_of });
            &&& (minimum is Some && maximum is Some) <==> c is Ok
            &&& c is Ok ==> c->Ok_0 == ConverterView::Number {
                minimum: minimum->0,
                maximum: maximum->0,
                multiple_of: if multiple_of is Some {
                    multiple_of->0
                } else {
                    0x3f80_0000u32
                },
            }
        }),
{
}

/// Fusing a number schema with number information takes each of the minimum,
/// maximum and `multipleOf` from the schema where it gives one, and from the
/// information only where it does not; it fails exactly when neither gives one
/// of them.
pub proof fn lemma_fuse_numbers(
    unit: Option<Seq<char>>,
    smin: Option<u32>,
    smax: Option<u32>,
    smof: Option<u32>,
    size: Option<u8>,
    amin: Option<u32>,
    amax: Option<u32>,
    amof: Option<u32>,
)
    ensures
        ({
            let f = fuse_spec(
                SchemaView::Number { unit, minimum: smin, maximum: smax, multiple_of: smof },
                InfoView::Number { size, min: amin, max: amax, multiple_of: amof },
            );
            &&& f is Some
            &&& ((smin is Some || amin is Some) && (smax is Some || amax is Some) && (smof is Some
                || amof is Some)) <==> f->0 is Ok
            &&& f->0 is Ok ==> f->0->Ok_0 == ConverterView::Number {
                minimum: if smin is Some {
                    smin->0
                } else {
                    amin->0
                },
                maximum: if smax is Some {
                    smax->0
                } else {
                    amax->0
                },
                multiple_of: if smof is Some {
                    smof->0
                } else {
                    amof->0
                },
            }
        }),
{
}

} // verus!
