//! Device descriptions: the JSON documents of the ECHONET Lite Web API guidelines
//! that list a device class's properties and their value schemas.
//!
//! Numeric bounds of a schema are held as the IEEE-754 bit patterns of the `f32`
//! values that the documents give (`f32::to_bits`); this library only moves them.
//! Maps of the documents (name to property, name to schema) are held as vectors
//! of pairs in document order.
use vstd::prelude::*;

verus! {

/// A text in Japanese and English.
#[derive(Debug)]
pub struct TextDescription {
    pub ja: String,
    pub en: String,
}

/// One property of a device class.
#[derive(Debug)]
pub struct DeviceProperty {
    pub epc: String,
    pub descriptions: TextDescription,
    pub writable: bool,
    pub observable: bool,
    pub schema: Schema,
}

/// One admissible value of an enumerated or boolean property, with its EDT code.
#[derive(Debug)]
pub struct PropertyValue<T> {
    pub value: T,
    pub descriptions: TextDescription,
    pub edt: Option<String>,
}

/// A schema with a `type` tag.
#[derive(Debug)]
pub enum TypedSchema {
    Boolean { values: Vec<PropertyValue<bool>> },
    String {
        format: Option<String>,
        enumlist: Option<Vec<String>>,
        values: Option<Vec<PropertyValue<String>>>,
    },
    /// Bounds are `f32` bit patterns.
    Number {
        unit: Option<String>,
        minimum: Option<u32>,
        maximum: Option<u32>,
        multiple_of: Option<u32>,
    },
    Null { edt: Option<String> },
    Object { properties: Vec<(String, Schema)> },
    Array { min_items: Option<u32>, max_items: Option<u32>, items: Box<Schema> },
}

/// The alternatives of a `oneOf` schema.
#[derive(Debug)]
pub struct Options {
    pub one_of: Vec<Schema>,
}

/// A property's value schema.
#[derive(Debug)]
pub enum Schema {
    T(TypedSchema),
    OneOf(Options),
}

/// The description of one device class.
#[derive(Debug)]
pub struct DeviceDescription {
    pub device_type: String,
    pub eoj: String,
    pub descriptions: TextDescription,
    pub properties: Vec<(String, DeviceProperty)>,
}

/// All device descriptions that were read.
pub type Descriptions = Vec<DeviceDescription>;

/// A text in Japanese and English, as character sequences.
pub struct TextView {
    pub ja: Seq<char>,
    pub en: Seq<char>,
}

/// An admissible value with its EDT code, strings as character sequences.
pub struct ValueView<T> {
    pub value: T,
    pub descriptions: TextView,
    pub edt: Option<Seq<char>>,
}

/// A value schema, strings as character sequences; `oneOf` is one more case.
pub enum SchemaView {
    Boolean { values: Seq<ValueView<bool>> },
    String {
        format: Option<Seq<char>>,
        enumlist: Option<Seq<Seq<char>>>,
        values: Option<Seq<ValueView<Seq<char>>>>,
    },
    Number {
        unit: Option<Seq<char>>,
        minimum: Option<u32>,
        maximum: Option<u32>,
        multiple_of: Option<u32>,
    },
    Null { edt: Option<Seq<char>> },
    Object { properties: Seq<(Seq<char>, SchemaView)> },
    Array { min_items: Option<u32>, max_items: Option<u32>, items: Box<SchemaView> },
    OneOf { one_of: Seq<SchemaView> },
}

/// A device property, strings as character sequences.
pub struct PropertyView {
    pub epc: Seq<char>,
    pub descriptions: TextView,
    pub writable: bool,
    pub observable: bool,
    pub schema: SchemaView,
}

/// A device description, strings as character sequences.
pub struct DescriptionView {
    pub device_type: Seq<char>,
    pub eoj: Seq<char>,
    pub descriptions: TextView,
    pub properties: Seq<(Seq<char>, PropertyView)>,
}

/// An optional string as an optional character sequence.
pub open spec fn opt_view(s: Option<String>) -> Option<Seq<char>> {
    match s {
        Some(x) => Some(x@),
        None => None,
    }
}

/// A list of strings as character sequences.
pub open spec fn strings_view(v: Seq<String>) -> Seq<Seq<char>> {
    v.map_values(|s: String| s@)
}

impl View for TextDescription {
    type V = TextView;

    open spec fn view(&self) -> TextView {
        TextView { ja: self.ja@, en: self.en@ }
    }
}

impl View for PropertyValue<bool> {
    type V = ValueView<bool>;

    open spec fn view(&self) -> ValueView<bool> {
        ValueView { value: self.value, descriptions: self.descriptions@, edt: opt_view(self.edt) }
    }
}

impl View for PropertyValue<String> {
    type V = ValueView<Seq<char>>;

    open spec fn view(&self) -> ValueView<Seq<char>> {
        ValueView { value: self.value@, descriptions: self.descriptions@, edt: opt_view(self.edt) }
    }
}

impl Schema {
    /// The schema with strings as character sequences.
    pub open spec fn model(&self) -> SchemaView
        decreases self,
    {
        match self {
            Schema::T(TypedSchema::Boolean { values }) => SchemaView::Boolean {
                values: values@.map_values(|p: PropertyValue<bool>| p@),
            },
            Schema::T(TypedSchema::String { format, enumlist, values }) => SchemaView::String {
                format: opt_view(*format),
                enumlist: match enumlist {
                    Some(e) => Some(strings_view(e@)),
                    None => None,
                },
                values: match values {
                    Some(v) => Some(v@.map_values(|p: PropertyValue<String>| p@)),
                    None => None,
                },
            },
            Schema::T(TypedSchema::Number { unit, minimum, maximum, multiple_of }) => SchemaView::Number {
                unit: opt_view(*unit),
                minimum: *minimum,
                maximum: *maximum,
                multiple_of: *multiple_of,
            },
            Schema::T(TypedSchema::Null { edt }) => SchemaView::Null { edt: opt_view(*edt) },
            Schema::T(TypedSchema::Object { properties }) => SchemaView::Object {
                properties: Seq::new(
                    properties@.len(),
                    |i: int|
                        (
                            properties@[i].0@,
                            if 0 <= i < properties@.len() {
                                properties@[i].1.model()
                            } else {
                                SchemaView::Null { edt: None }
                            },
                        ),
                ),
            },
            Schema::T(TypedSchema::Array { min_items, max_items, items }) => SchemaView::Array {
                min_items: *min_items,
                max_items: *max_items,
                items: Box::new((**items).model()),
            },
            Schema::OneOf(o) => SchemaView::OneOf {
                one_of: Seq::new(
                    o.one_of@.len(),
                    |i: int|
                        if 0 <= i < o.one_of@.len() {
                            o.one_of@[i].model()
                        } else {
                            SchemaView::Null { edt: None }
                        },
                ),
            },
        }
    }
}

impl View for DeviceProperty {
    type V = PropertyView;

    open spec fn view(&self) -> PropertyView {
        PropertyView {
            epc: self.epc@,
            descriptions: self.descriptions@,
            writable: self.writable,
            observable: self.observable,
            schema: self.schema.model(),
        }
    }
}

/// Named properties with strings as character sequences.
pub open spec fn properties_view(v: Seq<(String, DeviceProperty)>) -> Seq<(Seq<char>, PropertyView)> {
    v.map_values(|p: (String, DeviceProperty)| (p.0@, p.1@))
}

impl View for DeviceDescription {
    type V = DescriptionView;

    open spec fn view(&self) -> DescriptionView {
        DescriptionView {
            device_type: self.device_type@,
            eoj: self.eoj@,
            descriptions: self.descriptions@,
            properties: properties_view(self.properties@),
        }
    }
}

impl TextDescription {
    /// An equal copy.
    pub fn duplicate(&self) -> (r: Self)
        ensures
            r@ == self@,
    {
        TextDescription { ja: self.ja.clone(), en: self.en.clone() }
    }
}

fn dup_opt_string(s: &Option<String>) -> (r: Option<String>)
    ensures
        opt_view(r) == opt_view(*s),
{
    match s {
        Some(x) => Some(x.clone()),
        None => None,
    }
}

fn dup_strings(v: &Vec<String>) -> (r: Vec<String>)
    ensures
        strings_view(r@) == strings_view(v@),
{
    let mut r: Vec<String> = Vec::new();
    let mut i: usize = 0;
    while i < v.len()
        invariant
            i <= v.len(),
            r@.len() == i,
            forall|k: int| 0 <= k < i ==> #[trigger] r@[k]@ == v@[k]@,
        decreases v.len() - i,
    {
        r.push(v[i].clone());
        i = i + 1;
    }
    assert(strings_view(r@) =~= strings_view(v@));
    r
}

fn dup_bool_values(v: &Vec<PropertyValue<bool>>) -> (r: Vec<PropertyValue<bool>>)
    ensures
        r@.map_values(|p: PropertyValue<bool>| p@) == v@.map_values(|p: PropertyValue<bool>| p@),
{
    let mut r: Vec<PropertyValue<bool>> = Vec::new();
    let mut i: usize = 0;
    while i < v.len()
        invariant
            i <= v.len(),
            r@.len() == i,
            forall|k: int| 0 <= k < i ==> #[trigger] r@[k]@ == v@[k]@,
        decreases v.len() - i,
    {
        let p = &v[i];
        r.push(
            PropertyValue {
                value: p.value,
                descriptions: p.descriptions.duplicate(),
                edt: dup_opt_string(&p.edt),
            },
        );
        i = i + 1;
    }
    assert(r@.map_values(|p: PropertyValue<bool>| p@) =~= v@.map_values(|p: PropertyValue<bool>| p@));
    r
}

fn dup_string_values(v: &Vec<PropertyValue<String>>) -> (r: Vec<PropertyValue<String>>)
    ensures
        r@.map_values(|p: PropertyValue<String>| p@) == v@.map_values(
            |p: PropertyValue<String>| p@,
        ),
{
    let mut r: Vec<PropertyValue<String>> = Vec::new();
    let mut i: usize = 0;
    while i < v.len()
        invariant
            i <= v.len(),
            r@.len() == i,
            forall|k: int| 0 <= k < i ==> #[trigger] r@[k]@ == v@[k]@,
        decreases v.len() - i,
    {
        let p = &v[i];
        r.push(
            PropertyValue {
                value: p.value.clone(),
                descriptions: p.descriptions.duplicate(),
                edt: dup_opt_string(&p.edt),
            },
        );
        i = i + 1;
    }
    assert(r@.map_values(|p: PropertyValue<String>| p@) =~= v@.map_values(
        |p: PropertyValue<String>| p@,
    ));
    r
}

impl Schema {
    /// An equal copy.
    pub fn duplicate(&self) -> (r: Self)
        ensures
            r.model() == self.model(),
        decreases self,
    {
        broadcast use vstd::std_specs::vec::axiom_vec_index_decreases;

        match self {
            Schema::T(TypedSchema::Boolean { values }) => Schema::T(
                TypedSchema::Boolean { values: dup_bool_values(values) },
            ),
            Schema::T(TypedSchema::String { format, enumlist, values }) => Schema::T(
                TypedSchema::String {
                    format: dup_opt_string(format),
                    enumlist: match enumlist {
                        Some(e) => Some(dup_strings(e)),
                        None => None,
                    },
                    values: match values {
                        Some(v) => Some(dup_string_values(v)),
                        None => None,
                    },
                },
            ),
            Schema::T(TypedSchema::Number { unit, minimum, maximum, multiple_of }) => Schema::T(
                TypedSchema::Number {
                    unit: dup_opt_string(unit),
                    minimum: *minimum,
                    maximum: *maximum,
                    multiple_of: *multiple_of,
                },
            ),
            Schema::T(TypedSchema::Null { edt }) => Schema::T(
                TypedSchema::Null { edt: dup_opt_string(edt) },
            ),
            Schema::T(TypedSchema::Object { properties }) => {
                let mut r: Vec<(String, Schema)> = Vec::new();
                let mut i: usize = 0;
                while i < properties.len()
                    invariant
                        i <= properties.len(),
                        r@.len() == i,
                        *self == Schema::T(TypedSchema::Object { properties: *properties }),
                        forall|k: int|
                            0 <= k < i ==> r@[k].0@ == properties@[k].0@ && #[trigger] r@[k].1.model()
                                == properties@[k].1.model(),
                    decreases properties.len() - i,
                {
                    proof {
                        assert(decreases_to!(*self => self->T_0));
                        assert(decreases_to!(self->T_0 => self->T_0->properties));
                        assert(decreases_to!(*properties => properties[i as int]));
                        assert(decreases_to!(properties[i as int] => properties[i as int].1));
                    }
                    let s = properties[i].1.duplicate();
                    r.push((properties[i].0.clone(), s));
                    i = i + 1;
                }
                let res = Schema::T(TypedSchema::Object { properties: r });
                proof {
                    let z = match res.model() {
                        SchemaView::Object { properties } => properties,
                        _ => Seq::empty(),
                    };
                    let y = match self.model() {
                        SchemaView::Object { properties } => properties,
                        _ => Seq::empty(),
                    };
                    assert(res.model() == SchemaView::Object { properties: z });
                    assert(self.model() == SchemaView::Object { properties: y });
                    assert forall|k: int| 0 <= k < z.len() implies z[k] == y[k] by {
                        assert(r@[k].1.model() == properties@[k].1.model());
                    }
                    assert(z =~= y);
                }
                res
            },
            Schema::T(TypedSchema::Array { min_items, max_items, items }) => {
                proof {
                    assert(decreases_to!(*self => self->T_0));
                    assert(decreases_to!(self->T_0 => self->T_0->items));
                }
                let it = (**items).duplicate();
                Schema::T(
                    TypedSchema::Array {
                        min_items: *min_items,
                        max_items: *max_items,
                        items: Box::new(it),
                    },
                )
            },
            Schema::OneOf(opts) => {
                let mut r: Vec<Schema> = Vec::new();
                let mut i: usize = 0;
                while i < opts.one_of.len()
                    invariant
                        i <= opts.one_of.len(),
                        r@.len() == i,
                        *self == Schema::OneOf(*opts),
                        forall|k: int|
                            0 <= k < i ==> #[trigger] r@[k].model() == opts.one_of@[k].model(),
                    decreases opts.one_of.len() - i,
                {
                    proof {
                        assert(decreases_to!(*self => self->OneOf_0));
                        assert(decreases_to!(self->OneOf_0 => self->OneOf_0.one_of));
                        assert(decreases_to!(opts.one_of => opts.one_of[i as int]));
                    }
                    r.push(opts.one_of[i].duplicate());
                    i = i + 1;
                }
                let res = Schema::OneOf(Options { one_of: r });
                proof {
                    let z = match res.model() {
                        SchemaView::OneOf { one_of } => one_of,
                        _ => Seq::empty(),
                    };
                    let y = match self.model() {
                        SchemaView::OneOf { one_of } => one_of,
                        _ => Seq::empty(),
                    };
                    assert(res.model() == SchemaView::OneOf { one_of: z });
                    assert(self.model() == SchemaView::OneOf { one_of: y });
                    assert forall|k: int| 0 <= k < z.len() implies z[k] == y[k] by {
                        assert(r@[k].model() == opts.one_of@[k].model());
                    }
                    assert(z =~= y);
                }
                res
            },
        }
    }
}

impl DeviceProperty {
    /// An equal copy.
    pub fn duplicate(&self) -> (r: Self)
        ensures
            r@ == self@,
    {
        DeviceProperty {
            epc: self.epc.clone(),
            descriptions: self.descriptions.duplicate(),
            writable: self.writable,
            observable: self.observable,
            schema: self.schema.duplicate(),
        }
    }
}

/// An equal copy of a list of named properties.
pub fn dup_properties(v: &Vec<(String, DeviceProperty)>) -> (r: Vec<(String, DeviceProperty)>)
    ensures
        properties_view(r@) == properties_view(v@),
{
    let mut r: Vec<(String, DeviceProperty)> = Vec::new();
    let mut i: usize = 0;
    while i < v.len()
        invariant
            i <= v.len(),
            r@.len() == i,
            forall|k: int| 0 <= k < i ==> #[trigger] r@[k].0@ == v@[k].0@ && r@[k].1@ == v@[k].1@,
        decreases v.len() - i,
    {
        r.push((v[i].0.clone(), v[i].1.duplicate()));
        i = i + 1;
    }
    assert(properties_view(r@) =~= properties_view(v@));
    r
}

impl DeviceDescription {
    /// An equal copy.
    pub fn duplicate(&self) -> (r: Self)
        ensures
            r@ == self@,
    {
        DeviceDescription {
            device_type: self.device_type.clone(),
            eoj: self.eoj.clone(),
            descriptions: self.descriptions.duplicate(),
            properties: dup_properties(&self.properties),
        }
    }
}

} // verus!
