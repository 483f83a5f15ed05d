use weblite::converters::{
    AdditionalInfo, Ais, BinaryContext, Converter, Entry, NamedInfo, PropertyInfo, PropertyValue,
    ONE_F32_BITS, fuse, fuse_objects,
};
use weblite::descriptions::{self, Options, Schema, TextDescription, TypedSchema};
use weblite::NetError;

fn text(ja: &str, en: &str) -> TextDescription {
    TextDescription { ja: ja.to_string(), en: en.to_string() }
}

fn number_schema(min: f32, max: f32) -> Schema {
    Schema::T(TypedSchema::Number {
        unit: None,
        minimum: Some(min.to_bits()),
        maximum: Some(max.to_bits()),
        multiple_of: None,
    })
}

#[test]
fn number_conversion_ok() {
    let schema = Schema::T(TypedSchema::Number {
        unit: None,
        multiple_of: None,
        minimum: Some(0.1f32.to_bits()),
        maximum: Some(10f32.to_bits()),
    });
    let converter = Converter::try_from(schema).expect("conversion failed!");
    match converter {
        Converter::Number { minimum, maximum, multiple_of } => {
            assert!((f32::from_bits(minimum) - 0.1).abs() < 0.0001);
            assert!((f32::from_bits(maximum) - 10.).abs() < 0.0001);
            assert!((f32::from_bits(multiple_of) - 1.).abs() < 0.0001);
        }
        _ => panic!("should match a number converter!"),
    }
}

#[test]
fn boolean_conversion_ok() {
    let v1 = descriptions::PropertyValue {
        value: true,
        descriptions: text("dont care", "dont care in english"),
        edt: Some(String::from("edt_true")),
    };
    let v2 = descriptions::PropertyValue {
        value: false,
        descriptions: text("dont care", "dont care in english"),
        edt: Some(String::from("edt_false")),
    };
    let values = vec![v1, v2];
    let schema = Schema::T(TypedSchema::Boolean { values });
    let converter = Converter::try_from(schema).expect("conversion failed!");
    match converter {
        Converter::Boolean { true_value, false_value } => {
            assert_eq!(true_value, "edt_true");
            assert_eq!(false_value, "edt_false");
        }
        _ => panic!("should match a boolean converter!"),
    }
}

#[test]
fn boolean_conversion_fails_with_no_false_value() {
    let v1 = descriptions::PropertyValue {
        value: true,
        descriptions: text("dont care", "dont care in english"),
        edt: Some(String::from("edt_true")),
    };
    let values = vec![v1];
    let schema = Schema::T(TypedSchema::Boolean { values });
    let converter = Converter::try_from(schema);
    assert!(converter.is_err());
    assert_eq!(converter.unwrap_err(), "No false value");
}

#[test]
fn passthrough_conversions_ok() {
    let vs = "test";
    let data = b"test";

    //value->binary
    let bd = Converter::json_passthrough(vs).unwrap();
    assert_eq!(bd, data);
    let mut context = BinaryContext::from(bd.as_slice());
    let vbd = Converter::binary_passthrough(&mut context).unwrap();
    assert_eq!(vbd, vs);
    assert!(context.data.is_empty());
}

#[test]
fn enum_conversions_ok() {
    //value-to-binary
    let map: Vec<(String, String)> = vec![("test".to_string(), "0x41".to_string())];

    let res = Converter::json_enumlist("test", &map).unwrap();
    assert_eq!(res[0], b'A');
    assert_eq!(res.len(), 1);

    //binary-to-value
    let mut context = BinaryContext::from(&res[..]);
    let bres = Converter::binary_enumlist(&mut context, &map).unwrap();
    assert_eq!(bres.as_str(), "test");
}

#[test]
fn enum_errors() {
    let map: Vec<(String, String)> = vec![("on".to_string(), "0xZ1".to_string())];
    match Converter::json_enumlist("off", &map) {
        Err(NetError::BadRequest(m)) => assert_eq!(m, "no entry for: off"),
        other => panic!("unexpected: {:?}", other),
    }
    match Converter::json_enumlist("on", &map) {
        Err(NetError::Internal(m)) => assert_eq!(m, "json_enum: invalid entry for on, fix ASAP!"),
        other => panic!("unexpected: {:?}", other),
    }
    let data = [0x05u8, 0x42];
    let mut context = BinaryContext::from(&data[..]);
    match Converter::binary_enumlist(&mut context, &map) {
        Err(NetError::Conversion(m)) => assert_eq!(m, "binary_enumlist: no key for edt: 0x 5"),
        other => panic!("unexpected: {:?}", other),
    }
    assert_eq!(context.data, &[0x42u8][..]);
}

#[test]
fn enum_binary_reads_lower_case_codes() {
    let map = vec![("a".to_string(), "0xA1".to_string()), ("b".to_string(), "0xa1".to_string())];
    let data = [0xa1u8];
    let mut context = BinaryContext::from(&data[..]);
    assert_eq!(Converter::binary_enumlist(&mut context, &map).unwrap(), "b");
}

#[test]
fn boolean_conversions() {
    assert_eq!(Converter::json_boolean(Some(true), "0x30", "0x31").unwrap(), vec![0x30]);
    assert_eq!(Converter::json_boolean(Some(false), "0x30", "0x31").unwrap(), vec![0x31]);
    match Converter::json_boolean(None, "0x30", "0x31") {
        Err(NetError::BadRequest(m)) => assert_eq!(m, "not a boolean!"),
        other => panic!("unexpected: {:?}", other),
    }
    match Converter::json_boolean(Some(true), "true", "0x31") {
        Err(NetError::Internal(m)) => assert_eq!(m, "json_boolean: failed to convert to hex, fix asap!"),
        other => panic!("unexpected: {:?}", other),
    }
    let data = [0x31u8, 0x30, 0x99];
    let mut context = BinaryContext::from(&data[..]);
    assert_eq!(Converter::binary_boolean(&mut context, "0x30", "0x31").unwrap(), false);
    assert_eq!(Converter::binary_boolean(&mut context, "0x30", "0x31").unwrap(), true);
    match Converter::binary_boolean(&mut context, "0x30", "0x31") {
        Err(NetError::Conversion(m)) => assert_eq!(m, "binary_boolean: Invalid binary value: 153"),
        other => panic!("unexpected: {:?}", other),
    }
    match Converter::binary_boolean(&mut context, "0x30", "0x31") {
        Err(NetError::WriteNG) => {}
        other => panic!("unexpected: {:?}", other),
    }
    let data = [0x30u8];
    let mut context = BinaryContext::from(&data[..]);
    match Converter::binary_boolean(&mut context, "x", "0x31") {
        Err(NetError::Internal(m)) => assert_eq!(m, "bad data"),
        other => panic!("unexpected: {:?}", other),
    }
}

#[test]
fn lossy_passthrough_replaces_invalid_bytes() {
    let data = [0x61u8, 0xff, 0x62];
    let mut context = BinaryContext::from(&data[..]);
    assert_eq!(Converter::binary_passthrough(&mut context).unwrap(), "a\u{fffd}b");
}

#[test]
fn take_number_reads_big_endian_and_advances() {
    let bytes = b"\x11\xff";
    let mut context = BinaryContext::from(&bytes[..]);
    assert_eq!(context.take_number(1), 17);
    assert_eq!(context.data.len(), 1);
    assert_eq!(context.data[0], 0xff);
    let bytes = b"\x01\x01\x01\x01";
    let mut context = BinaryContext::from(&bytes[..]);
    assert_eq!(context.take_number(4), 16843009);
    assert!(context.data.is_empty());
}

#[test]
fn string_schemas() {
    let time = Schema::T(TypedSchema::String { format: Some("date".to_string()), enumlist: None, values: None });
    match Converter::try_from(time).unwrap() {
        Converter::Time { format } => assert_eq!(format, "date"),
        other => panic!("unexpected: {:?}", other),
    }
    let plain = Schema::T(TypedSchema::String { format: None, enumlist: None, values: None });
    assert!(matches!(Converter::try_from(plain).unwrap(), Converter::Passthrough));
    let bad = Schema::T(TypedSchema::String {
        format: None,
        enumlist: Some(vec!["a".to_string()]),
        values: None,
    });
    assert_eq!(Converter::try_from(bad).unwrap_err(), "String Schema: enumlist without values!");
    let values = vec![
        descriptions::PropertyValue { value: "auto".to_string(), descriptions: text("", ""), edt: Some("0x41".to_string()) },
        descriptions::PropertyValue { value: "night".to_string(), descriptions: text("", ""), edt: Some("0x42".to_string()) },
        descriptions::PropertyValue { value: "auto".to_string(), descriptions: text("", ""), edt: Some("0x43".to_string()) },
    ];
    let en = Schema::T(TypedSchema::String { format: None, enumlist: None, values: Some(values) });
    match Converter::try_from(en).unwrap() {
        Converter::Enumlist(m) => assert_eq!(
            m,
            vec![("auto".to_string(), "0x43".to_string()), ("night".to_string(), "0x42".to_string())]
        ),
        other => panic!("unexpected: {:?}", other),
    }
    let values = vec![descriptions::PropertyValue { value: "x".to_string(), descriptions: text("", ""), edt: None }];
    let en = Schema::T(TypedSchema::String { format: None, enumlist: None, values: Some(values) });
    assert_eq!(Converter::try_from(en).unwrap_err(), "Enumlist: not all values had edt");
}

#[test]
fn other_schemas() {
    assert_eq!(
        Converter::try_from(Schema::T(TypedSchema::Null { edt: None })).unwrap_err(),
        "Null Schema without edt"
    );
    match Converter::try_from(Schema::T(TypedSchema::Null { edt: Some("0x30".to_string()) })).unwrap() {
        Converter::Null { edt } => assert_eq!(edt, "0x30"),
        other => panic!("unexpected: {:?}", other),
    }
    let no_max = Schema::T(TypedSchema::Number { unit: None, minimum: Some(0), maximum: None, multiple_of: None });
    assert_eq!(Converter::try_from(no_max).unwrap_err(), "Number schema: min and/or max missing");
    let obj = Schema::T(TypedSchema::Object { properties: vec![] });
    assert_eq!(Converter::try_from(obj).unwrap_err(), "Object Schema: no ordering information");
    let arr = Schema::T(TypedSchema::Array { min_items: None, max_items: None, items: Box::new(number_schema(0., 1.)) });
    assert_eq!(Converter::try_from(arr).unwrap_err(), "Schema Array: unimplemented!");
    let one_of = Schema::OneOf(Options { one_of: vec![number_schema(0., 1.), number_schema(2., 3.)] });
    match Converter::try_from(one_of).unwrap() {
        Converter::OneOf { opts } => assert_eq!(opts.len(), 2),
        other => panic!("unexpected: {:?}", other),
    }
    let one_of = Schema::OneOf(Options {
        one_of: vec![number_schema(0., 1.), Schema::T(TypedSchema::Null { edt: None })],
    });
    assert_eq!(Converter::try_from(one_of).unwrap_err(), "Schema OneOf: cannot convert all schemes");
    assert_eq!(ONE_F32_BITS, 1.0f32.to_bits());
}

#[test]
fn property_value_needs_an_edt() {
    let ok = descriptions::PropertyValue { value: 3u8, descriptions: text("", ""), edt: Some("0x41".to_string()) };
    let p = PropertyValue::try_from(ok).unwrap();
    assert_eq!(p.value, 3);
    assert_eq!(p.edt, "0x41");
    let none = descriptions::PropertyValue { value: 3u8, descriptions: text("", ""), edt: None };
    assert_eq!(PropertyValue::try_from(none).unwrap_err(), "No edt value in property value");
}

fn rgb_schema() -> Vec<(String, Schema)> {
    vec![
        ("green".to_string(), Schema::T(TypedSchema::Number { unit: None, minimum: Some(0f32.to_bits()), maximum: None, multiple_of: None })),
        ("red".to_string(), number_schema(0., 255.)),
        ("blue".to_string(), number_schema(0., 255.)),
    ]
}

fn rgb_order() -> Vec<NamedInfo> {
    let num = || AdditionalInfo::Number { size: Some(1), min: Some(0f32.to_bits()), max: Some(255f32.to_bits()), multiple_of: Some(1f32.to_bits()) };
    vec![
        NamedInfo { name: "red".to_string(), info: None },
        NamedInfo { name: "green".to_string(), info: Some(num()) },
        NamedInfo { name: "blue".to_string(), info: None },
    ]
}

#[test]
fn objects_are_fused_in_the_given_order() {
    let fused = fuse_objects(&rgb_schema(), &rgb_order()).expect("failed to fuse rgb!");
    match fused {
        Converter::Object { properties } => {
            let names: Vec<&str> = properties.iter().map(|(n, _)| n.as_str()).collect();
            assert_eq!(names, vec!["red", "green", "blue"]);
            for (_, conv) in properties.iter() {
                match conv {
                    Converter::Number { minimum, maximum, multiple_of } => {
                        assert!(f32::from_bits(*minimum).abs() < 0.00001);
                        assert!((f32::from_bits(*maximum) - 255.).abs() < 0.00001);
                        assert!((f32::from_bits(*multiple_of) - 1.).abs() < 0.00001);
                    }
                    _ => panic!("rgb converter, inner converters not numbers!"),
                }
            }
        }
        _ => panic!("should match an object converter!"),
    }
}

#[test]
fn fuse_errors() {
    let mut order = rgb_order();
    order.pop();
    assert_eq!(fuse_objects(&rgb_schema(), &order).unwrap_err(), "fuse objects: ordering info different from properties");
    let mut order = rgb_order();
    order[2].name = "alpha".to_string();
    assert_eq!(fuse_objects(&rgb_schema(), &order).unwrap_err(), "fuse objects: properties/order mismatch");
    let mut order = rgb_order();
    order[1].info = None;
    assert_eq!(
        fuse_objects(&rgb_schema(), &order).unwrap_err(),
        "fuse objects: some converter failed: Number schema: min and/or max missing"
    );
    let schema = Schema::T(TypedSchema::Number { unit: None, minimum: None, maximum: Some(1), multiple_of: None });
    let ai = AdditionalInfo::Number { size: None, min: None, max: None, multiple_of: None };
    assert_eq!(fuse(&schema, &ai).unwrap_err(), "fuse numbers: no min spec!");
    let ai = AdditionalInfo::Number { size: None, min: Some(7), max: None, multiple_of: None };
    assert_eq!(fuse(&schema, &ai).unwrap_err(), "fuse numbers: no multipe_of spec!");
    let ai = AdditionalInfo::Number { size: None, min: Some(7), max: Some(9), multiple_of: Some(3) };
    match fuse(&schema, &ai).unwrap() {
        // the schema's bound wins over the additional information
        Converter::Number { minimum, maximum, multiple_of } => assert_eq!((minimum, maximum, multiple_of), (7, 1, 3)),
        other => panic!("unexpected: {:?}", other),
    }
}

#[test]
fn ais_find_the_first_entry_of_a_class() {
    let ais = Ais {
        entries: vec![
            Entry { eoj: "0x0290".to_string(), ai: vec![PropertyInfo { epc: "0xC0".to_string(), info: AdditionalInfo::String }] },
            Entry { eoj: "0x0290".to_string(), ai: vec![] },
        ],
    };
    assert_eq!(ais.properties("0x0290").unwrap().len(), 1);
    assert!(ais.properties("0x0291").is_none());
}

#[test]
fn passthrough_round_trips_non_ascii_text() {
    let text = "温度 25°C";
    let bytes = Converter::json_passthrough(text).unwrap();
    assert_eq!(bytes, text.as_bytes());
    let mut context = BinaryContext::from(bytes.as_slice());
    assert_eq!(Converter::binary_passthrough(&mut context).unwrap(), text);
}

#[test]
fn enum_values_read_back_as_written() {
    let map: Vec<(String, String)> = vec![
        ("on".to_string(), "0x30".to_string()),
        ("off".to_string(), "0x31".to_string()),
    ];
    for name in ["on", "off"] {
        let bytes = Converter::json_enumlist(name, &map).unwrap();
        let mut context = BinaryContext::from(&bytes[..]);
        assert_eq!(Converter::binary_enumlist(&mut context, &map).unwrap(), name);
    }
    for byte in [0x30u8, 0x31] {
        let data = [byte];
        let mut context = BinaryContext::from(&data[..]);
        let name = Converter::binary_enumlist(&mut context, &map).unwrap();
        assert_eq!(Converter::json_enumlist(&name, &map).unwrap(), vec![byte]);
    }
}

#[test]
fn small_enum_codes_do_not_read_back() {
    let map: Vec<(String, String)> = vec![("low".to_string(), "0x05".to_string())];
    let bytes = Converter::json_enumlist("low", &map).unwrap();
    assert_eq!(bytes, vec![0x05]);
    let mut context = BinaryContext::from(&bytes[..]);
    assert!(matches!(Converter::binary_enumlist(&mut context, &map), Err(NetError::Conversion(_))));
}

#[test]
fn booleans_read_back_as_written() {
    for value in [true, false] {
        let bytes = Converter::json_boolean(Some(value), "0x30", "0x31").unwrap();
        let mut context = BinaryContext::from(&bytes[..]);
        assert_eq!(Converter::binary_boolean(&mut context, "0x30", "0x31").unwrap(), value);
    }
}

#[test]
fn fuse_objects_ok() {
    // the additional information of general lighting (0x0290): rgb (0xC0) is an
    // object of red, green and blue, in that order
    let rgb_info = || AdditionalInfo::Number {
        size: Some(1),
        min: Some(0f32.to_bits()),
        max: Some(255f32.to_bits()),
        multiple_of: Some(1f32.to_bits()),
    };
    let ais = Ais {
        entries: vec![Entry {
            eoj: "0x0290".to_string(),
            ai: vec![PropertyInfo {
                epc: "0xC0".to_string(),
                info: AdditionalInfo::Object {
                    order: vec![
                        NamedInfo { name: "red".to_string(), info: Some(rgb_info()) },
                        NamedInfo { name: "green".to_string(), info: Some(rgb_info()) },
                        NamedInfo { name: "blue".to_string(), info: Some(rgb_info()) },
                    ],
                },
            }],
        }],
    };
    // the rgb property of the general lighting description
    let color = descriptions::DeviceProperty {
        epc: "0xC0".to_string(),
        descriptions: text("RGB設定", "RGB setting"),
        writable: true,
        observable: false,
        schema: Schema::T(TypedSchema::Object {
            properties: vec![
                ("blue".to_string(), number_schema(0., 255.)),
                ("green".to_string(), number_schema(0., 255.)),
                ("red".to_string(), number_schema(0., 255.)),
            ],
        }),
    };
    let rgb_entry = &ais.entries.iter().find(|entry| entry.eoj == "0x0290").unwrap().ai[0];

    assert_eq!(rgb_entry.epc, "0xC0");
    let fused = fuse(&color.schema, &rgb_entry.info).expect("failed to fuse rgb!");
    match fused {
        Converter::Object { properties } => {
            assert_eq!(properties.len(), 3);
            properties
                .iter()
                .zip(vec!["red", "green", "blue"].iter())
                .for_each(|((name, conv), exp_name)| {
                    assert_eq!(name, exp_name);
                    match conv {
                        Converter::Number { minimum, maximum, multiple_of } => {
                            assert!(f32::from_bits(*minimum).abs() < 0.00001);
                            assert!((f32::from_bits(*maximum) - 255.).abs() < 0.00001);
                            assert!((f32::from_bits(*multiple_of) - 1.).abs() < 0.00001);
                        }
                        _ => panic!("rgb converter, inner converters not numbers!"),
                    }
                });
        }
        _ => panic!("should match an object converter!"),
    }
}
