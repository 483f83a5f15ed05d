use weblite::converters::{AdditionalInfo, Ais, Converter, Entry, NamedInfo, PropertyInfo};
use weblite::descriptions::{DeviceDescription, DeviceProperty, Schema, TextDescription, TypedSchema};
use weblite::echo::{generate_commands, response_to_echo_result, EchoCommand, EchoOperation, EchoRun};
use weblite::echoinfo::{DeviceInfo, DeviceProtocolInfo, EchonetDevice, EchonetProperty};
use weblite::service::{find_description, get_dev_prop, get_device, locate, read_command, read_reply, write_command, write_reply};
use weblite::setup::{adjust, available_classes, fuse_them, generate_updated_device_descriptions, get_ai, instantiate_devices, select_descriptions};
use weblite::{NetError, ReplyBody};

fn text(s: &str) -> TextDescription {
    TextDescription { ja: s.to_string(), en: s.to_string() }
}

fn prop(epc: &str, schema: Schema) -> DeviceProperty {
    DeviceProperty { epc: epc.to_string(), descriptions: text(epc), writable: true, observable: false, schema }
}

fn num(min: f32, max: f32) -> Schema {
    Schema::T(TypedSchema::Number { unit: None, minimum: Some(min.to_bits()), maximum: Some(max.to_bits()), multiple_of: None })
}

fn ep(name: &str, epc: &str) -> EchonetProperty {
    EchonetProperty::new(name.to_string(), epc.to_string(), false, Converter::Passthrough)
}

#[test]
fn error_objects() {
    let e = NetError::NoDevice.error();
    assert_eq!(e.error_type, "referenceError");
    assert_eq!(e.message.as_deref(), Some("No such device!"));
    let e = NetError::NoResponse.error();
    assert_eq!(e.error_type, "timeoutError");
    assert_eq!(e.message, None);
    let e = NetError::Range("greater than max".to_string()).error();
    assert_eq!(e.error_type, "rangeError");
    assert_eq!(e.message.as_deref(), Some("greater than max"));
    assert_eq!(NetError::Conversion("x".to_string()).error().error_type, "internalError");
    assert_eq!(NetError::WriteNG.error().error_type, "deviceError");
}

#[test]
fn error_replies() {
    let r = NetError::NoProperty.to_response();
    assert_eq!(r.status, 404);
    match r.body {
        ReplyBody::Json(e) => assert_eq!(e.message.as_deref(), Some("No such property!")),
        _ => panic!("expected a JSON body"),
    }
    let r = NetError::Comm("timeout".to_string()).to_response();
    assert_eq!(r.status, 500);
    match r.body {
        ReplyBody::Text(t) => assert_eq!(t, "communications error: timeout"),
        _ => panic!("expected a text body"),
    }
    assert_eq!(NetError::BadRequest("x".to_string()).to_response().status, 400);
    assert_eq!(NetError::ReadNG.to_response().status, 405);
    match NetError::NoBackend.to_response().body {
        ReplyBody::Text(t) => assert_eq!(t, "no backend"),
        _ => panic!("expected a text body"),
    }
}

#[test]
fn get_requests_become_commands() {
    let mut service = String::new();
    let cmd = EchoCommand::Request {
        esv: "0x62".to_string(),
        operations: vec![
            EchoOperation { epc: "0x80".to_string(), edt: None },
            EchoOperation { epc: "0xB0".to_string(), edt: None },
        ],
    };
    let cmds = generate_commands("10.0.0.2:029001".to_string(), &mut service, cmd).unwrap();
    assert_eq!(cmds, vec!["10.0.0.2:029001:0x80\n".to_string(), "10.0.0.2:029001:0xB0\n".to_string()]);
    assert_eq!(service, "0x62");
    let mut service = String::from("keep");
    let cmd = EchoCommand::Request { esv: "0x60".to_string(), operations: vec![] };
    assert!(generate_commands("d".to_string(), &mut service, cmd).is_none());
    assert_eq!(service, "0x60");
    let mut service = String::from("keep");
    let cmd = EchoCommand::Response { esv: "0x72".to_string(), operations: vec![] };
    assert!(generate_commands("d".to_string(), &mut service, cmd).is_none());
    assert_eq!(service, "keep");
}

#[test]
fn responses_become_an_echo_result() {
    let res = response_to_echo_result(
        "0x62".to_string(),
        vec!["OK,10.0.0.2:029001:0x80,0x3031".to_string(), "NG,10.0.0.2:029001:0xB0".to_string()],
    )
    .unwrap();
    match res {
        EchoCommand::Response { esv, operations } => {
            assert_eq!(esv, "0x52");
            assert_eq!(operations.len(), 2);
            assert_eq!(operations[0].epc, "0x80");
            assert_eq!(operations[0].edt, Some(vec!["0x30".to_string(), "0x31".to_string()]));
            assert_eq!(operations[1].epc, "0xB0");
            assert_eq!(operations[1].edt, None);
        }
        _ => panic!("expected a response"),
    }
    match response_to_echo_result(String::new(), vec!["OK,h:e:0x80,0x30".to_string()]).unwrap() {
        EchoCommand::Response { esv, .. } => assert_eq!(esv, "0x72"),
        _ => panic!("expected a response"),
    }
    assert!(response_to_echo_result(String::new(), vec!["OK".to_string()]).is_err());
}

#[test]
fn an_echo_run_stops_after_a_failure() {
    let mut run = EchoRun::new();
    assert_eq!(run.feed(Some("OK,a".to_string())), Ok(()));
    assert_eq!(run.feed(Some("NG,b".to_string())), Ok(()));
    assert_eq!(run.feed(Some("OK,c".to_string())), Err("stop".to_string()));
    assert_eq!(run.results, vec!["OK,a".to_string(), "NG,b".to_string()]);
    let mut run = EchoRun::new();
    assert_eq!(run.feed(None), Err("transmition error".to_string()));
}

#[test]
fn devices_combine_offered_properties() {
    let info = DeviceInfo {
        host: "h".to_string(),
        eoj: "0x029001".to_string(),
        r: vec!["0x80".to_string(), "0xB0".to_string()],
        w: vec!["0x80".to_string()],
    };
    let props = vec![ep("operationStatus", "0x80"), ep("brightness", "0xB0"), ep("color", "0xC0")];
    let dev = EchonetDevice::combine(info, props);
    assert_eq!(dev.properties.len(), 2);
    assert!(dev.properties[0].w);
    assert!(!dev.properties[1].w);
    assert_eq!(dev.hosteoj(), "h:0x029001");
    let mut d = EchonetDevice::new("a".to_string(), "b".to_string());
    d.add(ep("x", "0x80"));
    assert_eq!(d.properties.len(), 1);
    assert!(DeviceInfo::new("h".to_string(), "e".to_string()).r.is_empty());
}

#[test]
fn protocol_information_builders() {
    let i = DeviceProtocolInfo::new("id".to_string())
        .with_type("lighting".to_string())
        .with_protocol("ECHONET Lite".to_string())
        .with_appendix("J".to_string())
        .with_code("0x000005".to_string());
    assert_eq!(i.id, "id");
    assert_eq!(i.device_type, "lighting");
    assert_eq!(i.protocol.protocol, "ECHONET Lite");
    assert_eq!(i.protocol.appendix, "J");
    assert_eq!(i.manufacturer.code, "0x000005");
    assert_eq!(i.manufacturer.descriptions.en, "N/A");
}

#[test]
fn lookups_and_commands() {
    let devs = vec![EchonetDevice { host: "h".to_string(), eoj: "0x029001".to_string(), properties: vec![ep("brightness", "0xB0")] }];
    assert!(get_device(&devs, "h:0x029001").is_some());
    assert!(get_device(&devs, "h:0x029002").is_none());
    assert!(get_dev_prop(&devs[0], "brightness").is_some());
    assert!(matches!(locate(&devs, "x", "brightness"), Err(NetError::NoDevice)));
    assert!(matches!(locate(&devs, "h:0x029001", "color"), Err(NetError::NoProperty)));
    let (d, p) = locate(&devs, "h:0x029001", "brightness").unwrap();
    assert_eq!(read_command(d, p), "h:0x029001:0xB0");
    assert_eq!(write_command(d, p, vec![0x41, 0x0f]), "h:0x029001:0xB0,0x410F");
}

#[test]
fn replies() {
    assert_eq!(read_reply("OK:h:029001:0xB0,0x4142").unwrap(), vec![0x41, 0x42]);
    assert!(matches!(read_reply("NG:h:029001:0xB0"), Err(NetError::ReadNG)));
    match read_reply("OK:h:029001:0xB0") {
        Err(NetError::Comm(m)) => assert_eq!(m, "No data"),
        other => panic!("unexpected: {:?}", other),
    }
    match read_reply("OK:h:029001:0xB0,0xZZ") {
        Err(NetError::Comm(m)) => assert_eq!(m, "Data-to-u8"),
        other => panic!("unexpected: {:?}", other),
    }
    match read_reply("???") {
        Err(NetError::Comm(m)) => assert_eq!(m, "Bad Line Response"),
        other => panic!("unexpected: {:?}", other),
    }
    assert!(write_reply("OK:h:029001:0xB0").is_ok());
    assert!(matches!(write_reply("NG:h:029001:0xB0"), Err(NetError::WriteNG)));
}

fn lighting() -> DeviceDescription {
    DeviceDescription {
        device_type: "generalLighting".to_string(),
        eoj: "0x0290".to_string(),
        descriptions: text("lighting"),
        properties: vec![
            ("brightness".to_string(), prop("0xB0", num(0., 100.))),
            ("rgb".to_string(), prop("0xC0", Schema::T(TypedSchema::Object { properties: vec![
                ("r".to_string(), num(0., 255.)),
            ] }))),
        ],
    }
}

fn common() -> DeviceDescription {
    DeviceDescription {
        device_type: "common".to_string(),
        eoj: "0x00".to_string(),
        descriptions: text("common"),
        properties: vec![("operationStatus".to_string(), prop("0x80", Schema::T(TypedSchema::String { format: None, enumlist: None, values: None })))],
    }
}

#[test]
fn the_service_is_put_together() {
    let ais = Ais {
        entries: vec![Entry {
            eoj: "0x0290".to_string(),
            ai: vec![PropertyInfo {
                epc: "0xC0".to_string(),
                info: AdditionalInfo::Object { order: vec![NamedInfo { name: "r".to_string(), info: None }] },
            }],
        }],
    };
    assert!(get_ai("0xC0", ais.properties("0x0290")).is_some());
    assert!(get_ai("0xB0", ais.properties("0x0290")).is_none());
    let descs = vec![lighting(), common()];
    let sets = fuse_them(vec![lighting(), common()], ais);
    assert_eq!(sets.len(), 2);
    assert_eq!(sets[0].0, "0x0290");
    assert_eq!(sets[0].1.len(), 2);
    assert!(matches!(sets[0].1[1].converter, Converter::Object { .. }));
    assert_eq!(sets[1].0, "0x00");
    let info = DeviceInfo {
        host: "h".to_string(),
        eoj: "0x029001".to_string(),
        r: vec!["0xB0".to_string(), "0x80".to_string()],
        w: vec![],
    };
    let instances = instantiate_devices(vec![info], sets);
    assert_eq!(instances.len(), 1);
    let names: Vec<&str> = instances[0].properties.iter().map(|p| p.name.as_str()).collect();
    assert_eq!(names, vec!["brightness", "operationStatus"]);
    let (key, adjusted) = adjust(&instances[0], &descs[0], &descs[1]);
    assert_eq!(key, "h:0x029001");
    assert_eq!(adjusted.eoj, "0x029001");
    let kept: Vec<&str> = adjusted.properties.iter().map(|(n, _)| n.as_str()).collect();
    assert_eq!(kept, vec!["brightness", "operationStatus"]);
    let updated = generate_updated_device_descriptions(vec![lighting()], common(), &instances);
    assert_eq!(updated.len(), 1);
    assert_eq!(updated[0].0, "h:0x029001");
    assert!(find_description(&updated, "h:0x029001").is_ok());
    assert!(matches!(find_description(&updated, "nope"), Err(NetError::NoDevice)));
    let classes = available_classes(&vec![lighting(), lighting(), common()]);
    assert_eq!(classes, vec!["0290".to_string(), "00".to_string()]);
    let selected = select_descriptions(vec![lighting(), common()], &vec!["0x0290".to_string()], &common());
    assert_eq!(selected.len(), 2);
    assert_eq!(selected[0].eoj, "0x0290");
    assert_eq!(selected[1].eoj, "0x00");
}

#[test]
fn a_later_description_of_a_class_replaces_an_earlier_one() {
    let mut second = lighting();
    second.properties.truncate(1);
    let sets = fuse_them(vec![lighting(), second, common()], Ais { entries: vec![] });
    assert_eq!(sets.len(), 2);
    assert_eq!(sets[0].0, "0x0290");
    assert_eq!(sets[0].1.len(), 1);
    assert_eq!(sets[0].1[0].name, "brightness");
}

#[test]
fn each_property_name_is_kept_once() {
    let mut dev = EchonetDevice::new("h".to_string(), "0x029001".to_string());
    dev.add(ep("operationStatus", "0x80"));
    let mut desc = lighting();
    desc.properties.push(("operationStatus".to_string(), prop("0x80", Schema::T(TypedSchema::String { format: None, enumlist: None, values: None }))));
    let (_, adjusted) = adjust(&dev, &desc, &common());
    let kept: Vec<&str> = adjusted.properties.iter().map(|(n, _)| n.as_str()).collect();
    assert_eq!(kept, vec!["operationStatus"]);
}

#[test]
fn each_instance_is_described_once() {
    let a = EchonetDevice::new("h".to_string(), "0x029001".to_string());
    let b = EchonetDevice::new("h".to_string(), "0x029001".to_string());
    let c = EchonetDevice::new("h".to_string(), "0x013001".to_string());
    let mut d = EchonetDevice::new("h".to_string(), "0x029002".to_string());
    d.add(ep("brightness", "0xB0"));
    let updated = generate_updated_device_descriptions(vec![lighting()], common(), &[a, b, c, d]);
    assert_eq!(updated.len(), 2);
    assert_eq!(updated[0].0, "h:0x029001");
    assert_eq!(updated[0].1.eoj, "0x029001");
    assert!(updated[0].1.properties.is_empty());
    assert_eq!(updated[1].0, "h:0x029002");
    assert_eq!(updated[1].1.eoj, "0x029002");
    let kept: Vec<&str> = updated[1].1.properties.iter().map(|(_, p)| p.epc.as_str()).collect();
    assert_eq!(kept, vec!["0xB0"]);
}
