use weblite::lineproto::{
    class_intersect, classes_from_responses, collect_protoinfo, generate_devices, parse_property_map,
    protoinfo_command, scan_command, uncovered_classes, LineResponse, LineResult,
};

#[test]
fn empty_property_map_is_none() {
    assert_eq!(parse_property_map(&[]).is_none(), true);
}

#[test]
fn zero_properties_is_ok() {
    let res = parse_property_map(&[0]).unwrap();
    assert!(res.is_empty());
}

#[test]
fn property_maps_simple_ok() {
    let pmap = [3u8, 0x80u8, 0x9Eu8, 0x9Du8];
    let expected = [0x80u8, 0x9Eu8, 0x9D];
    assert_eq!(parse_property_map(&pmap).unwrap(), expected);
}

#[test]
fn property_maps_binary_check() {
    let bmap = [
        24, 0xFF, 0xFF, 0x00, 0x00, 0x00, 0x00, 0x00, 0x00, 0x00, 0x00, 0x00, 0x00, 0x00, 0x00,
        0x00, 0xFF,
    ];
    let result = parse_property_map(&bmap).unwrap();
    let expected = vec![
        0x80u8, 0x90u8, 0xA0u8, 0xB0u8, 0xC0u8, 0xD0u8, 0xE0u8, 0xF0u8, 0x81u8, 0x91u8, 0xA1u8,
        0xB1u8, 0xC1u8, 0xD1u8, 0xE1u8, 0xF1u8, 0x8Fu8, 0x9Fu8, 0xAFu8, 0xBFu8, 0xCFu8, 0xDFu8,
        0xEFu8, 0xFFu8,
    ];
    println!("result: {:?}", result);
    assert_eq!(result.len(), 24);
    assert_eq!(result, expected);
}

#[test]
fn binary_map_of_wrong_length_is_none() {
    let mut bmap = vec![16u8];
    bmap.extend([0u8; 15]);
    assert_eq!(parse_property_map(&bmap), None);
}

#[test]
fn binary_map_lists_each_code_once() {
    let mut bmap = vec![16u8];
    bmap.extend([0xffu8; 16]);
    let result = parse_property_map(&bmap).unwrap();
    assert_eq!(result.len(), 128);
    let mut sorted = result.clone();
    sorted.sort();
    sorted.dedup();
    assert_eq!(sorted.len(), 128);
    assert!(result.iter().all(|c| *c >= 0x80));
}

#[test]
fn line_response_is_parsed() {
    let l = LineResponse::try_from("  OK:192.168.1.5:029001:0x80,0x30\n").unwrap();
    assert_eq!(l.result, LineResult::OK);
    assert_eq!(l.host, "192.168.1.5");
    assert_eq!(l.eoj, "029001");
    assert_eq!(l.property, "0x80");
    assert_eq!(l.data, Some("0x30"));
    assert!(l.is_ok());
    assert_eq!(l.hosteoj(), "192.168.1.5:0x029001");
    assert_eq!(l.hexclass(), "0x0290");
    assert_eq!(l.eoj(), "0x029001");
    assert_eq!(l.host(), "192.168.1.5");
}

#[test]
fn line_response_without_data() {
    let l = LineResponse::try_from("NG:10.0.0.1:013001:0x80").unwrap();
    assert_eq!(l.result, LineResult::NG);
    assert!(!l.is_ok());
    assert_eq!(l.data, None);
}

#[test]
fn malformed_line_responses_are_rejected() {
    assert!(LineResponse::try_from("MAYBE:10.0.0.1:013001:0x80").is_err());
    assert!(LineResponse::try_from("OK:10.0.0.1:013001").is_err());
    assert!(LineResponse::try_from("").is_err());
}

#[test]
fn devices_are_generated_from_scan_responses() {
    let lines = [
        "OK:10.0.0.2:029001:0x9F,0x0380D6E0",
        "OK:10.0.0.2:029001:0x9E,0x0180",
        "NG:10.0.0.3:029001:0x9F",
        "OK:10.0.0.4:013001:0x9F,0xZZ",
    ];
    let parsed: Vec<LineResponse> = lines.iter().map(|l| LineResponse::try_from(l).unwrap()).collect();
    let devices = generate_devices(parsed);
    assert_eq!(devices.len(), 2);
    assert_eq!(devices[0].0, "10.0.0.2:0x029001");
    let d = &devices[0].1;
    assert_eq!(d.host, "10.0.0.2");
    assert_eq!(d.eoj, "0x029001");
    assert_eq!(d.r, vec!["0x80".to_string(), "0xD6".to_string(), "0xE0".to_string()]);
    assert_eq!(d.w, vec!["0x80".to_string()]);
    // a device whose data is not hex is still registered, without properties
    assert_eq!(devices[1].0, "10.0.0.4:0x013001");
    assert!(devices[1].1.r.is_empty());
}

#[test]
fn small_codes_are_padded_with_a_space() {
    let parsed = vec![LineResponse::try_from("OK:h:0ef001:0x9F,0x0105").unwrap()];
    let devices = generate_devices(parsed);
    assert_eq!(devices[0].1.r, vec!["0x 5".to_string()]);
}

#[test]
fn classes_come_in_chunks_of_four() {
    let res = vec![
        "OK:224.0.23.0:0ef001:0xD7,0x0202900130".to_string(),
        "OK:10.0.0.9:0ef001:0xD7,0x010290".to_string(),
        "garbage".to_string(),
    ];
    let mut classes = classes_from_responses(&res);
    classes.sort();
    assert_eq!(classes, vec!["0130".to_string(), "0290".to_string()]);
}

#[test]
fn a_chunk_may_span_two_responses() {
    let res = vec![
        "OK:a:0ef001:0xD7,0x01029".to_string(),
        "OK:b:0ef001:0xD7,0x010".to_string(),
    ];
    assert_eq!(classes_from_responses(&res), vec!["0290".to_string()]);
}

#[test]
fn intersection_and_uncovered_classes() {
    let available = vec!["0290".to_string(), "0130".to_string(), "0011".to_string()];
    let discovered = vec!["0130".to_string(), "0290".to_string(), "05ff".to_string()];
    assert_eq!(class_intersect(&available, &discovered), vec!["0x0290".to_string(), "0x0130".to_string()]);
    assert_eq!(uncovered_classes(&available, &discovered), vec!["05ff".to_string()]);
}

#[test]
fn scan_commands() {
    let classes = vec!["0x0290".to_string()];
    assert_eq!(
        scan_command(&classes),
        "224.0.23.0:0x029000:0x9F\n224.0.23.0:0x029000:0x9E\n"
    );
    assert_eq!(
        protoinfo_command(&vec!["0290".to_string()]),
        "224.0.23.0:0ef000:0x82\n224.0.23.0:0ef000:0x8A\n224.0.23.0:029000:0x82\n"
    );
}

#[test]
fn protocol_information_is_collected() {
    let lines = [
        "OK:10.0.0.2:0ef001:0x82,0x010A0100",
        "OK:10.0.0.2:0ef001:0x8A,0x000005",
        "OK:10.0.0.2:029001:0x82,0x00004100",
    ];
    let parsed: Vec<LineResponse> = lines.iter().map(|l| LineResponse::try_from(l).unwrap()).collect();
    let infos = collect_protoinfo(&parsed);
    assert_eq!(infos.len(), 1);
    let i = &infos[0];
    assert_eq!(i.id, "10.0.0.2:0x029001");
    assert_eq!(i.protocol.appendix, "0x00004100");
    // the first 0x82 response of the host is the node profile's
    assert_eq!(i.protocol.protocol, "0x010A0100");
    assert_eq!(i.manufacturer.code, "0x000005");
    assert_eq!(i.device_type, "unavailable");
    assert_eq!(i.manufacturer.descriptions.ja, "不明");
}
