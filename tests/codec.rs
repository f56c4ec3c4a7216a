use skrillax_client_patcher::codec::{
    decode_division_at, decode_division_info, decode_gateway_at, decode_text_at, encode_division_info,
    DecodeError, Division, DivisionInfo, EncodeError, Gateway,
};
use speedy::Writable;

fn gateway(ip: &str) -> Gateway {
    Gateway { ip: ip.to_string(), null_byte: 0 }
}

fn division(name: &str, ips: &[&str]) -> Division {
    Division {
        name: name.to_string(),
        null_byte: 0,
        count: ips.len() as u8,
        gateways: ips.iter().map(|ip| gateway(ip)).collect(),
    }
}

fn sample() -> DivisionInfo {
    DivisionInfo {
        content: 1,
        count: 2,
        divisions: vec![
            division("DIV01", &["gwgt1.example.com", "10.0.0.1"]),
            division("DIV02", &["gwgt2.example.com"]),
        ],
    }
}

fn text(s: &str) -> Vec<u8> {
    s.to_string().write_to_vec().unwrap()
}

fn same(a: &DivisionInfo, b: &DivisionInfo) -> bool {
    a.content == b.content
        && a.count == b.count
        && a.divisions.len() == b.divisions.len()
        && a.divisions.iter().zip(b.divisions.iter()).all(|(x, y)| {
            x.name == y.name
                && x.null_byte == y.null_byte
                && x.count == y.count
                && x.gateways.len() == y.gateways.len()
                && x.gateways.iter().zip(y.gateways.iter()).all(|(g, h)| g.ip == h.ip && g.null_byte == h.null_byte)
        })
}

#[test]
fn encode_matches_speedy_layout() {
    let mut expected = vec![1u8, 2];
    expected.extend(text("DIV01"));
    expected.extend([0u8, 2]);
    expected.extend(text("gwgt1.example.com"));
    expected.push(0);
    expected.extend(text("10.0.0.1"));
    expected.push(0);
    expected.extend(text("DIV02"));
    expected.extend([0u8, 1]);
    expected.extend(text("gwgt2.example.com"));
    expected.push(0);
    assert_eq!(encode_division_info(&sample()).unwrap(), expected);
}

#[test]
fn text_layout_is_length_then_utf8() {
    let mut out = vec![5u8, 0, 0, 0];
    out.extend(b"DIV01");
    assert_eq!(text("DIV01"), out);
    let (s, end) = decode_text_at(&out, 0).unwrap();
    assert_eq!(s, "DIV01");
    assert_eq!(end, 9);
}

#[test]
fn round_trip_sample() {
    let r = sample();
    let bytes = encode_division_info(&r).unwrap();
    let back = decode_division_info(&bytes).unwrap();
    assert!(same(&back, &r));
}

#[test]
fn round_trip_empty_record() {
    let r = DivisionInfo { content: 7, count: 0, divisions: vec![] };
    let bytes = encode_division_info(&r).unwrap();
    assert_eq!(bytes, vec![7, 0]);
    assert!(same(&decode_division_info(&bytes).unwrap(), &r));
}

#[test]
fn round_trip_non_ascii_text() {
    let r = DivisionInfo { content: 3, count: 1, divisions: vec![division("Größe", &["ü.example"])] };
    let bytes = encode_division_info(&r).unwrap();
    assert!(same(&decode_division_info(&bytes).unwrap(), &r));
}

#[test]
fn encode_ignores_stale_counts() {
    let mut r = sample();
    r.count = 9;
    r.divisions[0].count = 0;
    let bytes = encode_division_info(&r).unwrap();
    assert_eq!(bytes[1], 2);
    assert_eq!(bytes, encode_division_info(&sample()).unwrap());
    let back = decode_division_info(&bytes).unwrap();
    assert_eq!(back.count, 2);
    assert_eq!(back.divisions[0].count, 2);
}

#[test]
fn terminator_bytes_are_kept() {
    let mut r = sample();
    r.divisions[1].null_byte = 0x41;
    r.divisions[0].gateways[1].null_byte = 0x7f;
    let bytes = encode_division_info(&r).unwrap();
    assert!(same(&decode_division_info(&bytes).unwrap(), &r));
}

#[test]
fn every_strict_prefix_is_truncated() {
    let bytes = encode_division_info(&sample()).unwrap();
    for k in 0..bytes.len() {
        assert_eq!(decode_division_info(&bytes[..k]).err(), Some(DecodeError::Truncated), "prefix {k}");
    }
}

#[test]
fn trailing_bytes_are_refused() {
    let mut bytes = encode_division_info(&sample()).unwrap();
    bytes.push(0);
    assert_eq!(decode_division_info(&bytes).err(), Some(DecodeError::TrailingBytes));
}

#[test]
fn invalid_utf8_is_malformed() {
    let bytes = vec![1u8, 1, 2, 0, 0, 0, 0xff, 0xfe, 0, 0];
    assert_eq!(decode_division_info(&bytes).err(), Some(DecodeError::Malformed));
}

#[test]
fn count_beyond_data_is_truncated() {
    let mut bytes = encode_division_info(&sample()).unwrap();
    bytes[1] = 3;
    assert_eq!(decode_division_info(&bytes).err(), Some(DecodeError::Truncated));
}

#[test]
fn too_many_groups_cannot_be_encoded() {
    let r = DivisionInfo { content: 1, count: 0, divisions: (0..256).map(|_| division("D", &[])).collect() };
    assert_eq!(encode_division_info(&r).err(), Some(EncodeError::TooLarge));
}

#[test]
fn too_many_endpoints_cannot_be_encoded() {
    let ips: Vec<&str> = (0..256).map(|_| "x").collect();
    let r = DivisionInfo { content: 1, count: 1, divisions: vec![division("D", &ips)] };
    assert_eq!(encode_division_info(&r).err(), Some(EncodeError::TooLarge));
}

#[test]
fn group_and_endpoint_readers() {
    let mut bytes = text("127.0.0.1");
    bytes.push(0);
    let (g, end) = decode_gateway_at(&bytes, 0).unwrap();
    assert_eq!(g.ip, "127.0.0.1");
    assert_eq!(g.null_byte, 0);
    assert_eq!(end, bytes.len());

    let mut group = text("DIV01");
    group.extend([0u8, 1]);
    group.extend(bytes.clone());
    let (d, end) = decode_division_at(&group, 0).unwrap();
    assert_eq!(d.name, "DIV01");
    assert_eq!(d.count, 1);
    assert_eq!(d.gateways.len(), 1);
    assert_eq!(d.gateways[0].ip, "127.0.0.1");
    assert_eq!(end, group.len());
}
