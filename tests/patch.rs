use skrillax_client_patcher::codec::{decode_division_info, encode_division_info, Division, DivisionInfo, Gateway};
use skrillax_client_patcher::patch::{create_local_division_info, create_port_from_patch, PATCH_PORT_BASE};

fn two_groups() -> DivisionInfo {
    DivisionInfo {
        content: 1,
        count: 2,
        divisions: vec![
            Division {
                name: "DIV01".to_string(),
                null_byte: 0,
                count: 2,
                gateways: vec![
                    Gateway { ip: "gwgt1.example.com".to_string(), null_byte: 0 },
                    Gateway { ip: "gwgt2.example.com".to_string(), null_byte: 0 },
                ],
            },
            Division {
                name: "DIV02".to_string(),
                null_byte: 0,
                count: 1,
                gateways: vec![Gateway { ip: "gwgt3.example.com".to_string(), null_byte: 0 }],
            },
        ],
    }
}

#[test]
fn port_for_patch_569() {
    assert_eq!(PATCH_PORT_BASE, 32000);
    assert_eq!(create_port_from_patch(569), 32569);
    assert_eq!(create_port_from_patch(0), 32000);
}

#[test]
fn localized_record_for_two_groups() {
    let local = create_local_division_info(&two_groups());
    assert_eq!(local.content, 1);
    assert_eq!(local.count, 1);
    assert_eq!(local.divisions.len(), 1);
    let d = &local.divisions[0];
    assert_eq!(d.name, "DIV01");
    assert_eq!(d.null_byte, 0);
    assert_eq!(d.count, 1);
    assert_eq!(d.gateways.len(), 1);
    assert_eq!(d.gateways[0].ip, "127.0.0.1");
    assert_eq!(d.gateways[0].null_byte, 0);
}

#[test]
fn localized_record_keeps_any_content_tag() {
    for tag in [0u8, 42, 255] {
        let original = DivisionInfo { content: tag, count: 0, divisions: vec![] };
        let local = create_local_division_info(&original);
        assert_eq!(local.content, tag);
        assert_eq!(local.divisions.len(), 1);
        assert_eq!(local.divisions[0].gateways[0].ip, "127.0.0.1");
    }
}

#[test]
fn localized_record_bytes() {
    let bytes = encode_division_info(&create_local_division_info(&two_groups())).unwrap();
    let mut expected = vec![1u8, 1, 5, 0, 0, 0];
    expected.extend(b"DIV01");
    expected.extend([0u8, 1, 9, 0, 0, 0]);
    expected.extend(b"127.0.0.1");
    expected.push(0);
    assert_eq!(bytes, expected);
    let back = decode_division_info(&bytes).unwrap();
    assert_eq!(back.divisions[0].gateways[0].ip, "127.0.0.1");
}
