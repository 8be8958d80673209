use dnssd::dns::{new_query, DnsSdHeader, DnsSdResponse, Type};
use dnssd::dnssd_error::DnsSdError;

#[test]
fn test_label_to_string_1() {
    let packet: [u8; 17] = [
        0x04, 0x5f, 0x68, 0x61, 0x70, 0x04, 0x5f, 0x74, 0x63, 0x70, 0x05, 0x6c, 0x6f, 0x63, 0x61,
        0x6c, 0x00,
    ];

    let (label, offset) = DnsSdResponse::label_to_string(&packet, 0).unwrap();

    assert_eq!(label, "_hap._tcp.local");
    assert_eq!(offset, 17);
}

#[test]
fn dns_test_label_to_string_1() {
    let packet: [u8; 17] = [
        0x04, 0x5f, 0x68, 0x61, 0x70, 0x04, 0x5f, 0x74, 0x63, 0x70, 0x05, 0x6c, 0x6f, 0x63, 0x61,
        0x6c, 0x00,
    ];

    let (label, offset) = DnsSdResponse::label_to_string(&packet, 0).unwrap();

    assert_eq!(label, "_hap._tcp.local");
    assert_eq!(offset, 17);
}

#[test]
fn test_label_to_string_2() {
    let packet: [u8; 28] = [
        0x0f, 0x5f, 0x63, 0x6f, 0x6d, 0x70, 0x61, 0x6e, 0x69, 0x6f, 0x6e, 0x2d, 0x6c, 0x69, 0x6e,
        0x6b, 0x04, 0x5f, 0x74, 0x63, 0x70, 0x05, 0x6c, 0x6f, 0x63, 0x61, 0x6c, 0x00,
    ];

    let (label, offset) = DnsSdResponse::label_to_string(&packet, 0).unwrap();

    assert_eq!(label, "_companion-link._tcp.local");
    assert_eq!(offset, 28);
}

#[test]
fn dns_test_label_to_string_2() {
    let packet: [u8; 28] = [
        0x0f, 0x5f, 0x63, 0x6f, 0x6d, 0x70, 0x61, 0x6e, 0x69, 0x6f, 0x6e, 0x2d, 0x6c, 0x69, 0x6e,
        0x6b, 0x04, 0x5f, 0x74, 0x63, 0x70, 0x05, 0x6c, 0x6f, 0x63, 0x61, 0x6c, 0x00,
    ];

    let (label, offset) = DnsSdResponse::label_to_string(&packet, 0).unwrap();

    assert_eq!(label, "_companion-link._tcp.local");
    assert_eq!(offset, 28);
}

fn dirigera_advertisement() -> [u8; 229] {
    [
        0x00, 0x00, 0x84, 0x00, 0x00, 0x00, 0x00, 0x04, 0x00, 0x00, 0x00, 0x00, 0x04, 0x5f, 0x68,
        0x61, 0x70, 0x04, 0x5f, 0x74, 0x63, 0x70, 0x05, 0x6c, 0x6f, 0x63, 0x61, 0x6c, 0x00, 0x00,
        0x0c, 0x00, 0x01, 0x00, 0x00, 0x11, 0x94, 0x00, 0x0b, 0x08, 0x44, 0x49, 0x52, 0x49, 0x47,
        0x45, 0x52, 0x41, 0xc0, 0x0c, 0xc0, 0x27, 0x00, 0x10, 0x80, 0x01, 0x00, 0x00, 0x11, 0x94,
        0x00, 0x66, 0x05, 0x63, 0x23, 0x3d, 0x32, 0x32, 0x04, 0x66, 0x66, 0x3d, 0x31, 0x14, 0x69,
        0x64, 0x3d, 0x42, 0x35, 0x3a, 0x42, 0x30, 0x3a, 0x41, 0x30, 0x3a, 0x36, 0x37, 0x3a, 0x42,
        0x34, 0x3a, 0x36, 0x39, 0x22, 0x6d, 0x64, 0x3d, 0x44, 0x49, 0x52, 0x49, 0x47, 0x45, 0x52,
        0x41, 0x20, 0x48, 0x75, 0x62, 0x20, 0x66, 0x6f, 0x72, 0x20, 0x73, 0x6d, 0x61, 0x72, 0x74,
        0x20, 0x70, 0x72, 0x6f, 0x64, 0x75, 0x63, 0x74, 0x73, 0x06, 0x70, 0x76, 0x3d, 0x31, 0x2e,
        0x31, 0x05, 0x73, 0x23, 0x3d, 0x32, 0x30, 0x04, 0x73, 0x66, 0x3d, 0x30, 0x04, 0x63, 0x69,
        0x3d, 0x32, 0x0b, 0x73, 0x68, 0x3d, 0x6b, 0x37, 0x50, 0x76, 0x43, 0x67, 0x3d, 0x3d, 0xc0,
        0x27, 0x00, 0x21, 0x80, 0x01, 0x00, 0x00, 0x00, 0x78, 0x00, 0x19, 0x00, 0x00, 0x00, 0x00,
        0x1f, 0x40, 0x10, 0x67, 0x77, 0x32, 0x2d, 0x38, 0x66, 0x66, 0x36, 0x65, 0x64, 0x32, 0x31,
        0x30, 0x61, 0x34, 0x38, 0xc0, 0x16, 0xc0, 0xb6, 0x00, 0x1c, 0x80, 0x01, 0x00, 0x00, 0x00,
        0x78, 0x00, 0x10, 0xfd, 0x05, 0x0b, 0x30, 0x32, 0x24, 0x4a, 0x5c, 0x6a, 0xec, 0x8a, 0xff,
        0xfe, 0x00, 0xd0, 0xed,
    ]
}

#[test]
fn test_label_to_string_3() {
    let packet = dirigera_advertisement();

    let (label, offset) = DnsSdResponse::label_to_string(&packet, 39).unwrap();

    assert_eq!(label, "DIRIGERA._hap._tcp.local");
    assert_eq!(offset, 50);
}

#[test]
fn dns_test_label_to_string_3() {
    let packet = dirigera_advertisement();

    let (label, offset) = DnsSdResponse::label_to_string(&packet, 39).unwrap();

    assert_eq!(label, "DIRIGERA._hap._tcp.local");
    assert_eq!(offset, 50);
}

#[test]
fn test_header_to_bytes() {
    let header = DnsSdHeader {
        id: 0,
        flags: 0x0000,
        queries_len: 1,
        answers_len: 0,
        authorities_len: 0,
        additional_len: 0,
    };

    let buffer = header.to_bytes();

    assert_eq!(buffer.len(), 12);
    assert_eq!(buffer[0], 0x00);
    assert_eq!(buffer[1], 0x00);
    assert_eq!(buffer[2], 0x00);
    assert_eq!(buffer[3], 0x00);
    assert_eq!(buffer[4], 0x00);
    assert_eq!(buffer[5], 0x01);
    assert_eq!(buffer[6], 0x00);
    assert_eq!(buffer[7], 0x00);
    assert_eq!(buffer[8], 0x00);
    assert_eq!(buffer[9], 0x00);
    assert_eq!(buffer[10], 0x00);
    assert_eq!(buffer[11], 0x00);
}

#[test]
fn dns_test_header_to_bytes() {
    let header = DnsSdHeader {
        id: 0,
        flags: 0x0000,
        queries_len: 1,
        answers_len: 0,
        authorities_len: 0,
        additional_len: 0,
    };

    let buffer = header.to_bytes();

    assert_eq!(buffer.len(), 12);
    assert_eq!(buffer[0], 0x00);
    assert_eq!(buffer[1], 0x00);
    assert_eq!(buffer[2], 0x00);
    assert_eq!(buffer[3], 0x00);
    assert_eq!(buffer[4], 0x00);
    assert_eq!(buffer[5], 0x01);
    assert_eq!(buffer[6], 0x00);
    assert_eq!(buffer[7], 0x00);
    assert_eq!(buffer[8], 0x00);
    assert_eq!(buffer[9], 0x00);
    assert_eq!(buffer[10], 0x00);
    assert_eq!(buffer[11], 0x00);
}

#[test]
fn test_new_query() {
    let query = new_query("_hap._tcp.local").unwrap();

    assert_eq!(query.len(), 33);
    assert_eq!(query[0], 0x00);
    assert_eq!(query[1], 0x00);
    assert_eq!(query[2], 0x00);
    assert_eq!(query[3], 0x00);
    assert_eq!(query[4], 0x00);
    assert_eq!(query[5], 0x01);
    assert_eq!(query[6], 0x00);
    assert_eq!(query[7], 0x00);
    assert_eq!(query[8], 0x00);
    assert_eq!(query[9], 0x00);
    assert_eq!(query[10], 0x00);
    assert_eq!(query[11], 0x00);
    assert_eq!(query[12], 0x04);
    assert_eq!(query[13], 0x5f);
    assert_eq!(query[14], 0x68);
    assert_eq!(query[15], 0x61);
    assert_eq!(query[16], 0x70);
    assert_eq!(query[17], 0x04);
    assert_eq!(query[18], 0x5f);
    assert_eq!(query[19], 0x74);
    assert_eq!(query[20], 0x63);
    assert_eq!(query[21], 0x70);
    assert_eq!(query[22], 0x05);
    assert_eq!(query[23], 0x6c);
    assert_eq!(query[24], 0x6f);
    assert_eq!(query[25], 0x63);
    assert_eq!(query[26], 0x61);
    assert_eq!(query[27], 0x6c);
    assert_eq!(query[28], 0x00);
    assert_eq!(query[29], 0x00);
    assert_eq!(query[30], 0xff);
    assert_eq!(query[31], 0x80);
    assert_eq!(query[32], 0x01);
}

#[test]
fn dns_test_new_query() {
    let query = new_query("_hap._tcp.local").unwrap();

    assert_eq!(query.len(), 33);
    assert_eq!(query[0], 0x00);
    assert_eq!(query[1], 0x00);
    assert_eq!(query[2], 0x00);
    assert_eq!(query[3], 0x00);
    assert_eq!(query[4], 0x00);
    assert_eq!(query[5], 0x01);
    assert_eq!(query[6], 0x00);
    assert_eq!(query[7], 0x00);
    assert_eq!(query[8], 0x00);
    assert_eq!(query[9], 0x00);
    assert_eq!(query[10], 0x00);
    assert_eq!(query[11], 0x00);
    assert_eq!(query[12], 0x04);
    assert_eq!(query[13], 0x5f);
    assert_eq!(query[14], 0x68);
    assert_eq!(query[15], 0x61);
    assert_eq!(query[16], 0x70);
    assert_eq!(query[17], 0x04);
    assert_eq!(query[18], 0x5f);
    assert_eq!(query[19], 0x74);
    assert_eq!(query[20], 0x63);
    assert_eq!(query[21], 0x70);
    assert_eq!(query[22], 0x05);
    assert_eq!(query[23], 0x6c);
    assert_eq!(query[24], 0x6f);
    assert_eq!(query[25], 0x63);
    assert_eq!(query[26], 0x61);
    assert_eq!(query[27], 0x6c);
    assert_eq!(query[28], 0x00);
    assert_eq!(query[29], 0x00);
    assert_eq!(query[30], 0xff);
    assert_eq!(query[31], 0x80);
    assert_eq!(query[32], 0x01);
}

fn dirigera_response() -> [u8; 221] {
    [
        0x00, 0x00, 0x84, 0x00, 0x00, 0x01, 0x00, 0x03, 0x00, 0x00, 0x00, 0x00, 0x08, 0x44, 0x49,
        0x52, 0x49, 0x47, 0x45, 0x52, 0x41, 0x04, 0x5f, 0x68, 0x61, 0x70, 0x04, 0x5f, 0x74, 0x63,
        0x70, 0x05, 0x6c, 0x6f, 0x63, 0x61, 0x6c, 0x00, 0x00, 0xff, 0x80, 0x01, 0xc0, 0x0c, 0x00,
        0x21, 0x00, 0x01, 0x00, 0x00, 0x00, 0x0a, 0x00, 0x19, 0x00, 0x00, 0x00, 0x00, 0x1f, 0x40,
        0x10, 0x67, 0x77, 0x32, 0x2d, 0x38, 0x66, 0x66, 0x36, 0x65, 0x64, 0x32, 0x31, 0x30, 0x61,
        0x34, 0x38, 0xc0, 0x1f, 0xc0, 0x3c, 0x00, 0x1c, 0x00, 0x01, 0x00, 0x00, 0x00, 0x0a, 0x00,
        0x10, 0xfd, 0x05, 0x0b, 0x30, 0x32, 0x24, 0x4a, 0x5c, 0x6a, 0xec, 0x8a, 0xff, 0xfe, 0x00,
        0xd0, 0xed, 0xc0, 0x0c, 0x00, 0x10, 0x00, 0x01, 0x00, 0x00, 0x00, 0x0a, 0x00, 0x66, 0x05,
        0x63, 0x23, 0x3d, 0x34, 0x30, 0x04, 0x66, 0x66, 0x3d, 0x31, 0x14, 0x69, 0x64, 0x3d, 0x42,
        0x35, 0x3a, 0x42, 0x30, 0x3a, 0x41, 0x30, 0x3a, 0x36, 0x37, 0x3a, 0x42, 0x34, 0x3a, 0x36,
        0x39, 0x22, 0x6d, 0x64, 0x3d, 0x44, 0x49, 0x52, 0x49, 0x47, 0x45, 0x52, 0x41, 0x20, 0x48,
        0x75, 0x62, 0x20, 0x66, 0x6f, 0x72, 0x20, 0x73, 0x6d, 0x61, 0x72, 0x74, 0x20, 0x70, 0x72,
        0x6f, 0x64, 0x75, 0x63, 0x74, 0x73, 0x06, 0x70, 0x76, 0x3d, 0x31, 0x2e, 0x31, 0x05, 0x73,
        0x23, 0x3d, 0x34, 0x37, 0x04, 0x73, 0x66, 0x3d, 0x30, 0x04, 0x63, 0x69, 0x3d, 0x32, 0x0b,
        0x73, 0x68, 0x3d, 0x6b, 0x37, 0x50, 0x76, 0x43, 0x67, 0x3d, 0x3d,
    ]
}

#[test]
fn test_dns_response_from() {
    let packet = dirigera_response();

    let responses = DnsSdResponse::from(&packet, 221).unwrap();

    assert_eq!(responses.len(), 3);
    let mut matches = 0;
    for response in responses {
        match response {
            DnsSdResponse::SrvAnswer(answer) => {
                assert_eq!(answer.label, "DIRIGERA._hap._tcp.local");
                assert_eq!(answer.service, "gw2-8ff6ed210a48.local");
                assert_eq!(answer.port, 8000);
                matches += 1;
            }
            DnsSdResponse::TxtAnswer(answer) => {
                assert_eq!(answer.label, "DIRIGERA._hap._tcp.local");
                assert_eq!(answer.records.len(), 9);
                assert_eq!(answer.records[0], "c#=40");
                assert_eq!(answer.records[1], "ff=1");
                assert_eq!(answer.records[2], "id=B5:B0:A0:67:B4:69");
                assert_eq!(answer.records[3], "md=DIRIGERA Hub for smart products");
                assert_eq!(answer.records[4], "pv=1.1");
                assert_eq!(answer.records[5], "s#=47");
                assert_eq!(answer.records[6], "sf=0");
                assert_eq!(answer.records[7], "ci=2");
                assert_eq!(answer.records[8], "sh=k7PvCg==");
                matches += 1;
            }
            DnsSdResponse::AaaaAnswer(answer) => {
                assert_eq!(answer.label, "gw2-8ff6ed210a48.local");
                assert_eq!(
                    answer.address,
                    [0xfd05, 0x0b30, 0x3224, 0x4a5c, 0x6aec, 0x8aff, 0xfe00, 0xd0ed]
                );
                matches += 1;
            }
            _ => (),
        }
    }
    assert_eq!(matches, 3);
}

#[test]
fn test_response_order_is_wire_order() {
    let packet = dirigera_response();

    let responses = DnsSdResponse::from(&packet, 221).unwrap();

    assert!(matches!(responses[0], DnsSdResponse::SrvAnswer(_)));
    assert!(matches!(responses[1], DnsSdResponse::AaaaAnswer(_)));
    assert!(matches!(responses[2], DnsSdResponse::TxtAnswer(_)));
}

#[test]
fn test_forward_pointer_is_rejected() {
    // A name that starts with the pointer c0 10, aiming past its own offset.
    let packet: [u8; 14] = [
        0x00, 0x00, 0x84, 0x00, 0x00, 0x00, 0x00, 0x01, 0x00, 0x00, 0x00, 0x00, 0xc0, 0x10,
    ];

    assert_eq!(
        DnsSdResponse::from(&packet, 14).unwrap_err(),
        DnsSdError::LabelPtrForward
    );
}

#[test]
fn test_self_pointer_is_rejected() {
    let packet: [u8; 4] = [0x00, 0x00, 0xc0, 0x02];

    assert_eq!(
        DnsSdResponse::label_to_string(&packet, 2).unwrap_err(),
        DnsSdError::LabelPtrForward
    );
}

#[test]
fn test_compression_loop_is_rejected() {
    // 127 pointers, each aiming at the one two octets below it.
    let mut packet = vec![0u8; 254];
    for i in 0..127usize {
        let target = if i == 0 { 0 } else { 2 * (i - 1) };
        packet[2 * i] = 0xc0;
        packet[2 * i + 1] = target as u8;
    }

    assert_eq!(
        DnsSdResponse::label_to_string(&packet, 252).unwrap_err(),
        DnsSdError::LabelCompressionLoop
    );
}

#[test]
fn test_not_response_is_rejected() {
    // Response bit unset.
    let packet: [u8; 14] = [
        0x00, 0x00, 0x00, 0x00, 0x00, 0x00, 0x00, 0x01, 0x00, 0x00, 0x00, 0x00, 0x00, 0x00,
    ];

    assert_eq!(
        DnsSdResponse::from(&packet, 14).unwrap_err(),
        DnsSdError::NotDnsSdResponse
    );
}

#[test]
fn test_no_answers_is_rejected() {
    let packet: [u8; 12] = [
        0x00, 0x00, 0x84, 0x00, 0x00, 0x00, 0x00, 0x00, 0x00, 0x00, 0x00, 0x00,
    ];

    assert_eq!(
        DnsSdResponse::from(&packet, 12).unwrap_err(),
        DnsSdError::NoAnswers
    );
}

#[test]
fn test_nonzero_id_is_rejected() {
    let packet: [u8; 12] = [
        0x00, 0x01, 0x84, 0x00, 0x00, 0x00, 0x00, 0x01, 0x00, 0x00, 0x00, 0x00,
    ];

    assert_eq!(
        DnsSdResponse::from(&packet, 12).unwrap_err(),
        DnsSdError::InvalidDnsSdHeader
    );
}

#[test]
fn test_short_packet_is_rejected() {
    let packet: [u8; 4] = [0x00, 0x00, 0x84, 0x00];

    assert_eq!(
        DnsSdResponse::from(&packet, 4).unwrap_err(),
        DnsSdError::InvalidDnsSdHeader
    );
}

#[test]
fn test_unknown_record_type_is_rejected() {
    // One answer of type 3, which no known record carries.
    let packet: [u8; 23] = [
        0x00, 0x00, 0x84, 0x00, 0x00, 0x00, 0x00, 0x01, 0x00, 0x00, 0x00, 0x00, 0x03, 0x66, 0x6f,
        0x6f, 0x00, 0x00, 0x03, 0x00, 0x01, 0x00, 0x00,
    ];

    assert_eq!(
        DnsSdResponse::from(&packet, 23).unwrap_err(),
        DnsSdError::InvalidMdnsType
    );
}

#[test]
fn test_invalid_utf8_txt_fails_packet() {
    // A TXT record for "foo" whose single string holds the byte 0xff.
    let packet: [u8; 29] = [
        0x00, 0x00, 0x84, 0x00, 0x00, 0x00, 0x00, 0x01, 0x00, 0x00, 0x00, 0x00, 0x03, 0x66, 0x6f,
        0x6f, 0x00, 0x00, 0x10, 0x00, 0x01, 0x00, 0x00, 0x00, 0x0a, 0x00, 0x02, 0x01, 0xff,
    ];

    assert_eq!(
        DnsSdResponse::from(&packet, 29).unwrap_err(),
        DnsSdError::InvalidUtf8
    );
}

#[test]
fn test_truncated_label_is_rejected() {
    // The length octet promises more octets than the buffer holds.
    let packet: [u8; 3] = [0x08, 0x61, 0x62];

    assert_eq!(
        DnsSdResponse::label_to_string(&packet, 0).unwrap_err(),
        DnsSdError::LabelToLong
    );
}

#[test]
fn test_reserved_length_bits_are_rejected() {
    let packet: [u8; 2] = [0x47, 0x00];

    assert_eq!(
        DnsSdResponse::label_to_string(&packet, 0).unwrap_err(),
        DnsSdError::LabelInvalid
    );
}

#[test]
fn test_new_query_empty_name_is_rejected() {
    assert_eq!(new_query("").unwrap_err(), DnsSdError::LabelInvalid);
}

#[test]
fn test_new_query_overlong_label_is_rejected() {
    let name = format!("{}.local", "a".repeat(256));

    assert_eq!(new_query(&name).unwrap_err(), DnsSdError::LabelToLong);
}

#[test]
fn test_a_record_decodes() {
    // One A answer under "foo" carrying 192.168.1.2.
    let packet: [u8; 31] = [
        0x00, 0x00, 0x84, 0x00, 0x00, 0x00, 0x00, 0x01, 0x00, 0x00, 0x00, 0x00, 0x03, 0x66, 0x6f,
        0x6f, 0x00, 0x00, 0x01, 0x00, 0x01, 0x00, 0x00, 0x00, 0x0a, 0x00, 0x04, 0xc0, 0xa8, 0x01,
        0x02,
    ];

    let responses = DnsSdResponse::from(&packet, 31).unwrap();

    assert_eq!(responses.len(), 1);
    match &responses[0] {
        DnsSdResponse::AAnswer(a) => {
            assert_eq!(a.label, "foo");
            assert_eq!(a.address, [192, 168, 1, 2]);
        }
        _ => panic!("expected an A answer"),
    }
}

#[test]
fn test_bytes_past_count_play_no_part() {
    // A 13-octet datagram: a response header announcing one answer, then a
    // label length octet whose label would run past the datagram's end.
    let packet: [u8; 13] = [
        0x00, 0x00, 0x84, 0x00, 0x00, 0x00, 0x00, 0x01, 0x00, 0x00, 0x00, 0x00, 0x03,
    ];

    // Two receive buffers that agree on the datagram but hold different
    // stale octets beyond it: one continues into a well-formed A record,
    // the other into garbage.
    let mut stale_record = [0u8; 64];
    stale_record[..13].copy_from_slice(&packet);
    stale_record[13..31].copy_from_slice(&[
        0x66, 0x6f, 0x6f, 0x00, 0x00, 0x01, 0x00, 0x01, 0x00, 0x00, 0x00, 0x0a, 0x00, 0x04,
        0xc0, 0xa8, 0x01, 0x02,
    ]);
    let mut stale_garbage = [0u8; 64];
    stale_garbage[..13].copy_from_slice(&packet);
    for i in 13..64 {
        stale_garbage[i] = 0xff;
    }

    let r1 = DnsSdResponse::from(&stale_record, 13);
    let r2 = DnsSdResponse::from(&stale_garbage, 13);
    assert_eq!(r1.unwrap_err(), DnsSdError::LabelToLong);
    assert_eq!(r2.unwrap_err(), DnsSdError::LabelToLong);
}

#[test]
fn test_type_from_known_and_unknown() {
    assert!(matches!(Type::from(1), Ok(Type::A)));
    assert!(matches!(Type::from(12), Ok(Type::PTR)));
    assert!(matches!(Type::from(16), Ok(Type::TXT)));
    assert!(matches!(Type::from(28), Ok(Type::AAAA)));
    assert!(matches!(Type::from(33), Ok(Type::SRV)));
    assert!(matches!(Type::from(255), Ok(Type::ANY)));
    assert_eq!(Type::from(4).unwrap_err(), DnsSdError::InvalidMdnsType);
}
