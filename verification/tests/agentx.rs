//! The AgentX codec.

use hemlock::agentx::{
    frame, is_duplicate_registration, open_pdu, parse_request, parse_response, push_octets,
    push_oid, push_u16, push_varbind, register_pdu, response_pdu, Header, PduType, Value, VarBind,
    ERROR_NONE, HEADER_LEN,
};

#[test]
fn headers_round_trip() {
    let framed = frame(PduType::Response, 7, 11, 13, vec![1, 2, 3, 4]);
    let header = Header::parse(&framed).unwrap();
    assert_eq!(header.pdu_type, PduType::Response);
    assert_eq!(
        (header.session_id, header.transaction_id, header.packet_id),
        (7, 11, 13)
    );
    assert_eq!(header.payload_len, 4);
    assert_eq!(&framed[HEADER_LEN..], &[1, 2, 3, 4]);
}

#[test]
fn short_wrong_version_and_little_endian_headers_are_refused() {
    assert!(Header::parse(&[0u8; 19]).is_none());
    let mut framed = frame(PduType::Ping, 1, 0, 1, Vec::new());
    framed[0] = 2;
    assert!(Header::parse(&framed).is_none());
    let mut framed = frame(PduType::Ping, 1, 0, 1, Vec::new());
    framed[2] = 0;
    assert!(Header::parse(&framed).is_none());
}

/// Octet strings pad to a 4-byte boundary; the padding is not part
/// of the declared length.
#[test]
fn octet_strings_pad_to_four() {
    for (text, expected) in [("", 4), ("a", 8), ("abcd", 8), ("abcde", 12)] {
        let mut out = Vec::new();
        push_octets(&mut out, text.as_bytes());
        assert_eq!(out.len(), expected, "padding wrong for {text:?}");
        assert_eq!(
            u32::from_be_bytes([out[0], out[1], out[2], out[3]]),
            text.len() as u32
        );
    }
}

/// A Get payload the master would send, decoded back into ranges.
#[test]
fn get_requests_decode() {
    let mut payload = Vec::new();
    push_oid(&mut payload, &[1, 3, 6, 1, 2, 1, 2, 2, 1, 8, 1], false);
    push_oid(&mut payload, &[], false);
    let framed = frame(PduType::Get, 1, 2, 3, payload);
    let header = Header::parse(&framed).unwrap();
    let request = parse_request(header, &framed[HEADER_LEN..]).unwrap();
    assert_eq!(request.ranges.len(), 1);
    assert_eq!(
        request.ranges[0].start,
        vec![1, 3, 6, 1, 2, 1, 2, 2, 1, 8, 1]
    );
    assert!(request.ranges[0].end.is_empty());
}

/// The `prefix` shorthand expands to 1.3.6.1.<prefix> on decode,
/// which is how net-snmp's master actually sends MIB-2 OIDs.
#[test]
fn prefixed_oids_expand() {
    // n_subid=6, prefix=2 (1.3.6.1.2), not inclusive.
    let mut payload = vec![6, 2, 0, 0];
    for sub in [1u32, 2, 2, 1, 8, 1] {
        payload.extend_from_slice(&sub.to_be_bytes());
    }
    push_oid(&mut payload, &[], false);
    let framed = frame(PduType::Get, 1, 2, 3, payload);
    let header = Header::parse(&framed).unwrap();
    let request = parse_request(header, &framed[HEADER_LEN..]).unwrap();
    assert_eq!(
        request.ranges[0].start,
        vec![1, 3, 6, 1, 2, 1, 2, 2, 1, 8, 1]
    );
}

#[test]
fn getbulk_carries_its_repeat_counts() {
    let mut payload = Vec::new();
    push_u16(&mut payload, 0);
    push_u16(&mut payload, 10);
    push_oid(&mut payload, &[1, 3, 6, 1, 2, 1, 2, 2, 1, 1], true);
    push_oid(&mut payload, &[], false);
    let framed = frame(PduType::GetBulk, 1, 2, 3, payload);
    let header = Header::parse(&framed).unwrap();
    let request = parse_request(header, &framed[HEADER_LEN..]).unwrap();
    assert_eq!((request.non_repeaters, request.max_repetitions), (0, 10));
    assert!(request.ranges[0].inclusive);
}

/// Every value type encodes at its documented width; the exception
/// markers carry a tag and no payload.
#[test]
fn values_encode_at_their_widths() {
    let sizes = [
        (Value::Integer(-1), 4),
        (Value::Counter32(1), 4),
        (Value::Gauge32(1), 4),
        (Value::TimeTicks(1), 4),
        (Value::Counter64(1), 8),
        (Value::OctetString(b"Ethernet1".to_vec()), 16),
        (Value::EndOfMibView, 0),
        (Value::NoSuchObject, 0),
        (Value::NoSuchInstance, 0),
    ];
    for (value, payload_len) in sizes {
        let mut out = Vec::new();
        let bind = VarBind {
            name: vec![1, 3, 6, 1],
            value: value.clone(),
        };
        push_varbind(&mut out, &bind);
        // 4 bytes of type header + 4 of OID header + 4 sub-ids.
        assert_eq!(out.len(), 4 + 4 + 16 + payload_len, "wrong width {value:?}");
    }
}

#[test]
fn open_and_register_pdus_frame() {
    let open = open_pdu(1, &[1, 3, 6, 1, 4, 1, 99], "hemlock");
    let header = Header::parse(&open).unwrap();
    assert_eq!(header.pdu_type, PduType::Open);
    assert_eq!(header.session_id, 0);
    assert_eq!(open.len(), HEADER_LEN + header.payload_len as usize);

    let register = register_pdu(9, 2, &[1, 3, 6, 1, 2, 1, 2], 1);
    let header = Header::parse(&register).unwrap();
    assert_eq!(header.pdu_type, PduType::Register);
    assert_eq!(header.session_id, 9);
    // timeout, priority, range_subid, reserved, then the OID.
    assert_eq!(register[HEADER_LEN + 1], 1, "priority not carried");
}

#[test]
fn responses_echo_the_request_ids() {
    let request = Header::parse(&frame(PduType::Get, 4, 5, 6, Vec::new())).unwrap();
    let binds = vec![VarBind {
        name: vec![1, 3, 6, 1, 2, 1, 2, 2, 1, 8, 1],
        value: Value::Integer(1),
    }];
    let response = response_pdu(&request, ERROR_NONE, 0, &binds);
    let header = Header::parse(&response).unwrap();
    assert_eq!(header.pdu_type, PduType::Response);
    assert_eq!(
        (header.session_id, header.transaction_id, header.packet_id),
        (4, 5, 6)
    );
    let (session, error) = parse_response(&header, &response[HEADER_LEN..]).unwrap();
    assert_eq!((session, error), (4, ERROR_NONE));
}

#[test]
fn duplicate_registrations_are_recognised() {
    assert!(is_duplicate_registration(263));
    assert!(!is_duplicate_registration(0));
    assert!(!is_duplicate_registration(262));
}

/// Negative integers are two's complement on the wire.
#[test]
fn integers_are_twos_complement() {
    let mut out = Vec::new();
    push_varbind(
        &mut out,
        &VarBind {
            name: vec![1, 3, 6, 1],
            value: Value::Integer(-2),
        },
    );
    assert_eq!(&out[out.len() - 4..], &[0xff, 0xff, 0xff, 0xfe]);
}

/// A truncated request decodes to nothing.
#[test]
fn truncated_requests_are_refused() {
    let mut payload = Vec::new();
    push_oid(&mut payload, &[1, 3, 6, 1, 2, 1], false);
    push_oid(&mut payload, &[], false);
    payload.truncate(payload.len() - 6);
    let framed = frame(PduType::Get, 1, 2, 3, payload);
    let header = Header::parse(&framed).unwrap();
    assert!(parse_request(header, &framed[HEADER_LEN..]).is_none());
}
