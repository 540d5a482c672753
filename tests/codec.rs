use dns_server::dns::{
    DnsClass, DnsHeader, DnsPacket, DnsQuestion, DnsRecord, Ipv4Address, QueryType, RecordData,
    ResponseCode,
};
use dns_server::names::labels_within_limit;
use dns_server::parser::DnsBytePacketBuffer;
use dns_server::DnsError;

fn buffer_with(bytes: &[u8]) -> DnsBytePacketBuffer {
    let mut b = DnsBytePacketBuffer::new();
    b.get_buf()[..bytes.len()].copy_from_slice(bytes);
    b.set_bytes_read(bytes.len());
    b
}

fn written(b: &DnsBytePacketBuffer) -> Vec<u8> {
    b.get_buf_range(0..b.get_pos()).unwrap().to_vec()
}

fn address_record(label: &str, ttl: u32, addr: Ipv4Address) -> DnsRecord {
    DnsRecord {
        label: label.to_string(),
        r_type: QueryType::A,
        r_class: DnsClass::IN,
        ttl,
        rd_len: 4,
        r_data: RecordData::IPADDR(addr),
    }
}

#[test]
fn header_scenario_decodes() {
    let mut b = buffer_with(&[
        0x1A, 0x0A, 0x81, 0x80, 0x00, 0x01, 0x00, 0x01, 0x00, 0x00, 0x00, 0x00,
    ]);
    let h = DnsHeader::read(&mut b).unwrap();
    assert_eq!(h.id, 6666);
    assert!(h.qr);
    assert!(h.rd);
    assert!(h.ra);
    assert!(!h.aa);
    assert!(!h.tc);
    assert!(!h.z);
    assert_eq!(h.op_code, 0);
    assert_eq!(h.r_code, ResponseCode::NOERROR);
    assert_eq!(h.qd_count, 1);
    assert_eq!(h.an_count, 1);
    assert_eq!(h.ns_count, 0);
    assert_eq!(h.ar_count, 0);
    assert_eq!(b.get_pos(), 12);
}

#[test]
fn header_short_input_is_exhausted() {
    let mut b = buffer_with(&[0x1A, 0x0A, 0x81, 0x80, 0x00]);
    assert_eq!(DnsHeader::read(&mut b).unwrap_err(), DnsError::BufferExhausted);
    assert_eq!(b.get_pos(), 0);
}

#[test]
fn header_write_packs_flags() {
    let mut h = DnsHeader::new();
    h.id = 0xBEEF;
    h.qr = true;
    h.op_code = 2;
    h.aa = true;
    h.tc = false;
    h.rd = true;
    h.ra = true;
    h.r_code = ResponseCode::NAMEERROR;
    h.qd_count = 1;
    h.ar_count = 0x0102;
    let mut b = DnsBytePacketBuffer::new();
    h.write(&mut b).unwrap();
    assert_eq!(
        written(&b),
        vec![0xBE, 0xEF, 0x95, 0x83, 0x00, 0x01, 0x00, 0x00, 0x00, 0x00, 0x01, 0x02]
    );
}

#[test]
fn question_scenario_encodes() {
    let q = DnsQuestion::new("google.com".to_string(), QueryType::A);
    let mut b = DnsBytePacketBuffer::new();
    q.write(&mut b).unwrap();
    assert_eq!(
        written(&b),
        vec![
            0x06, 0x67, 0x6f, 0x6f, 0x67, 0x6c, 0x65, 0x03, 0x63, 0x6f, 0x6d, 0x00, 0x00, 0x01,
            0x00, 0x01
        ]
    );
}

#[test]
fn unknown_record_type_is_kept_as_code_and_not_written() {
    let mut bytes = vec![
        0x00, 0x01, 0x81, 0x80, 0x00, 0x00, 0x00, 0x01, 0x00, 0x00, 0x00, 0x00,
    ];
    // name "mx", type 15, class 1, ttl 60, data length 3, data
    bytes.extend_from_slice(&[0x02, b'm', b'x', 0x00, 0x00, 0x0F, 0x00, 0x01]);
    bytes.extend_from_slice(&[0x00, 0x00, 0x00, 0x3C, 0x00, 0x03, 0xAA, 0xBB, 0xCC]);
    let mut b = buffer_with(&bytes);
    let mut p = DnsPacket::from_buffer(&mut b).unwrap();
    assert_eq!(p.answers.len(), 1);
    assert_eq!(p.answers[0].label, "mx");
    assert_eq!(p.answers[0].r_type, QueryType::MX);
    assert_eq!(p.answers[0].r_data, RecordData::UNKNOWN(15));
    assert_eq!(p.answers[0].ttl, 60);
    assert_eq!(p.answers[0].rd_len, 3);
    assert_eq!(b.get_pos(), bytes.len());

    let mut out = DnsBytePacketBuffer::new();
    p.write(&mut out).unwrap();
    // only the header: the record is passed over
    assert_eq!(out.get_pos(), 12);
    assert_eq!(p.header.an_count, 1);
    let mut single = DnsBytePacketBuffer::new();
    assert_eq!(p.answers[0].write(&mut single), Ok(0));
    assert_eq!(single.get_pos(), 0);
}

#[test]
fn six_pointers_are_a_compression_loop() {
    let bytes = [
        0xC0, 0x02, 0xC0, 0x04, 0xC0, 0x06, 0xC0, 0x08, 0xC0, 0x0A, 0xC0, 0x0C, 0x00,
    ];
    let mut b = buffer_with(&bytes);
    assert_eq!(b.read_label().unwrap_err(), DnsError::CompressionLoop);
    assert_eq!(b.get_pos(), 0);
}

#[test]
fn pointer_cycle_is_a_compression_loop() {
    let mut b = buffer_with(&[0xC0, 0x00]);
    assert_eq!(b.read_label().unwrap_err(), DnsError::CompressionLoop);
}

#[test]
fn five_pointers_are_followed() {
    let bytes = [
        0xC0, 0x02, 0xC0, 0x04, 0xC0, 0x06, 0xC0, 0x08, 0xC0, 0x0A, 0x01, b'a', 0x00,
    ];
    let mut b = buffer_with(&bytes);
    assert_eq!(b.read_label().unwrap(), "a");
    assert_eq!(b.get_pos(), 2);
}

#[test]
fn pointer_name_advances_by_two() {
    // "example.com" at 0, then "www" followed by a pointer to it
    let bytes = [
        0x07, b'e', b'x', b'a', b'm', b'p', b'l', b'e', 0x03, b'c', b'o', b'm', 0x00, 0x03,
        b'w', b'w', b'w', 0xC0, 0x00, 0xC0, 0x0D, 0xFF,
    ];
    let mut b = buffer_with(&bytes);
    assert_eq!(b.read_label().unwrap(), "example.com");
    assert_eq!(b.get_pos(), 13);
    assert_eq!(b.read_label().unwrap(), "www.example.com");
    assert_eq!(b.get_pos(), 19);
    assert_eq!(b.read_label().unwrap(), "www.example.com");
    assert_eq!(b.get_pos(), 21);
    assert_eq!(b.read().unwrap(), 0xFF);
}

#[test]
fn label_parts_are_raw_bytes() {
    let mut b = buffer_with(&[0x02, b'A', b'b', 0x01, 0xFF, 0x00]);
    let parts = b.read_label_parts().unwrap();
    assert_eq!(parts, vec![vec![b'A', b'b'], vec![0xFF]]);
    assert_eq!(b.get_pos(), 6);
}

#[test]
fn label_text_is_lower_cased() {
    let mut b = buffer_with(&[0x03, b'W', b'W', b'W', 0x06, b'G', b'o', b'O', b'g', b'L', b'e', 0x00]);
    assert_eq!(b.read_label().unwrap(), "www.google");
}

#[test]
fn label_invalid_utf8_is_replaced() {
    let mut b = buffer_with(&[0x02, b'a', 0xFF, 0x00]);
    assert_eq!(b.read_label().unwrap(), "a\u{FFFD}");
}

#[test]
fn empty_name_reads_as_empty_text() {
    let mut b = buffer_with(&[0x00]);
    assert_eq!(b.read_label().unwrap(), "");
    assert_eq!(b.get_pos(), 1);
}

#[test]
fn label_past_data_is_out_of_range() {
    let mut b = buffer_with(&[0x05, b'a', b'b']);
    assert_eq!(b.read_label().unwrap_err(), DnsError::OutOfRange);
    let mut b = buffer_with(&[0xC0]);
    assert_eq!(b.read_label().unwrap_err(), DnsError::OutOfRange);
    let mut b = buffer_with(&[0xC0, 0x09]);
    assert_eq!(b.read_label().unwrap_err(), DnsError::OutOfRange);
    assert_eq!(b.get_pos(), 0);
}

#[test]
fn label_ending_at_data_end_is_read() {
    let mut b = buffer_with(&[0x01, b'z', 0x00]);
    assert_eq!(b.read_label().unwrap(), "z");
    assert_eq!(b.get_pos(), 3);
}

#[test]
fn label_round_trip_lower_cases() {
    let mut b = DnsBytePacketBuffer::new();
    b.write_label("WWW.Example.COM").unwrap();
    let n = b.get_pos();
    assert_eq!(n, "WWW.Example.COM".len() + 2);
    b.set_bytes_read(n);
    let mut r = buffer_with(&written(&b));
    assert_eq!(r.read_label().unwrap(), "www.example.com");
    assert_eq!(r.get_pos(), n);
}

#[test]
fn label_of_64_bytes_is_too_long() {
    let long = "a".repeat(64);
    let mut b = DnsBytePacketBuffer::new();
    assert_eq!(b.write_label(&long).unwrap_err(), DnsError::LabelTooLong);
    assert_eq!(b.get_pos(), 0);
    let fits = format!("{}.com", "a".repeat(63));
    b.write_label(&fits).unwrap();
    assert_eq!(b.get_pos(), 63 + 4 + 2);
    assert!(labels_within_limit(fits.as_bytes()));
    assert!(!labels_within_limit(format!("x.{}", long).as_bytes()));
}

#[test]
fn name_that_does_not_fit_is_buffer_full() {
    let mut b = DnsBytePacketBuffer::new();
    for _ in 0..500 {
        b.write_u8(1).unwrap();
    }
    assert_eq!(b.write_label("abcdefghijk").unwrap_err(), DnsError::BufferFull);
    assert_eq!(b.get_pos(), 500);
    b.write_label("abcdefghij").unwrap();
    assert_eq!(b.get_pos(), 512);
}

#[test]
fn read_u16_combines_two_reads() {
    let bytes = [0x12, 0x34, 0xAB];
    let mut a = buffer_with(&bytes);
    let mut c = buffer_with(&bytes);
    let v = a.read_u16().unwrap();
    let hi = c.read().unwrap();
    let lo = c.read().unwrap();
    assert_eq!(v, ((hi as u16) << 8) | lo as u16);
    assert_eq!(v, 0x1234);
    assert_eq!(a.get_pos(), 2);
    assert_eq!(a.read_u16().unwrap_err(), DnsError::BufferExhausted);
    assert_eq!(a.get_pos(), 2);
}

#[test]
fn read_u32_is_big_endian() {
    let mut b = buffer_with(&[0x01, 0x02, 0x03, 0x04, 0x05]);
    assert_eq!(b.read_u32().unwrap(), 0x01020304);
    assert_eq!(b.get_pos(), 4);
    assert_eq!(b.read_u32().unwrap_err(), DnsError::BufferExhausted);
}

#[test]
fn read_past_data_is_exhausted() {
    let mut b = buffer_with(&[7]);
    assert_eq!(b.read().unwrap(), 7);
    assert_eq!(b.read().unwrap_err(), DnsError::BufferExhausted);
}

#[test]
fn get_and_get_range_check_the_data() {
    let b = buffer_with(&[1, 2, 3]);
    assert_eq!(b.get(2), Ok(3));
    assert_eq!(b.get(3), Err(DnsError::OutOfRange));
    assert_eq!(b.get_range(1, 2).unwrap(), &[2, 3]);
    assert_eq!(b.get_range(0, 3).unwrap(), &[1, 2, 3]);
    assert_eq!(b.get_range(2, 2), Err(DnsError::OutOfRange));
    assert_eq!(b.get_pos(), 0);
    assert_eq!(b.pos(), 0);
}

#[test]
fn step_moves_within_data() {
    let mut b = buffer_with(&[1, 2, 3]);
    b.step(2).unwrap();
    assert_eq!(b.read().unwrap(), 3);
    assert_eq!(b.step(1), Err(DnsError::BufferExhausted));
}

#[test]
fn writes_are_big_endian_and_bounded() {
    let mut b = DnsBytePacketBuffer::new();
    b.write_u16(0xABCD).unwrap();
    b.write_u32(0x01020304).unwrap();
    b.write_u8(9).unwrap();
    assert_eq!(written(&b), vec![0xAB, 0xCD, 1, 2, 3, 4, 9]);
    while b.get_pos() < 511 {
        b.write_u8(0).unwrap();
    }
    assert_eq!(b.write_u16(1), Err(DnsError::BufferFull));
    assert_eq!(b.write_u32(1), Err(DnsError::BufferFull));
    b.write_u8(1).unwrap();
    assert_eq!(b.write_u8(1), Err(DnsError::BufferFull));
    assert_eq!(b.get_pos(), 512);
}

#[test]
fn type_codes_map_both_ways() {
    assert_eq!(u16::from(QueryType::MX), 15);
    assert_eq!(QueryType::from(15u16), QueryType::MX);
    assert_eq!(QueryType::from(28u16), QueryType::UNKNOWN(28));
    assert_eq!(u16::from(QueryType::UNKNOWN(28)), 28);
    for code in 0..=u16::MAX {
        assert_eq!(u16::from(QueryType::from(code)), code);
    }
    assert_eq!(DnsClass::from(3u16), DnsClass::CH);
    assert_eq!(DnsClass::from(9u16), DnsClass::UNKNOWN(9));
    assert_eq!(DnsClass::from(1u16), DnsClass::IN);
    assert_eq!(u16::from(DnsClass::HS), 4);
    assert_eq!(u16::from(DnsClass::UNKNOWN(255)), 255);
    for code in 0..=u16::MAX {
        assert_eq!(u16::from(DnsClass::from(code)), code);
    }
    assert_eq!(ResponseCode::from(3u8), ResponseCode::NAMEERROR);
    assert_eq!(ResponseCode::from(9u8), ResponseCode::FUTURE);
    assert_eq!(ResponseCode::from(0u8), ResponseCode::NOERROR);
    assert_eq!(ResponseCode::FUTURE.value(), 6);
    assert_eq!(QueryType::default(), QueryType::A);
    assert_eq!(DnsClass::default(), DnsClass::IN);
    assert_eq!(ResponseCode::default(), ResponseCode::NOERROR);
    assert_eq!(RecordData::default(), RecordData::UNKNOWN(0));
}

#[test]
fn packet_round_trip() {
    let mut p = DnsPacket::new();
    p.header.id = 6666;
    p.header.qr = true;
    p.header.rd = true;
    p.header.ra = true;
    p.header.op_code = 1;
    p.header.r_code = ResponseCode::REFUSED;
    p.questions.push(DnsQuestion::new("Google.com".to_string(), QueryType::A));
    p.questions.push(DnsQuestion::new("mail.example".to_string(), QueryType::MX));
    p.answers.push(address_record("google.com", 300, Ipv4Address::new(142, 250, 1, 2)));
    p.authorities.push(address_record("ns.google.com", 7, Ipv4Address::new(8, 8, 8, 8)));
    p.additionals.push(address_record("x.y", 0xFFFF_FFFF, Ipv4Address::new(1, 2, 3, 4)));
    p.additionals.push(address_record("z", 1, Ipv4Address::new(5, 6, 7, 8)));

    let mut out = DnsBytePacketBuffer::new();
    p.write(&mut out).unwrap();
    assert_eq!(p.header.qd_count, 2);
    assert_eq!(p.header.an_count, 1);
    assert_eq!(p.header.ns_count, 1);
    assert_eq!(p.header.ar_count, 2);

    let bytes = written(&out);
    let mut b = buffer_with(&bytes);
    let d = DnsPacket::from_buffer(&mut b).unwrap();
    assert_eq!(b.get_pos(), bytes.len());
    assert_eq!(d.header.id, 6666);
    assert!(d.header.qr && d.header.rd && d.header.ra && !d.header.aa && !d.header.tc);
    assert_eq!(d.header.op_code, 1);
    assert_eq!(d.header.r_code, ResponseCode::REFUSED);
    assert_eq!(d.questions.len(), 2);
    assert_eq!(d.questions[0].label, "google.com");
    assert_eq!(d.questions[0].q_type, QueryType::A);
    assert_eq!(d.questions[1].label, "mail.example");
    assert_eq!(d.questions[1].q_type, QueryType::MX);
    assert_eq!(d.answers.len(), 1);
    assert_eq!(d.answers[0].label, "google.com");
    assert_eq!(d.answers[0].ttl, 300);
    assert_eq!(d.answers[0].r_data, RecordData::IPADDR(Ipv4Address::new(142, 250, 1, 2)));
    assert_eq!(d.authorities.len(), 1);
    assert_eq!(d.authorities[0].label, "ns.google.com");
    assert_eq!(d.authorities[0].r_data.clone(), RecordData::IPADDR(Ipv4Address(8, 8, 8, 8)));
    assert_eq!(d.additionals.len(), 2);
    assert_eq!(d.additionals[0].ttl, 0xFFFF_FFFF);
    assert_eq!(d.additionals[1].label, "z");
    assert_eq!(d.additionals[1].r_data, RecordData::IPADDR(Ipv4Address(5, 6, 7, 8)));
}

#[test]
fn query_packet_bytes() {
    let mut p = DnsPacket::new();
    p.header.id = 6666;
    p.header.qd_count = 1;
    p.header.rd = true;
    p.questions.push(DnsQuestion::new("google.com".to_string(), QueryType::A));
    let mut out = DnsBytePacketBuffer::new();
    p.write(&mut out).unwrap();
    let mut expected = vec![0x1A, 0x0A, 0x01, 0x00, 0x00, 0x01, 0x00, 0x00, 0x00, 0x00, 0x00, 0x00];
    expected.extend_from_slice(&[
        0x06, 0x67, 0x6f, 0x6f, 0x67, 0x6c, 0x65, 0x03, 0x63, 0x6f, 0x6d, 0x00, 0x00, 0x01, 0x00,
        0x01,
    ]);
    assert_eq!(written(&out), expected);
}

#[test]
fn packet_with_long_label_is_refused() {
    let mut p = DnsPacket::new();
    p.questions.push(DnsQuestion::new("ok".to_string(), QueryType::A));
    p.answers.push(address_record(&"b".repeat(70), 1, Ipv4Address::new(1, 1, 1, 1)));
    let mut out = DnsBytePacketBuffer::new();
    assert_eq!(p.write(&mut out), Err(DnsError::LabelTooLong));
    assert_eq!(out.get_pos(), 0);
}

#[test]
fn packet_too_large_is_buffer_full() {
    let mut p = DnsPacket::new();
    for _ in 0..40 {
        p.questions.push(DnsQuestion::new("abcdefghij.example".to_string(), QueryType::A));
    }
    let mut out = DnsBytePacketBuffer::new();
    assert_eq!(p.write(&mut out), Err(DnsError::BufferFull));
    assert_eq!(p.header.qd_count, 40);
}

#[test]
fn query_answers_are_not_read() {
    // a query that counts one answer: the answer section is left unread
    let bytes = [
        0x00, 0x07, 0x00, 0x00, 0x00, 0x00, 0x00, 0x01, 0x00, 0x00, 0x00, 0x00,
    ];
    let mut b = buffer_with(&bytes);
    let p = DnsPacket::from_buffer(&mut b).unwrap();
    assert_eq!(p.answers.len(), 0);
    assert_eq!(b.get_pos(), 12);
}

#[test]
fn records_past_data_are_exhausted() {
    let bytes = [
        0x00, 0x07, 0x80, 0x00, 0x00, 0x00, 0x00, 0x01, 0x00, 0x00, 0x00, 0x00, 0x00, 0x00,
        0x01, 0x00, 0x01, 0x00, 0x00, 0x00, 0x01, 0x00, 0x04, 0x01, 0x02,
    ];
    let mut b = buffer_with(&bytes);
    assert_eq!(DnsPacket::from_buffer(&mut b).unwrap_err(), DnsError::BufferExhausted);
    let mut r = buffer_with(&bytes[12..]);
    assert_eq!(DnsRecord::read(&mut r, 1).unwrap_err(), DnsError::BufferExhausted);
}

#[test]
fn questions_read_in_order() {
    let bytes = [
        0x01, b'a', 0x00, 0x00, 0x01, 0x00, 0x01, 0x01, b'B', 0x00, 0x00, 0x10, 0x00, 0x03,
    ];
    let mut b = buffer_with(&bytes);
    let qs = DnsQuestion::read(&mut b, 2).unwrap();
    assert_eq!(qs.len(), 2);
    assert_eq!(qs[0].label, "a");
    assert_eq!(qs[0].q_type, QueryType::A);
    assert_eq!(qs[1].label, "b");
    assert_eq!(qs[1].q_type, QueryType::TXT);
    assert_eq!(qs[1].q_class, DnsClass::CH);
}

#[test]
fn defaults_are_empty() {
    let p = DnsPacket::default();
    assert_eq!(p.header, DnsHeader::default());
    assert!(p.questions.is_empty() && p.answers.is_empty());
    let r = DnsRecord::default();
    assert_eq!(r.label, "");
    assert_eq!(r.r_data, RecordData::UNKNOWN(0));
    assert_eq!(Ipv4Address::new(1, 2, 3, 4).octets(), [1, 2, 3, 4]);
}

#[test]
fn seek_stays_within_data() {
    let mut b = buffer_with(&[1, 2, 3]);
    assert_eq!(b.valid_len(), 3);
    b.seek(3).unwrap();
    assert_eq!(b.get_pos(), 3);
    assert_eq!(b.seek(4), Err(DnsError::OutOfRange));
    assert_eq!(b.get_pos(), 3);
    b.seek(1).unwrap();
    assert_eq!(b.read().unwrap(), 2);
}

#[test]
fn empty_name_is_written_as_empty_label() {
    let mut b = DnsBytePacketBuffer::new();
    b.write_label("").unwrap();
    assert_eq!(written(&b), vec![0, 0]);
    let mut r = buffer_with(&written(&b));
    assert_eq!(r.read_label().unwrap(), "");
    assert_eq!(r.get_pos(), 1);
}

#[test]
fn reserved_bit_is_never_written() {
    let mut h = DnsHeader::new();
    h.z = true;
    h.ra = true;
    h.r_code = ResponseCode::SERVERFAILURE;
    let mut b = DnsBytePacketBuffer::new();
    h.write(&mut b).unwrap();
    let bytes = written(&b);
    assert_eq!(bytes[3], 0x82);
    assert_eq!(bytes[3] & 0x70, 0);
    let mut r = buffer_with(&bytes);
    let back = DnsHeader::read(&mut r).unwrap();
    assert!(!back.z);
    assert!(back.ra);
    assert_eq!(back.r_code, ResponseCode::SERVERFAILURE);
}

#[test]
fn opcode_is_cut_to_four_bits() {
    let mut h = DnsHeader::new();
    h.op_code = 0x1F;
    let mut b = DnsBytePacketBuffer::new();
    h.write(&mut b).unwrap();
    let bytes = written(&b);
    assert_eq!(bytes[2], 0x78);
    let back = DnsHeader::read(&mut buffer_with(&bytes)).unwrap();
    assert!(!back.qr);
    assert_eq!(back.op_code, 0x0F);
}

#[test]
fn unknown_class_code_is_kept() {
    let bytes = [0x01, b'a', 0x00, 0x00, 0x01, 0x00, 0xFE];
    let mut b = buffer_with(&bytes);
    let qs = DnsQuestion::read(&mut b, 1).unwrap();
    assert_eq!(qs[0].q_class, DnsClass::UNKNOWN(254));
    assert_eq!(u16::from(qs[0].q_class), 254);
}

#[test]
fn other_record_beside_address_record_is_omitted() {
    let mut p = DnsPacket::new();
    p.header.qr = true;
    p.answers.push(address_record("a.b", 5, Ipv4Address::new(9, 9, 9, 9)));
    p.answers.push(DnsRecord {
        label: "mail.b".to_string(),
        r_type: QueryType::MX,
        r_class: DnsClass::IN,
        ttl: 5,
        rd_len: 7,
        r_data: RecordData::UNKNOWN(15),
    });
    let mut out = DnsBytePacketBuffer::new();
    p.write(&mut out).unwrap();
    let mut single = DnsBytePacketBuffer::new();
    p.answers[0].write(&mut single).unwrap();
    let bytes = written(&out);
    assert_eq!(bytes.len(), 12 + single.get_pos());
    assert_eq!(&bytes[12..], &written(&single)[..]);
    assert_eq!(p.header.an_count, 2);
}
