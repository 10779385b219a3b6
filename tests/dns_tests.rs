use myodine::bits::{BitReader, BitWriter};
use myodine::codec::{DecPacket, EncPacket};
use myodine::domain::Domain;
use myodine::header::Opcode;
use myodine::message::Message;
use myodine::record::{RecordBody, RecordClass, RecordType};
use std::str::FromStr;

fn domain(s: &str) -> Domain {
    s.parse().unwrap()
}

#[test]
fn domain_successful_parse() {
    let d: Domain = "zoo-1bar.Aol9.AOE".parse().unwrap();
    assert_eq!(
        vec![String::from("zoo-1bar"), String::from("Aol9"), String::from("AOE")],
        d.parts().to_vec()
    );
}

#[test]
fn domain_unsuccessful_parse() {
    let strs = vec![
        String::from("zoo-.google.com"),
        "a".repeat(64),
        format!("{}.com", "aoeu.".repeat(50)),
    ];
    for d in strs {
        assert!(Domain::from_str(&d).is_err());
    }
}

#[test]
fn domain_display_domain() {
    let examples = vec!["zoo-1bar.Aol9.AOE", "play.google.com"];
    for s in examples {
        assert_eq!(s, Domain::from_str(&s).unwrap().to_string());
    }
}

#[test]
fn domain_valid_pointer() {
    let data = vec![
        0u8, 0u8, 3u8, 'c' as u8, 'o' as u8, 'm' as u8, 0u8, 1u8, 2u8, 2u8, 'a' as u8, 'b' as u8,
        0xc0u8, 2u8,
    ];
    let mut dec_packet = DecPacket::new(data).seek(9, 14).unwrap();
    let value = Domain::decode(&mut dec_packet).unwrap();
    assert_eq!(value, "ab.com".parse().unwrap());
}

#[test]
fn domain_invalid_pointers() {
    let datas = vec![vec![0xc0u8, 0u8], vec![0xc0u8, 10u8], vec![8u8, 0u8]];
    for data in datas {
        let mut packet = DecPacket::new(data);
        assert!(Domain::decode(&mut packet).is_err());
    }
}

#[test]
fn encode_pointers() {
    let mut enc_packet = EncPacket::new();
    for _ in 0..300 {
        enc_packet.encode_u8(13);
    }
    Domain::from_str("foo.apple.com").unwrap().encode(&mut enc_packet);
    Domain::from_str("bar.baz.apple.com").unwrap().encode(&mut enc_packet);
    assert_eq!(enc_packet.data().len(), 325);

    let mut dec_packet = DecPacket::new(enc_packet.data().clone());
    for _ in 0..300 {
        dec_packet.decode_u8().unwrap();
    }
    assert_eq!(Domain::decode(&mut dec_packet).unwrap(), "foo.apple.com".parse().unwrap());
    assert_eq!(Domain::decode(&mut dec_packet).unwrap(), "bar.baz.apple.com".parse().unwrap());
    assert!(dec_packet.decode_u8().is_err());
}

#[test]
fn encode_pointers_start() {
    let mut enc_packet = EncPacket::new();
    Domain::from_str("foo.apple.com").unwrap().encode(&mut enc_packet);
    assert_eq!(enc_packet.data().len(), 15);
}

#[test]
fn name_successful_parse() {
    let d: Domain = "zoo-1bar.Aol9.AOE".parse().unwrap();
    assert_eq!(
        vec![String::from("zoo-1bar"), String::from("Aol9"), String::from("AOE")],
        d.parts().to_vec()
    );
}

#[test]
fn name_unsuccessful_parse() {
    let strs = vec![
        String::from("zoo-.google.com"),
        "a".repeat(64),
        format!("{}.com", "aoeu.".repeat(50)),
    ];
    for d in strs {
        assert!(Domain::from_str(&d).is_err());
    }
}

#[test]
fn name_display_domain() {
    let examples = vec!["zoo-1bar.Aol9.AOE", "play.google.com"];
    for s in examples {
        assert_eq!(s, Domain::from_str(&s).unwrap().to_string());
    }
}

#[test]
fn name_valid_pointer() {
    let data = vec![
        0u8, 0u8, 3u8, 'c' as u8, 'o' as u8, 'm' as u8, 0u8, 1u8, 2u8, 2u8, 'a' as u8, 'b' as u8,
        0xc0u8, 2u8,
    ];
    let mut dec_packet = DecPacket::new(data).seek(9, 14).unwrap();
    let value = Domain::decode(&mut dec_packet).unwrap();
    assert_eq!(value, "ab.com".parse().unwrap());
}

#[test]
fn name_invalid_pointers() {
    let datas = vec![vec![0xc0u8, 0u8], vec![0xc0u8, 10u8], vec![8u8, 0u8]];
    for data in datas {
        let mut packet = DecPacket::new(data);
        assert!(Domain::decode(&mut packet).is_err());
    }
}

#[test]
fn aaaa_request() {
    let request = [
        0x4Du8, 0xB1u8, 0x01u8, 0x00u8, 0x00u8, 0x01u8, 0x00u8, 0x00u8, 0x00u8, 0x00u8, 0x00u8,
        0x00u8, 0x03u8, 0x66u8, 0x6Fu8, 0x6Fu8, 0x03u8, 0x63u8, 0x6Fu8, 0x6Du8, 0x00u8, 0x00u8,
        0x1Cu8, 0x00u8, 0x01u8,
    ];
    let message = Message::decode(request.to_vec()).unwrap();
    assert_eq!(message.questions.len(), 1);
    assert_eq!(message.answers.len(), 0);
    assert_eq!(message.authorities.len(), 0);
    assert_eq!(message.additional.len(), 0);
    assert_eq!(message.header.opcode, Opcode::Query);
    assert_eq!(message.header.identifier, 0x4db1);
    assert!(!message.header.is_response);
    assert!(message.header.recursion_desired);
    let question = &message.questions[0];
    assert_eq!(question.domain, domain("foo.com"));
    assert_eq!(question.record_type, RecordType::AAAA);
    assert_eq!(question.record_class, RecordClass::IN);
    assert_eq!(request.to_vec(), message.encode().unwrap());
}

#[test]
fn soa_response() {
    let response = [
        0x4Du8, 0xB1u8, 0x81u8, 0x80u8, 0x00u8, 0x01u8, 0x00u8, 0x00u8, 0x00u8, 0x01u8, 0x00u8,
        0x00u8, 0x03u8, 0x66u8, 0x6Fu8, 0x6Fu8, 0x03u8, 0x63u8, 0x6Fu8, 0x6Du8, 0x00u8, 0x00u8,
        0x1Cu8, 0x00u8, 0x01u8, 0xC0u8, 0x0Cu8, 0x00u8, 0x06u8, 0x00u8, 0x01u8, 0x00u8, 0x00u8,
        0x02u8, 0x57u8, 0x00u8, 0x2Au8, 0x03u8, 0x6Eu8, 0x73u8, 0x31u8, 0x09u8, 0x64u8, 0x69u8,
        0x67u8, 0x69u8, 0x6Du8, 0x65u8, 0x64u8, 0x69u8, 0x61u8, 0xC0u8, 0x10u8, 0x03u8, 0x64u8,
        0x6Eu8, 0x73u8, 0xC0u8, 0x29u8, 0x78u8, 0x3Au8, 0xD0u8, 0x92u8, 0x00u8, 0x00u8, 0x2Au8,
        0x30u8, 0x00u8, 0x00u8, 0x0Eu8, 0x10u8, 0x00u8, 0x09u8, 0x3Au8, 0x80u8, 0x00u8, 0x00u8,
        0x0Eu8, 0x10u8,
    ];
    let message = Message::decode(response.to_vec()).unwrap();
    assert_eq!(message.questions.len(), 1);
    assert_eq!(message.answers.len(), 0);
    assert_eq!(message.authorities.len(), 1);
    assert_eq!(message.additional.len(), 0);
    assert_eq!(message.header.opcode, Opcode::Query);
    assert_eq!(message.header.identifier, 0x4db1);
    assert!(message.header.is_response);
    assert!(message.header.recursion_desired);
    assert!(message.header.recursion_available);
    let question = &message.questions[0];
    assert_eq!(question.domain, domain("foo.com"));
    assert_eq!(question.record_type, RecordType::AAAA);
    assert_eq!(question.record_class, RecordClass::IN);
    let soa = &message.authorities[0];
    assert_eq!(soa.header.domain, domain("foo.com"));
    assert_eq!(soa.header.record_type, RecordType::SOA);
    assert_eq!(soa.header.record_class, RecordClass::IN);
    assert_eq!(soa.header.ttl, 599);
    match &soa.body {
        &RecordBody::SOA(ref info) => {
            assert_eq!(info.master_name, domain("ns1.digimedia.com"));
            assert_eq!(info.responsible_name, domain("dns.digimedia.com"));
            assert_eq!(
                [info.serial, info.refresh, info.retry, info.expire, info.minimum],
                [2017120402, 10800, 3600, 604800, 3600]
            );
        },
        _ => panic!("expected SOARecord"),
    }
    let again = Message::decode(message.encode().unwrap()).unwrap();
    assert_eq!(format!("{:?}", again), format!("{:?}", message));
}

#[test]
fn repeated_name_is_compressed_and_reads_back() {
    let mut enc = EncPacket::new();
    let d = domain("mail.example.org");
    d.encode(&mut enc);
    d.encode(&mut enc);
    assert_eq!(enc.data().len(), 18 + 2);
    let mut dec = DecPacket::new(enc.data().clone());
    assert_eq!(Domain::decode(&mut dec).unwrap(), d);
    assert_eq!(Domain::decode(&mut dec).unwrap(), d);
    assert_eq!(dec.remaining(), 0);
}

#[test]
fn empty_name_is_one_zero_byte() {
    let d = Domain::from_parts(Vec::new()).unwrap();
    let mut enc = EncPacket::new();
    d.encode(&mut enc);
    assert_eq!(enc.data().clone(), vec![0u8]);
}

#[test]
fn integers_are_big_endian() {
    let mut enc = EncPacket::new();
    enc.encode_u16(0x1234);
    enc.encode_u32(0xdeadbeef);
    enc.encode_u64(0x0102030405060708);
    assert_eq!(
        enc.data().clone(),
        vec![0x12, 0x34, 0xde, 0xad, 0xbe, 0xef, 1, 2, 3, 4, 5, 6, 7, 8]
    );
    let mut dec = DecPacket::new(enc.data().clone());
    assert_eq!(dec.decode_u16().unwrap(), 0x1234);
    assert_eq!(dec.decode_u32().unwrap(), 0xdeadbeef);
    assert_eq!(dec.decode_u64().unwrap(), 0x0102030405060708);
    assert!(dec.decode_u8().is_err());
}

#[test]
fn length_field_is_patched() {
    let mut enc = EncPacket::new();
    let at = enc.begin_length();
    enc.encode_bytes(&[1, 2, 3]);
    enc.end_length(at).unwrap();
    assert_eq!(enc.data().clone(), vec![0, 3, 1, 2, 3]);
    let mut dec = DecPacket::new(enc.data().clone());
    let n = dec.decode_length().unwrap();
    let start = dec.current_offset();
    dec.read_bytes(n).unwrap();
    assert!(dec.check_length(start, n).is_ok());
    assert!(dec.check_length(start, n + 1).is_err());
}

#[test]
fn length_field_overflow_fails() {
    let mut enc = EncPacket::new();
    let at = enc.begin_length();
    enc.encode_bytes(&vec![0u8; 70000]);
    assert!(enc.end_length(at).is_err());
}

#[test]
fn message_count_mismatch_fails() {
    let request = [
        0x4Du8, 0xB1u8, 0x01u8, 0x00u8, 0x00u8, 0x01u8, 0x00u8, 0x00u8, 0x00u8, 0x00u8, 0x00u8,
        0x00u8, 0x03u8, 0x66u8, 0x6Fu8, 0x6Fu8, 0x03u8, 0x63u8, 0x6Fu8, 0x6Du8, 0x00u8, 0x00u8,
        0x1Cu8, 0x00u8, 0x01u8,
    ];
    let mut message = Message::decode(request.to_vec()).unwrap();
    message.header.answer_count = 1;
    assert!(message.encode().is_err());
    let mut trailing = request.to_vec();
    trailing.push(0);
    assert!(Message::decode(trailing).is_err());
}

#[test]
fn unknown_opcode_fails_to_encode() {
    let request = [
        0x4Du8, 0xB1u8, 0x01u8, 0x00u8, 0x00u8, 0x01u8, 0x00u8, 0x00u8, 0x00u8, 0x00u8, 0x00u8,
        0x00u8, 0x03u8, 0x66u8, 0x6Fu8, 0x6Fu8, 0x03u8, 0x63u8, 0x6Fu8, 0x6Du8, 0x00u8, 0x00u8,
        0x1Cu8, 0x00u8, 0x01u8,
    ];
    let mut message = Message::decode(request.to_vec()).unwrap();
    message.header.opcode = Opcode::Unknown;
    assert!(message.encode().is_err());
}

#[test]
fn bit_fields_read_back() {
    let mut w = BitWriter::new();
    w.write_bit(true);
    w.write_bits(5, 4);
    w.write_bits(0, 3);
    w.write_bits(0x1ff, 8);
    assert!(w.fits(16));
    assert!(!w.fits(8));
    assert_eq!(w.value(), 0b1_0101_000_1111_1111);
    let mut r = BitReader::new(w.value(), 16);
    assert_eq!(r.read_bit(), Some(true));
    assert_eq!(r.read_bits(4), Some(5));
    assert_eq!(r.read_bits(3), Some(0));
    assert_eq!(r.read_bits(8), Some(0xff));
    assert_eq!(r.read_bit(), None);
    assert_eq!(r.read_bits(1), None);
}

#[test]
fn header_flags_round_trip() {
    let request = [
        0x4Du8, 0xB1u8, 0x85u8, 0x83u8, 0x00u8, 0x00u8, 0x00u8, 0x00u8, 0x00u8, 0x00u8, 0x00u8,
        0x00u8,
    ];
    let message = Message::decode(request.to_vec()).unwrap();
    assert!(message.header.is_response);
    assert!(message.header.authoritative);
    assert!(message.header.recursion_desired);
    assert!(message.header.recursion_available);
    assert_eq!(message.header.response_code, myodine::header::ResponseCode::NXDomain);
    assert_eq!(message.encode().unwrap(), request.to_vec());
}

#[test]
fn stream_frames_are_cut_into_messages() {
    let request = [
        0x4Du8, 0xB1u8, 0x01u8, 0x00u8, 0x00u8, 0x01u8, 0x00u8, 0x00u8, 0x00u8, 0x00u8, 0x00u8,
        0x00u8, 0x03u8, 0x66u8, 0x6Fu8, 0x6Fu8, 0x03u8, 0x63u8, 0x6Fu8, 0x6Du8, 0x00u8, 0x00u8,
        0x1Cu8, 0x00u8, 0x01u8,
    ];
    let mut reader = myodine::frame::MessageReader::new();
    let mut stream = vec![0u8, request.len() as u8];
    stream.extend_from_slice(&request);
    stream.extend_from_slice(&[0, 2, 9, 9]);
    stream.extend_from_slice(&[0, 25, 0x4D]);
    reader.push_bytes(&stream[0..10]);
    assert!(reader.pop_all().is_empty());
    reader.push_bytes(&stream[10..]);
    let messages = reader.pop_all();
    assert_eq!(messages.len(), 1);
    assert_eq!(messages[0].header.identifier, 0x4db1);
    assert!(reader.pop_message().is_none());
    reader.push_bytes(&request[1..]);
    assert_eq!(reader.pop_all().len(), 1);
}

#[test]
fn labels_may_start_with_a_digit() {
    assert!(Domain::from_str("9foo.google.com").is_ok());
    assert!(Domain::from_str("100.123.fo.com").is_ok());
    assert!(Domain::from_str("-foo.google.com").is_err());
    assert!(Domain::from_str("foo..com").is_err());
}
