use myodine::establish::read_establish_reply;
use myodine::server::establish_session_id;
use myodine::client::{handle_response, next_query};
use myodine::server::Session;
use myodine::wwr::WwrState;
use myodine::establish::establish_response;
use myodine::discovery::{domain_hash, domain_hash_response, download_gen_response, DownloadGenQuery};
use myodine::text::{parse_u64, push_decimal};
use myodine::domain::Domain;
use myodine::establish::{password_proof, EstablishQuery, EstablishResponse};
use myodine::codec::{DecPacket, EncPacket};
use myodine::header::{Header, Opcode, ResponseCode};
use myodine::message::{Message, Question};
use myodine::name_code::{get_name_code, HexNameCode};
use myodine::record::{RecordBody, RecordClass, RecordType};
use myodine::record_code::{get_record_code, RawTxtCode};
use myodine::xfer::{Ack, Chunk, Packet};

fn domain(s: &str) -> Domain {
    s.parse().unwrap()
}

fn query_for(name: &str, record_type: RecordType) -> Message {
    Message {
        header: Header {
            identifier: 7,
            is_response: false,
            opcode: Opcode::Query,
            authoritative: false,
            truncated: false,
            recursion_desired: true,
            recursion_available: false,
            response_code: ResponseCode::NoError,
            question_count: 1,
            answer_count: 0,
            authority_count: 0,
            additional_count: 0,
        },
        questions: vec![Question {
            domain: domain(name),
            record_type,
            record_class: RecordClass::IN,
        }],
        answers: Vec::new(),
        authorities: Vec::new(),
        additional: Vec::new(),
    }
}

#[test]
fn gen_query_to_domain() {
    let query = DownloadGenQuery {
        encoding: "raw".to_owned(),
        len: 100,
        bias: 123,
        coefficient: 13,
        modulus: 178,
    };
    assert_eq!(query.to_domain(&domain("fo.com"), 28).unwrap(), domain("fraw.100.123.13.178.fo.com"));
    assert_eq!(query.to_domain(&domain("fo.com"), 30).unwrap(), domain("fraw.100.123.13.178.x.fo.com"));
    assert_eq!(query.to_domain(&domain("fo.com"), 31).unwrap(), domain("fraw.100.123.13.178.xx.fo.com"));
    assert_eq!(query.to_domain(&domain("fo.com"), 33).unwrap(), domain("fraw.100.123.13.178.xx.x.fo.com"));
    assert_eq!(query.to_domain(&domain("fo.bar.com"), 32).unwrap(), domain("fraw.100.123.13.178.fo.bar.com"));
    assert_eq!(query.to_domain(&domain("fo.bar.com"), 34).unwrap(), domain("fraw.100.123.13.178.x.fo.bar.com"));
    assert!(query.to_domain(&domain("fo.bar.com"), 10).is_err());
    assert!(query.to_domain(&domain("fo.bar.com"), 33).is_err());
}

#[test]
fn download_gen_from_domain() {
    let q = DownloadGenQuery::from_domain(&domain("fRaw.100.123.13.178.fo.com")).unwrap();
    assert_eq!(q.encoding, "raw");
    assert_eq!((q.len, q.bias, q.coefficient, q.modulus), (100, 123, 13, 178));
    assert!(DownloadGenQuery::from_domain(&domain("fraw.100.123.13.b1.fo.com")).is_err());
    assert!(DownloadGenQuery::from_domain(&domain("fraw.100.123.13.1.fo.com")).is_err());
    assert!(DownloadGenQuery::from_domain(&domain("fraw.100.123.13.256.fo.com")).is_err());
    assert!(DownloadGenQuery::from_domain(&domain("fraw.100.fo")).is_err());
    let name = q.to_domain(&domain("fo.com"), 40).unwrap();
    let back = DownloadGenQuery::from_domain(&name).unwrap();
    assert_eq!((back.len, back.bias, back.coefficient, back.modulus), (100, 123, 13, 178));
}

#[test]
fn download_gen_txt_response() {
    let query = query_for("fraw.300.1.1.251.fo.com", RecordType::TXT);
    let resp = download_gen_response(&query).unwrap();
    let data = RawTxtCode.decode_body(&resp.answers[0].body).unwrap();
    assert_eq!(data.len(), 300);
    assert_eq!(data[0], 1);
    assert_eq!(data[250], 0);
    assert!(download_gen_response(&query_for("fhex.3.1.1.251.fo.com", RecordType::TXT)).is_err());
}

#[test]
fn download_gen_math() {
    let query = DownloadGenQuery {
        encoding: "raw".to_owned(),
        len: 100,
        bias: 123,
        coefficient: 13,
        modulus: 178,
    };
    let data = query.generated_data();
    assert_eq!(data.len(), 100);
    assert_eq!(data[0..5].to_vec(), vec![175, 10, 23, 36, 49]);
    assert_eq!(data[99], ((222u64 * 13) % 178) as u8);
}

#[test]
fn domain_hash_of_literal_name() {
    assert_eq!(domain_hash(&domain("fA.bar.com")), [0x13, 0x83, 0xf7, 0xce]);
}

#[test]
fn domain_hash_a_response() {
    let query = query_for("fA.bar.com", RecordType::A);
    let resp = domain_hash_response(&query).unwrap();
    assert!(resp.header.is_response);
    assert_eq!(resp.header.answer_count, 1);
    assert_eq!(resp.answers.len(), 1);
    assert_eq!(resp.answers[0].header.ttl, 0);
    match &resp.answers[0].body {
        RecordBody::A(a) => assert_eq!(*a, [0x13, 0x83, 0xf7, 0xce]),
        _ => panic!("expected an A record"),
    }
    assert!(resp.encode().is_ok());
    assert!(domain_hash_response(&query_for("eA.bar.com", RecordType::A)).is_err());
    assert!(domain_hash_response(&query_for("fA.bar.com", RecordType::TXT)).is_err());
}

#[test]
fn download_gen_needs_a_parsable_probe() {
    assert!(download_gen_response(&query_for("fraw.fo.com", RecordType::TXT)).is_err());
    assert!(download_gen_response(&query_for("fraw.a.b.c.d.fo.com", RecordType::TXT)).is_err());
    assert!(download_gen_response(&query_for("fraw.a.b.c.d.fo.com", RecordType::A)).is_err());
}

#[test]
fn txt_code_round_trip() {
    let code = get_record_code(RecordType::TXT, "raw").unwrap();
    for n in [0usize, 1, 254, 255, 256, 600] {
        let data: Vec<u8> = (0..n).map(|i| (i % 251) as u8).collect();
        let body = code.encode_body(&data).unwrap();
        assert_eq!(code.decode_body(&body).unwrap(), data);
    }
    match code.encode_body(&[]).unwrap() {
        RecordBody::Unknown(b) => assert_eq!(b, vec![0u8]),
        _ => panic!("expected raw bytes"),
    }
    match code.encode_body(&[7, 8]).unwrap() {
        RecordBody::Unknown(b) => assert_eq!(b, vec![2u8, 7, 8]),
        _ => panic!("expected raw bytes"),
    }
    assert!(code.decode_body(&RecordBody::Unknown(vec![3, 1])).is_err());
    assert!(code.decode_body(&RecordBody::A([1, 2, 3, 4])).is_err());
    assert!(get_record_code(RecordType::A, "raw").is_none());
    assert!(get_record_code(RecordType::TXT, "hex").is_none());
}

#[test]
fn hex_name_code_round_trip() {
    let code = get_name_code("b16").unwrap();
    assert!(get_name_code("b32").is_none());
    let host = domain("hello.com");
    let data = vec![0xab, 0x01, 0x02, 0x34];
    let name = code.encode_domain('t', 13, &data, &host).unwrap();
    assert_eq!(name, domain("t13.ab010234.hello.com"));
    assert_eq!(code.decode_domain(&name, &host).unwrap(), ('t', 13, data));
    assert_eq!(
        code.decode_domain(&domain("p7.ABCD.HELLO.com"), &host).unwrap(),
        ('p', 7, vec![0xab, 0xcd])
    );
    assert!(code.decode_domain(&domain("t13.abc.hello.com"), &host).is_err());
    assert!(code.decode_domain(&domain("t13.ab.other.com"), &host).is_err());
    assert!(code.decode_domain(&domain("tx.ab.hello.com"), &host).is_err());
}

#[test]
fn name_code_hex_encode_decode_short() {
    let root: Domain = "hello.com".parse().unwrap();
    let api_flag = 't';
    let sess_id = 13u16;
    let code = HexNameCode {};
    let encoded = code.encode_domain(api_flag, sess_id, &vec![0u8, 1u8, 2u8, 52u8], &root).unwrap();
    assert_eq!(encoded, "t13.00010234.hello.com".parse().unwrap());
    let (flag_out, id_out, decoded) = code.decode_domain(&encoded, &root).unwrap();
    assert_eq!(flag_out, api_flag);
    assert_eq!(id_out, sess_id);
    assert_eq!(decoded, vec![0u8, 1u8, 2u8, 52u8]);
}

#[test]
fn name_code_hex_encode_decode_long() {
    let root: Domain = "foo.apple.com".parse().unwrap();
    let api_flag = 't';
    let sess_id = 13u16;
    let code = HexNameCode {};
    let data = vec![
        0x23u8, 0x49u8, 0x75u8, 0xCEu8, 0x6Bu8, 0x0Cu8, 0x71u8, 0x7Bu8, 0x8Cu8, 0x1Cu8, 0x4Du8,
        0x4Du8, 0xCCu8, 0x25u8, 0x9Cu8, 0x0Fu8, 0x00u8, 0xEEu8, 0xFFu8, 0x05u8, 0x7Fu8, 0x7Eu8,
        0xB4u8, 0x20u8, 0xBBu8, 0x04u8, 0xE3u8, 0x85u8, 0x23u8, 0x63u8, 0x29u8, 0x99u8, 0xC4u8,
        0x61u8, 0xB4u8, 0xF0u8, 0x0Eu8, 0xF0u8, 0x00u8, 0xA9u8, 0x26u8, 0xB6u8, 0x32u8, 0x37u8,
        0xAAu8, 0xE5u8, 0xCCu8, 0x6Du8, 0x15u8, 0x08u8, 0xEAu8, 0xDDu8, 0x33u8, 0xADu8, 0xB1u8,
        0x00u8, 0xEFu8, 0x01u8, 0x0Cu8, 0x71u8, 0xA2u8, 0x85u8, 0xABu8,
    ];
    let encoded = code.encode_domain(api_flag, sess_id, &data, &root).unwrap();
    assert_eq!(
        encoded,
        format!(
            "t13.{}.{}.foo.apple.com",
            "234975ce6b0c717b8c1c4d4dcc259c0f00eeff057f7eb420bb04e3852363299",
            "9c461b4f00ef000a926b63237aae5cc6d1508eadd33adb100ef010c71a285ab"
        )
        .parse()
        .unwrap()
    );
    let (flag_out, id_out, decoded) = code.decode_domain(&encoded, &root).unwrap();
    assert_eq!(flag_out, api_flag);
    assert_eq!(id_out, sess_id);
    assert_eq!(decoded, data);
}

#[test]
fn name_code_empty_data_round_trip() {
    let root: Domain = "hello.com".parse().unwrap();
    let code = HexNameCode {};
    let encoded = code.encode_domain('p', 7, &[], &root).unwrap();
    assert_eq!(encoded, "p7.hello.com".parse().unwrap());
    assert_eq!(code.decode_domain(&encoded, &root).unwrap(), ('p', 7, Vec::new()));
}

#[test]
fn hex_name_code_long_data_splits_labels() {
    let code = HexNameCode;
    let parts = code.encode_parts(&vec![0xaa; 40]).unwrap();
    assert_eq!(parts.len(), 2);
    assert_eq!(parts[0].len(), 63);
    assert_eq!(parts[1].len(), 17);
    assert_eq!(code.decode_parts(&parts).unwrap(), vec![0xaa; 40]);
}

#[test]
fn password_proof_window() {
    let p = password_proof("hunter2", 1000);
    assert_eq!(p, password_proof("hunter2", 1000));
    assert_ne!(p, password_proof("hunter2", 1001));
    let q = EstablishQuery {
        response_encoding: "raw".to_owned(),
        mtu: 200,
        name_encoding: "b16".to_owned(),
        query_window: 4,
        response_window: 8,
        proof: p,
        port: 22,
        host: domain("localhost"),
    };
    assert!(q.check_proof("hunter2", 1005, 10));
    assert!(q.check_proof("hunter2", 1001, 1));
    assert!(!q.check_proof("hunter2", 1000, 0));
    assert!(!q.check_proof("hunter3", 1005, 10));
}

#[test]
fn establish_query_round_trip() {
    let q = EstablishQuery {
        response_encoding: "raw".to_owned(),
        mtu: 200,
        name_encoding: "b16".to_owned(),
        query_window: 4,
        response_window: 8,
        proof: 0xfedcba9876543210,
        port: 22,
        host: domain("target.example"),
    };
    let zone = domain("tun.example.com");
    let name = q.to_domain(&zone).unwrap();
    assert_eq!(name, domain("eraw.200.b16.4.8.fedcba9876543210.22.target.example.tun.example.com"));
    let back = EstablishQuery::from_domain(&name, &zone).unwrap();
    assert_eq!(back.response_encoding, "raw");
    assert_eq!(back.name_encoding, "b16");
    assert_eq!((back.mtu, back.query_window, back.response_window, back.port), (200, 4, 8, 22));
    assert_eq!(back.proof, 0xfedcba9876543210);
    assert_eq!(back.host, domain("target.example"));
    assert!(EstablishQuery::from_domain(&domain("eraw.200.b16.4.8.zz.22.t.tun.example.com"), &zone).is_err());
    assert!(EstablishQuery::from_domain(&domain("eraw.200.tun.example.com"), &zone).is_err());
    assert!(EstablishQuery::from_domain(&domain("eraw.a.b.c.d.e.f.g.other.com"), &zone).is_err());
}

#[test]
fn establish_response_body() {
    let mut enc = EncPacket::new();
    EstablishResponse::Success { id: 3, seq: 0x01020304 }.encode(&mut enc).unwrap();
    assert_eq!(enc.data().clone(), vec![0, 0, 3, 1, 2, 3, 4]);
    let mut dec = DecPacket::new(enc.data().clone());
    match EstablishResponse::decode(&mut dec).unwrap() {
        EstablishResponse::Success { id, seq } => assert_eq!((id, seq), (3, 0x01020304)),
        _ => panic!("expected success"),
    }
    let mut enc = EncPacket::new();
    EstablishResponse::Failure("invalid proof".to_owned()).encode(&mut enc).unwrap();
    let mut dec = DecPacket::new(enc.data().clone());
    match EstablishResponse::decode(&mut dec).unwrap() {
        EstablishResponse::Failure(m) => assert_eq!(m, "invalid proof"),
        _ => panic!("expected failure"),
    }
    let mut dec = DecPacket::new(vec![9, 1, 2]);
    match EstablishResponse::decode(&mut dec).unwrap() {
        EstablishResponse::Unknown(t) => assert_eq!(t, 9),
        _ => panic!("expected unknown"),
    }
    assert!(EstablishResponse::Unknown(9).encode(&mut EncPacket::new()).is_err());
    assert!(EstablishResponse::decode(&mut DecPacket::new(vec![0, 1])).is_err());
}

#[test]
fn ack_mask_packing() {
    let ack = Ack { window_start: 5, window_mask: vec![true, false, true, false, false, false, false, false, true] };
    let mut enc = EncPacket::new();
    ack.encode(&mut enc);
    assert_eq!(enc.data().clone(), vec![0, 0, 0, 5, 0b1010_0000, 0b1000_0000]);
    let mut dec = DecPacket::new(enc.data().clone());
    assert_eq!(Ack::decode(&mut dec, 10).unwrap(), ack);
}

#[test]
fn packet_query_and_response_round_trip() {
    let p = Packet {
        ack: Ack { window_start: 9, window_mask: vec![false, true, true] },
        chunk: Some(Chunk { seq: 12, data: vec![1, 2, 3] }),
    };
    let (api, bytes) = p.encode_query().unwrap();
    assert_eq!(api, 't');
    let q = Packet::decode_query(&bytes, 4, api).unwrap();
    assert_eq!(q.ack, p.ack);
    assert_eq!(q.chunk, p.chunk);
    let resp = p.encode_response().unwrap();
    let r = Packet::decode_response(&resp, 4).unwrap();
    assert_eq!(r.ack, p.ack);
    assert_eq!(r.chunk, p.chunk);

    let keepalive = Packet { ack: p.ack.clone(), chunk: None };
    let (api, bytes) = keepalive.encode_query().unwrap();
    assert_eq!(api, 'p');
    assert_eq!(bytes.len(), 5 + 8);
    let k = Packet::decode_query(&bytes, 4, api).unwrap();
    assert_eq!(k.ack, p.ack);
    assert!(k.chunk.is_none());
    let r = Packet::decode_response(&keepalive.encode_response().unwrap(), 4).unwrap();
    assert!(r.chunk.is_none());
    assert!(Packet::decode_query(&bytes, 4, 'x').is_err());
}

#[test]
fn decimal_text_round_trip() {
    let mut s = String::new();
    push_decimal(&mut s, 65535);
    assert_eq!(s, "65535");
    assert_eq!(parse_u64("65535", 0xffff), Some(65535));
    assert_eq!(parse_u64("65536", 0xffff), None);
    assert_eq!(parse_u64("", 0xffff), None);
    assert_eq!(parse_u64("1a", 0xffff), None);
}

#[test]
fn transfer_round_trip_through_server_session() {
    let zone = domain("tun.example.com");
    let q = EstablishQuery {
        response_encoding: "raw".to_owned(),
        mtu: 200,
        name_encoding: "b16".to_owned(),
        query_window: 4,
        response_window: 8,
        proof: 0,
        port: 22,
        host: domain("target.example"),
    };
    let mut server = Session::new(1, 0, RecordType::TXT, &q).unwrap();
    let mut client = WwrState::new(8, 4, 0);
    let mut client_src = vec![vec![1u8, 2, 3]];
    let (query, taken) = next_query(&mut client, &mut client_src, &HexNameCode, 1, &zone, RecordType::TXT).unwrap();
    assert_eq!(taken, 1);
    let mut server_src = vec![vec![9u8, 8]];
    let (resp, to_tcp, finished) = server.handle_message(query, &zone, true, &mut server_src).unwrap();
    assert_eq!(to_tcp, vec![1, 2, 3]);
    assert!(!finished);
    assert!(server_src.is_empty());
    let (data, end) = handle_response(&resp, &RawTxtCode, 4, &mut client, true).unwrap();
    assert_eq!(data, vec![9, 8]);
    assert!(!end);
}

#[test]
fn establish_response_success() {
    let zone = domain("tun.example.com");
    let query = query_for("eraw.200.b16.4.8.ff.22.target.example.tun.example.com", RecordType::TXT);
    let resp = establish_response(&query, &zone, EstablishResponse::Success { id: 1, seq: 0 }).unwrap();
    assert_eq!(resp.answers.len(), 1);
    match &resp.answers[0].body {
        RecordBody::Unknown(b) => assert_eq!(*b, vec![7u8, 0, 0, 1, 0, 0, 0, 0]),
        _ => panic!("expected raw bytes"),
    }
    let other = query_for("eraw.200.b16.4.8.ff.22.target.example.other.com", RecordType::TXT);
    assert!(establish_response(&other, &zone, EstablishResponse::Success { id: 1, seq: 0 }).is_err());
}

#[test]
fn establish_reply_read_back_and_id_choice() {
    let zone = domain("tun.example.com");
    let query = query_for("eraw.200.b16.4.8.ff.22.target.example.tun.example.com", RecordType::TXT);
    let resp = establish_response(&query, &zone, EstablishResponse::Failure("invalid proof".to_owned())).unwrap();
    match read_establish_reply(&resp, &RawTxtCode).unwrap() {
        EstablishResponse::Failure(m) => assert_eq!(m, "invalid proof"),
        _ => panic!("expected failure"),
    }
    assert!(read_establish_reply(&query, &RawTxtCode).is_err());
    match establish_session_id(false, &vec![]) {
        Err(EstablishResponse::Failure(m)) => assert_eq!(m, "invalid proof"),
        _ => panic!("expected failure"),
    }
    assert_eq!(establish_session_id(true, &vec![0, 1, 3]).unwrap(), 2);
    assert_eq!(establish_session_id(true, &vec![]).unwrap(), 0);
}
