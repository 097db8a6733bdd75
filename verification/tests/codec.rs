use dns_resolver::errors::DnsError;
use dns_resolver::message::header::{Header, Opcode, ResponseCode, HEADER_LENGTH};
use dns_resolver::message::label::{
    domain_to_labels, name_text, parse_label_bytes, resolve_labels, write_labels, Label,
};
use dns_resolver::message::question::Question;
use dns_resolver::message::rr::ResourceRecord;
use dns_resolver::message::Message;

#[test]
fn test_write_and_parse_header() {
    let mut initial_header = Header::default();
    initial_header.id = rand::random::<u16>();
    initial_header.qr = true;
    initial_header.tc = true;
    initial_header.ra = true;

    initial_header.qdcount = 5;
    initial_header.ancount = 3;
    initial_header.arcount = 2;
    initial_header.nscount = 7;

    initial_header.opcode = Opcode::StatusRequest;
    initial_header.rcode = ResponseCode::NoError;

    let mut buf = vec![0u8; HEADER_LENGTH];

    initial_header.write(&mut buf).unwrap();

    let parsed_header = Header::parse(&buf[..]).unwrap();

    assert_eq!(initial_header, parsed_header);
}

#[test]
fn test_simple_parse_label() {
    let b = vec![
        vec![3u8],
        "dns".as_bytes().to_vec(),
        vec![6u8],
        "google".as_bytes().to_vec(),
        vec![3u8],
        "com".as_bytes().to_vec(),
        vec![0u8],
    ]
    .concat();

    let (_, labels) = parse_label_bytes(&b[..]).unwrap();
    assert_eq!(labels.len(), 3);
    assert_eq!(labels[0], Label::L("dns".as_bytes().to_vec()));
    assert_eq!(labels[1], Label::L("google".as_bytes().to_vec()));
    assert_eq!(labels[2], Label::L("com".as_bytes().to_vec()));
}

#[test]
fn test_parse_with_pointer() {
    let b = vec![vec![3u8], "dns".as_bytes().to_vec(), vec![0xC0, 0x0F]].concat();
    let (_, labels) = parse_label_bytes(&b[..]).unwrap();
    assert_eq!(labels.len(), 2);
    assert_eq!(labels[0], Label::L("dns".as_bytes().to_vec()));
    assert_eq!(labels[1], Label::P(0x0F as usize));
}

#[test]
fn test_resolve_labels() {
    let b = vec![
        vec![3u8],
        "dns".as_bytes().to_vec(),
        vec![6u8],
        "google".as_bytes().to_vec(),
        vec![3u8],
        "com".as_bytes().to_vec(),
        vec![0u8],
    ]
    .concat();
    let b2 = vec![vec![4u8], "test".as_bytes().to_vec(), vec![0xC0, 0x04]].concat();

    let (_, mut labels) = parse_label_bytes(b2.as_slice()).unwrap();

    resolve_labels(b.as_slice(), &mut labels).unwrap();

    assert_eq!(labels.len(), 3);
    assert_eq!(labels[0], Label::L("test".as_bytes().to_vec()));
    assert_eq!(labels[1], Label::L("google".as_bytes().to_vec()));
    assert_eq!(labels[2], Label::L("com".as_bytes().to_vec()));
}

#[test]
fn test_resolve_labels_domain_text() {
    let b = vec![
        vec![3u8],
        "dns".as_bytes().to_vec(),
        vec![6u8],
        "google".as_bytes().to_vec(),
        vec![3u8],
        "com".as_bytes().to_vec(),
        vec![0u8],
    ]
    .concat();
    let b2 = vec![vec![4u8], "test".as_bytes().to_vec(), vec![0xC0, 0x04]].concat();

    let (_, mut labels) = parse_label_bytes(b2.as_slice()).unwrap();
    let domain = resolve_labels(b.as_slice(), &mut labels).unwrap();
    assert_eq!(domain, "test.google.com".as_bytes().to_vec());
    assert_eq!(name_text(&labels), "test.google.com".as_bytes().to_vec());
}

#[test]
fn test_resolve_cycle() {
    let b = vec![
        vec![3u8],
        "dns".as_bytes().to_vec(),
        vec![6u8],
        "google".as_bytes().to_vec(),
        vec![0xC0, 0x00],
    ]
    .concat();
    let (_, mut labels) = parse_label_bytes(b.as_slice()).unwrap();
    assert_eq!(labels.len(), 3);
    assert_eq!(labels[2], Label::P(0));

    resolve_labels(b.as_slice(), &mut labels).unwrap_err();
}

#[test]
fn test_resolve_two_step_cycle() {
    // offset 0 points to offset 2, which points back to offset 0
    let b = vec![0xC0u8, 0x02, 0xC0, 0x00];
    let (_, mut labels) = parse_label_bytes(b.as_slice()).unwrap();
    let e = resolve_labels(b.as_slice(), &mut labels).unwrap_err();
    assert!(matches!(e, DnsError::ParseError(_)));
}

#[test]
fn test_write_and_parse_labels() {
    let b = vec![
        vec![3u8],
        "dns".as_bytes().to_vec(),
        vec![6u8],
        "google".as_bytes().to_vec(),
        vec![3u8],
        "com".as_bytes().to_vec(),
        vec![0u8],
    ]
    .concat();

    let (_, labels) = parse_label_bytes(&b[..]).unwrap();
    assert_eq!(labels.len(), 3);
    assert_eq!(labels[0], Label::L("dns".as_bytes().to_vec()));
    assert_eq!(labels[1], Label::L("google".as_bytes().to_vec()));
    assert_eq!(labels[2], Label::L("com".as_bytes().to_vec()));

    let mut d = vec![0u8; 100];
    let n = write_labels(&labels, &mut d).unwrap();
    assert_eq!(b.len(), n);
    assert_eq!(b.as_slice(), &d[..n]);
}

#[test]
fn test_write_and_parse_labels_with_offset() {
    let b = vec![vec![3u8], "dns".as_bytes().to_vec(), vec![0xC0, 0x0F]].concat();
    let (_, labels) = parse_label_bytes(&b[..]).unwrap();
    assert_eq!(labels.len(), 2);
    assert_eq!(labels[0], Label::L("dns".as_bytes().to_vec()));
    assert_eq!(labels[1], Label::P(0x0F as usize));

    let mut dest = vec![0u8; 100];
    let n = write_labels(&labels, &mut dest).unwrap();
    assert_eq!(b.len(), n);
    assert_eq!(b.as_slice(), &dest[..n]);
}

#[test]
fn test_write_labels_too_small() {
    let (_, labels) = parse_label_bytes(&[3u8, b'd', b'n', b's', 0]).unwrap();
    let mut dest = vec![0u8; 4];
    let e = write_labels(&labels, &mut dest).unwrap_err();
    assert!(matches!(e, DnsError::MarshalError(_)));
}

#[test]
fn test_header_parse_eleven_bytes_fails() {
    let short = vec![0u8; 11];
    let e = Header::parse(&short[..]).unwrap_err();
    assert!(matches!(e, DnsError::ParseError(_)));
}

#[test]
fn test_header_parse_twelve_bytes_succeeds() {
    let exact = vec![0u8; 12];
    let h = Header::parse(&exact[..]).unwrap();
    assert_eq!(h, Header::default());
}

#[test]
fn test_header_exact_bytes() {
    let h = Header {
        id: 0xABCD,
        qr: true,
        opcode: Opcode::StatusRequest,
        aa: true,
        tc: false,
        rd: true,
        ra: true,
        rcode: ResponseCode::NameError,
        qdcount: 1,
        ancount: 2,
        arcount: 3,
        nscount: 4,
    };
    let mut buf = vec![0u8; 12];
    h.write(&mut buf).unwrap();
    // byte 2: QR=1, opcode=2 at bits 6-3, AA=1, TC=0, RD=1
    // byte 3: RA=1, RCODE=3
    assert_eq!(
        buf,
        vec![0xAB, 0xCD, 0x80 | (2 << 3) | 0x04 | 0x01, 0x80 | 3, 0, 1, 0, 2, 0, 3, 0, 4]
    );
}

#[test]
fn test_header_write_too_small() {
    let h = Header::default();
    let mut buf = vec![0u8; 11];
    let e = h.write(&mut buf).unwrap_err();
    assert!(matches!(e, DnsError::MarshalError(_)));
}

#[test]
fn test_domain_to_labels_splits_on_dots() {
    let labels = domain_to_labels(b"dns.google.com").unwrap();
    assert_eq!(labels.len(), 3);
    assert_eq!(labels[0], Label::L("dns".as_bytes().to_vec()));
    assert_eq!(labels[1], Label::L("google".as_bytes().to_vec()));
    assert_eq!(labels[2], Label::L("com".as_bytes().to_vec()));
}

#[test]
fn test_domain_to_labels_rejects_long_segment() {
    let long = vec![b'a'; 64];
    let mut domain = b"ok.".to_vec();
    domain.extend_from_slice(&long);
    let e = domain_to_labels(&domain).unwrap_err();
    assert!(matches!(e, DnsError::Generic(_)));
}

#[test]
fn test_domain_to_labels_keeps_63_octets() {
    let seg = vec![b'a'; 63];
    let labels = domain_to_labels(&seg).unwrap();
    assert_eq!(labels.len(), 1);
    assert_eq!(labels[0], Label::L(seg));
}

#[test]
fn test_question_parse_and_write() {
    let b = vec![1u8, b'a', 0, 0, 1, 0, 1];
    let (n, q) = Question::parse(&b[..]).unwrap();
    assert_eq!(n, 7);
    assert_eq!(q.qname, vec![Label::L(vec![b'a'])]);
    assert_eq!(q.qtype, 1);
    assert_eq!(q.qclass, 1);

    let mut dest = vec![0u8; 16];
    let w = q.write(&mut dest).unwrap();
    assert_eq!(w, 7);
    assert_eq!(&dest[..w], b.as_slice());
}

#[test]
fn test_question_parse_truncated_fails() {
    // name, then only three bytes where four are needed
    let b = vec![1u8, b'a', 0, 0, 1, 0];
    let e = Question::parse(&b[..]).unwrap_err();
    assert!(matches!(e, DnsError::ParseError(_)));
}

#[test]
fn test_record_parse_exact() {
    let b = vec![
        1u8, b'a', 0, // name "a"
        0, 1, // type A
        0, 1, // class IN
        0, 0, 0, 60, // ttl
        0, 4, // rdlength
        1, 2, 3, 4, // rdata
    ];
    let (n, rec) = ResourceRecord::parse(&b[..]).unwrap();
    assert_eq!(n, b.len());
    assert_eq!(rec.name, vec![Label::L(vec![b'a'])]);
    assert_eq!(rec.t, 1);
    assert_eq!(rec.class, 1);
    assert_eq!(rec.ttl, 60);
    assert_eq!(rec.rdlength, 4);
    assert_eq!(rec.rdata, vec![1, 2, 3, 4]);
}

#[test]
fn test_record_rdlength_beyond_buffer_fails() {
    let b = vec![
        0u8, // root name
        0, 1, 0, 1, 0, 0, 0, 0, // type, class, ttl
        0, 10, // rdlength 10
        1, 2, // only two rdata bytes present
    ];
    let e = ResourceRecord::parse(&b[..]).unwrap_err();
    assert!(matches!(e, DnsError::ParseError(_)));
}

#[test]
fn test_record_zero_rdlength() {
    let b = vec![0u8, 0, 2, 0, 1, 0, 0, 0, 9, 0, 0];
    let (n, rec) = ResourceRecord::parse(&b[..]).unwrap();
    assert_eq!(n, b.len());
    assert_eq!(rec.rdlength, 0);
    assert!(rec.rdata.is_empty());
}

#[test]
fn test_message_parse_counts_match_header() {
    let mut b: Vec<u8> = vec![
        0, 1, // id
        0x80, 0, // flags: response, NoError
        0, 1, // qdcount
        0, 1, // ancount
        0, 1, // arcount
        0, 1, // nscount
    ];
    // question: name "a", type 1, class 1
    b.extend_from_slice(&[1, b'a', 0, 0, 1, 0, 1]);
    // answer: name = pointer to offset 12, type A, class IN, ttl 60, rdata 1.2.3.4
    b.extend_from_slice(&[0xC0, 12, 0, 1, 0, 1, 0, 0, 0, 60, 0, 4, 1, 2, 3, 4]);
    // additional (parsed before authority): root name, type 2, rdata = pointer name
    b.extend_from_slice(&[0, 0, 2, 0, 1, 0, 0, 0, 0, 0, 2, 0xC0, 12]);
    // authority: root name, type A, class IN, glue address 9.9.9.9
    b.extend_from_slice(&[0, 0, 1, 0, 1, 0, 0, 0, 0, 0, 4, 9, 9, 9, 9]);

    let (n, msg) = Message::parse(&b[..]).unwrap();
    assert_eq!(n, b.len());
    assert_eq!(msg.qd.len(), msg.hdr.qdcount as usize);
    assert_eq!(msg.an.len(), msg.hdr.ancount as usize);
    assert_eq!(msg.ar.len(), msg.hdr.arcount as usize);
    assert_eq!(msg.ns.len(), msg.hdr.nscount as usize);
    // the answer's compressed owner name was resolved against the buffer
    assert_eq!(msg.an[0].name, vec![Label::L(vec![b'a'])]);
    assert_eq!(msg.an[0].rdata, vec![1, 2, 3, 4]);
    // the additional record keeps its raw rdata for later resolution
    assert_eq!(msg.ar[0].t, 2);
    assert_eq!(msg.ar[0].rdata, vec![0xC0, 12]);
    // the authority record carries the glue address
    assert_eq!(msg.ns[0].t, 1);
    assert_eq!(msg.ns[0].rdata, vec![9, 9, 9, 9]);
}

#[test]
fn test_message_parse_truncated_record_fails() {
    let mut b: Vec<u8> = vec![0, 1, 0x80, 0, 0, 0, 0, 1, 0, 0, 0, 0];
    // one answer whose rdlength overruns the buffer
    b.extend_from_slice(&[0, 0, 1, 0, 1, 0, 0, 0, 0, 0, 8, 1, 2]);
    let e = Message::parse(&b[..]).unwrap_err();
    assert!(matches!(e, DnsError::ParseError(_)));
}

#[test]
fn test_new_query_write_parse_round_trip() {
    let q = Message::new_query(b"dns.google.com", 1, 1, false).unwrap();
    assert_eq!(q.hdr.qdcount, 1);
    assert_eq!(q.hdr.opcode, Opcode::StandardQuery);
    assert!(!q.hdr.qr);
    assert!(!q.hdr.rd);
    let mut buf = vec![0u8; 1600];
    let n = q.write(&mut buf).unwrap();
    // header + 3 length-prefixed segments + terminator + qtype + qclass
    assert_eq!(n, 12 + (1 + 3) + (1 + 6) + (1 + 3) + 1 + 4);
    let (consumed, parsed) = Message::parse(&buf[..n]).unwrap();
    assert_eq!(consumed, n);
    assert_eq!(parsed.hdr, q.hdr);
    assert_eq!(parsed.qd, q.qd);
    assert!(parsed.an.is_empty());
    assert!(parsed.ar.is_empty());
    assert!(parsed.ns.is_empty());
}

#[test]
fn test_new_query_rejects_long_segment() {
    let long = vec![b'x'; 70];
    let e = Message::new_query(&long, 1, 1, true).unwrap_err();
    assert!(matches!(e, DnsError::Generic(_)));
}

#[test]
fn test_message_write_too_small() {
    let q = Message::new_query(b"dns.google.com", 1, 1, false).unwrap();
    let mut buf = vec![0u8; 20];
    let e = q.write(&mut buf).unwrap_err();
    assert!(matches!(e, DnsError::MarshalError(_)));
}

#[test]
fn test_pointer_offset_round_trip_large() {
    let labels = vec![Label::L(b"a".to_vec()), Label::P(0x1234)];
    let mut dest = vec![0u8; 10];
    let n = write_labels(&labels, &mut dest).unwrap();
    assert_eq!(&dest[..n], &[1, b'a', 0xC0 | 0x12, 0x34]);
    let (m, parsed) = parse_label_bytes(&dest[..n]).unwrap();
    assert_eq!(m, n);
    assert_eq!(parsed, labels);
}

#[test]
fn test_domain_to_labels_empty() {
    let labels = domain_to_labels(b"").unwrap();
    assert_eq!(labels, vec![Label::L(vec![])]);
}
