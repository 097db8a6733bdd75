use dns_resolver::message::header::{Header, ResponseCode};
use dns_resolver::message::label::Label;
use dns_resolver::message::question::Question;
use dns_resolver::message::rr::ResourceRecord;
use dns_resolver::message::Message;
use dns_resolver::resolver::{
    depth_exceeded, evaluate_response, glue_candidate, Ipv4, NsMap, ResolveStep,
};

fn question(domain: &str) -> Question {
    Question {
        qname: domain.split('.').map(|s| Label::L(s.as_bytes().to_vec())).collect(),
        qtype: 1,
        qclass: 1,
    }
}

fn a_record(name: &str, addr: [u8; 4]) -> ResourceRecord {
    ResourceRecord {
        name: name.split('.').map(|s| Label::L(s.as_bytes().to_vec())).collect(),
        t: 1,
        class: 1,
        ttl: 60,
        rdlength: 4,
        rdata: addr.to_vec(),
    }
}

fn response(qd: Vec<Question>, an: Vec<ResourceRecord>, ar: Vec<ResourceRecord>, ns: Vec<ResourceRecord>) -> Message {
    let mut hdr = Header::default();
    hdr.qr = true;
    hdr.qdcount = qd.len() as u16;
    hdr.ancount = an.len() as u16;
    hdr.arcount = ar.len() as u16;
    hdr.nscount = ns.len() as u16;
    Message { hdr, qd, an, ar, ns }
}

#[test]
fn test_depth_guard() {
    assert!(!depth_exceeded(0));
    assert!(!depth_exceeded(3));
    assert!(depth_exceeded(4));
}

#[test]
fn test_ns_map_insert_get_overwrite() {
    let mut m = NsMap::new();
    assert_eq!(m.get(b"ns1.example"), None);
    m.insert(b"ns1.example".to_vec(), Ipv4 { a: 1, b: 2, c: 3, d: 4 });
    m.insert(b"ns2.example".to_vec(), Ipv4 { a: 5, b: 6, c: 7, d: 8 });
    assert_eq!(m.get(b"ns1.example"), Some(Ipv4 { a: 1, b: 2, c: 3, d: 4 }));
    assert_eq!(m.get(b"ns2.example"), Some(Ipv4 { a: 5, b: 6, c: 7, d: 8 }));
    m.insert(b"ns1.example".to_vec(), Ipv4 { a: 9, b: 9, c: 9, d: 9 });
    assert_eq!(m.get(b"ns1.example"), Some(Ipv4 { a: 9, b: 9, c: 9, d: 9 }));
    assert_eq!(m.get(b"absent"), None);
}

#[test]
fn test_answer_short_circuits() {
    let msg = response(
        vec![question("dns.google.com")],
        vec![a_record("dns.google.com", [8, 8, 8, 8])],
        vec![],
        vec![],
    );
    let mut map = NsMap::new();
    let step = evaluate_response(&msg, &mut map);
    assert!(matches!(step, ResolveStep::Answer(Ipv4 { a: 8, b: 8, c: 8, d: 8 })));
}

#[test]
fn test_first_a_answer_wins_and_other_types_skipped() {
    let mut aaaa = a_record("dns.google.com", [0, 0, 0, 0]);
    aaaa.t = 28;
    aaaa.rdlength = 16;
    aaaa.rdata = vec![0u8; 16];
    let msg = response(
        vec![question("dns.google.com")],
        vec![aaaa, a_record("dns.google.com", [1, 1, 1, 1]), a_record("dns.google.com", [2, 2, 2, 2])],
        vec![],
        vec![],
    );
    let mut map = NsMap::new();
    let step = evaluate_response(&msg, &mut map);
    assert!(matches!(step, ResolveStep::Answer(Ipv4 { a: 1, b: 1, c: 1, d: 1 })));
}

#[test]
fn test_name_error_rejects_branch() {
    let mut msg = response(
        vec![question("nosuch.example")],
        vec![],
        vec![],
        vec![a_record("ns1.example", [1, 2, 3, 4])],
    );
    msg.hdr.rcode = ResponseCode::NameError;
    let mut map = NsMap::new();
    let step = evaluate_response(&msg, &mut map);
    assert!(matches!(step, ResolveStep::Rejected));
    // the branch ended before any glue was recorded
    assert_eq!(map.get(b"ns1.example"), None);
}

#[test]
fn test_referral_records_glue() {
    let msg = response(
        vec![question("dns.google.com")],
        vec![],
        vec![],
        vec![a_record("ns1.example", [1, 2, 3, 4]), a_record("ns2.example", [5, 6, 7, 8])],
    );
    let mut map = NsMap::new();
    let step = evaluate_response(&msg, &mut map);
    assert!(matches!(step, ResolveStep::Referral));
    assert_eq!(map.get(b"ns1.example"), Some(Ipv4 { a: 1, b: 2, c: 3, d: 4 }));
    assert_eq!(map.get(b"ns2.example"), Some(Ipv4 { a: 5, b: 6, c: 7, d: 8 }));
}

#[test]
fn test_glue_candidate_resolves_rdata() {
    // raw buffer holding "ns1.example" at offset 0
    let raw = vec![
        vec![3u8],
        "ns1".as_bytes().to_vec(),
        vec![7u8],
        "example".as_bytes().to_vec(),
        vec![0u8],
    ]
    .concat();
    let rec = ResourceRecord {
        name: vec![],
        t: 2,
        class: 1,
        ttl: 0,
        rdlength: 2,
        rdata: vec![0xC0, 0x00],
    };
    let cand = glue_candidate(&raw[..], &rec, b"dns.google.com").unwrap();
    assert_eq!(cand, Some(b"ns1.example".to_vec()));
    // a candidate equal to the domain being resolved is dropped
    let cand2 = glue_candidate(&raw[..], &rec, b"ns1.example").unwrap();
    assert_eq!(cand2, None);
    // records of other types are not considered
    let mut other = rec.clone();
    other.t = 1;
    assert_eq!(glue_candidate(&raw[..], &other, b"dns.google.com").unwrap(), None);
}

#[test]
fn test_glue_candidate_malformed_rdata_fails() {
    let raw = vec![0u8];
    let rec = ResourceRecord {
        name: vec![],
        t: 2,
        class: 1,
        ttl: 0,
        rdlength: 2,
        rdata: vec![0xC0], // pointer missing its second byte
    };
    assert!(glue_candidate(&raw[..], &rec, b"x").is_err());
}

/// A whole delegation walk against scripted responses: the root answers
/// with NS glue only, the delegated server answers with the address; the
/// walk ends within the depth bound.
#[test]
fn test_delegation_walk_terminates() {
    let target = b"dns.google.com".to_vec();
    // response 1: referral with glue for ns1.example
    let referral = response(
        vec![question("dns.google.com")],
        vec![],
        vec![ResourceRecord {
            name: vec![],
            t: 2,
            class: 1,
            ttl: 0,
            rdlength: 2,
            rdata: b"\x03ns1\x07example\x00".to_vec(),
        }],
        vec![a_record("ns1.example", [10, 0, 0, 1])],
    );
    // response 2: the answer
    let answer = response(
        vec![question("dns.google.com")],
        vec![a_record("dns.google.com", [8, 8, 4, 4])],
        vec![],
        vec![],
    );
    let scripted = vec![referral, answer];
    // raw buffers the names would have been resolved against; rdata here
    // holds no pointers, so an empty buffer suffices
    let raws: Vec<Vec<u8>> = vec![vec![], vec![]];

    let mut map = NsMap::new();
    let mut found: Option<Ipv4> = None;
    let mut depth: usize = 0;
    let mut hop: usize = 0;
    while !depth_exceeded(depth) && hop < scripted.len() {
        let msg = &scripted[hop];
        match evaluate_response(msg, &mut map) {
            ResolveStep::Answer(addr) => {
                found = Some(addr);
                break;
            }
            ResolveStep::Rejected => break,
            ResolveStep::Referral => {
                let mut advanced = false;
                for rec in &msg.ar {
                    if let Ok(Some(cand)) = glue_candidate(&raws[hop][..], rec, &target[..]) {
                        if map.get(&cand[..]).is_some() {
                            depth += 1;
                            hop += 1;
                            advanced = true;
                            break;
                        }
                    }
                }
                if !advanced {
                    break;
                }
            }
        }
    }
    assert_eq!(found, Some(Ipv4 { a: 8, b: 8, c: 4, d: 4 }));
    assert!(depth <= 3);
}
