use vstd::prelude::*;

pub mod header;
pub mod label;
pub mod question;
pub mod rr;

use crate::errors::DnsError;
use crate::message::header::Header;
use crate::message::label::resolve_labels;
use crate::message::label::spec_resolve;
use crate::message::header::{Opcode, ResponseCode};
use crate::message::label::{domain_to_labels, spec_segments, wf_labels, LabelModel};
use crate::message::question::{spec_parse_question, spec_question_bytes, Question, QuestionModel};
use crate::message::rr::{spec_parse_record, RecordModel, ResourceRecord};

verus! {

/// Relies on rand::random: a fresh value drawn from the thread-local
/// generator's standard distribution; nothing is promised of it.
pub assume_specification<T>[ rand::random::<T> ]() -> (r: T)
    where
        rand::distr::StandardUniform: rand::distr::Distribution<T>,
;

/// A whole DNS message: a header and the four record sections. After a
/// successful parse the section lengths equal the header's counts and
/// every name has had its compression pointers resolved.
#[derive(Debug, Clone, PartialEq, Eq)]
pub struct Message {
    pub hdr: Header,
    pub qd: Vec<Question>,
    pub an: Vec<ResourceRecord>,
    pub ar: Vec<ResourceRecord>,
    pub ns: Vec<ResourceRecord>,
}

/// The mathematical shape of a [`Message`].
pub struct MessageModel {
    pub hdr: Header,
    pub qd: Seq<QuestionModel>,
    pub an: Seq<RecordModel>,
    pub ar: Seq<RecordModel>,
    pub ns: Seq<RecordModel>,
}

impl DeepView for Message {
    type V = MessageModel;

    open spec fn deep_view(&self) -> MessageModel {
        MessageModel {
            hdr: self.hdr,
            qd: self.qd.deep_view(),
            an: self.an.deep_view(),
            ar: self.ar.deep_view(),
            ns: self.ns.deep_view(),
        }
    }
}

/// Reading exactly `n` questions one after another from offset `i`.
pub open spec fn spec_parse_questions(b: Seq<u8>, i: int, n: nat) -> Option<
    (int, Seq<QuestionModel>),
>
    decreases n,
{
    if n == 0 {
        Some((i, Seq::<QuestionModel>::empty()))
    } else {
        match spec_parse_question(b, i) {
            None => None,
            Some((p, q)) => match spec_parse_questions(b, p, (n - 1) as nat) {
                None => None,
                Some((end, rest)) => Some((end, seq![q] + rest)),
            },
        }
    }
}

/// Reading exactly `n` resource records one after another from offset
/// `i`.
pub open spec fn spec_parse_records(b: Seq<u8>, i: int, n: nat) -> Option<(int, Seq<RecordModel>)>
    decreases n,
{
    if n == 0 {
        Some((i, Seq::<RecordModel>::empty()))
    } else {
        match spec_parse_record(b, i) {
            None => None,
            Some((p, rec)) => match spec_parse_records(b, p, (n - 1) as nat) {
                None => None,
                Some((end, rest)) => Some((end, seq![rec] + rest)),
            },
        }
    }
}

/// The question with its name resolved against the whole message buffer.
pub open spec fn spec_resolved_question(b: Seq<u8>, q: QuestionModel) -> QuestionModel {
    QuestionModel { qname: spec_resolve(b, q.qname, 0)->Some_0, qtype: q.qtype, qclass: q.qclass }
}

/// The record with its owner name resolved against the whole message
/// buffer.
pub open spec fn spec_resolved_record(b: Seq<u8>, rec: RecordModel) -> RecordModel {
    RecordModel {
        name: spec_resolve(b, rec.name, 0)->Some_0,
        t: rec.t,
        class: rec.class,
        ttl: rec.ttl,
        rdlength: rec.rdlength,
        rdata: rec.rdata,
    }
}

/// Every question name resolves against the buffer.
pub open spec fn all_question_names_resolve(b: Seq<u8>, qs: Seq<QuestionModel>) -> bool {
    forall|k: int| 0 <= k < qs.len() ==> spec_resolve(b, (#[trigger] qs[k]).qname, 0) is Some
}

/// Every record owner name resolves against the buffer.
pub open spec fn all_record_names_resolve(b: Seq<u8>, rs: Seq<RecordModel>) -> bool {
    forall|k: int| 0 <= k < rs.len() ==> spec_resolve(b, (#[trigger] rs[k]).name, 0) is Some
}

pub open spec fn spec_resolved_questions(b: Seq<u8>, qs: Seq<QuestionModel>) -> Seq<
    QuestionModel,
> {
    qs.map_values(|q: QuestionModel| spec_resolved_question(b, q))
}

pub open spec fn spec_resolved_records(b: Seq<u8>, rs: Seq<RecordModel>) -> Seq<RecordModel> {
    rs.map_values(|rec: RecordModel| spec_resolved_record(b, rec))
}

/// Reading a whole message: the header, then exactly `qdcount`
/// questions, `ancount` answer records, `arcount` additional records and
/// `nscount` authority records, in that order, each consuming bytes
/// sequentially; then a second pass resolving every name against the
/// entire original buffer. `None` when any part is malformed, a name
/// fails to resolve, or the buffer runs out.
pub open spec fn spec_parse_message(b: Seq<u8>) -> Option<(int, MessageModel)> {
    if b.len() < 12 {
        None
    } else {
        let hdr = Header::spec_parse(b);
        match spec_parse_questions(b, 12, hdr.qdcount as nat) {
            None => None,
            Some((p1, qd)) => match spec_parse_records(b, p1, hdr.ancount as nat) {
                None => None,
                Some((p2, an)) => match spec_parse_records(b, p2, hdr.arcount as nat) {
                    None => None,
                    Some((p3, ar)) => match spec_parse_records(b, p3, hdr.nscount as nat) {
                        None => None,
                        Some((p4, ns)) => {
                            if all_question_names_resolve(b, qd) && all_record_names_resolve(b, an)
                                && all_record_names_resolve(b, ar) && all_record_names_resolve(
                                b,
                                ns,
                            ) {
                                Some(
                                    (
                                        p4,
                                        MessageModel {
                                            hdr: hdr,
                                            qd: spec_resolved_questions(b, qd),
                                            an: spec_resolved_records(b, an),
                                            ar: spec_resolved_records(b, ar),
                                            ns: spec_resolved_records(b, ns),
                                        },
                                    ),
                                )
                            } else {
                                None
                            }
                        },
                    },
                },
            },
        }
    }
}

/// Reads `n` consecutive questions starting at `start`.
#[verifier::loop_isolation(false)]
fn parse_questions(b: &[u8], start: usize, n: u16) -> (r: Result<(usize, Vec<Question>), DnsError>)
    requires
        start <= b@.len(),
    ensures
        match r {
            Ok((end, qs)) => {
                &&& spec_parse_questions(b@, start as int, n as nat) == Some(
                    (end as int, qs.deep_view()),
                )
                &&& start <= end <= b@.len()
                &&& qs@.len() == n
            },
            Err(e) => spec_parse_questions(b@, start as int, n as nat) is None
                && e is ParseError,
        },
{
    let mut qs: Vec<Question> = Vec::new();
    let mut offset: usize = start;
    let mut c: u16 = 0;
    while c < n
        invariant
            c <= n,
            start <= offset <= b@.len(),
            qs@.len() == c,
            match spec_parse_questions(b@, offset as int, (n - c) as nat) {
                None => spec_parse_questions(b@, start as int, n as nat) is None,
                Some((end, rest)) => spec_parse_questions(b@, start as int, n as nat) == Some(
                    (end, qs.deep_view() + rest),
                ),
            },
        decreases n - c,
    {
        match Question::parse_at(b, offset) {
            Err(e) => {
                return Err(e);
            },
            Ok((end2, q)) => {
                let ghost qv = q.deep_view();
                let ghost prev = qs.deep_view();
                proof {
                    match spec_parse_questions(b@, end2 as int, (n - c - 1) as nat) {
                        None => {},
                        Some((e2, rest2)) => {
                            assert(prev.push(qv) + rest2 =~= prev + (seq![qv] + rest2));
                        },
                    }
                }
                qs.push(q);
                proof {
                    assert(qs.deep_view() =~= prev.push(qv));
                }
                offset = end2;
                c = c + 1;
            },
        }
    }
    proof {
        assert(qs.deep_view() + Seq::<QuestionModel>::empty() =~= qs.deep_view());
    }
    Ok((offset, qs))
}

/// Reads `n` consecutive resource records starting at `start`.
#[verifier::loop_isolation(false)]
fn parse_records(b: &[u8], start: usize, n: u16) -> (r: Result<
    (usize, Vec<ResourceRecord>),
    DnsError,
>)
    requires
        start <= b@.len(),
    ensures
        match r {
            Ok((end, rs)) => {
                &&& spec_parse_records(b@, start as int, n as nat) == Some(
                    (end as int, rs.deep_view()),
                )
                &&& start <= end <= b@.len()
                &&& rs@.len() == n
            },
            Err(e) => spec_parse_records(b@, start as int, n as nat) is None && e is ParseError,
        },
{
    let mut rs: Vec<ResourceRecord> = Vec::new();
    let mut offset: usize = start;
    let mut c: u16 = 0;
    while c < n
        invariant
            c <= n,
            start <= offset <= b@.len(),
            rs@.len() == c,
            match spec_parse_records(b@, offset as int, (n - c) as nat) {
                None => spec_parse_records(b@, start as int, n as nat) is None,
                Some((end, rest)) => spec_parse_records(b@, start as int, n as nat) == Some(
                    (end, rs.deep_view() + rest),
                ),
            },
        decreases n - c,
    {
        match ResourceRecord::parse_at(b, offset) {
            Err(e) => {
                return Err(e);
            },
            Ok((end2, rec)) => {
                let ghost rv = rec.deep_view();
                let ghost prev = rs.deep_view();
                proof {
                    match spec_parse_records(b@, end2 as int, (n - c - 1) as nat) {
                        None => {},
                        Some((e2, rest2)) => {
                            assert(prev.push(rv) + rest2 =~= prev + (seq![rv] + rest2));
                        },
                    }
                }
                rs.push(rec);
                proof {
                    assert(rs.deep_view() =~= prev.push(rv));
                }
                offset = end2;
                c = c + 1;
            },
        }
    }
    proof {
        assert(rs.deep_view() + Seq::<RecordModel>::empty() =~= rs.deep_view());
    }
    Ok((offset, rs))
}

/// Resolves every question name in place against the whole buffer.
#[verifier::loop_isolation(false)]
fn resolve_question_names(b: &[u8], qs: Vec<Question>) -> (r: Result<Vec<Question>, DnsError>)
    ensures
        match r {
            Ok(out) => {
                &&& all_question_names_resolve(b@, qs.deep_view())
                &&& out.deep_view() == spec_resolved_questions(b@, qs.deep_view())
                &&& out@.len() == qs@.len()
            },
            Err(e) => !all_question_names_resolve(b@, qs.deep_view()) && e is ParseError,
        },
{
    let ghost orig = qs.deep_view();
    let mut src = qs;
    let mut out: Vec<Question> = Vec::new();
    while src.len() > 0
        invariant
            out@.len() + src@.len() == orig.len(),
            src.deep_view() == orig.skip(out@.len() as int),
            forall|k: int|
                0 <= k < out@.len() ==> spec_resolve(b@, (#[trigger] orig[k]).qname, 0) is Some
                    && out.deep_view()[k] == spec_resolved_question(b@, orig[k]),
        decreases src@.len(),
    {
        let ghost j = out@.len() as int;
        let ghost srcpre = src.deep_view();
        let mut q = src.remove(0);
        proof {
            assert(q.deep_view() == srcpre[0]);
            assert(srcpre[0] == orig[j]);
            assert(src.deep_view() =~= srcpre.drop_first());
            assert(srcpre.drop_first() =~= orig.skip(j + 1));
        }
        match resolve_labels(b, &mut q.qname) {
            Err(e) => {
                proof {
                    assert(spec_resolve(b@, orig[j].qname, 0) is None);
                    assert(!all_question_names_resolve(b@, orig));
                }
                return Err(e);
            },
            Ok(_text) => {
                let ghost prev = out.deep_view();
                out.push(q);
                proof {
                    assert(out.deep_view() =~= prev.push(q.deep_view()));
                    assert(q.deep_view() == spec_resolved_question(b@, orig[j]));
                }
            },
        }
    }
    proof {
        assert(out.deep_view() =~= spec_resolved_questions(b@, orig));
    }
    Ok(out)
}

/// Resolves every record owner name in place against the whole buffer.
#[verifier::loop_isolation(false)]
fn resolve_record_names(b: &[u8], rs: Vec<ResourceRecord>) -> (r: Result<
    Vec<ResourceRecord>,
    DnsError,
>)
    ensures
        match r {
            Ok(out) => {
                &&& all_record_names_resolve(b@, rs.deep_view())
                &&& out.deep_view() == spec_resolved_records(b@, rs.deep_view())
                &&& out@.len() == rs@.len()
            },
            Err(e) => !all_record_names_resolve(b@, rs.deep_view()) && e is ParseError,
        },
{
    let ghost orig = rs.deep_view();
    let mut src = rs;
    let mut out: Vec<ResourceRecord> = Vec::new();
    while src.len() > 0
        invariant
            out@.len() + src@.len() == orig.len(),
            src.deep_view() == orig.skip(out@.len() as int),
            forall|k: int|
                0 <= k < out@.len() ==> spec_resolve(b@, (#[trigger] orig[k]).name, 0) is Some
                    && out.deep_view()[k] == spec_resolved_record(b@, orig[k]),
        decreases src@.len(),
    {
        let ghost j = out@.len() as int;
        let ghost srcpre = src.deep_view();
        let mut rec = src.remove(0);
        proof {
            assert(rec.deep_view() == srcpre[0]);
            assert(srcpre[0] == orig[j]);
            assert(src.deep_view() =~= srcpre.drop_first());
            assert(srcpre.drop_first() =~= orig.skip(j + 1));
        }
        match resolve_labels(b, &mut rec.name) {
            Err(e) => {
                proof {
                    assert(spec_resolve(b@, orig[j].name, 0) is None);
                    assert(!all_record_names_resolve(b@, orig));
                }
                return Err(e);
            },
            Ok(_text) => {
                let ghost prev = out.deep_view();
                out.push(rec);
                proof {
                    assert(out.deep_view() =~= prev.push(rec.deep_view()));
                    assert(rec.deep_view() == spec_resolved_record(b@, orig[j]));
                }
            },
        }
    }
    proof {
        assert(out.deep_view() =~= spec_resolved_records(b@, orig));
    }
    Ok(out)
}

impl Message {
    /// Reads a whole message from `b`, per [`spec_parse_message`]:
    /// header, then `qdcount` questions, `ancount` answers, `arcount`
    /// additional records and `nscount` authority records, then a
    /// second pass resolving every name against the entire buffer.
    /// After a successful parse each section's length equals the
    /// corresponding header count.
    pub fn parse(b: &[u8]) -> (r: Result<(usize, Message), DnsError>)
        ensures
            match r {
                Ok((n, m)) => {
                    &&& spec_parse_message(b@) == Some((n as int, m.deep_view()))
                    &&& n <= b@.len()
                    &&& m.qd@.len() == m.hdr.qdcount as int
                    &&& m.an@.len() == m.hdr.ancount as int
                    &&& m.ar@.len() == m.hdr.arcount as int
                    &&& m.ns@.len() == m.hdr.nscount as int
                },
                Err(e) => spec_parse_message(b@) is None && e is ParseError,
            },
    {
        let hdr = match Header::parse(b) {
            Ok(h) => h,
            Err(e) => {
                return Err(e);
            },
        };
        let (p1, qd) = match parse_questions(b, 12, hdr.qdcount) {
            Ok(x) => x,
            Err(e) => {
                return Err(e);
            },
        };
        let (p2, an) = match parse_records(b, p1, hdr.ancount) {
            Ok(x) => x,
            Err(e) => {
                return Err(e);
            },
        };
        let (p3, ar) = match parse_records(b, p2, hdr.arcount) {
            Ok(x) => x,
            Err(e) => {
                return Err(e);
            },
        };
        let (p4, ns) = match parse_records(b, p3, hdr.nscount) {
            Ok(x) => x,
            Err(e) => {
                return Err(e);
            },
        };
        let qd = match resolve_question_names(b, qd) {
            Ok(x) => x,
            Err(e) => {
                return Err(e);
            },
        };
        let an = match resolve_record_names(b, an) {
            Ok(x) => x,
            Err(e) => {
                return Err(e);
            },
        };
        let ar = match resolve_record_names(b, ar) {
            Ok(x) => x,
            Err(e) => {
                return Err(e);
            },
        };
        let ns = match resolve_record_names(b, ns) {
            Ok(x) => x,
            Err(e) => {
                return Err(e);
            },
        };
        Ok((p4, Message { hdr, qd, an, ar, ns }))
    }
}


/// The wire bytes of a run of questions, one after another.
pub open spec fn spec_questions_bytes(qs: Seq<QuestionModel>) -> Seq<u8>
    decreases qs.len(),
{
    if qs.len() == 0 {
        Seq::<u8>::empty()
    } else {
        spec_question_bytes(qs[0]) + spec_questions_bytes(qs.drop_first())
    }
}

/// The wire bytes of the first `j` questions of `qs`.
pub open spec fn spec_questions_prefix(qs: Seq<QuestionModel>, j: int) -> Seq<u8>
    decreases j,
{
    if j <= 0 {
        Seq::<u8>::empty()
    } else {
        spec_questions_prefix(qs, j - 1) + spec_question_bytes(qs[j - 1])
    }
}

/// Splitting [`spec_questions_bytes`] after the first `j` questions.
proof fn lemma_questions_bytes_split(qs: Seq<QuestionModel>, j: int)
    requires
        0 <= j <= qs.len(),
    ensures
        spec_questions_bytes(qs) == spec_questions_prefix(qs, j) + spec_questions_bytes(
            qs.skip(j),
        ),
    decreases j,
{
    if j == 0 {
        assert(qs.skip(0) =~= qs);
        assert(spec_questions_prefix(qs, 0) + spec_questions_bytes(qs) =~= spec_questions_bytes(
            qs,
        ));
    } else {
        lemma_questions_bytes_split(qs, j - 1);
        assert(qs.skip(j - 1).drop_first() =~= qs.skip(j));
        assert(qs.skip(j - 1)[0] == qs[j - 1]);
        assert(spec_questions_bytes(qs.skip(j - 1)) == spec_question_bytes(qs[j - 1])
            + spec_questions_bytes(qs.skip(j)));
        assert(spec_questions_prefix(qs, j - 1) + (spec_question_bytes(qs[j - 1])
            + spec_questions_bytes(qs.skip(j))) =~= spec_questions_prefix(qs, j)
            + spec_questions_bytes(qs.skip(j)));
    }
}

/// The wire bytes a message is written as: the header, then each
/// question in order; answer, authority and additional records are never
/// serialized (only queries go out on the wire).
pub open spec fn spec_message_bytes(m: MessageModel) -> Seq<u8> {
    m.hdr.spec_bytes() + spec_questions_bytes(m.qd)
}

impl Message {
    /// A message that can be written: a well-formed header and
    /// well-formed question names.
    pub open spec fn wf(self) -> bool {
        &&& self.hdr.wf()
        &&& forall|k: int|
            0 <= k < self.qd@.len() ==> wf_labels((#[trigger] self.qd.deep_view()[k]).qname)
    }

    /// Writes the header and the questions into the start of `dest`,
    /// per [`spec_message_bytes`], returning the byte count; bytes of
    /// `dest` past the written region are left unchanged. Fails with a
    /// marshal error exactly when `dest` is too small, leaving its
    /// length unchanged.
    #[verifier::loop_isolation(false)]
    pub fn write(&self, dest: &mut Vec<u8>) -> (r: Result<usize, DnsError>)
        requires
            self.wf(),
        ensures
            ({
                let out = spec_message_bytes(self.deep_view());
                match r {
                    Ok(n) => {
                        &&& n == out.len()
                        &&& out.len() <= old(dest)@.len()
                        &&& final(dest)@ == out + old(dest)@.skip(out.len() as int)
                    },
                    Err(e) => {
                        &&& e is MarshalError
                        &&& old(dest)@.len() < out.len()
                        &&& final(dest)@.len() == old(dest)@.len()
                    },
                }
            }),
    {
        let ghost pre = dest@;
        let ghost qv = self.qd.deep_view();
        let ghost out = spec_message_bytes(self.deep_view());
        match self.hdr.write_at(dest, 0) {
            Ok(()) => {},
            Err(e) => {
                return Err(e);
            },
        }
        let mut offset: usize = 12;
        let mut j: usize = 0;
        proof {
            assert(dest@ =~= pre.take(0) + self.hdr.spec_bytes() + pre.skip(12));
        }
        while j < self.qd.len()
            invariant
                j <= qv.len(),
                offset == 12 + spec_questions_prefix(qv, j as int).len(),
                offset <= dest@.len(),
                dest@.len() == pre.len(),
                dest@ =~= self.hdr.spec_bytes() + spec_questions_prefix(qv, j as int) + pre.skip(
                    offset as int,
                ),
            decreases qv.len() - j,
        {
            proof {
                lemma_questions_bytes_split(qv, j as int);
                assert(qv.skip(j as int)[0] == qv[j as int]);
                assert(qv.skip(j as int).drop_first() =~= qv.skip(j + 1));
                assert(self.qd@[j as int].deep_view() == qv[j as int]);
            }
            let w = match self.qd[j].write_at(dest, offset) {
                Ok(w) => w,
                Err(e) => {
                    proof {
                        assert(out.len() >= offset + spec_question_bytes(qv[j as int]).len());
                    }
                    return Err(e);
                },
            };
            proof {
                assert(spec_questions_prefix(qv, j + 1) =~= spec_questions_prefix(qv, j as int)
                    + spec_question_bytes(qv[j as int]));
                assert(dest@ =~= self.hdr.spec_bytes() + spec_questions_prefix(qv, j + 1)
                    + pre.skip(offset + w));
            }
            proof {
                vstd::std_specs::vec::axiom_spec_len(dest);
                assert(offset + w <= dest@.len());
            }
            offset = offset + w;
            j = j + 1;
        }
        proof {
            lemma_questions_bytes_split(qv, qv.len() as int);
            assert(qv.skip(qv.len() as int) =~= Seq::<QuestionModel>::empty());
            assert(spec_questions_bytes(qv.skip(qv.len() as int)) =~= Seq::<u8>::empty());
            assert(out =~= self.hdr.spec_bytes() + spec_questions_prefix(qv, qv.len() as int));
            assert(dest@ =~= out + pre.skip(out.len() as int));
        }
        Ok(offset)
    }

    /// Builds a standard query for `domain` with a freshly drawn random
    /// transaction id: QR clear, recursion desired as given, exactly one
    /// question with the given query type and class, and empty record
    /// sections. Fails exactly when a segment of `domain` exceeds 63
    /// octets.
    pub fn new_query(domain: &[u8], t: u16, class: u16, recursion: bool) -> (r: Result<
        Message,
        DnsError,
    >)
        ensures
            ({
                let parts = spec_segments(domain@);
                match r {
                    Ok(m) => {
                        &&& forall|j: int|
                            0 <= j < parts.len() ==> (#[trigger] parts[j]).len() <= 63
                        &&& m.wf()
                        &&& m.hdr.qr == false
                        &&& m.hdr.opcode == Opcode::StandardQuery
                        &&& m.hdr.aa == false
                        &&& m.hdr.tc == false
                        &&& m.hdr.rd == recursion
                        &&& m.hdr.ra == false
                        &&& m.hdr.rcode == ResponseCode::NoError
                        &&& m.hdr.qdcount == 1
                        &&& m.hdr.ancount == 0
                        &&& m.hdr.arcount == 0
                        &&& m.hdr.nscount == 0
                        &&& m.qd@.len() == 1
                        &&& m.qd.deep_view()[0].qname == parts.map_values(
                            |p: Seq<u8>| LabelModel::Lit(p),
                        )
                        &&& m.qd.deep_view()[0].qtype == t
                        &&& m.qd.deep_view()[0].qclass == class
                        &&& m.an@.len() == 0
                        &&& m.ar@.len() == 0
                        &&& m.ns@.len() == 0
                    },
                    Err(e) => {
                        &&& e is Generic
                        &&& exists|j: int|
                            0 <= j < parts.len() && (#[trigger] parts[j]).len() > 63
                    },
                }
            }),
    {
        let qname = match domain_to_labels(domain) {
            Ok(x) => x,
            Err(e) => {
                return Err(e);
            },
        };
        let id: u16 = rand::random();
        let hdr = Header {
            id,
            qr: false,
            opcode: Opcode::StandardQuery,
            aa: false,
            tc: false,
            rd: recursion,
            ra: false,
            rcode: ResponseCode::NoError,
            qdcount: 1,
            ancount: 0,
            arcount: 0,
            nscount: 0,
        };
        let mut qd: Vec<Question> = Vec::new();
        qd.push(Question { qname, qtype: t, qclass: class });
        let m = Message { hdr, qd, an: Vec::new(), ar: Vec::new(), ns: Vec::new() };
        proof {
            let parts = spec_segments(domain@);
            assert(m.qd.deep_view() =~= seq![m.qd@[0].deep_view()]);
            assert forall|k: int| 0 <= k < m.qd@.len() implies wf_labels(
                (#[trigger] m.qd.deep_view()[k]).qname,
            ) by {
                let nm = m.qd.deep_view()[k].qname;
                assert(nm == parts.map_values(|p: Seq<u8>| LabelModel::Lit(p)));
                assert forall|j: int| 0 <= j < nm.len() implies match #[trigger] nm[j] {
                    LabelModel::Lit(s) => s.len() <= 63,
                    LabelModel::Ptr(o) => 0 <= o < 16384 && j == nm.len() - 1,
                } by {
                    assert(nm[j] == LabelModel::Lit(parts[j]));
                };
            };
        }
        Ok(m)
    }
}

} // verus!\n