use vstd::prelude::*;

use crate::errors::DnsError;
use crate::message::header::{u16_from_bytes, u16_hi, u16_lo, u16_of};
use crate::message::label::{
    spec_parse_labels, spec_write_labels, wf_labels, write_labels_at, Label, LabelModel,
    parse_labels_at,
};

verus! {

/// A single question entry: a domain name, a query type and a query
/// class.
#[derive(Debug, Clone, PartialEq, Eq)]
pub struct Question {
    pub qname: Vec<Label>,
    pub qtype: u16,
    pub qclass: u16,
}

/// The mathematical shape of a [`Question`].
pub struct QuestionModel {
    pub qname: Seq<LabelModel>,
    pub qtype: u16,
    pub qclass: u16,
}

impl DeepView for Question {
    type V = QuestionModel;

    open spec fn deep_view(&self) -> QuestionModel {
        QuestionModel {
            qname: self.qname.deep_view(),
            qtype: self.qtype,
            qclass: self.qclass,
        }
    }
}

/// Reading a question at offset `i` of `b`: a name (pointer left
/// unresolved), then two big-endian bytes of query type and two of query
/// class. Yields the offset just past the question, or `None` when the
/// name is malformed or fewer than four bytes follow it.
pub open spec fn spec_parse_question(b: Seq<u8>, i: int) -> Option<(int, QuestionModel)> {
    match spec_parse_labels(b, i) {
        None => None,
        Some((p, name)) => {
            if p + 3 < b.len() {
                Some(
                    (
                        p + 4,
                        QuestionModel {
                            qname: name,
                            qtype: u16_of(b[p], b[p + 1]),
                            qclass: u16_of(b[p + 2], b[p + 3]),
                        },
                    ),
                )
            } else {
                None
            }
        },
    }
}

/// The wire bytes of a question: its name followed by query type and
/// query class, big-endian.
pub open spec fn spec_question_bytes(q: QuestionModel) -> Seq<u8> {
    spec_write_labels(q.qname) + seq![
        u16_hi(q.qtype),
        u16_lo(q.qtype),
        u16_hi(q.qclass),
        u16_lo(q.qclass),
    ]
}

impl Question {
    /// A question whose name can be written: well-formed labels.
    pub open spec fn wf(self) -> bool {
        wf_labels(self.qname.deep_view())
    }

    /// Reads a question from offset `i` of `b`, per
    /// [`spec_parse_question`]; the returned offset is absolute.
    pub(crate) fn parse_at(b: &[u8], i: usize) -> (r: Result<(usize, Question), DnsError>)
        ensures
            match r {
                Ok((end, q)) => {
                    &&& spec_parse_question(b@, i as int) == Some((end as int, q.deep_view()))
                    &&& i <= end <= b@.len()
                },
                Err(e) => spec_parse_question(b@, i as int) is None && e is ParseError,
            },
    {
        let (p, name) = match parse_labels_at(b, i) {
            Ok(x) => x,
            Err(e) => {
                return Err(e);
            },
        };
        if b.len() - p <= 3 {
            return Err(
                DnsError::ParseError("parse: not enough bytes for parsing question".to_owned()),
            );
        }
        let q = Question {
            qname: name,
            qtype: u16_from_bytes(b[p], b[p + 1]),
            qclass: u16_from_bytes(b[p + 2], b[p + 3]),
        };
        Ok((p + 4, q))
    }

    /// Reads a question from the start of `b`, returning the number of
    /// bytes consumed; fails with a parse error when the name is
    /// malformed or fewer than four bytes follow it.
    pub fn parse(b: &[u8]) -> (r: Result<(usize, Question), DnsError>)
        ensures
            match r {
                Ok((n, q)) => {
                    &&& spec_parse_question(b@, 0) == Some((n as int, q.deep_view()))
                    &&& n <= b@.len()
                },
                Err(e) => spec_parse_question(b@, 0) is None && e is ParseError,
            },
    {
        Question::parse_at(b, 0)
    }

    /// Writes the question at offset `at` of `dest`, leaving the rest of
    /// `dest` unchanged; fails with a marshal error exactly when `dest`
    /// is too small, leaving its length unchanged.
    pub(crate) fn write_at(&self, dest: &mut Vec<u8>, at: usize) -> (r: Result<usize, DnsError>)
        requires
            self.wf(),
            at <= old(dest)@.len(),
        ensures
            ({
                let out = spec_question_bytes(self.deep_view());
                match r {
                    Ok(n) => {
                        &&& n == out.len()
                        &&& at + out.len() <= old(dest)@.len()
                        &&& final(dest)@ == old(dest)@.take(at as int) + out + old(dest)@.skip(
                            at + out.len(),
                        )
                    },
                    Err(e) => {
                        &&& e is MarshalError
                        &&& old(dest)@.len() < at + out.len()
                        &&& final(dest)@.len() == old(dest)@.len()
                    },
                }
            }),
    {
        let ghost pre = dest@;
        let ghost out = spec_question_bytes(self.deep_view());
        let written = match write_labels_at(&self.qname, dest, at) {
            Ok(n) => n,
            Err(e) => {
                return Err(e);
            },
        };
        let ghost labs = spec_write_labels(self.qname.deep_view());
        if dest.len() - at - written <= 3 {
            return Err(
                DnsError::MarshalError("write: not enough bytes for writing question".to_owned()),
            );
        }
        let p = at + written;
        dest[p] = (self.qtype >> 8) as u8;
        dest[p + 1] = self.qtype as u8;
        dest[p + 2] = (self.qclass >> 8) as u8;
        dest[p + 3] = self.qclass as u8;
        proof {
            assert(dest@ =~= pre.take(at as int) + out + pre.skip(at + out.len()));
        }
        Ok(written + 4)
    }

    /// Writes the question at the start of `dest`, per
    /// [`spec_question_bytes`]; bytes of `dest` past the written region
    /// are left unchanged.
    pub fn write(&self, dest: &mut Vec<u8>) -> (r: Result<usize, DnsError>)
        requires
            self.wf(),
        ensures
            ({
                let out = spec_question_bytes(self.deep_view());
                match r {
                    Ok(n) => {
                        &&& n == out.len()
                        &&& out.len() <= old(dest)@.len()
                        &&& final(dest)@ == out + old(dest)@.skip(out.len() as int)
                    },
                    Err(e) => {
                        &&& e is MarshalError
                        &&& old(dest)@.len() < out.len()
                        &&& final(dest)@.len() == old(dest)@.len()
                    },
                }
            }),
    {
        let r = self.write_at(dest, 0);
        proof {
            let out = spec_question_bytes(self.deep_view());
            if r is Ok {
                assert(old(dest)@.take(0) + out + old(dest)@.skip(0 + out.len() as int) =~= out
                    + old(dest)@.skip(out.len() as int));
            }
        }
        r
    }
}

} // verus!
