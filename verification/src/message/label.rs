use vstd::prelude::*;

use crate::errors::DnsError;

verus! {

/// One element of a domain name: either a literal name segment of raw
/// octets, or a compression pointer giving an offset into the enclosing
/// message buffer where the rest of the name is found.
#[derive(Debug, Clone, PartialEq, Eq)]
pub enum Label {
    L(Vec<u8>),
    P(usize),
}

/// The mathematical shape of a [`Label`]: a literal octet sequence or a
/// pointer offset.
pub enum LabelModel {
    Lit(Seq<u8>),
    Ptr(int),
}

impl DeepView for Label {
    type V = LabelModel;

    open spec fn deep_view(&self) -> LabelModel {
        match self {
            Label::L(s) => LabelModel::Lit(s.deep_view()),
            Label::P(o) => LabelModel::Ptr(*o as int),
        }
    }
}

/// The 14-bit compression offset held by a pointer whose two wire bytes
/// are `hi` (with the top two bits `11`) and `lo`.
pub open spec fn spec_ptr_offset(hi: u8, lo: u8) -> int {
    (hi & 0x3F) as int * 256 + lo as int
}

/// Reading labels from `b` starting at absolute offset `i`: a run of
/// length-prefixed literal segments ended either by a zero octet (not
/// emitted) or by a single pointer (emitted last). Yields the offset just
/// past the terminator together with the labels, or `None` when the
/// buffer is exhausted before a terminator, a pointer's second byte, or a
/// declared segment is fully available.
pub open spec fn spec_parse_labels(b: Seq<u8>, i: int) -> Option<(int, Seq<LabelModel>)>
    decreases b.len() - i,
{
    if i < 0 || i >= b.len() {
        None
    } else if b[i] & 0xC0 == 0xC0 {
        if i + 1 < b.len() {
            Some((i + 2, seq![LabelModel::Ptr(spec_ptr_offset(b[i], b[i + 1]))]))
        } else {
            None
        }
    } else if b[i] == 0 {
        Some((i + 1, Seq::<LabelModel>::empty()))
    } else if i + b[i] >= b.len() {
        None
    } else {
        match spec_parse_labels(b, i + b[i] + 1) {
            None => None,
            Some((end, rest)) => Some(
                (end, seq![LabelModel::Lit(b.subrange(i + 1, i + b[i] + 1))] + rest),
            ),
        }
    }
}

/// Reads labels from `b` starting at offset `i`, as
/// [`spec_parse_labels`] describes.
pub(crate) fn parse_labels_at(b: &[u8], i: usize) -> (r: Result<(usize, Vec<Label>), DnsError>)
    ensures
        match r {
            Ok((end, ls)) => {
                &&& spec_parse_labels(b@, i as int) == Some((end as int, ls.deep_view()))
                &&& i <= end <= b@.len()
            },
            Err(e) => spec_parse_labels(b@, i as int) is None && e is ParseError,
        },
    decreases b@.len() - i,
{
    if i >= b.len() {
        return Err(DnsError::ParseError("parse: zero-octet or pointer not found".to_owned()));
    }
    let c = b[i];
    if c & 0xC0 == 0xC0 {
        if i + 1 >= b.len() {
            return Err(
                DnsError::ParseError(
                    "parse label: not enough bytes for parsing label offset".to_owned(),
                ),
            );
        }
        let offset = ((c & 0x3F) as usize) * 256 + (b[i + 1] as usize);
        let mut ls: Vec<Label> = Vec::new();
        ls.push(Label::P(offset));
        proof {
            assert(ls.deep_view() =~= seq![LabelModel::Ptr(spec_ptr_offset(b@[i as int], b@[i + 1]))]);
        }
        Ok((i + 2, ls))
    } else if c == 0 {
        let ls: Vec<Label> = Vec::new();
        proof {
            assert(ls.deep_view() =~= Seq::<LabelModel>::empty());
        }
        Ok((i + 1, ls))
    } else {
        let count = c as usize;
        if count >= b.len() - i {
            return Err(
                DnsError::ParseError("parse: not enough bytes for parsing label".to_owned()),
            );
        }
        let mut text: Vec<u8> = Vec::new();
        let mut k: usize = 0;
        while k < count
            invariant
                k <= count,
                i + count < b@.len(),
                b@.len() <= usize::MAX,
                text@ =~= b@.subrange(i + 1, i + 1 + k),
            decreases count - k,
        {
            text.push(b[i + 1 + k]);
            proof {
                assert(text@ =~= b@.subrange(i as int + 1, i + 1 + k + 1));
            }
            k = k + 1;
        }
        match parse_labels_at(b, i + count + 1) {
            Err(e) => Err(e),
            Ok((end, mut rest)) => {
                let ghost prev = rest.deep_view();
                rest.insert(0, Label::L(text));
                proof {
                    assert(text.deep_view() =~= text@);
                    assert(rest.deep_view() =~= seq![
                        LabelModel::Lit(b@.subrange(i + 1, i + b@[i as int] + 1)),
                    ] + prev);
                }
                Ok((end, rest))
            },
        }
    }
}

/// Reads labels from the start of `b`, per [`spec_parse_labels`].
pub fn parse_label_bytes(b: &[u8]) -> (r: Result<(usize, Vec<Label>), DnsError>)
    ensures
        match r {
            Ok((n, ls)) => {
                &&& spec_parse_labels(b@, 0) == Some((n as int, ls.deep_view()))
                &&& n <= b@.len()
            },
            Err(e) => spec_parse_labels(b@, 0) is None && e is ParseError,
        },
{
    parse_labels_at(b, 0)
}

/// Well-formed label sequences: literal segments hold at most 63 octets,
/// and a pointer's 14-bit offset appears at most once, as the final
/// element.
pub open spec fn wf_labels(ls: Seq<LabelModel>) -> bool {
    forall|j: int|
        0 <= j < ls.len() ==> match #[trigger] ls[j] {
            LabelModel::Lit(s) => s.len() <= 63,
            LabelModel::Ptr(o) => 0 <= o < 16384 && j == ls.len() - 1,
        }
}

/// The wire bytes of a single label: a literal as its length octet
/// followed by its octets, a pointer as a two-byte `11`-prefixed offset.
pub open spec fn spec_write_one(l: LabelModel) -> Seq<u8> {
    match l {
        LabelModel::Lit(s) => seq![s.len() as u8] + s,
        LabelModel::Ptr(o) => seq![(0xC0u8 | ((o / 256) as u8)), (o % 256) as u8],
    }
}

/// The wire bytes of the labels of `ls` together with the terminator: a
/// pointer ends the sequence by itself, otherwise a zero octet follows
/// the last literal.
pub open spec fn spec_write_rest(ls: Seq<LabelModel>) -> Seq<u8>
    decreases ls.len(),
{
    if ls.len() == 0 {
        seq![0u8]
    } else if ls[0] is Ptr {
        spec_write_one(ls[0])
    } else {
        spec_write_one(ls[0]) + spec_write_rest(ls.drop_first())
    }
}

/// The wire bytes a label sequence is written as: nothing at all for an
/// empty sequence, otherwise the labels followed by their terminator.
pub open spec fn spec_write_labels(ls: Seq<LabelModel>) -> Seq<u8> {
    if ls.len() == 0 {
        Seq::<u8>::empty()
    } else {
        spec_write_rest(ls)
    }
}

/// Splitting [`spec_write_rest`] after a leading run of `j` literals.
proof fn lemma_write_rest_split(ls: Seq<LabelModel>, j: int)
    requires
        0 <= j <= ls.len(),
        forall|k: int| 0 <= k < j ==> ls[k] is Lit,
    ensures
        spec_write_rest(ls) == spec_write_prefix(ls, j) + spec_write_rest(ls.skip(j)),
    decreases j,
{
    if j == 0 {
        assert(ls.skip(0) =~= ls);
        assert(spec_write_prefix(ls, 0) + spec_write_rest(ls) =~= spec_write_rest(ls));
    } else {
        lemma_write_rest_split(ls, j - 1);
        assert(ls.skip(j - 1).drop_first() =~= ls.skip(j));
        assert(ls.skip(j - 1)[0] == ls[j - 1]);
        assert(spec_write_rest(ls.skip(j - 1)) == spec_write_one(ls[j - 1]) + spec_write_rest(
            ls.skip(j),
        ));
        assert(spec_write_prefix(ls, j - 1) + (spec_write_one(ls[j - 1]) + spec_write_rest(
            ls.skip(j),
        )) =~= spec_write_prefix(ls, j) + spec_write_rest(ls.skip(j)));
    }
}

/// A label run together with its terminator always takes at least one
/// byte on the wire.
proof fn lemma_write_rest_len(ls: Seq<LabelModel>)
    ensures
        spec_write_rest(ls).len() >= 1,
    decreases ls.len(),
{
    if ls.len() != 0 && !(ls[0] is Ptr) {
        lemma_write_rest_len(ls.drop_first());
    }
}

/// The wire bytes of the first `j` labels of `ls`, without a terminator.
pub open spec fn spec_write_prefix(ls: Seq<LabelModel>, j: int) -> Seq<u8>
    decreases j,
{
    if j <= 0 {
        Seq::<u8>::empty()
    } else {
        spec_write_prefix(ls, j - 1) + spec_write_one(ls[j - 1])
    }
}

/// Serializes a well-formed label sequence into `dest` starting at
/// offset `at`: literals as length-prefixed octet runs, a final pointer
/// as a two-byte offset ending the sequence without a trailing zero
/// octet, and otherwise a single terminating zero octet. Fails with a
/// marshal error exactly when `dest` is too small, leaving its length
/// unchanged.
#[verifier::loop_isolation(false)]
#[verifier::rlimit(30)]
pub(crate) fn write_labels_at(labels: &Vec<Label>, dest: &mut Vec<u8>, at: usize) -> (r: Result<
    usize,
    DnsError,
>)
    requires
        wf_labels(labels.deep_view()),
        at <= old(dest)@.len(),
    ensures
        ({
            let out = spec_write_labels(labels.deep_view());
            match r {
                Ok(n) => {
                    &&& n == out.len()
                    &&& at + out.len() <= old(dest)@.len()
                    &&& final(dest)@ == old(dest)@.take(at as int) + out + old(dest)@.skip(
                        at + out.len(),
                    )
                },
                Err(e) => {
                    &&& e is MarshalError
                    &&& old(dest)@.len() < at + out.len()
                    &&& final(dest)@.len() == old(dest)@.len()
                },
            }
        }),
{
    let ghost lv = labels.deep_view();
    let ghost pre = dest@;
    if labels.len() == 0 {
        proof {
            assert(pre.take(at as int) + spec_write_labels(lv) + pre.skip(at as int) =~= pre);
        }
        return Ok(0);
    }
    let ghost out = spec_write_rest(lv);
    let mut idx: usize = at;
    let mut j: usize = 0;
    while j < labels.len()
        invariant
            wf_labels(lv),
            lv == labels.deep_view(),
            lv.len() == labels@.len(),
            0 < lv.len() <= usize::MAX,
            j <= lv.len(),
            forall|k: int| 0 <= k < j ==> lv[k] is Lit,
            at <= idx <= dest@.len(),
            dest@.len() == pre.len(),
            out == spec_write_rest(lv),
            idx - at == spec_write_prefix(lv, j as int).len(),
            dest@ =~= pre.take(at as int) + spec_write_prefix(lv, j as int) + pre.skip(
                idx as int,
            ),
        decreases lv.len() - j,
    {
        proof {
            lemma_write_rest_split(lv, j as int);
        }
        if idx >= dest.len() {
            proof {
                lemma_write_rest_len(lv.skip(j as int));
                assert(out.len() > idx - at);
            }
            return Err(
                DnsError::MarshalError(
                    "write: not enough space in destination to write labels".to_owned(),
                ),
            );
        }
        match &labels[j] {
            Label::L(s) => {
                proof {
                    assert(labels@[j as int].deep_view() == lv[j as int]);
                    assert(lv[j as int] matches LabelModel::Lit(t) && t == s.deep_view());
                    assert(s.deep_view() =~= s@);
                }
                dest[idx] = s.len() as u8;
                idx = idx + 1;
                let mut m: usize = 0;
                while m < s.len()
                    invariant
                        m <= s@.len(),
                        idx == at + spec_write_prefix(lv, j as int).len() + 1 + m,
                        idx <= dest@.len(),
                        dest@.len() == pre.len(),
                        dest@ =~= pre.take(at as int) + spec_write_prefix(lv, j as int) + seq![
                            s@.len() as u8,
                        ] + s@.take(m as int) + pre.skip(idx as int),
                    decreases s@.len() - m,
                {
                    if idx >= dest.len() {
                        proof {
                            lemma_write_rest_len(lv.skip(j + 1));
                            assert(lv.skip(j as int)[0] == lv[j as int]);
                            assert(lv.skip(j as int).drop_first() =~= lv.skip(j + 1));
                            assert(spec_write_rest(lv.skip(j as int)) == spec_write_one(
                                lv[j as int],
                            ) + spec_write_rest(lv.skip(j + 1)));
                            assert(out.len() >= spec_write_prefix(lv, j as int).len() + 1
                                + s@.len() + 1);
                            assert(out.len() > idx - at);
                        }
                        return Err(
                            DnsError::MarshalError(
                                "write: not enough space in destination to write labels".to_owned(),
                            ),
                        );
                    }
                    dest[idx] = s[m];
                    proof {
                        assert(s@.take(m as int).push(s@[m as int]) =~= s@.take(m + 1));
                        assert(dest@ =~= pre.take(at as int) + spec_write_prefix(lv, j as int)
                            + seq![s@.len() as u8] + s@.take(m + 1) + pre.skip(idx + 1));
                    }
                    idx = idx + 1;
                    m = m + 1;
                }
                proof {
                    assert(s@.take(s@.len() as int) =~= s@);
                    assert(spec_write_prefix(lv, j + 1) =~= spec_write_prefix(lv, j as int) + seq![
                        s@.len() as u8,
                    ] + s@);
                    assert(dest@ =~= pre.take(at as int) + spec_write_prefix(lv, j + 1) + pre.skip(
                        idx as int,
                    ));
                }
            },
            Label::P(offset) => {
                proof {
                    assert(labels@[j as int].deep_view() == lv[j as int]);
                    assert(lv[j as int] matches LabelModel::Ptr(o) && o == *offset as int);
                    assert(0 <= *offset < 16384);
                    assert(j + 1 == lv.len());
                }
                let o = *offset;
                dest[idx] = 0xC0u8 | ((o / 256) as u8);
                idx = idx + 1;
                if idx >= dest.len() {
                    return Err(
                        DnsError::MarshalError(
                            "write: not enough space in destination to write labels".to_owned(),
                        ),
                    );
                }
                dest[idx] = (o % 256) as u8;
                idx = idx + 1;
                proof {
                    assert(lv.skip(j as int)[0] == lv[j as int]);
                    assert(spec_write_rest(lv.skip(j as int)) == spec_write_one(lv[j as int]));
                    assert(spec_write_one(lv[j as int]) =~= seq![
                        (0xC0u8 | ((o as int / 256) as u8)),
                        (o as int % 256) as u8,
                    ]);
                    assert(out =~= spec_write_prefix(lv, j as int) + spec_write_one(
                        lv[j as int],
                    ));
                    assert(dest@ =~= pre.take(at as int) + out + pre.skip(at + out.len()));
                }
                return Ok(idx - at);
            },
        }
        j = j + 1;
    }
    proof {
        lemma_write_rest_split(lv, lv.len() as int);
        assert(lv.skip(lv.len() as int) =~= Seq::<LabelModel>::empty());
        assert(spec_write_rest(lv.skip(lv.len() as int)) =~= seq![0u8]);
        assert(out =~= spec_write_prefix(lv, lv.len() as int) + seq![0u8]);
    }
    if idx >= dest.len() {
        proof {
            assert(out.len() > idx - at);
        }
        return Err(
            DnsError::MarshalError(
                "write: not enough space in destination to write labels".to_owned(),
            ),
        );
    }
    dest[idx] = 0;
    idx = idx + 1;
    proof {
        assert(dest@ =~= pre.take(at as int) + out + pre.skip(at + out.len()));
    }
    Ok(idx - at)
}

/// Serializes a well-formed label sequence into the start of `dest`,
/// per [`spec_write_labels`]; bytes of `dest` past the written region
/// are left unchanged.
pub fn write_labels(labels: &Vec<Label>, dest: &mut Vec<u8>) -> (r: Result<usize, DnsError>)
    requires
        wf_labels(labels.deep_view()),
    ensures
        ({
            let out = spec_write_labels(labels.deep_view());
            match r {
                Ok(n) => {
                    &&& n == out.len()
                    &&& out.len() <= old(dest)@.len()
                    &&& final(dest)@ == out + old(dest)@.skip(out.len() as int)
                },
                Err(e) => {
                    &&& e is MarshalError
                    &&& old(dest)@.len() < out.len()
                    &&& final(dest)@.len() == old(dest)@.len()
                },
            }
        }),
{
    let r = write_labels_at(labels, dest, 0);
    proof {
        if r is Ok {
            assert(old(dest)@.take(0) + spec_write_labels(labels.deep_view()) + old(dest)@.skip(
                0 + spec_write_labels(labels.deep_view()).len() as int,
            ) =~= spec_write_labels(labels.deep_view()) + old(dest)@.skip(
                spec_write_labels(labels.deep_view()).len() as int,
            ));
        }
    }
    r
}

/// One resolution pass over a label sequence, following at most
/// `10 - count` trailing pointers: while the sequence ends in a pointer,
/// the pointer is removed and replaced by the labels read at its offset
/// in `msg`. Yields the sequence once it is empty or ends in a literal;
/// yields `None` when the bytes at an offset are malformed or when the
/// ten-pointer bound is exhausted (a likely compression cycle).
pub open spec fn spec_resolve(msg: Seq<u8>, ls: Seq<LabelModel>, count: nat) -> Option<
    Seq<LabelModel>,
>
    decreases 10 - count,
{
    if ls.len() == 0 {
        Some(ls)
    } else if count >= 10 {
        None
    } else if ls.last() is Lit {
        Some(ls)
    } else {
        match spec_parse_labels(msg, ls.last()->Ptr_0) {
            None => None,
            Some((end, next)) => spec_resolve(msg, ls.drop_last() + next, (count + 1) as nat),
        }
    }
}

/// The texts of the literal labels of `ls`, in order.
pub open spec fn lit_texts(ls: Seq<LabelModel>) -> Seq<Seq<u8>>
    decreases ls.len(),
{
    if ls.len() == 0 {
        Seq::<Seq<u8>>::empty()
    } else {
        match ls[0] {
            LabelModel::Lit(s) => seq![s] + lit_texts(ls.drop_first()),
            LabelModel::Ptr(_) => lit_texts(ls.drop_first()),
        }
    }
}

/// The given parts joined by a dot octet.
pub open spec fn join_dots(parts: Seq<Seq<u8>>) -> Seq<u8>
    decreases parts.len(),
{
    if parts.len() == 0 {
        Seq::<u8>::empty()
    } else if parts.len() == 1 {
        parts[0]
    } else {
        parts[0] + seq![46u8] + join_dots(parts.drop_first())
    }
}

/// The textual domain name of a label sequence: its literal labels
/// joined by dots.
pub open spec fn spec_domain(ls: Seq<LabelModel>) -> Seq<u8> {
    join_dots(lit_texts(ls))
}

proof fn lemma_lit_texts_snoc(ls: Seq<LabelModel>, x: LabelModel)
    ensures
        (x matches LabelModel::Lit(s) ==> lit_texts(ls.push(x)) == lit_texts(ls).push(s)),
        (x is Ptr ==> lit_texts(ls.push(x)) == lit_texts(ls)),
    decreases ls.len(),
{
    if ls.len() == 0 {
        assert(ls.push(x)[0] == x);
        assert(ls.push(x).drop_first() =~= Seq::<LabelModel>::empty());
        assert(ls =~= Seq::<LabelModel>::empty());
        assert(lit_texts(Seq::<LabelModel>::empty()) == Seq::<Seq<u8>>::empty());
        match x {
            LabelModel::Lit(s) => {
                assert(lit_texts(ls.push(x)) == seq![s] + lit_texts(Seq::<LabelModel>::empty()));
                assert(seq![s] + lit_texts(Seq::<LabelModel>::empty()) =~= lit_texts(ls).push(s));
            },
            LabelModel::Ptr(_) => {
                assert(lit_texts(ls.push(x)) == lit_texts(Seq::<LabelModel>::empty()));
            },
        }
    } else {
        assert(ls.push(x)[0] == ls[0]);
        assert(ls.push(x).drop_first() =~= ls.drop_first().push(x));
        lemma_lit_texts_snoc(ls.drop_first(), x);
        match x {
            LabelModel::Lit(s) => {
                match ls[0] {
                    LabelModel::Lit(t) => {
                        assert(lit_texts(ls.push(x)) == seq![t] + lit_texts(
                            ls.drop_first().push(x),
                        ));
                        assert(seq![t] + lit_texts(ls.drop_first()).push(s) =~= (seq![t]
                            + lit_texts(ls.drop_first())).push(s));
                    },
                    LabelModel::Ptr(_) => {
                        assert(lit_texts(ls.push(x)) == lit_texts(ls.drop_first().push(x)));
                        assert(lit_texts(ls) == lit_texts(ls.drop_first()));
                    },
                }
            },
            LabelModel::Ptr(_) => {
                match ls[0] {
                    LabelModel::Lit(t) => {
                        assert(lit_texts(ls.push(x)) == seq![t] + lit_texts(
                            ls.drop_first().push(x),
                        ));
                        assert(lit_texts(ls) == seq![t] + lit_texts(ls.drop_first()));
                    },
                    LabelModel::Ptr(_) => {
                        assert(lit_texts(ls.push(x)) == lit_texts(ls.drop_first().push(x)));
                        assert(lit_texts(ls) == lit_texts(ls.drop_first()));
                    },
                }
            },
        }
    }
}

proof fn lemma_join_dots_snoc(parts: Seq<Seq<u8>>, t: Seq<u8>)
    ensures
        parts.len() == 0 ==> join_dots(parts.push(t)) == t,
        parts.len() > 0 ==> join_dots(parts.push(t)) == join_dots(parts) + seq![46u8] + t,
    decreases parts.len(),
{
    if parts.len() == 0 {
        assert(parts.push(t)[0] == t);
    } else if parts.len() == 1 {
        assert(parts.push(t)[0] == parts[0]);
        assert(parts.push(t).drop_first() =~= seq![t]);
        assert(join_dots(seq![t]) == t);
    } else {
        assert(parts.push(t)[0] == parts[0]);
        assert(parts.push(t).drop_first() =~= parts.drop_first().push(t));
        lemma_join_dots_snoc(parts.drop_first(), t);
        assert(parts[0] + seq![46u8] + (join_dots(parts.drop_first()) + seq![46u8] + t) =~= (
        parts[0] + seq![46u8] + join_dots(parts.drop_first())) + seq![46u8] + t);
    }
}

/// Resolves the trailing compression pointers of `labels` in place
/// against the full message buffer `msg`, per [`spec_resolve`], and
/// returns the textual domain name of the resolved sequence: its
/// literal labels joined by dots. Fails with a parse error when the
/// bytes at a pointer's offset are malformed or when ten pointers have
/// been followed without reaching a literal (a likely compression
/// cycle); resolution never follows more than ten pointers.
#[verifier::loop_isolation(false)]
pub fn resolve_labels(msg: &[u8], labels: &mut Vec<Label>) -> (r: Result<Vec<u8>, DnsError>)
    ensures
        match spec_resolve(msg@, old(labels).deep_view(), 0) {
            Some(resolved) => {
                &&& r is Ok
                &&& final(labels).deep_view() == resolved
                &&& r->Ok_0@ == spec_domain(resolved)
            },
            None => r is Err && r->Err_0 is ParseError,
        },
{
    let ghost orig = labels.deep_view();
    let mut iter_count: usize = 0;
    #[verifier::loop_isolation(true)]
    loop
        invariant
            iter_count <= 10,
            orig == old(labels).deep_view(),
            spec_resolve(msg@, labels.deep_view(), iter_count as nat) == spec_resolve(
                msg@,
                orig,
                0,
            ),
        ensures
            labels.deep_view().len() == 0 || labels.deep_view().last() is Lit,
            labels.deep_view().len() > 0 ==> iter_count < 10,
            spec_resolve(msg@, labels.deep_view(), iter_count as nat) == spec_resolve(
                msg@,
                orig,
                0,
            ),
        decreases 10 - iter_count,
    {
        let ghost pre = labels.deep_view();
        let popped = labels.pop();
        match popped {
            None => {
                proof {
                    assert(labels.deep_view() =~= pre);
                }
                break ;
            },
            Some(lab) => {
                if iter_count == 10 {
                    proof {
                        assert(pre.len() > 0);
                        assert(spec_resolve(msg@, pre, 10) is None);
                    }
                    return Err(
                        DnsError::ParseError(
                            "parse: could not resolve labels after a depth of 10, possible cycle".to_owned(),
                        ),
                    );
                }
                match lab {
                    Label::L(s) => {
                        labels.push(Label::L(s));
                        proof {
                            assert(labels.deep_view() =~= pre);
                        }
                        break ;
                    },
                    Label::P(offset) => {
                        proof {
                            assert(pre.last() == LabelModel::Ptr(offset as int));
                        }
                        match parse_labels_at(msg, offset) {
                            Err(e) => {
                                return Err(e);
                            },
                            Ok((_end, mut next)) => {
                                let ghost base = labels.deep_view();
                                let ghost nv = next.deep_view();
                                proof {
                                    assert(base =~= pre.drop_last());
                                    assert(spec_resolve(msg@, pre, iter_count as nat)
                                        == spec_resolve(msg@, base + nv, (iter_count + 1) as nat));
                                }
                                while next.len() > 0
                                    invariant
                                        labels.deep_view() + next.deep_view() == base + nv,
                                    decreases next@.len(),
                                {
                                    let l = next.remove(0);
                                    labels.push(l);
                                    proof {
                                        assert(labels.deep_view() + next.deep_view() =~= base + nv);
                                    }
                                }
                                proof {
                                    assert(next.deep_view() =~= Seq::<LabelModel>::empty());
                                    assert(labels.deep_view() =~= base + nv);
                                }
                                iter_count = iter_count + 1;
                            },
                        }
                    },
                }
            },
        }
    }
    Ok(name_text(labels))
}

/// The textual domain name held by a label sequence: its literal labels
/// joined by dots, pointers skipped.
#[verifier::loop_isolation(false)]
pub fn name_text(labels: &Vec<Label>) -> (r: Vec<u8>)
    ensures
        r@ == spec_domain(labels.deep_view()),
{
    let ghost resolved = labels.deep_view();
    let mut domain: Vec<u8> = Vec::new();
    let mut first: bool = true;
    let mut j: usize = 0;
    while j < labels.len()
        invariant
            j <= labels@.len(),
            first == (lit_texts(resolved.take(j as int)).len() == 0),
            domain@ == spec_domain(resolved.take(j as int)),
        decreases labels@.len() - j,
    {
        let ghost prefix = resolved.take(j as int);
        proof {
            assert(resolved.take(j + 1) =~= prefix.push(resolved[j as int]));
            assert(labels@[j as int].deep_view() == resolved[j as int]);
            lemma_lit_texts_snoc(prefix, resolved[j as int]);
        }
        match &labels[j] {
            Label::L(s) => {
                proof {
                    assert(resolved[j as int] matches LabelModel::Lit(t) && t == s.deep_view());
                    assert(s.deep_view() =~= s@);
                    lemma_join_dots_snoc(lit_texts(prefix), s@);
                }
                if !first {
                    domain.push(46);
                }
                let ghost head = domain@;
                let mut m: usize = 0;
                while m < s.len()
                    invariant
                        m <= s@.len(),
                        domain@ == head + s@.take(m as int),
                    decreases s@.len() - m,
                {
                    domain.push(s[m]);
                    proof {
                        assert(head + s@.take(m as int) + seq![s@[m as int]] =~= head + s@.take(
                            m + 1,
                        ));
                    }
                    m = m + 1;
                }
                proof {
                    assert(s@.take(s@.len() as int) =~= s@);
                    if first {
                        assert(head =~= Seq::<u8>::empty());
                        assert(head + s@ =~= s@);
                    }
                }
                first = false;
            },
            Label::P(_) => {
            },
        }
        j = j + 1;
    }
    proof {
        assert(resolved.take(labels@.len() as int) =~= resolved);
    }
    domain
}

/// Splitting an octet string on dot octets, with `cur` the segment
/// accumulated so far: every dot ends a segment, and the end of the
/// string ends the last one, so a string with `n` dots has `n + 1`
/// segments (possibly empty ones).
pub open spec fn spec_split_acc(s: Seq<u8>, cur: Seq<u8>) -> Seq<Seq<u8>>
    decreases s.len(),
{
    if s.len() == 0 {
        seq![cur]
    } else if s[0] == 46 {
        seq![cur] + spec_split_acc(s.drop_first(), Seq::<u8>::empty())
    } else {
        spec_split_acc(s.drop_first(), cur.push(s[0]))
    }
}

/// The dot-separated segments of a textual domain name.
pub open spec fn spec_segments(s: Seq<u8>) -> Seq<Seq<u8>> {
    spec_split_acc(s, Seq::<u8>::empty())
}

/// Splits a textual domain name on dots into a sequence of literal
/// labels, one per segment and in order; no pointer is ever produced.
/// Fails exactly when some segment exceeds 63 octets.
#[verifier::loop_isolation(false)]
pub fn domain_to_labels(domain: &[u8]) -> (r: Result<Vec<Label>, DnsError>)
    ensures
        ({
            let parts = spec_segments(domain@);
            match r {
                Ok(ls) => {
                    &&& forall|j: int| 0 <= j < parts.len() ==> (#[trigger] parts[j]).len() <= 63
                    &&& ls.deep_view() == parts.map_values(|p: Seq<u8>| LabelModel::Lit(p))
                },
                Err(e) => {
                    &&& e is Generic
                    &&& exists|j: int| 0 <= j < parts.len() && (#[trigger] parts[j]).len() > 63
                },
            }
        }),
{
    let ghost parts = spec_segments(domain@);
    let mut result: Vec<Label> = Vec::new();
    let mut cur: Vec<u8> = Vec::new();
    let ghost mut done: Seq<Seq<u8>> = Seq::<Seq<u8>>::empty();
    let mut i: usize = 0;
    proof {
        assert(domain@.skip(0) =~= domain@);
        assert(cur@ =~= Seq::<u8>::empty());
        assert(done + spec_split_acc(domain@.skip(0), cur@) =~= parts);
    }
    while i < domain.len()
        invariant
            i <= domain@.len(),
            done + spec_split_acc(domain@.skip(i as int), cur@) == parts,
            result.deep_view() == done.map_values(|p: Seq<u8>| LabelModel::Lit(p)),
            forall|j: int| 0 <= j < done.len() ==> (#[trigger] done[j]).len() <= 63,
        decreases domain@.len() - i,
    {
        let ghost rest = domain@.skip(i as int);
        proof {
            assert(rest[0] == domain@[i as int]);
            assert(rest.drop_first() =~= domain@.skip(i + 1));
        }
        let c = domain[i];
        if c == 46 {
            proof {
                assert(spec_split_acc(rest, cur@) == seq![cur@] + spec_split_acc(
                    domain@.skip(i + 1),
                    Seq::<u8>::empty(),
                ));
                assert(parts[done.len() as int] == cur@);
            }
            if cur.len() > 63 {
                return Err(
                    DnsError::Generic("label cannot have more than 63 octets".to_owned()),
                );
            }
            let ghost text = cur@;
            proof {
                assert(cur.deep_view() =~= cur@);
            }
            result.push(Label::L(cur));
            cur = Vec::new();
            proof {
                assert(result.deep_view() =~= done.map_values(
                    |p: Seq<u8>| LabelModel::Lit(p),
                ).push(LabelModel::Lit(text)));
                done = done.push(text);
                assert(result.deep_view() =~= done.map_values(|p: Seq<u8>| LabelModel::Lit(p)));
                assert(done + spec_split_acc(domain@.skip(i + 1), Seq::<u8>::empty()) =~= parts);
            }
        } else {
            let ghost cv = cur@;
            cur.push(c);
            proof {
                assert(spec_split_acc(rest, cv) == spec_split_acc(domain@.skip(i + 1), cv.push(c)));
                assert(cur@ == cv.push(c));
            }
        }
        i = i + 1;
    }
    proof {
        assert(domain@.skip(i as int) =~= Seq::<u8>::empty());
        assert(spec_split_acc(Seq::<u8>::empty(), cur@) == seq![cur@]);
        assert(parts[done.len() as int] == cur@);
    }
    if cur.len() > 63 {
        return Err(DnsError::Generic("label cannot have more than 63 octets".to_owned()));
    }
    let ghost text = cur@;
    proof {
        assert(cur.deep_view() =~= cur@);
    }
    result.push(Label::L(cur));
    proof {
        assert(result.deep_view() =~= done.map_values(|p: Seq<u8>| LabelModel::Lit(p)).push(
            LabelModel::Lit(text),
        ));
        done = done.push(text);
        assert(done =~= parts);
        assert(result.deep_view() =~= done.map_values(|p: Seq<u8>| LabelModel::Lit(p)));
    }
    Ok(result)
}


/// Holds when every literal label of `ls` has at least one octet.
pub open spec fn no_empty_literal(ls: Seq<LabelModel>) -> bool {
    forall|j: int|
        0 <= j < ls.len() ==> ((#[trigger] ls[j]) matches LabelModel::Lit(s) ==> s.len() >= 1)
}

/// Holds when `ls` consists of literal labels only.
pub open spec fn all_literals(ls: Seq<LabelModel>) -> bool {
    forall|j: int| 0 <= j < ls.len() ==> (#[trigger] ls[j]) is Lit
}

/// The bytes written for a label run, embedded anywhere in a larger
/// buffer, parse back to exactly that run.
proof fn lemma_parse_of_written(b: Seq<u8>, i: int, ls: Seq<LabelModel>)
    requires
        wf_labels(ls),
        no_empty_literal(ls),
        0 <= i,
        i + spec_write_rest(ls).len() <= b.len(),
        b.subrange(i, i + spec_write_rest(ls).len()) == spec_write_rest(ls),
    ensures
        spec_parse_labels(b, i) == Some((i + spec_write_rest(ls).len(), ls)),
    decreases ls.len(),
{
    let w = spec_write_rest(ls);
    if ls.len() == 0 {
        assert(b.subrange(i, i + 1)[0] == b[i]);
        assert(b[i] == 0);
        assert(0u8 & 0xC0 == 0) by (bit_vector);
        assert(ls =~= Seq::<LabelModel>::empty());
    } else {
        match ls[0] {
            LabelModel::Ptr(o) => {
                assert(0 <= o < 16384);
                assert(ls.len() == 1);
                let h = (o / 256) as u8;
                let lo = (o % 256) as u8;
                assert(w =~= seq![0xC0u8 | h, lo]);
                assert(b.subrange(i, i + 2)[0] == b[i]);
                assert(b.subrange(i, i + 2)[1] == b[i + 1]);
                assert(b[i] == (0xC0u8 | h) && b[i + 1] == lo);
                assert(0 <= o / 256 < 64 && 0 <= o % 256 < 256) by {
                    vstd::arithmetic::div_mod::lemma_fundamental_div_mod(o, 256);
                };
                assert(((0xC0u8 | h) & 0xC0 == 0xC0) && ((0xC0u8 | h) & 0x3F == h))
                    by (bit_vector)
                    requires
                        h <= 63,
                ;
                assert(spec_ptr_offset(b[i], b[i + 1]) == h as int * 256 + lo as int);
                assert(h as int * 256 + lo as int == o) by {
                    vstd::arithmetic::div_mod::lemma_fundamental_div_mod(o, 256);
                };
                assert(ls =~= seq![LabelModel::Ptr(o)]);
            },
            LabelModel::Lit(s) => {
                let rest = ls.drop_first();
                let wr = spec_write_rest(rest);
                assert(w == (seq![s.len() as u8] + s) + wr);
                lemma_write_rest_len(rest);
                assert(b.subrange(i, i + w.len())[0] == b[i]);
                assert(b[i] == s.len() as u8);
                assert(1 <= s.len() <= 63);
                let c = s.len() as u8;
                assert(c & 0xC0 != 0xC0 && c != 0) by (bit_vector)
                    requires
                        1 <= c <= 63,
                ;
                assert(b[i] as int == s.len());
                assert(b.subrange(i + 1, i + 1 + s.len() as int) =~= s) by {
                    assert forall|k: int| 0 <= k < s.len() implies b.subrange(
                        i + 1,
                        i + 1 + s.len() as int,
                    )[k] == s[k] by {
                        assert(b.subrange(i, i + w.len())[1 + k] == b[i + 1 + k]);
                        assert(w[1 + k] == s[k]);
                    };
                };
                assert(wf_labels(rest) && no_empty_literal(rest)) by {
                    assert forall|j: int| 0 <= j < rest.len() implies rest[j] == ls[j + 1] by {};
                };
                let i2 = i + 1 + s.len() as int;
                assert(b.subrange(i2, i2 + wr.len()) =~= wr) by {
                    assert forall|k: int| 0 <= k < wr.len() implies b.subrange(
                        i2,
                        i2 + wr.len(),
                    )[k] == wr[k] by {
                        assert(b.subrange(i, i + w.len())[1 + s.len() + k] == b[i2 + k]);
                        assert(w[1 + s.len() + k] == wr[k]);
                    };
                };
                lemma_parse_of_written(b, i2, rest);
                assert(i + b[i] < b.len());
                assert(seq![LabelModel::Lit(b.subrange(i + 1, i + (b[i] as int) + 1))] + rest
                    =~= ls);
            },
        }
    }
}

/// Round-trip law: writing a nonempty, well-formed label sequence (each
/// literal 1 to 63 octets, a pointer only as the final element) and
/// parsing the bytes back yields exactly the written byte count and the
/// same label sequence, pointer value preserved exactly.
pub proof fn lemma_labels_round_trip(ls: Seq<LabelModel>)
    requires
        wf_labels(ls),
        no_empty_literal(ls),
        ls.len() > 0,
    ensures
        spec_parse_labels(spec_write_labels(ls), 0) == Some(
            (spec_write_labels(ls).len() as int, ls),
        ),
{
    let w = spec_write_labels(ls);
    assert(w.subrange(0, w.len() as int) =~= w);
    lemma_parse_of_written(w, 0, ls);
}

/// Round-trip law for plain names: a nonempty sequence of literal labels
/// without pointers, written and re-parsed, yields the same sequence.
pub proof fn lemma_round_trip_no_pointer(ls: Seq<LabelModel>)
    requires
        wf_labels(ls),
        no_empty_literal(ls),
        all_literals(ls),
        ls.len() > 0,
    ensures
        spec_parse_labels(spec_write_labels(ls), 0) == Some(
            (spec_write_labels(ls).len() as int, ls),
        ),
{
    lemma_labels_round_trip(ls);
}

/// Round-trip law for compressed names: a label sequence ending in a
/// pointer, written and re-parsed, yields the same literal prefix and
/// the same pointer offset.
pub proof fn lemma_round_trip_pointer(ls: Seq<LabelModel>)
    requires
        wf_labels(ls),
        no_empty_literal(ls),
        ls.len() > 0,
        ls.last() is Ptr,
    ensures
        spec_parse_labels(spec_write_labels(ls), 0) == Some(
            (spec_write_labels(ls).len() as int, ls),
        ),
{
    lemma_labels_round_trip(ls);
}

/// Cycle-detection law: take a set of offsets such that the labels read
/// at each of them end in a pointer back into the set (a compression
/// cycle, of any length). Resolving a label sequence whose final label
/// points into that set fails within the ten-pointer bound; it never
/// succeeds, and the resolution pass itself always terminates.
pub proof fn lemma_cycle_detected(msg: Seq<u8>, ls: Seq<LabelModel>, offs: Set<int>, count: nat)
    requires
        ls.len() > 0,
        ls.last() is Ptr,
        offs.contains(ls.last()->Ptr_0),
        forall|o: int|
            #[trigger] offs.contains(o) ==> match spec_parse_labels(msg, o) {
                Some((end, next)) => next.len() > 0 && next.last() is Ptr && offs.contains(
                    next.last()->Ptr_0,
                ),
                None => true,
            },
    ensures
        spec_resolve(msg, ls, count) is None,
    decreases 10 - count,
{
    if count < 10 {
        let o = ls.last()->Ptr_0;
        match spec_parse_labels(msg, o) {
            Some((end, next)) => {
                let ls2 = ls.drop_last() + next;
                assert(next.len() > 0);
                assert(ls2.len() > 0);
                assert(ls2.last() == next.last());
                lemma_cycle_detected(msg, ls2, offs, count + 1);
            },
            None => {},
        }
    }
}

} // verus!\n