use vstd::prelude::*;

use crate::errors::DnsError;
use crate::message::header::ResponseCode;
use crate::message::label::{
    name_text, parse_label_bytes, resolve_labels, spec_domain, spec_parse_labels, spec_resolve,
};
use crate::message::rr::{RecordModel, ResourceRecord};
use crate::message::Message;

verus! {

/// An IPv4 address, one octet per field, most significant first.
#[derive(Debug, Clone, Copy, PartialEq, Eq, Structural)]
pub struct Ipv4 {
    pub a: u8,
    pub b: u8,
    pub c: u8,
    pub d: u8,
}

impl DeepView for Ipv4 {
    type V = Ipv4;

    open spec fn deep_view(&self) -> Ipv4 {
        *self
    }
}

/// Compares two octet strings for equality.
#[verifier::loop_isolation(false)]
pub fn bytes_eq(x: &Vec<u8>, y: &[u8]) -> (r: bool)
    ensures
        r == (x@ == y@),
{
    if x.len() != y.len() {
        return false;
    }
    let mut i: usize = 0;
    while i < x.len()
        invariant
            i <= x@.len(),
            x@.len() == y@.len(),
            forall|k: int| 0 <= k < i ==> x@[k] == y@[k],
        decreases x@.len() - i,
    {
        if x[i] != y[i] {
            return false;
        }
        i = i + 1;
    }
    proof {
        assert(x@ =~= y@);
    }
    true
}

/// The mapping an entry list stands for: entries applied first to last,
/// a later entry for the same name winning.
pub open spec fn map_of_entries(es: Seq<(Seq<u8>, Ipv4)>) -> Map<Seq<u8>, Ipv4>
    decreases es.len(),
{
    if es.len() == 0 {
        Map::<Seq<u8>, Ipv4>::empty()
    } else {
        map_of_entries(es.drop_last()).insert(es.last().0, es.last().1)
    }
}

/// The transient name-server map of one top-level resolution: resolved
/// name-server domain name to glue IPv4 address, rebuilt fresh for every
/// top-level request.
pub struct NsMap {
    entries: Vec<(Vec<u8>, Ipv4)>,
}

impl View for NsMap {
    type V = Map<Seq<u8>, Ipv4>;

    closed spec fn view(&self) -> Map<Seq<u8>, Ipv4> {
        map_of_entries(self.entries.deep_view())
    }
}

impl NsMap {
    /// An empty map.
    pub fn new() -> (r: NsMap)
        ensures
            r@ == Map::<Seq<u8>, Ipv4>::empty(),
    {
        let r = NsMap { entries: Vec::new() };
        proof {
            assert(r.entries.deep_view() =~= Seq::<(Seq<u8>, Ipv4)>::empty());
        }
        r
    }

    /// Binds `name` to `addr`, replacing any earlier binding.
    pub fn insert(&mut self, name: Vec<u8>, addr: Ipv4)
        ensures
            final(self)@ == old(self)@.insert(name@, addr),
    {
        let ghost pre = self.entries.deep_view();
        proof {
            assert(name.deep_view() =~= name@);
        }
        self.entries.push((name, addr));
        proof {
            assert(self.entries.deep_view() =~= pre.push((name@, addr)));
            assert(pre.push((name@, addr)).drop_last() =~= pre);
        }
    }

    /// Looks `name` up, yielding the bound address if any.
    pub fn get(&self, name: &[u8]) -> (r: Option<Ipv4>)
        ensures
            r == if self@.contains_key(name@) {
                Some(self@[name@])
            } else {
                None::<Ipv4>
            },
    {
        let n = self.entries.len();
        proof {
            assert(self.entries.deep_view().take(n as int) =~= self.entries.deep_view());
        }
        get_in(&self.entries, n, name)
    }
}

/// Looks `name` up among the first `i` entries, a later entry winning.
fn get_in(es: &Vec<(Vec<u8>, Ipv4)>, i: usize, name: &[u8]) -> (r: Option<Ipv4>)
    requires
        i <= es@.len(),
    ensures
        ({
            let m = map_of_entries(es.deep_view().take(i as int));
            r == if m.contains_key(name@) {
                Some(m[name@])
            } else {
                None::<Ipv4>
            }
        }),
    decreases i,
{
    if i == 0 {
        proof {
            assert(es.deep_view().take(0) =~= Seq::<(Seq<u8>, Ipv4)>::empty());
        }
        None
    } else {
        let e = &es[i - 1];
        proof {
            let pre = es.deep_view().take(i as int);
            assert(pre.drop_last() =~= es.deep_view().take(i - 1));
            assert(pre.last() == es.deep_view()[i - 1]);
            assert(es.deep_view()[i - 1] == (es@[i - 1].0.deep_view(), es@[i - 1].1));
            assert(es@[i - 1].0.deep_view() =~= es@[i - 1].0@);
        }
        if bytes_eq(&e.0, name) {
            Some(e.1)
        } else {
            get_in(es, i - 1, name)
        }
    }
}

/// What one response tells the resolver to do next: a final answer, a
/// rejected branch (non-`NoError` response code), or a referral whose
/// glue candidates are to be tried from the additional section.
pub enum ResolveStep {
    Answer(Ipv4),
    Rejected,
    Referral,
}

/// The first answer record of type A carrying at least four rdata
/// octets, read as an IPv4 address.
pub open spec fn spec_first_a_addr(an: Seq<RecordModel>) -> Option<Ipv4>
    decreases an.len(),
{
    if an.len() == 0 {
        None
    } else if an[0].t == 1 && an[0].rdata.len() >= 4 {
        Some(Ipv4 { a: an[0].rdata[0], b: an[0].rdata[1], c: an[0].rdata[2], d: an[0].rdata[3] })
    } else {
        spec_first_a_addr(an.drop_first())
    }
}

/// Whether an authority record contributes a glue binding: type A (1),
/// class IN (1), and at least four rdata octets for the address.
pub open spec fn is_glue_record(rec: RecordModel) -> bool {
    rec.t == 1 && rec.class == 1 && rec.rdata.len() >= 4
}

/// The name-server map after recording every glue binding of the
/// authority section, first to last: the record's owner name as text
/// bound to its first four rdata octets.
pub open spec fn spec_glue_updates(m0: Map<Seq<u8>, Ipv4>, rs: Seq<RecordModel>) -> Map<
    Seq<u8>,
    Ipv4,
>
    decreases rs.len(),
{
    if rs.len() == 0 {
        m0
    } else if is_glue_record(rs[0]) {
        spec_glue_updates(
            m0.insert(
                spec_domain(rs[0].name),
                Ipv4 { a: rs[0].rdata[0], b: rs[0].rdata[1], c: rs[0].rdata[2], d: rs[0].rdata[3] },
            ),
            rs.drop_first(),
        )
    } else {
        spec_glue_updates(m0, rs.drop_first())
    }
}

/// Examines one response at the resolver's top level: a non-`NoError`
/// response code rejects the branch outright; otherwise the first A
/// answer, if any, is the final address; otherwise the authority
/// section's glue bindings are recorded in `ns_map` and the additional
/// section is to be consulted for referral candidates.
#[verifier::loop_isolation(false)]
pub fn evaluate_response(msg: &Message, ns_map: &mut NsMap) -> (r: ResolveStep)
    ensures
        msg.hdr.rcode != ResponseCode::NoError ==> {
            &&& r is Rejected
            &&& final(ns_map)@ == old(ns_map)@
        },
        msg.hdr.rcode == ResponseCode::NoError && spec_first_a_addr(msg.an.deep_view()) is Some
            ==> {
            &&& r == ResolveStep::Answer(spec_first_a_addr(msg.an.deep_view())->Some_0)
            &&& final(ns_map)@ == old(ns_map)@
        },
        msg.hdr.rcode == ResponseCode::NoError && spec_first_a_addr(msg.an.deep_view()) is None
            ==> {
            &&& r is Referral
            &&& final(ns_map)@ == spec_glue_updates(old(ns_map)@, msg.ns.deep_view())
        },
{
    if msg.hdr.rcode != ResponseCode::NoError {
        return ResolveStep::Rejected;
    }
    let ghost anv = msg.an.deep_view();
    proof {
        assert(anv.skip(0) =~= anv);
    }
    let mut j: usize = 0;
    while j < msg.an.len()
        invariant
            j <= anv.len(),
            spec_first_a_addr(anv.skip(j as int)) == spec_first_a_addr(anv),
        decreases anv.len() - j,
    {
        proof {
            assert(anv.skip(j as int)[0] == anv[j as int]);
            assert(anv.skip(j as int).drop_first() =~= anv.skip(j + 1));
            assert(msg.an@[j as int].deep_view() == anv[j as int]);
        }
        let rec = &msg.an[j];
        if rec.t == 1 && rec.rdata.len() >= 4 {
            proof {
                assert(rec.rdata.deep_view() =~= rec.rdata@);
            }
            return ResolveStep::Answer(
                Ipv4 { a: rec.rdata[0], b: rec.rdata[1], c: rec.rdata[2], d: rec.rdata[3] },
            );
        }
        j = j + 1;
    }
    proof {
        assert(anv.skip(anv.len() as int) =~= Seq::<RecordModel>::empty());
    }
    let ghost m0 = ns_map@;
    let ghost nsv = msg.ns.deep_view();
    proof {
        assert(nsv.skip(0) =~= nsv);
    }
    let mut k: usize = 0;
    while k < msg.ns.len()
        invariant
            k <= nsv.len(),
            spec_glue_updates(ns_map@, nsv.skip(k as int)) == spec_glue_updates(m0, nsv),
        decreases nsv.len() - k,
    {
        proof {
            assert(nsv.skip(k as int)[0] == nsv[k as int]);
            assert(nsv.skip(k as int).drop_first() =~= nsv.skip(k + 1));
            assert(msg.ns@[k as int].deep_view() == nsv[k as int]);
        }
        let rec = &msg.ns[k];
        if rec.t == 1 && rec.class == 1 && rec.rdata.len() >= 4 {
            let key = name_text(&rec.name);
            let addr = Ipv4 { a: rec.rdata[0], b: rec.rdata[1], c: rec.rdata[2], d: rec.rdata[3] };
            proof {
                assert(rec.name.deep_view() == nsv[k as int].name);
                assert(rec.rdata.deep_view() =~= rec.rdata@);
            }
            ns_map.insert(key, addr);
        }
        k = k + 1;
    }
    proof {
        assert(nsv.skip(nsv.len() as int) =~= Seq::<RecordModel>::empty());
    }
    ResolveStep::Referral
}

/// The referral candidate an additional-section record offers: its rdata
/// read as a label sequence and resolved against the whole response
/// buffer, as a textual domain name. `None` when the rdata is malformed
/// or its pointers do not resolve.
pub open spec fn spec_candidate(raw: Seq<u8>, rec: RecordModel) -> Option<Seq<u8>> {
    match spec_parse_labels(rec.rdata, 0) {
        None => None,
        Some((end, ls)) => match spec_resolve(raw, ls, 0) {
            None => None,
            Some(resolved) => Some(spec_domain(resolved)),
        },
    }
}

/// Extracts the referral candidate of one additional-section record, to
/// be tried in section order: only records of type 2 are considered;
/// the record's rdata is read as a name and resolved against the whole
/// response buffer `raw`; a candidate equal to the domain being resolved
/// is dropped. Fails with a parse error exactly when a considered
/// record's rdata is malformed or fails to resolve.
pub fn glue_candidate(raw: &[u8], rec: &ResourceRecord, domain: &[u8]) -> (r: Result<
    Option<Vec<u8>>,
    DnsError,
>)
    ensures
        rec.t != 2 ==> r == Result::<Option<Vec<u8>>, DnsError>::Ok(None),
        rec.t == 2 ==> match spec_candidate(raw@, rec.deep_view()) {
            None => r is Err && r->Err_0 is ParseError,
            Some(d) => {
                &&& r is Ok
                &&& (d == domain@ ==> r->Ok_0 is None)
                &&& (d != domain@ ==> r->Ok_0 is Some && r->Ok_0->0@ == d)
            },
        },
{
    if rec.t != 2 {
        return Ok(None);
    }
    proof {
        assert(rec.rdata.deep_view() =~= rec.rdata@);
    }
    let (_consumed, mut labels) = match parse_label_bytes(rec.rdata.as_slice()) {
        Ok(x) => x,
        Err(e) => {
            return Err(e);
        },
    };
    let text = match resolve_labels(raw, &mut labels) {
        Ok(t) => t,
        Err(e) => {
            return Err(e);
        },
    };
    if bytes_eq(&text, domain) {
        Ok(None)
    } else {
        Ok(Some(text))
    }
}

/// The resolver's depth guard: a branch more than three delegation hops
/// deep is abandoned before any query is sent.
pub fn depth_exceeded(depth: usize) -> (r: bool)
    ensures
        r == (depth > 3),
{
    depth > 3
}

} // verus!
