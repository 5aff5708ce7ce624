//! The results of forward and reverse lookups, built from the answers of
//! the resolver. Asking the resolver is left to the program around the
//! library.

use vstd::prelude::*;
use super::{DnsRecord, LookupResult, record_views};
use crate::addr::{addr_display, HostAddr};

verus! {

/// The texts and TTLs of the IPv4 (`v6 == false`) or IPv6 (`v6 == true`)
/// answers among `addrs`, in order.
pub open spec fn family_answers(addrs: Seq<(HostAddr, u32)>, v6: bool) -> Seq<(Seq<char>, u32)>
    decreases addrs.len(),
{
    if addrs.len() == 0 {
        seq![]
    } else {
        let rest = family_answers(addrs.drop_last(), v6);
        let (a, ttl) = addrs.last();
        match a {
            HostAddr::V4(_) => if v6 {
                rest
            } else {
                rest.push((addr_display(a), ttl))
            },
            HostAddr::V6(_) => if v6 {
                rest.push((addr_display(a), ttl))
            } else {
                rest
            },
        }
    }
}

/// The answers of one family (`v6 == false`: IPv4, `v6 == true`: IPv6),
/// in order.
pub open spec fn answers_of_family(addrs: Seq<(HostAddr, u32)>, v6: bool) -> Seq<(HostAddr, u32)> {
    addrs.filter(|x: (HostAddr, u32)| (x.0 is V6) == v6)
}

/// Each address answer's text and TTL, in order.
pub open spec fn address_views(addrs: Seq<(HostAddr, u32)>) -> Seq<(Seq<char>, u32)> {
    addrs.map_values(|x: (HostAddr, u32)| (addr_display(x.0), x.1))
}

/// Every address answer gives exactly one record of its own family, with
/// its text and TTL, in answer order: the records of a family are the
/// answers of that family, and the two families together hold as many
/// records as there were answers.
pub proof fn law_one_record_per_answer(addrs: Seq<(HostAddr, u32)>)
    ensures
        family_answers(addrs, false) == address_views(answers_of_family(addrs, false)),
        family_answers(addrs, true) == address_views(answers_of_family(addrs, true)),
        family_answers(addrs, false).len() + family_answers(addrs, true).len() == addrs.len(),
    decreases addrs.len(),
{
    reveal(Seq::filter);
    if addrs.len() > 0 {
        let t = addrs.drop_last();
        law_one_record_per_answer(t);
        let x = addrs.last();
        assert(answers_of_family(addrs, false) == if !(x.0 is V6) {
            answers_of_family(t, false).push(x)
        } else {
            answers_of_family(t, false)
        });
        assert(answers_of_family(addrs, true) == if x.0 is V6 {
            answers_of_family(t, true).push(x)
        } else {
            answers_of_family(t, true)
        });
        assert forall|u: Seq<(HostAddr, u32)>| #[trigger] address_views(u.push(x)) =~= address_views(
            u,
        ).push((addr_display(x.0), x.1)) by {}
    } else {
        assert(answers_of_family(addrs, false) =~= Seq::<(HostAddr, u32)>::empty());
        assert(answers_of_family(addrs, true) =~= Seq::<(HostAddr, u32)>::empty());
    }
}

/// Each answer's text and TTL, in order.
pub open spec fn answer_views(v: Seq<(String, u32)>) -> Seq<(Seq<char>, u32)> {
    v.map_values(|a: (String, u32)| (a.0@, a.1))
}

/// One record for each answer, with its text and TTL.
fn records_of(answers: &[(String, u32)]) -> (r: Vec<DnsRecord>)
    ensures
        record_views(r@) == answer_views(answers@),
{
    let mut r: Vec<DnsRecord> = Vec::new();
    for i in 0..answers.len()
        invariant
            record_views(r@) == answer_views(answers@.take(i as int)),
    {
        let ghost before = r@;
        let (value, ttl) = &answers[i];
        r.push(DnsRecord { value: value.clone(), ttl: *ttl });
        assert(record_views(r@) =~= record_views(before).push((answers@[i as int].0@, answers@[i as int].1)));
        assert(answer_views(answers@.take(i + 1)) =~= answer_views(answers@.take(i as int)).push(
            (answers@[i as int].0@, answers@[i as int].1),
        ));
    }
    assert(answers@.take(answers@.len() as int) =~= answers@);
    r
}

/// The result of a forward lookup: A records for the IPv4 addresses and
/// AAAA records for the IPv6 addresses that the name resolves to, in the
/// order given, MX records for the mail exchanges, no PTR records; each
/// record carries the TTL of its answer.
pub fn forward_result(
    query: &str,
    addrs: &[(HostAddr, u32)],
    exchanges: &[(String, u32)],
    elapsed_ms: u64,
) -> (r: LookupResult)
    ensures
        r.query@ == query@,
        record_views(r.a_records@) == family_answers(addrs@, false),
        record_views(r.aaaa_records@) == family_answers(addrs@, true),
        record_views(r.mx_records@) == answer_views(exchanges@),
        r.a_records@.len() + r.aaaa_records@.len() == addrs@.len(),
        r.ptr_records@.len() == 0,
        r.elapsed_ms == elapsed_ms,
{
    let mut a_records: Vec<DnsRecord> = Vec::new();
    let mut aaaa_records: Vec<DnsRecord> = Vec::new();
    for i in 0..addrs.len()
        invariant
            record_views(a_records@) == family_answers(addrs@.take(i as int), false),
            record_views(aaaa_records@) == family_answers(addrs@.take(i as int), true),
    {
        let (a, ttl) = addrs[i];
        let ghost before_a = a_records@;
        let ghost before_aaaa = aaaa_records@;
        assert(addrs@.take(i + 1).drop_last() =~= addrs@.take(i as int));
        assert(addrs@.take(i + 1).last() == (a, ttl));
        let text = a.to_string();
        match a {
            HostAddr::V4(_) => {
                a_records.push(DnsRecord { value: text, ttl });
                assert(record_views(a_records@) =~= record_views(before_a).push(
                    (addr_display(a), ttl),
                ));
            },
            HostAddr::V6(_) => {
                aaaa_records.push(DnsRecord { value: text, ttl });
                assert(record_views(aaaa_records@) =~= record_views(before_aaaa).push(
                    (addr_display(a), ttl),
                ));
            },
        }
    }
    assert(addrs@.take(addrs@.len() as int) =~= addrs@);
    proof {
        law_one_record_per_answer(addrs@);
    }
    LookupResult {
        query: query.to_owned(),
        a_records,
        aaaa_records,
        mx_records: records_of(exchanges),
        ptr_records: Vec::new(),
        elapsed_ms,
    }
}

/// The result of a reverse lookup: a PTR record for each name the address
/// maps to, in the order given, with the TTL of its answer, and no other
/// records.
pub fn reverse_result(query: &str, names: &[(String, u32)], elapsed_ms: u64) -> (r: LookupResult)
    ensures
        r.query@ == query@,
        r.a_records@.len() == 0,
        r.aaaa_records@.len() == 0,
        r.mx_records@.len() == 0,
        record_views(r.ptr_records@) == answer_views(names@),
        r.elapsed_ms == elapsed_ms,
{
    LookupResult {
        query: query.to_owned(),
        a_records: Vec::new(),
        aaaa_records: Vec::new(),
        mx_records: Vec::new(),
        ptr_records: records_of(names),
        elapsed_ms,
    }
}

} // verus!
