//! The normaliser of a batch: it puts the records of one source in order,
//! renders their zone lines at a common width, and marks the records whose
//! name was met before.

use crate::dns_record::{
    a_record_line, batch_view, host_label, in_a_token_at, lemma_a_record_line_column,
    strip_domain, DnsRecord, DnsRecordView,
};
use crate::sorting::{
    lemma_sort_is_permutation, lemma_sort_is_sorted, lemma_sort_len, sort_by_fqdn,
    sort_records_by_fqdn, sorted_by_fqdn,
};
use crate::text::{byte_len, text_le};
use vstd::hash_set::StringHashSet;
use vstd::prelude::*;
use vstd::string::*;

verus! {

/// The byte length of the longest host label among `records` under `domain`;
/// zero for an empty batch.
pub open spec fn longest_label(records: Seq<DnsRecordView>, domain: Seq<char>) -> nat
    decreases records.len(),
{
    if records.len() == 0 {
        0
    } else {
        let before = longest_label(records.drop_last(), domain);
        let last = byte_len(host_label(records.last().fqdn, domain));
        if last > before {
            last
        } else {
            before
        }
    }
}

/// The width to which every host label of a batch is padded: four more than
/// the longest of them.
pub open spec fn padding_width(records: Seq<DnsRecordView>, domain: Seq<char>) -> nat {
    longest_label(records, domain) + 4
}

/// The names that occur among the first `count` of `records`.
pub open spec fn fqdns_among(records: Seq<DnsRecordView>, count: int) -> Set<Seq<char>>
    recommends
        0 <= count <= records.len(),
{
    Set::new(|fqdn: Seq<char>| exists|j: int| 0 <= j < count && #[trigger] records[j].fqdn == fqdn)
}

/// The names that occur in `records`.
pub open spec fn fqdns(records: Seq<DnsRecordView>) -> Set<Seq<char>> {
    fqdns_among(records, records.len() as int)
}

/// The name of the record at `at` was met before it: in `seen`, or on an
/// earlier record of the same batch.
pub open spec fn met_before(records: Seq<DnsRecordView>, at: int, seen: Set<Seq<char>>) -> bool {
    seen.contains(records[at].fqdn) || fqdns_among(records, at).contains(records[at].fqdn)
}

/// The batch that a cycle stores for a source: `records` in ascending order
/// of FQDN, each with its zone line rendered at the batch's common width and
/// marked as a duplicate exactly where its name was met before.
pub open spec fn normalized_batch(
    records: Seq<DnsRecordView>,
    domain: Seq<char>,
    seen: Set<Seq<char>>,
) -> Seq<DnsRecordView> {
    let sorted = sort_by_fqdn(records);
    let width = padding_width(records, domain);
    Seq::new(
        sorted.len(),
        |i: int|
            sorted[i].with_a_record(
                a_record_line(sorted[i].fqdn, domain, sorted[i].ip, width),
            ).with_duplicate_mark(met_before(sorted, i, seen)),
    )
}

/// The names met in one cycle so far.
pub struct SeenFqdns {
    names: StringHashSet,
}

impl View for SeenFqdns {
    type V = Set<Seq<char>>;

    closed spec fn view(&self) -> Set<Seq<char>> {
        self.names@
    }
}

impl SeenFqdns {
    /// The empty set, with which a cycle starts.
    pub fn new() -> (seen: SeenFqdns)
        ensures
            seen@ == Set::<Seq<char>>::empty(),
    {
        SeenFqdns { names: StringHashSet::new() }
    }

    /// Whether `fqdn` was met.
    pub fn contains(&self, fqdn: &str) -> (met: bool)
        ensures
            met == self@.contains(fqdn@),
    {
        self.names.contains(fqdn)
    }

    /// Notes that `fqdn` was met.
    pub fn insert(&mut self, fqdn: &str)
        ensures
            final(self)@ == old(self)@.insert(fqdn@),
    {
        self.names.insert(String::from_str(fqdn));
    }
}

/// The byte length of the longest host label among `records`.
fn longest_label_len(records: &Vec<DnsRecord>, domain_name: &str) -> (longest: usize)
    ensures
        longest == longest_label(batch_view(records@), domain_name@),
{
    let mut longest: usize = 0;
    let mut i: usize = 0;
    proof {
        assert(batch_view(records@).take(0) =~= Seq::empty());
    }
    while i < records.len()
        invariant
            i <= records.len(),
            longest == longest_label(batch_view(records@).take(i as int), domain_name@),
        decreases records.len() - i,
    {
        let len = strip_domain(records[i].fqdn.as_str(), domain_name).as_bytes().len();
        if len > longest {
            longest = len;
        }
        proof {
            let upto = batch_view(records@).take(i + 1);
            assert(upto.drop_last() =~= batch_view(records@).take(i as int));
            assert(upto.last() == records[i as int]@);
        }
        i += 1;
    }
    proof {
        assert(batch_view(records@).take(records.len() as int) =~= batch_view(records@));
    }
    longest
}

/// One more record adds its name to the names met.
proof fn lemma_fqdns_among_next(records: Seq<DnsRecordView>, count: int)
    requires
        0 <= count < records.len(),
    ensures
        fqdns_among(records, count + 1) == fqdns_among(records, count).insert(records[count].fqdn),
{
    let more = fqdns_among(records, count + 1);
    let less = fqdns_among(records, count).insert(records[count].fqdn);
    assert forall|fqdn: Seq<char>| more.contains(fqdn) <==> less.contains(fqdn) by {
        if more.contains(fqdn) {
            let j = choose|j: int| 0 <= j < count + 1 && #[trigger] records[j].fqdn == fqdn;
            if j < count {
                assert(fqdns_among(records, count).contains(fqdn));
            }
        }
        if fqdns_among(records, count).contains(fqdn) {
            let j = choose|j: int| 0 <= j < count && #[trigger] records[j].fqdn == fqdn;
            assert(0 <= j < count + 1 && records[j].fqdn == fqdn);
        }
        if fqdn == records[count].fqdn {
            assert(0 <= count < count + 1 && records[count].fqdn == fqdn);
        }
    }
    assert(more =~= less);
}

/// Sorting a batch does not change which names occur in it.
pub proof fn lemma_sort_keeps_fqdns(records: Seq<DnsRecordView>)
    ensures
        fqdns(sort_by_fqdn(records)) == fqdns(records),
{
    let sorted = sort_by_fqdn(records);
    lemma_sort_is_permutation(records);
    lemma_sort_len(records);
    assert forall|fqdn: Seq<char>| fqdns(sorted).contains(fqdn) <==> fqdns(records).contains(
        fqdn,
    ) by {
        if fqdns(sorted).contains(fqdn) {
            let j = choose|j: int| 0 <= j < sorted.len() && #[trigger] sorted[j].fqdn == fqdn;
            assert(sorted.contains(sorted[j]));
            vstd::seq_lib::to_multiset_contains(sorted, sorted[j]);
            vstd::seq_lib::to_multiset_contains(records, sorted[j]);
            assert(records.contains(sorted[j]));
            let k = choose|k: int| 0 <= k < records.len() && records[k] == sorted[j];
            assert(records[k].fqdn == fqdn);
        }
        if fqdns(records).contains(fqdn) {
            let j = choose|j: int| 0 <= j < records.len() && #[trigger] records[j].fqdn == fqdn;
            assert(records.contains(records[j]));
            vstd::seq_lib::to_multiset_contains(sorted, records[j]);
            vstd::seq_lib::to_multiset_contains(records, records[j]);
            assert(sorted.contains(records[j]));
            let k = choose|k: int| 0 <= k < sorted.len() && sorted[k] == records[j];
            assert(sorted[k].fqdn == fqdn);
        }
    }
    assert(fqdns(sorted) =~= fqdns(records));
}

/// Normalises the batch of one source: sorts it by FQDN, renders every zone
/// line at the batch's common width, and marks each record whose name is in
/// `seen` or on an earlier record of the batch. The names of the batch are
/// added to `seen`.
pub fn normalize_batch(records: Vec<DnsRecord>, domain_name: &str, seen: &mut SeenFqdns) -> (batch:
    Vec<DnsRecord>)
    ensures
        batch_view(batch@) == normalized_batch(batch_view(records@), domain_name@, old(seen)@),
        final(seen)@ == old(seen)@.union(fqdns(batch_view(records@))),
{
    let ghost target = normalized_batch(batch_view(records@), domain_name@, old(seen)@);
    let mut batch = records;
    let longest = longest_label_len(&batch, domain_name);
    sort_records_by_fqdn(&mut batch);
    let ghost sorted = batch_view(batch@);
    let n = batch.len();
    let mut i: usize = 0;
    proof {
        assert(fqdns_among(sorted, 0) =~= Set::empty());
        assert(seen@ =~= old(seen)@.union(fqdns_among(sorted, 0)));
    }
    while i < n
        invariant
            i <= n,
            n == batch.len(),
            sorted.len() == n,
            sorted == sort_by_fqdn(batch_view(records@)),
            target == normalized_batch(batch_view(records@), domain_name@, old(seen)@),
            longest == longest_label(batch_view(records@), domain_name@),
            seen@ == old(seen)@.union(fqdns_among(sorted, i as int)),
            forall|k: int| i <= k < n ==> batch_view(batch@)[k] == sorted[k],
            forall|k: int| 0 <= k < i ==> batch_view(batch@)[k] == target[k],
        decreases n - i,
    {
        let ghost before = batch_view(batch@);
        batch[i].render_a_record(domain_name, longest, 4);
        let met = seen.contains(batch[i].fqdn.as_str());
        batch[i].is_duplicate = met;
        if !met {
            seen.insert(batch[i].fqdn.as_str());
        }
        proof {
            assert(before[i as int] == sorted[i as int]);
            lemma_fqdns_among_next(sorted, i as int);
            assert(seen@ =~= old(seen)@.union(fqdns_among(sorted, i + 1)));
            assert(batch_view(batch@)[i as int] == target[i as int]);
            assert forall|k: int| i + 1 <= k < n implies batch_view(batch@)[k] == sorted[k] by {
                assert(before[k] == sorted[k]);
            }
            assert forall|k: int| 0 <= k < i + 1 implies batch_view(batch@)[k] == target[k] by {
                if k < i {
                    assert(before[k] == target[k]);
                }
            }
        }
        i += 1;
    }
    proof {
        assert(batch_view(batch@) =~= target);
        lemma_sort_keeps_fqdns(batch_view(records@));
    }
    batch
}

/// The longest label is the maximum of the label lengths: no label of the
/// batch is longer, and in a batch that is not empty some label is as long.
pub proof fn lemma_longest_label_is_max(records: Seq<DnsRecordView>, domain: Seq<char>)
    ensures
        forall|k: int|
            0 <= k < records.len() ==> byte_len(host_label(#[trigger] records[k].fqdn, domain))
                <= longest_label(records, domain),
        records.len() > 0 ==> exists|k: int|
            0 <= k < records.len() && byte_len(host_label(#[trigger] records[k].fqdn, domain))
                == longest_label(records, domain),
    decreases records.len(),
{
    if records.len() > 0 {
        let front = records.drop_last();
        lemma_longest_label_is_max(front, domain);
        assert forall|k: int| 0 <= k < records.len() implies byte_len(
            host_label(#[trigger] records[k].fqdn, domain),
        ) <= longest_label(records, domain) by {
            if k < front.len() {
                assert(records[k] == front[k]);
            }
        }
        let last = byte_len(host_label(records.last().fqdn, domain));
        if last >= longest_label(front, domain) {
            assert(byte_len(host_label(records[records.len() - 1].fqdn, domain)) == longest_label(
                records,
                domain,
            ));
        } else {
            let k = choose|k: int|
                0 <= k < front.len() && byte_len(host_label(#[trigger] front[k].fqdn, domain))
                    == longest_label(front, domain);
            assert(records[k] == front[k]);
        }
    }
}

/// Alignment: in every line of a normalised batch the token `" IN A "`
/// begins at the same byte offset, the batch's padding width, which is four
/// more than the byte length of the longest host label of the batch.
pub proof fn lemma_batch_is_aligned(
    records: Seq<DnsRecordView>,
    domain: Seq<char>,
    seen: Set<Seq<char>>,
)
    ensures
        normalized_batch(records, domain, seen).len() == records.len(),
        forall|at: int|
            0 <= at < records.len() ==> in_a_token_at(
                (#[trigger] normalized_batch(records, domain, seen)[at]).a_record,
                padding_width(records, domain),
            ),
{
    let sorted = sort_by_fqdn(records);
    let batch = normalized_batch(records, domain, seen);
    let width = padding_width(records, domain);
    lemma_sort_len(records);
    lemma_sort_is_permutation(records);
    lemma_longest_label_is_max(records, domain);
    assert forall|at: int| 0 <= at < records.len() implies in_a_token_at(
        (#[trigger] batch[at]).a_record,
        width,
    ) by {
        assert(sorted.contains(sorted[at]));
        vstd::seq_lib::to_multiset_contains(sorted, sorted[at]);
        vstd::seq_lib::to_multiset_contains(records, sorted[at]);
        let k = choose|k: int| 0 <= k < records.len() && records[k] == sorted[at];
        assert(byte_len(host_label(records[k].fqdn, domain)) <= longest_label(records, domain));
        lemma_a_record_line_column(sorted[at].fqdn, domain, sorted[at].ip, width);
    }
}

/// Ordering: a normalised batch is in ascending order of FQDN, and holds the
/// given records with nothing but their zone line and duplicate mark changed.
pub proof fn lemma_batch_is_sorted(
    records: Seq<DnsRecordView>,
    domain: Seq<char>,
    seen: Set<Seq<char>>,
)
    ensures
        sorted_by_fqdn(normalized_batch(records, domain, seen)),
        normalized_batch(records, domain, seen).len() == records.len(),
        forall|at: int|
            0 <= at < records.len() ==> (#[trigger] normalized_batch(records, domain, seen)[at])
                == sort_by_fqdn(records)[at].with_a_record(
                normalized_batch(records, domain, seen)[at].a_record,
            ).with_duplicate_mark(normalized_batch(records, domain, seen)[at].is_duplicate),
{
    let sorted = sort_by_fqdn(records);
    let batch = normalized_batch(records, domain, seen);
    lemma_sort_len(records);
    lemma_sort_is_sorted(records);
    assert forall|i: int, j: int| 0 <= i < j < batch.len() implies text_le(
        #[trigger] batch[i].fqdn,
        #[trigger] batch[j].fqdn,
    ) by {
        assert(text_le(sorted[i].fqdn, sorted[j].fqdn));
    }
}


} // verus!
