//! The order of records within a batch: ascending by FQDN, byte-wise, with
//! records of equal name kept in the order in which they arrived.

use crate::dns_record::{batch_view, DnsRecord, DnsRecordView};
use crate::text::{
    lemma_text_le_antisymmetric, lemma_text_le_reflexive, lemma_text_le_total,
    lemma_text_le_transitive, str_le, text_le,
};
use vstd::prelude::*;

verus! {

/// No record is followed by one whose FQDN sorts strictly before its own.
pub open spec fn sorted_by_fqdn(records: Seq<DnsRecordView>) -> bool {
    forall|i: int, j: int|
        0 <= i < j < records.len() ==> text_le(
            #[trigger] records[i].fqdn,
            #[trigger] records[j].fqdn,
        )
}

/// `record` placed into `sorted` in front of the first record whose FQDN is
/// not smaller than its own.
pub open spec fn insert_by_fqdn(record: DnsRecordView, sorted: Seq<DnsRecordView>) -> Seq<
    DnsRecordView,
>
    decreases sorted.len(),
{
    if sorted.len() == 0 || text_le(record.fqdn, sorted[0].fqdn) {
        seq![record] + sorted
    } else {
        seq![sorted[0]] + insert_by_fqdn(record, sorted.drop_first())
    }
}

/// The stable sort of `records` by FQDN.
pub open spec fn sort_by_fqdn(records: Seq<DnsRecordView>) -> Seq<DnsRecordView>
    decreases records.len(),
{
    if records.len() == 0 {
        records
    } else {
        insert_by_fqdn(records[0], sort_by_fqdn(records.drop_first()))
    }
}

/// The records of `records` that carry the name `fqdn`, in order.
pub open spec fn with_fqdn(records: Seq<DnsRecordView>, fqdn: Seq<char>) -> Seq<DnsRecordView> {
    records.filter(|record: DnsRecordView| record.fqdn == fqdn)
}

/// Where `record` goes into `sorted`: `at` is the first position whose record
/// does not sort strictly before it.
proof fn lemma_insert_at(record: DnsRecordView, sorted: Seq<DnsRecordView>, at: int)
    requires
        0 <= at <= sorted.len(),
        forall|k: int| 0 <= k < at ==> !text_le(record.fqdn, #[trigger] sorted[k].fqdn),
        at < sorted.len() ==> text_le(record.fqdn, sorted[at].fqdn),
    ensures
        insert_by_fqdn(record, sorted) == sorted.insert(at, record),
    decreases at,
{
    if at == 0 {
        assert(seq![record] + sorted =~= sorted.insert(0, record));
    } else {
        let rest = sorted.drop_first();
        assert forall|k: int| 0 <= k < at - 1 implies !text_le(
            record.fqdn,
            #[trigger] rest[k].fqdn,
        ) by {
            assert(rest[k] == sorted[k + 1]);
        }
        lemma_insert_at(record, rest, at - 1);
        assert(seq![sorted[0]] + rest.insert(at - 1, record) =~= sorted.insert(at, record));
    }
}

proof fn lemma_insert_len(record: DnsRecordView, sorted: Seq<DnsRecordView>)
    ensures
        insert_by_fqdn(record, sorted).len() == sorted.len() + 1,
    decreases sorted.len(),
{
    if !(sorted.len() == 0 || text_le(record.fqdn, sorted[0].fqdn)) {
        lemma_insert_len(record, sorted.drop_first());
    }
}

/// Sorting neither adds nor drops a record.
pub proof fn lemma_sort_len(records: Seq<DnsRecordView>)
    ensures
        sort_by_fqdn(records).len() == records.len(),
    decreases records.len(),
{
    if records.len() > 0 {
        lemma_sort_len(records.drop_first());
        lemma_insert_len(records[0], sort_by_fqdn(records.drop_first()));
    }
}

/// Where `insert_by_fqdn` puts `record`: the index of the first record of
/// `sorted` that does not sort strictly before it.
pub open spec fn insertion_index(record: DnsRecordView, sorted: Seq<DnsRecordView>) -> int
    decreases sorted.len(),
{
    if sorted.len() == 0 || text_le(record.fqdn, sorted[0].fqdn) {
        0
    } else {
        1 + insertion_index(record, sorted.drop_first())
    }
}

/// `insert_by_fqdn` leaves every record of `sorted` in place but for making
/// room for `record` at its insertion index.
pub proof fn lemma_insert_is_insert_at_index(record: DnsRecordView, sorted: Seq<DnsRecordView>)
    ensures
        0 <= insertion_index(record, sorted) <= sorted.len(),
        forall|k: int|
            0 <= k < insertion_index(record, sorted) ==> !text_le(
                record.fqdn,
                #[trigger] sorted[k].fqdn,
            ),
        insertion_index(record, sorted) < sorted.len() ==> text_le(
            record.fqdn,
            sorted[insertion_index(record, sorted)].fqdn,
        ),
        insert_by_fqdn(record, sorted) == sorted.insert(insertion_index(record, sorted), record),
    decreases sorted.len(),
{
    let at = insertion_index(record, sorted);
    if !(sorted.len() == 0 || text_le(record.fqdn, sorted[0].fqdn)) {
        let rest = sorted.drop_first();
        lemma_insert_is_insert_at_index(record, rest);
        assert forall|k: int| 0 <= k < at implies !text_le(
            record.fqdn,
            #[trigger] sorted[k].fqdn,
        ) by {
            if k > 0 {
                assert(sorted[k] == rest[k - 1]);
            }
        }
        assert(at < sorted.len() ==> sorted[at] == rest[at - 1]);
    }
    lemma_insert_at(record, sorted, at);
}

/// Inserting into a sorted list gives a sorted list.
proof fn lemma_insert_keeps_sorted(record: DnsRecordView, sorted: Seq<DnsRecordView>)
    requires
        sorted_by_fqdn(sorted),
    ensures
        sorted_by_fqdn(insert_by_fqdn(record, sorted)),
{
    lemma_insert_is_insert_at_index(record, sorted);
    let at = insertion_index(record, sorted);
    let out = sorted.insert(at, record);
    assert forall|i: int, j: int| 0 <= i < j < out.len() implies text_le(
        #[trigger] out[i].fqdn,
        #[trigger] out[j].fqdn,
    ) by {
        if j < at {
            assert(out[i] == sorted[i] && out[j] == sorted[j]);
        } else if j == at {
            assert(out[i] == sorted[i]);
            lemma_text_le_total(record.fqdn, sorted[i].fqdn);
        } else if i < at {
            assert(out[i] == sorted[i] && out[j] == sorted[j - 1]);
        } else if i == at {
            assert(out[j] == sorted[j - 1]);
            if j - 1 > at {
                assert(text_le(sorted[at].fqdn, sorted[j - 1].fqdn));
                lemma_text_le_transitive(record.fqdn, sorted[at].fqdn, sorted[j - 1].fqdn);
            }
        } else {
            assert(out[i] == sorted[i - 1] && out[j] == sorted[j - 1]);
        }
    }
}

/// The result of sorting is in ascending order of FQDN.
pub proof fn lemma_sort_is_sorted(records: Seq<DnsRecordView>)
    ensures
        sorted_by_fqdn(sort_by_fqdn(records)),
    decreases records.len(),
{
    if records.len() > 0 {
        lemma_sort_is_sorted(records.drop_first());
        lemma_insert_keeps_sorted(records[0], sort_by_fqdn(records.drop_first()));
    }
}

/// Sorting rearranges: every record comes out as often as it went in.
pub proof fn lemma_sort_is_permutation(records: Seq<DnsRecordView>)
    ensures
        sort_by_fqdn(records).to_multiset() == records.to_multiset(),
    decreases records.len(),
{
    broadcast use vstd::multiset::group_multiset_axioms;

    if records.len() > 0 {
        let rest = records.drop_first();
        lemma_sort_is_permutation(rest);
        lemma_insert_is_insert_at_index(records[0], sort_by_fqdn(rest));
        vstd::seq_lib::to_multiset_insert(
            sort_by_fqdn(rest),
            insertion_index(records[0], sort_by_fqdn(rest)),
            records[0],
        );
        vstd::seq_lib::to_multiset_insert(rest, 0, records[0]);
        assert(rest.insert(0, records[0]) =~= records);
        assert(sort_by_fqdn(records).to_multiset() =~= records.to_multiset());
    }
}

/// Sorting is stable: the records that share a name come out in the order
/// in which they went in.
pub proof fn lemma_sort_is_stable(records: Seq<DnsRecordView>, fqdn: Seq<char>)
    ensures
        with_fqdn(sort_by_fqdn(records), fqdn) == with_fqdn(records, fqdn),
    decreases records.len(),
{
    if records.len() > 0 {
        let first = records[0];
        let rest = records.drop_first();
        let sorted = sort_by_fqdn(rest);
        let named = |record: DnsRecordView| record.fqdn == fqdn;
        lemma_sort_is_stable(rest, fqdn);
        lemma_insert_is_insert_at_index(first, sorted);
        let at = insertion_index(first, sorted);
        let front = sorted.subrange(0, at);
        let back = sorted.subrange(at, sorted.len() as int);
        assert(sorted =~= front + back);
        assert(sorted.insert(at, first) =~= front + (seq![first] + back));
        Seq::filter_distributes_over_add(front, back, named);
        Seq::filter_distributes_over_add(front, seq![first] + back, named);
        back.lemma_filter_prepend(first, named);
        assert(records =~= seq![first] + rest);
        rest.lemma_filter_prepend(first, named);
        if first.fqdn == fqdn {
            assert forall|k: int| 0 <= k < front.len() implies !named(#[trigger] front[k]) by {
                assert(front[k] == sorted[k]);
                lemma_text_le_reflexive(first.fqdn);
            }
            assert(front.all(|record: DnsRecordView| !named(record)));
            front.lemma_all_neg_filter_empty(named);
            assert(front.filter(named) =~= Seq::<DnsRecordView>::empty());
            assert(with_fqdn(sort_by_fqdn(records), fqdn) =~= seq![first] + back.filter(named));
            assert(with_fqdn(sorted, fqdn) =~= back.filter(named));
        } else {
            assert(with_fqdn(sort_by_fqdn(records), fqdn) =~= front.filter(named) + back.filter(
                named,
            ));
        }
        assert(with_fqdn(sort_by_fqdn(records), fqdn) =~= with_fqdn(records, fqdn));
    }
}

/// Sorting a list that is already in order changes nothing.
pub proof fn lemma_sort_of_sorted(records: Seq<DnsRecordView>)
    requires
        sorted_by_fqdn(records),
    ensures
        sort_by_fqdn(records) == records,
    decreases records.len(),
{
    if records.len() > 0 {
        let rest = records.drop_first();
        assert forall|i: int, j: int| 0 <= i < j < rest.len() implies text_le(
            #[trigger] rest[i].fqdn,
            #[trigger] rest[j].fqdn,
        ) by {
            assert(rest[i] == records[i + 1] && rest[j] == records[j + 1]);
        }
        lemma_sort_of_sorted(rest);
        if rest.len() > 0 {
            assert(rest[0] == records[1]);
        }
        assert(seq![records[0]] + rest =~= records);
    }
}

/// Sorting twice is sorting once.
pub proof fn lemma_sort_idempotent(records: Seq<DnsRecordView>)
    ensures
        sort_by_fqdn(sort_by_fqdn(records)) == sort_by_fqdn(records),
{
    lemma_sort_is_sorted(records);
    lemma_sort_of_sorted(sort_by_fqdn(records));
}

/// A list has a record named `fqdn` exactly where its records of that name
/// are not none.
proof fn lemma_named_record_exists(records: Seq<DnsRecordView>, fqdn: Seq<char>)
    requires
        with_fqdn(records, fqdn).len() > 0,
    ensures
        exists|k: int| 0 <= k < records.len() && (#[trigger] records[k]).fqdn == fqdn,
{
    let named = |record: DnsRecordView| record.fqdn == fqdn;
    let found = with_fqdn(records, fqdn)[0];
    records.lemma_filter_pred(named, 0);
    assert(with_fqdn(records, fqdn).contains(found));
    records.lemma_filter_contains_rev(named, found);
    let k = choose|k: int| 0 <= k < records.len() && records[k] == found;
    assert(records[k].fqdn == fqdn);
}

/// Two sorted lists that hold, for every name, the same records of that name
/// in the same order are one and the same list.
proof fn lemma_stable_order_is_unique(first: Seq<DnsRecordView>, second: Seq<DnsRecordView>)
    requires
        sorted_by_fqdn(first),
        sorted_by_fqdn(second),
        forall|fqdn: Seq<char>| with_fqdn(first, fqdn) == with_fqdn(second, fqdn),
    ensures
        first == second,
    decreases first.len(),
{
    if first.len() == 0 || second.len() == 0 {
        if first.len() > 0 {
            let named = |record: DnsRecordView| record.fqdn == first[0].fqdn;
            first.lemma_filter_contains(named, 0);
            assert(with_fqdn(second, first[0].fqdn) =~= Seq::empty()) by {
                second.lemma_filter_len(named);
            }
        }
        if second.len() > 0 {
            let named = |record: DnsRecordView| record.fqdn == second[0].fqdn;
            second.lemma_filter_contains(named, 0);
            assert(with_fqdn(first, second[0].fqdn) =~= Seq::empty()) by {
                first.lemma_filter_len(named);
            }
        }
        assert(first =~= second);
    } else {
        let f = first[0].fqdn;
        let g = second[0].fqdn;
        let named_f = |record: DnsRecordView| record.fqdn == f;
        let named_g = |record: DnsRecordView| record.fqdn == g;
        first.lemma_filter_contains(named_f, 0);
        second.lemma_filter_contains(named_g, 0);
        lemma_named_record_exists(second, f);
        lemma_named_record_exists(first, g);
        let k = choose|k: int| 0 <= k < second.len() && (#[trigger] second[k]).fqdn == f;
        let m = choose|m: int| 0 <= m < first.len() && (#[trigger] first[m]).fqdn == g;
        lemma_text_le_reflexive(f);
        lemma_text_le_reflexive(g);
        assert(text_le(g, f)) by {
            if k > 0 {
                assert(text_le(second[0].fqdn, second[k].fqdn));
            }
        }
        assert(text_le(f, g)) by {
            if m > 0 {
                assert(text_le(first[0].fqdn, first[m].fqdn));
            }
        }
        lemma_text_le_antisymmetric(f, g);
        let first_rest = first.drop_first();
        let second_rest = second.drop_first();
        assert(first =~= seq![first[0]] + first_rest);
        assert(second =~= seq![second[0]] + second_rest);
        assert forall|fqdn: Seq<char>| with_fqdn(first_rest, fqdn) == with_fqdn(
            second_rest,
            fqdn,
        ) by {
            let named = |record: DnsRecordView| record.fqdn == fqdn;
            first_rest.lemma_filter_prepend(first[0], named);
            second_rest.lemma_filter_prepend(second[0], named);
            assert(with_fqdn(first, fqdn) == with_fqdn(second, fqdn));
            if fqdn == f {
                let left = seq![first[0]] + first_rest.filter(named);
                let right = seq![second[0]] + second_rest.filter(named);
                assert(left == right);
                assert(left.drop_first() =~= first_rest.filter(named));
                assert(right.drop_first() =~= second_rest.filter(named));
            } else {
                assert(Seq::<DnsRecordView>::empty() + first_rest.filter(named)
                    =~= first_rest.filter(named));
                assert(Seq::<DnsRecordView>::empty() + second_rest.filter(named)
                    =~= second_rest.filter(named));
            }
        }
        assert(first[0] == second[0]) by {
            first_rest.lemma_filter_prepend(first[0], named_f);
            second_rest.lemma_filter_prepend(second[0], named_f);
            let left = seq![first[0]] + first_rest.filter(named_f);
            let right = seq![second[0]] + second_rest.filter(named_f);
            assert(with_fqdn(first, f) == with_fqdn(second, f));
            assert(left[0] == right[0]);
        }
        assert forall|i: int, j: int| 0 <= i < j < first_rest.len() implies text_le(
            #[trigger] first_rest[i].fqdn,
            #[trigger] first_rest[j].fqdn,
        ) by {
            assert(first_rest[i] == first[i + 1] && first_rest[j] == first[j + 1]);
        }
        assert forall|i: int, j: int| 0 <= i < j < second_rest.len() implies text_le(
            #[trigger] second_rest[i].fqdn,
            #[trigger] second_rest[j].fqdn,
        ) by {
            assert(second_rest[i] == second[i + 1] && second_rest[j] == second[j + 1]);
        }
        lemma_stable_order_is_unique(first_rest, second_rest);
    }
}

/// The stable sort is the only list that is in ascending order of FQDN and
/// keeps, for every name, the records of that name in their given order.
pub proof fn lemma_sort_is_the_stable_order(
    records: Seq<DnsRecordView>,
    ordered: Seq<DnsRecordView>,
)
    requires
        sorted_by_fqdn(ordered),
        forall|fqdn: Seq<char>| with_fqdn(ordered, fqdn) == with_fqdn(records, fqdn),
    ensures
        ordered == sort_by_fqdn(records),
{
    lemma_sort_is_sorted(records);
    assert forall|fqdn: Seq<char>| with_fqdn(ordered, fqdn) == with_fqdn(
        sort_by_fqdn(records),
        fqdn,
    ) by {
        lemma_sort_is_stable(records, fqdn);
    }
    lemma_stable_order_is_unique(ordered, sort_by_fqdn(records));
}

/// The first position behind `after` whose record does not sort strictly
/// before the record at `after`, and the length of the list where there is
/// none.
fn insertion_point(records: &Vec<DnsRecord>, after: usize) -> (at: usize)
    requires
        after < records.len(),
    ensures
        after < at <= records.len(),
        forall|k: int|
            after < k < at ==> !text_le(
                records[after as int].fqdn@,
                #[trigger] records[k].fqdn@,
            ),
        at < records.len() ==> text_le(records[after as int].fqdn@, records[at as int].fqdn@),
{
    let mut at: usize = after + 1;
    while at < records.len()
        invariant
            after < at <= records.len(),
            forall|k: int|
                after < k < at ==> !text_le(
                    records[after as int].fqdn@,
                    #[trigger] records[k].fqdn@,
                ),
        decreases records.len() - at,
    {
        if str_le(records[after].fqdn.as_str(), records[at].fqdn.as_str()) {
            return at;
        }
        at += 1;
    }
    at
}

/// Sorts `records` by FQDN in place. Records with the same FQDN keep their
/// order.
///
/// The records are inserted one by one, from the last to the first: a list
/// that is already in order takes one comparison per record.
pub fn sort_records_by_fqdn(records: &mut Vec<DnsRecord>)
    ensures
        batch_view(final(records)@) == sort_by_fqdn(batch_view(old(records)@)),
{
    let n = records.len();
    let ghost given = batch_view(records@);
    let mut i: usize = n;
    proof {
        assert(given.subrange(n as int, n as int) =~= Seq::empty());
    }
    while i > 0
        invariant
            records.len() == n,
            given.len() == n,
            i <= n,
            batch_view(records@).subrange(0, i as int) == given.subrange(0, i as int),
            batch_view(records@).subrange(i as int, n as int) == sort_by_fqdn(
                given.subrange(i as int, n as int),
            ),
        decreases i,
    {
        i -= 1;
        let ghost before = batch_view(records@);
        let ghost tail = before.subrange(i + 1, n as int);
        let at = insertion_point(records, i);
        if at > i + 1 {
            let record = records.remove(i);
            records.insert(at - 1, record);
        }
        proof {
            let now = batch_view(records@);
            assert forall|k: int| 0 <= k < at - 1 - i implies !text_le(
                before[i as int].fqdn,
                #[trigger] tail[k].fqdn,
            ) by {
                assert(tail[k] == before[i + 1 + k]);
            }
            lemma_insert_at(before[i as int], tail, at - 1 - i);
            assert(now.subrange(i as int, n as int) =~= tail.insert(at - 1 - i, before[i as int]));
            assert(now.subrange(0, i as int) =~= given.subrange(0, i as int)) by {
                assert forall|k: int| 0 <= k < i implies now[k] == given[k] by {
                    assert(before.subrange(0, i + 1)[k] == given.subrange(0, i + 1)[k]);
                }
            }
            assert(given.subrange(i as int, n as int).drop_first() =~= given.subrange(
                i + 1,
                n as int,
            ));
            assert(before[i as int] == given.subrange(0, i + 1)[i as int]);
        }
    }
    proof {
        assert(batch_view(records@) =~= batch_view(records@).subrange(0, n as int));
        assert(given =~= given.subrange(0, n as int));
    }
}

} // verus!
