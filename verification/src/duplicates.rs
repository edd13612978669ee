//! The duplicate detector: sorts the ledger by key, and within each run of
//! equal keys compares the entries' exact values pairwise. Two records with
//! one key are no duplicate until their exact values agree.

use crate::binomial::{binomial, lemma_binomial_first_half};
use crate::entry::{record_of, LedgerRecord, PascalEntry};
use crate::exact::ExactValue;
use vstd::prelude::*;

verus! {

/// A pair of entries of the triangle with one exact value.
#[derive(Clone, Debug, PartialEq, Eq)]
pub struct Duplicate {
    /// The entry that stands first in the sorted ledger.
    pub first: PascalEntry,
    /// The entry that stands second.
    pub second: PascalEntry,
    /// The exact value that the two share.
    pub value: ExactValue,
}

/// What the entries of a ledger stand for, in order.
pub open spec fn records(entries: Seq<PascalEntry>) -> Seq<LedgerRecord> {
    entries.map_values(|entry: PascalEntry| entry@)
}

/// Appending a record to a ledger appends what it stands for.
pub proof fn lemma_records_push(entries: Seq<PascalEntry>, entry: PascalEntry)
    ensures
        records(entries.push(entry)) == records(entries).push(entry@),
{
    assert(records(entries.push(entry)) =~= records(entries).push(entry@));
}

/// The exact value of the entry that a record stands for.
pub open spec fn exact_of(record: LedgerRecord) -> nat {
    binomial(record.row, record.column)
}

/// Whether the records at `i` and `j` are a true duplicate: one key and one
/// exact value.
pub open spec fn is_duplicate(ledger: Seq<LedgerRecord>, i: int, j: int) -> bool {
    ledger[i].value == ledger[j].value && exact_of(ledger[i]) == exact_of(ledger[j])
}

/// The duplicates (i, t) with t >= j, by ascending t.
pub open spec fn pairs_with(ledger: Seq<LedgerRecord>, i: int, j: int) -> Seq<(int, int)>
    decreases ledger.len() - j,
{
    if j >= ledger.len() {
        Seq::empty()
    } else if is_duplicate(ledger, i, j) {
        seq![(i, j)] + pairs_with(ledger, i, j + 1)
    } else {
        pairs_with(ledger, i, j + 1)
    }
}

/// The duplicates (s, t) with i <= s < t, in lexicographic order.
pub open spec fn pairs_from(ledger: Seq<LedgerRecord>, i: int) -> Seq<(int, int)>
    decreases ledger.len() - i,
{
    if i >= ledger.len() {
        Seq::empty()
    } else {
        pairs_with(ledger, i, i + 1) + pairs_from(ledger, i + 1)
    }
}

/// All duplicates of a ledger, as pairs of positions (i, j) with i < j, in
/// lexicographic order.
pub open spec fn duplicate_pairs(ledger: Seq<LedgerRecord>) -> Seq<(int, int)> {
    pairs_from(ledger, 0)
}

/// Whether the keys of a ledger ascend.
pub open spec fn sorted_by_key(ledger: Seq<LedgerRecord>) -> bool {
    forall|i: int, j: int| 0 <= i <= j < ledger.len() ==> ledger[i].value <= ledger[j].value
}

/// The records under one key, in the order in which they stand.
pub open spec fn with_key(ledger: Seq<LedgerRecord>, key: u64) -> Seq<LedgerRecord> {
    ledger.filter(|record: LedgerRecord| record.value == key)
}

/// Whether `after` is `before` sorted by key, with the records under each
/// key left in the order they had.
pub open spec fn is_stable_sort_of(after: Seq<LedgerRecord>, before: Seq<LedgerRecord>) -> bool {
    &&& sorted_by_key(after)
    &&& after.to_multiset() == before.to_multiset()
    &&& forall|key: u64| #[trigger] with_key(after, key) == with_key(before, key)
}

/// Whether `report` holds the entries at the positions `pair` of the
/// ledger, with their exact value.
pub open spec fn is_report_of(
    report: Duplicate,
    entries: Seq<PascalEntry>,
    pair: (int, int),
) -> bool {
    &&& 0 <= pair.0
    &&& pair.0 < pair.1
    &&& pair.1 < entries.len()
    &&& report.first == entries[pair.0]
    &&& report.second == entries[pair.1]
    &&& report.value@ == exact_of(entries[pair.0]@)
}

/// Whether `found` lists the entries at the positions `pairs` of the ledger,
/// each pair with its exact value.
pub open spec fn lists(
    found: Seq<Duplicate>,
    entries: Seq<PascalEntry>,
    pairs: Seq<(int, int)>,
) -> bool {
    &&& found.len() == pairs.len()
    &&& forall|t: int|
        0 <= t < found.len() ==> is_report_of(#[trigger] found[t], entries, pairs[t])
}

/// Whether `found` reports the duplicates of the ledger: all of them, each
/// once, in the order of their positions.
pub open spec fn reports(found: Seq<Duplicate>, entries: Seq<PascalEntry>) -> bool {
    lists(found, entries, duplicate_pairs(records(entries)))
}

/// Whether two lists report the same pairs: the same entries in the same
/// order, with the same exact values.
pub open spec fn same_duplicates(first: Seq<Duplicate>, second: Seq<Duplicate>) -> bool {
    &&& first.len() == second.len()
    &&& forall|t: int|
        0 <= t < first.len() ==> (#[trigger] first[t]).first == second[t].first
            && first[t].second == second[t].second && first[t].value@ == second[t].value@
}

/// Where no record from `j` on is a duplicate of the one at `i`, no pair
/// (i, t) with t >= j is listed.
pub proof fn lemma_pairs_with_none(ledger: Seq<LedgerRecord>, i: int, j: int)
    requires
        forall|t: int| j <= t < ledger.len() ==> !is_duplicate(ledger, i, t),
    ensures
        pairs_with(ledger, i, j) == Seq::<(int, int)>::empty(),
    decreases ledger.len() - j,
{
    if j < ledger.len() {
        lemma_pairs_with_none(ledger, i, j + 1);
    }
}

/// What `pairs_with` lists: the pairs (i, t) with t >= j that are
/// duplicates.
pub proof fn lemma_pairs_with_contents(ledger: Seq<LedgerRecord>, i: int, j: int, pair: (int, int))
    ensures
        pairs_with(ledger, i, j).contains(pair) <==> pair.0 == i && j <= pair.1 < ledger.len()
            && is_duplicate(ledger, i, pair.1),
    decreases ledger.len() - j,
{
    if j < ledger.len() {
        let rest = pairs_with(ledger, i, j + 1);
        lemma_pairs_with_contents(ledger, i, j + 1, pair);
        if is_duplicate(ledger, i, j) {
            let all = seq![(i, j)] + rest;
            assert(all[0] == (i, j));
            if rest.contains(pair) {
                let t = choose|t: int| 0 <= t < rest.len() && rest[t] == pair;
                assert(all[t + 1] == pair);
            }
            if all.contains(pair) {
                let t = choose|t: int| 0 <= t < all.len() && all[t] == pair;
                if t > 0 {
                    assert(rest[t - 1] == pair);
                }
            }
        }
    }
}

/// What `pairs_from` lists: the duplicates (s, t) with i <= s < t.
pub proof fn lemma_pairs_from_contents(ledger: Seq<LedgerRecord>, i: int, pair: (int, int))
    requires
        0 <= i,
    ensures
        pairs_from(ledger, i).contains(pair) <==> i <= pair.0 < pair.1 < ledger.len()
            && is_duplicate(ledger, pair.0, pair.1),
    decreases ledger.len() - i,
{
    if i < ledger.len() {
        let head = pairs_with(ledger, i, i + 1);
        let tail = pairs_from(ledger, i + 1);
        let all = head + tail;
        lemma_pairs_with_contents(ledger, i, i + 1, pair);
        lemma_pairs_from_contents(ledger, i + 1, pair);
        if head.contains(pair) {
            let t = choose|t: int| 0 <= t < head.len() && head[t] == pair;
            assert(all[t] == pair);
        }
        if tail.contains(pair) {
            let t = choose|t: int| 0 <= t < tail.len() && tail[t] == pair;
            assert(all[head.len() + t] == pair);
        }
        if all.contains(pair) {
            let t = choose|t: int| 0 <= t < all.len() && all[t] == pair;
            if t < head.len() {
                assert(head[t] == pair);
            } else {
                assert(tail[t - head.len()] == pair);
            }
        }
    }
}

/// The pairs that the detector reports are exactly the duplicates: the
/// pairs of positions i < j with one key and one exact value.
pub proof fn lemma_duplicate_pairs_exact(ledger: Seq<LedgerRecord>, i: int, j: int)
    ensures
        duplicate_pairs(ledger).contains((i, j)) <==> 0 <= i < j < ledger.len() && is_duplicate(
            ledger,
            i,
            j,
        ),
{
    lemma_pairs_from_contents(ledger, 0, (i, j));
}

/// In a ledger whose keys are the low words of the exact values, the
/// detector reports exactly the pairs of positions i < j with equal exact
/// values: a shared key alone is never reported, and no pair of equal
/// values is missed.
pub proof fn lemma_reported_exactly(ledger: Seq<LedgerRecord>, i: int, j: int)
    requires
        forall|t: int|
            0 <= t < ledger.len() ==> #[trigger] ledger[t] == record_of(
                ledger[t].row,
                ledger[t].column,
            ),
    ensures
        duplicate_pairs(ledger).contains((i, j)) <==> 0 <= i < j < ledger.len() && exact_of(
            ledger[i],
        ) == exact_of(ledger[j]),
{
    lemma_duplicate_pairs_exact(ledger, i, j);
}

/// An entry and its mirror image in the row are never reported as a pair:
/// two records of one row that both lie in the first half of the row, and
/// that are reported together, stand in one column.
pub proof fn lemma_no_mirror_pairs(ledger: Seq<LedgerRecord>, i: int, j: int)
    requires
        duplicate_pairs(ledger).contains((i, j)),
        ledger[i].row == ledger[j].row,
        2 * ledger[i].column <= ledger[i].row,
        2 * ledger[j].column <= ledger[j].row,
    ensures
        ledger[i].column == ledger[j].column,
{
    lemma_duplicate_pairs_exact(ledger, i, j);
    let row = ledger[i].row;
    let a = ledger[i].column;
    let b = ledger[j].column;
    if a < b {
        lemma_binomial_first_half(row, a, b);
    }
    if b < a {
        lemma_binomial_first_half(row, b, a);
    }
}

/// The records under a key after one more record.
pub proof fn lemma_with_key_push(ledger: Seq<LedgerRecord>, record: LedgerRecord, key: u64)
    ensures
        with_key(ledger.push(record), key) == if record.value == key {
            with_key(ledger, key).push(record)
        } else {
            with_key(ledger, key)
        },
{
    reveal(Seq::filter);
    assert(ledger.push(record).drop_last() =~= ledger);
}

/// A stable sort has one result: two ledgers that are both the stable sort
/// by key of a third are equal.
pub proof fn lemma_stable_sort_unique(
    first: Seq<LedgerRecord>,
    second: Seq<LedgerRecord>,
    before: Seq<LedgerRecord>,
)
    requires
        is_stable_sort_of(first, before),
        is_stable_sort_of(second, before),
    ensures
        first == second,
{
    assert forall|key: u64| #[trigger] with_key(first, key) == with_key(second, key) by {
        assert(with_key(first, key) == with_key(before, key));
        assert(with_key(second, key) == with_key(before, key));
    }
    first.to_multiset_ensures();
    second.to_multiset_ensures();
    lemma_sorted_by_key_unique(first, second);
}

/// Two sorted ledgers of one length that hold the same records under every
/// key, in the same order, are equal.
pub proof fn lemma_sorted_by_key_unique(first: Seq<LedgerRecord>, second: Seq<LedgerRecord>)
    requires
        sorted_by_key(first),
        sorted_by_key(second),
        first.len() == second.len(),
        forall|key: u64| #[trigger] with_key(first, key) == with_key(second, key),
    ensures
        first == second,
    decreases first.len(),
{
    if first.len() == 0 {
        assert(first =~= second);
    } else {
        let x = first.last();
        let y = second.last();
        let a = first.drop_last();
        let b = second.drop_last();
        assert(first =~= a.push(x));
        assert(second =~= b.push(y));
        // The last records carry one key: each ledger holds a record under
        // the other's last key, and that key is its own largest.
        lemma_with_key_push(a, x, x.value);
        lemma_with_key_push(b, y, y.value);
        lemma_with_key_push(a, x, y.value);
        lemma_with_key_push(b, y, x.value);
        lemma_with_key_holds(second, x.value);
        lemma_with_key_holds(first, y.value);
        assert(with_key(first, x.value).len() > 0);
        assert(with_key(second, x.value).len() > 0);
        assert(with_key(first, y.value).len() > 0);
        assert(x.value == y.value);
        assert(with_key(a, x.value).push(x) == with_key(b, x.value).push(y));
        assert(with_key(a, x.value).push(x).last() == x);
        assert(with_key(b, x.value).push(y).last() == y);
        assert(x == y);
        assert forall|key: u64| #[trigger] with_key(a, key) == with_key(b, key) by {
            lemma_with_key_push(a, x, key);
            lemma_with_key_push(b, y, key);
            assert(with_key(first, key) == with_key(second, key));
            if key == x.value {
                assert(with_key(a, key).push(x).drop_last() =~= with_key(a, key));
                assert(with_key(b, key).push(y).drop_last() =~= with_key(b, key));
            }
        }
        assert(sorted_by_key(a)) by {
            assert forall|i: int, j: int| 0 <= i <= j < a.len() implies a[i].value
                <= a[j].value by {
                assert(a[i] == first[i] && a[j] == first[j]);
            }
        }
        assert(sorted_by_key(b)) by {
            assert forall|i: int, j: int| 0 <= i <= j < b.len() implies b[i].value
                <= b[j].value by {
                assert(b[i] == second[i] && b[j] == second[j]);
            }
        }
        lemma_sorted_by_key_unique(a, b);
    }
}

/// Where a record stands under a key, a sorted ledger has that key at most
/// at its end: if any record of `ledger` has the key `key`, then
/// `key <= ledger.last().value`, and the records under `key` are not none.
pub proof fn lemma_with_key_holds(ledger: Seq<LedgerRecord>, key: u64)
    requires
        sorted_by_key(ledger),
    ensures
        with_key(ledger, key).len() > 0 ==> ledger.len() > 0 && key <= ledger.last().value,
        (exists|i: int| 0 <= i < ledger.len() && ledger[i].value == key) ==> with_key(
            ledger,
            key,
        ).len() > 0,
    decreases ledger.len(),
{
    reveal(Seq::filter);
    if ledger.len() > 0 {
        let shorter = ledger.drop_last();
        assert(sorted_by_key(shorter)) by {
            assert forall|i: int, j: int| 0 <= i <= j < shorter.len() implies shorter[i].value
                <= shorter[j].value by {
                assert(shorter[i] == ledger[i] && shorter[j] == ledger[j]);
            }
        }
        lemma_with_key_holds(shorter, key);
        if with_key(shorter, key).len() > 0 {
            assert(shorter.last() == ledger[ledger.len() - 2]);
        }
        if exists|i: int| 0 <= i < ledger.len() && ledger[i].value == key {
            let i = choose|i: int| 0 <= i < ledger.len() && ledger[i].value == key;
            if i < ledger.len() - 1 {
                assert(shorter[i].value == key);
            }
        }
    }
}

/// The detector is deterministic: two runs on ledgers of the same records
/// leave the same sorted ledger and report the same pairs, in the same
/// order and with the same exact values.
pub proof fn lemma_detection_deterministic(
    before: Seq<LedgerRecord>,
    ledger_a: Seq<PascalEntry>,
    found_a: Seq<Duplicate>,
    ledger_b: Seq<PascalEntry>,
    found_b: Seq<Duplicate>,
)
    requires
        is_stable_sort_of(records(ledger_a), before),
        reports(found_a, ledger_a),
        is_stable_sort_of(records(ledger_b), before),
        reports(found_b, ledger_b),
    ensures
        ledger_a == ledger_b,
        same_duplicates(found_a, found_b),
{
    lemma_stable_sort_unique(records(ledger_a), records(ledger_b), before);
    assert(ledger_a.len() == records(ledger_a).len());
    assert(ledger_b.len() == records(ledger_b).len());
    assert forall|i: int| 0 <= i < ledger_a.len() implies ledger_a[i] == ledger_b[i] by {
        assert(records(ledger_a)[i] == ledger_a[i]@);
        assert(records(ledger_b)[i] == ledger_b[i]@);
        ledger_a[i].lemma_view_injective(ledger_b[i]);
    }
    assert(ledger_a =~= ledger_b);
    let pairs = duplicate_pairs(records(ledger_a));
    assert forall|t: int| 0 <= t < found_a.len() implies (#[trigger] found_a[t]).first
        == found_b[t].first && found_a[t].second == found_b[t].second && found_a[t].value@
        == found_b[t].value@ by {
        assert(is_report_of(found_a[t], ledger_a, pairs[t]));
        assert(is_report_of(found_b[t], ledger_b, pairs[t]));
    }
}

/// Sorts the ledger by key. Calls `sort_by_key` of the slice, with the
/// entry's key as the key: the sort is stable, so entries under one key keep
/// their order.
#[verifier::external_body]
fn sort_by_value(entries: &mut Vec<PascalEntry>)
    ensures
        is_stable_sort_of(records(final(entries)@), records(old(entries)@)),
{
    entries.sort_by_key(|entry| entry.value());
}

/// Sorts the ledger by key and reports every true duplicate: every pair of
/// records with one key whose exact values are equal as well. Exact values
/// are computed only within runs of two or more records with one key.
pub fn find_duplicates_in(entries: &mut Vec<PascalEntry>) -> (found: Vec<Duplicate>)
    requires
        forall|i: int|
            0 <= i < old(entries)@.len() ==> (#[trigger] old(entries)@[i])@.column <= old(
                entries,
            )@[i]@.row,
    ensures
        is_stable_sort_of(records(final(entries)@), records(old(entries)@)),
        reports(found@, final(entries)@),
{
    sort_by_value(entries);
    let n = entries.len();
    let ghost ledger = records(entries@);
    let ghost total = duplicate_pairs(ledger);
    proof {
        assert forall|i: int| 0 <= i < entries@.len() implies (#[trigger] entries@[i])@.column
            <= entries@[i]@.row by {
            let record = ledger[i];
            let before = records(old(entries)@);
            ledger.to_multiset_ensures();
            before.to_multiset_ensures();
            assert(ledger.contains(record));
            assert(ledger.to_multiset().count(record) > 0);
            assert(before.to_multiset().count(record) > 0);
            assert(before.contains(record));
            let k = choose|k: int| 0 <= k < before.len() && before[k] == record;
            assert(old(entries)@[k]@ == record);
        }
    }
    let mut found: Vec<Duplicate> = Vec::new();
    let ghost mut pairs: Seq<(int, int)> = Seq::empty();
    let mut start: usize = 0;
    while start < n
        invariant
            n == entries@.len(),
            ledger == records(entries@),
            total == duplicate_pairs(ledger),
            sorted_by_key(ledger),
            forall|i: int|
                0 <= i < entries@.len() ==> (#[trigger] entries@[i])@.column <= entries@[i]@.row,
            start <= n,
            pairs + pairs_from(ledger, start as int) =~= total,
            lists(found@, entries@, pairs),
        decreases n - start,
    {
        let key = entries[start].value();
        let mut end: usize = start + 1;
        while end < n && entries[end].value() == key
            invariant
                n == entries@.len(),
                ledger == records(entries@),
                start < end <= n,
                key == ledger[start as int].value,
                forall|t: int| start <= t < end ==> (#[trigger] ledger[t]).value == key,
            decreases n - end,
        {
            end = end + 1;
        }
        proof {
            assert forall|t: int| end <= t < n implies (#[trigger] ledger[t]).value > key by {
                assert(ledger[end as int].value <= ledger[t].value);
                assert(ledger[start as int].value <= ledger[end as int].value);
            }
        }
        let mut i: usize = start;
        while i + 1 < end
            invariant
                n == entries@.len(),
                ledger == records(entries@),
                total == duplicate_pairs(ledger),
                forall|i: int|
                    0 <= i < entries@.len() ==> (#[trigger] entries@[i])@.column
                        <= entries@[i]@.row,
                start <= i < end <= n,
                forall|t: int| start <= t < end ==> (#[trigger] ledger[t]).value == key,
                forall|t: int| end <= t < n ==> (#[trigger] ledger[t]).value > key,
                pairs + pairs_from(ledger, i as int) =~= total,
                lists(found@, entries@, pairs),
            decreases end - i,
        {
            let first = entries[i];
            let value = first.full_value();
            let mut j: usize = i + 1;
            while j < end
                invariant
                    n == entries@.len(),
                    ledger == records(entries@),
                    total == duplicate_pairs(ledger),
                    forall|i: int|
                        0 <= i < entries@.len() ==> (#[trigger] entries@[i])@.column
                            <= entries@[i]@.row,
                    start <= i < j <= end <= n,
                    first == entries@[i as int],
                    value@ == exact_of(ledger[i as int]),
                    forall|t: int| start <= t < end ==> (#[trigger] ledger[t]).value == key,
                    pairs + pairs_with(ledger, i as int, j as int) + pairs_from(
                        ledger,
                        i as int + 1,
                    ) =~= total,
                    lists(found@, entries@, pairs),
                decreases end - j,
            {
                let second = entries[j];
                let other = second.full_value();
                if value.is_equal(&other) {
                    let ghost before = found@;
                    let ghost listed = pairs;
                    found.push(Duplicate { first, second, value: other });
                    proof {
                        assert(is_duplicate(ledger, i as int, j as int));
                        pairs = listed.push((i as int, j as int));
                        assert(pairs + pairs_with(ledger, i as int, j as int + 1) =~= listed
                            + pairs_with(ledger, i as int, j as int));
                        assert forall|t: int| 0 <= t < found@.len() implies is_report_of(
                            #[trigger] found@[t],
                            entries@,
                            pairs[t],
                        ) by {
                            if t < before.len() {
                                assert(found@[t] == before[t]);
                                assert(pairs[t] == listed[t]);
                            } else {
                                assert(pairs[t] == (i as int, j as int));
                                assert(ledger[i as int] == entries@[i as int]@);
                                assert(ledger[j as int] == entries@[j as int]@);
                            }
                        }
                    }
                } else {
                    proof {
                        assert(!is_duplicate(ledger, i as int, j as int));
                    }
                }
                j = j + 1;
            }
            proof {
                lemma_pairs_with_none(ledger, i as int, end as int);
            }
            i = i + 1;
        }
        proof {
            // The last entry of a run has no partner in it.
            lemma_pairs_with_none(ledger, i as int, end as int);
        }
        start = end;
    }
    found
}

} // verus!
