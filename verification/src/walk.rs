//! Per-listing traversal decisions.
//!
//! The caller walks the directory tree and owns the I/O; this module owns
//! every decision. For one directory listing, [`process_listing`] records
//! every leaf container whose name fits the counting pattern and returns
//! the indices of the entries the caller must descend into, each one level
//! deeper. An entry is tested as a leaf first: a leaf container is counted
//! even at the depth limit and is never descended into; a non-leaf entry
//! at the depth limit stops the walk along that branch.

use vstd::prelude::*;
use crate::pattern::is_leaf_name;
use crate::pattern::is_ovro_ms_file;
use crate::pattern::has_pattern;
use crate::table::CountTable;
use crate::table::count_at;
use crate::table::counter_after;
use crate::table::lemma_record_spec_count;
use crate::table::update_counter;

verus! {

/// One directory entry, as the caller lists it: the entry's name and
/// whether it is a directory.
pub struct Entry {
    pub name: Vec<u8>,
    pub is_dir: bool,
}

/// The entry is a leaf container: a directory whose trimmed name ends
/// with the leaf suffix.
pub open spec fn entry_is_leaf(e: Entry) -> bool {
    e.is_dir && is_leaf_name(e.name@)
}

/// The entry contributes one count: it is a leaf container and its name
/// fits the counting pattern.
pub open spec fn entry_counted(e: Entry) -> bool {
    entry_is_leaf(e) && has_pattern(e.name@)
}

/// The walk descends into the entry: it is a directory, it is not a leaf
/// container (a leaf is never opened, whatever depth remains), and the
/// depth limit is not yet reached.
pub open spec fn should_descend(e: Entry, depth: int, max_depth: int) -> bool {
    !entry_is_leaf(e) && depth != max_depth && e.is_dir
}

/// The table after every counted entry of a listing is recorded, in
/// listing order.
pub open spec fn record_entries(m: Map<int, Map<int, nat>>, entries: Seq<Entry>) -> Map<
    int,
    Map<int, nat>,
>
    decreases entries.len(),
{
    if entries.len() == 0 {
        m
    } else {
        let prev = record_entries(m, entries.drop_last());
        if entry_counted(entries.last()) {
            counter_after(prev, entries.last().name@)
        } else {
            prev
        }
    }
}

/// A listing of `k` entries raises no count by more than `k`.
pub proof fn lemma_record_entries_bound(
    m: Map<int, Map<int, nat>>,
    entries: Seq<Entry>,
    d: int,
    b: int,
)
    ensures
        count_at(record_entries(m, entries), d, b) <= count_at(m, d, b) + entries.len(),
    decreases entries.len(),
{
    if entries.len() > 0 {
        lemma_record_entries_bound(m, entries.drop_last(), d, b);
        let prev = record_entries(m, entries.drop_last());
        let e = entries.last();
        if entry_counted(e) {
            lemma_record_spec_count(
                prev,
                crate::pattern::pattern_date(e.name@) as int,
                crate::pattern::pattern_band(e.name@) as int,
                d,
                b,
            );
        }
    }
}

/// Handles one directory listing at depth `depth`: records every counted
/// leaf container and returns, in ascending order, the indices of exactly
/// those entries the walk descends into.
#[verifier::loop_isolation(false)]
pub fn process_listing(
    entries: &Vec<Entry>,
    depth: usize,
    max_depth: usize,
    table: &mut CountTable,
) -> (descend: Vec<usize>)
    requires
        old(table).wf(),
        forall|d: int, b: int| count_at(old(table)@, d, b) + entries@.len() <= usize::MAX,
    ensures
        final(table).wf(),
        final(table)@ == record_entries(old(table)@, entries@),
        forall|k: int|
            0 <= k < descend@.len() ==> (#[trigger] descend@[k]) < entries@.len()
                && should_descend(entries@[descend@[k] as int], depth as int, max_depth as int),
        forall|k: int, l: int| 0 <= k < l < descend@.len() ==> descend@[k] < descend@[l],
        forall|idx: int|
            0 <= idx < entries@.len() && should_descend(
                #[trigger] entries@[idx],
                depth as int,
                max_depth as int,
            ) ==> exists|k: int| 0 <= k < descend@.len() && #[trigger] descend@[k] as int == idx,
{
    let ghost m0 = old(table)@;
    let n = entries.len();
    let mut descend: Vec<usize> = Vec::new();
    let mut idx: usize = 0;
    while idx < n
        invariant
            idx <= n,
            table.wf(),
            table@ == record_entries(m0, entries@.take(idx as int)),
            forall|k: int|
                0 <= k < descend@.len() ==> (#[trigger] descend@[k]) < idx && should_descend(
                    entries@[descend@[k] as int],
                    depth as int,
                    max_depth as int,
                ),
            forall|k: int, l: int| 0 <= k < l < descend@.len() ==> descend@[k] < descend@[l],
            forall|i: int|
                0 <= i < idx && should_descend(
                    #[trigger] entries@[i],
                    depth as int,
                    max_depth as int,
                ) ==> exists|k: int| 0 <= k < descend@.len() && #[trigger] descend@[k] as int
                    == i,
        decreases n - idx,
    {
        let ghost pre = entries@.take(idx as int);
        let e = &entries[idx];
        let is_leaf = is_ovro_ms_file(e.name.as_slice(), e.is_dir);
        if is_leaf {
            proof {
                if has_pattern(e.name@) {
                    lemma_record_entries_bound(
                        m0,
                        pre,
                        crate::pattern::pattern_date(e.name@) as int,
                        crate::pattern::pattern_band(e.name@) as int,
                    );
                }
            }
            update_counter(e.name.as_slice(), table);
        } else if depth == max_depth {
            // the depth budget is spent: do not report, do not descend
        } else if e.is_dir {
            let ghost descend0 = descend@;
            descend.push(idx);
            proof {
                assert forall|i: int|
                    0 <= i < idx + 1 && should_descend(
                        #[trigger] entries@[i],
                        depth as int,
                        max_depth as int,
                    ) implies exists|k: int|
                    0 <= k < descend@.len() && #[trigger] descend@[k] as int == i by {
                    if i == idx as int {
                        assert(descend@[descend@.len() - 1] as int == i);
                    } else {
                        let k = choose|k: int|
                            0 <= k < descend0.len() && #[trigger] descend0[k] as int == i;
                        assert(descend@[k] as int == i);
                    }
                }
            }
        }
        proof {
            assert(entries@.take(idx + 1).drop_last() =~= pre);
            assert(entries@.take(idx + 1).last() == entries@[idx as int]);
            assert(table@ == record_entries(m0, entries@.take(idx + 1)));
        }
        idx = idx + 1;
    }
    proof {
        assert(entries@.take(n as int) =~= entries@);
    }
    descend
}

/// The `(date, band)` matches a listing contributes, in listing order.
pub open spec fn matches_of(entries: Seq<Entry>) -> Seq<(int, int)>
    decreases entries.len(),
{
    if entries.len() == 0 {
        Seq::empty()
    } else {
        let prev = matches_of(entries.drop_last());
        let e = entries.last();
        if entry_counted(e) {
            prev.push(
                (
                    crate::pattern::pattern_date(e.name@) as int,
                    crate::pattern::pattern_band(e.name@) as int,
                ),
            )
        } else {
            prev
        }
    }
}

/// Processing a listing records exactly the listing's matches, in listing
/// order; with `lemma_record_order_independent`, visiting the same leaf
/// containers in any order leaves the same table.
pub proof fn lemma_record_entries_as_matches(m: Map<int, Map<int, nat>>, entries: Seq<Entry>)
    ensures
        record_entries(m, entries) == crate::table::record_all(m, matches_of(entries)),
    decreases entries.len(),
{
    if entries.len() > 0 {
        lemma_record_entries_as_matches(m, entries.drop_last());
        let e = entries.last();
        if entry_counted(e) {
            let prev = matches_of(entries.drop_last());
            let p = (
                crate::pattern::pattern_date(e.name@) as int,
                crate::pattern::pattern_band(e.name@) as int,
            );
            assert(prev.push(p).drop_last() =~= prev);
            assert(prev.push(p).last() == p);
        }
    }
}

/// A leaf container is never descended into, whatever the depth and
/// however much depth budget remains.
pub proof fn lemma_leaf_never_descended(e: Entry, depth: int, max_depth: int)
    ensures
        entry_is_leaf(e) ==> !should_descend(e, depth, max_depth),
{
}

/// The depth boundary: nothing at exactly the depth limit is descended
/// into, so no entry deeper than the limit is ever visited — while a leaf
/// container there is still counted, since [`record_entries`] does not
/// consult the depth at all.
pub proof fn lemma_depth_boundary(e: Entry, max_depth: int)
    ensures
        !should_descend(e, max_depth, max_depth),
{
}

} // verus!