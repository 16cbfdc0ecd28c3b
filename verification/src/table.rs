//! The count table: an ordered mapping from date to an ordered mapping from
//! band to a count, together with the consolidation step that makes the
//! table rectangular.
//!
//! The executable table keeps rows sorted by date and each row's counts
//! sorted by band. Its mathematical model is a `Map<int, Map<int, nat>>`
//! from date to band to count.

use vstd::prelude::*;
use crate::pattern::find_match;
use crate::pattern::has_pattern;
use crate::pattern::pattern_band;
use crate::pattern::pattern_date;

verus! {

/// One row of the table: a date and its per-band counts.
pub struct Row {
    pub date: u32,
    pub counts: Vec<(u8, usize)>,
}

/// The cross-tabulation of counts by date and band.
pub struct CountTable {
    pub rows: Vec<Row>,
}

/// The bands of a row are in strictly ascending order (so each band
/// appears at most once).
pub open spec fn bands_sorted(s: Seq<(u8, usize)>) -> bool {
    forall|i: int, j: int| 0 <= i < j < s.len() ==> (#[trigger] s[i]).0 < (#[trigger] s[j]).0
}

/// The rows of a table are in strictly ascending date order (so each date
/// appears at most once).
pub open spec fn rows_sorted(rows: Seq<Row>) -> bool {
    forall|i: int, j: int|
        0 <= i < j < rows.len() ==> (#[trigger] rows[i]).date < (#[trigger] rows[j]).date
}

/// The per-band counts of one row, as a map from band to count.
pub open spec fn bands_of(s: Seq<(u8, usize)>) -> Map<int, nat> {
    Map::new(
        |b: int| exists|i: int| 0 <= i < s.len() && (#[trigger] s[i]).0 as int == b,
        |b: int|
            (s[choose|i: int| 0 <= i < s.len() && (#[trigger] s[i]).0 as int == b].1) as nat,
    )
}

/// The whole table, as a map from date to that date's band counts.
pub open spec fn table_view_of(rows: Seq<Row>) -> Map<int, Map<int, nat>> {
    Map::new(
        |d: int| exists|i: int| 0 <= i < rows.len() && (#[trigger] rows[i]).date as int == d,
        |d: int|
            bands_of(
                rows[choose|i: int|
                    0 <= i < rows.len() && (#[trigger] rows[i]).date as int == d].counts@,
            ),
    )
}

impl View for CountTable {
    type V = Map<int, Map<int, nat>>;

    open spec fn view(&self) -> Map<int, Map<int, nat>> {
        table_view_of(self.rows@)
    }
}

/// A date field is eight digits, a band field two digits.
pub open spec fn row_wf(r: Row) -> bool {
    &&& r.date < 100_000_000
    &&& bands_sorted(r.counts@)
    &&& forall|i: int| 0 <= i < r.counts@.len() ==> (#[trigger] r.counts@[i]).0 < 100
}

impl CountTable {
    /// The table's internal invariant: rows sorted by date, each row's
    /// counts sorted by band, all fields in range.
    pub open spec fn wf(self) -> bool {
        &&& rows_sorted(self.rows@)
        &&& forall|i: int| 0 <= i < self.rows@.len() ==> row_wf(#[trigger] self.rows@[i])
    }
}

/// The count recorded at `(d, b)`, zero where nothing was recorded.
pub open spec fn count_at(m: Map<int, Map<int, nat>>, d: int, b: int) -> nat {
    if m.dom().contains(d) && m[d].dom().contains(b) {
        m[d][b]
    } else {
        0
    }
}

/// Recording one match: the count at `(d, b)` grows by one, rows and
/// columns are created as needed, everything else is untouched.
pub open spec fn record_spec(m: Map<int, Map<int, nat>>, d: int, b: int) -> Map<
    int,
    Map<int, nat>,
> {
    let row = if m.dom().contains(d) {
        m[d]
    } else {
        Map::<int, nat>::empty()
    };
    m.insert(d, row.insert(b, count_at(m, d, b) + 1))
}

/// The set of distinct bands observed across all dates.
pub open spec fn all_bands(m: Map<int, Map<int, nat>>) -> Set<int> {
    Set::new(|b: int| exists|d: int| #[trigger] m.dom().contains(d) && m[d].dom().contains(b))
}

/// One row back-filled with an explicit zero for every band of `bs` it
/// lacks.
pub open spec fn zero_fill(row: Map<int, nat>, bs: Set<int>) -> Map<int, nat> {
    Map::new(
        |b: int| row.dom().contains(b) || bs.contains(b),
        |b: int|
            if row.dom().contains(b) {
                row[b]
            } else {
                0
            },
    )
}

/// Consolidation: every date keeps its counts and gains an explicit zero
/// for every band observed anywhere in the table.
pub open spec fn consolidate_spec(m: Map<int, Map<int, nat>>) -> Map<int, Map<int, nat>> {
    Map::new(|d: int| m.dom().contains(d), |d: int| zero_fill(m[d], all_bands(m)))
}

/// Looking one row's counts up at one of its own bands.
pub proof fn lemma_bands_index(s: Seq<(u8, usize)>, i: int)
    requires
        bands_sorted(s),
        0 <= i < s.len(),
    ensures
        bands_of(s).dom().contains(s[i].0 as int),
        bands_of(s)[s[i].0 as int] == s[i].1 as nat,
{
    let b = s[i].0 as int;
    assert(bands_of(s).dom().contains(b));
    let j = choose|j: int| 0 <= j < s.len() && (#[trigger] s[j]).0 as int == b;
    if j < i {
        assert(s[j].0 < s[i].0);
    }
    if i < j {
        assert(s[i].0 < s[j].0);
    }
    assert(j == i);
}

/// A band carried by none of the entries is not in the row's map.
pub proof fn lemma_bands_absent(s: Seq<(u8, usize)>, b: int)
    requires
        forall|i: int| 0 <= i < s.len() ==> (#[trigger] s[i]).0 as int != b,
    ensures
        !bands_of(s).dom().contains(b),
{
}

/// Replacing one entry's count updates the row's map at that band alone.
pub proof fn lemma_bands_update(s: Seq<(u8, usize)>, j: int, c: usize)
    requires
        bands_sorted(s),
        0 <= j < s.len(),
    ensures
        bands_of(s.update(j, (s[j].0, c))) =~= bands_of(s).insert(s[j].0 as int, c as nat),
        bands_sorted(s.update(j, (s[j].0, c))),
{
    let b = s[j].0 as int;
    let t = s.update(j, (s[j].0, c));
    assert forall|i: int, k: int| 0 <= i < k < t.len() implies (#[trigger] t[i]).0 < (
    #[trigger] t[k]).0 by {
        assert(s[i].0 < s[k].0);
    }
    assert forall|x: int|
        bands_of(t).dom().contains(x) == bands_of(s).insert(b, c as nat).dom().contains(
            x,
        ) by {
        if bands_of(t).dom().contains(x) {
            let i = choose|i: int| 0 <= i < t.len() && (#[trigger] t[i]).0 as int == x;
            assert(s[i].0 == t[i].0);
            assert(bands_of(s).dom().contains(x));
        }
        if bands_of(s).dom().contains(x) {
            let i = choose|i: int| 0 <= i < s.len() && (#[trigger] s[i]).0 as int == x;
            assert(t[i].0 == s[i].0);
            assert(bands_of(t).dom().contains(x));
        }
    }
    assert forall|x: int| bands_of(t).dom().contains(x) implies bands_of(t)[x] == bands_of(
        s,
    ).insert(b, c as nat)[x] by {
        let i = choose|i: int| 0 <= i < t.len() && (#[trigger] t[i]).0 as int == x;
        lemma_bands_index(t, i);
        if x == b {
            if i < j {
                assert(t[i].0 < t[j].0);
            }
            if j < i {
                assert(t[j].0 < t[i].0);
            }
            assert(i == j);
            assert(bands_of(t)[x] == c as nat);
        } else {
            assert(i != j);
            assert(s[i] == t[i]);
            lemma_bands_index(s, i);
        }
    }
}

/// Inserting a fresh band at its sorted position adds exactly that band
/// to the row's map and keeps the row sorted.
pub proof fn lemma_bands_insert(s: Seq<(u8, usize)>, j: int, b: u8, c: usize)
    requires
        bands_sorted(s),
        0 <= j <= s.len(),
        forall|k: int| 0 <= k < j ==> (#[trigger] s[k]).0 < b,
        forall|k: int| j <= k < s.len() ==> (#[trigger] s[k]).0 > b,
    ensures
        bands_of(s.insert(j, (b, c))) =~= bands_of(s).insert(b as int, c as nat),
        bands_sorted(s.insert(j, (b, c))),
{
    let t = s.insert(j, (b, c));
    s.insert_ensures(j, (b, c));
    assert forall|i: int, k: int| 0 <= i < k < t.len() implies (#[trigger] t[i]).0 < (
    #[trigger] t[k]).0 by {
        if i < j && k < j {
            assert(t[i] == s[i] && t[k] == s[k]);
        } else if i < j && k == j {
            assert(t[i] == s[i]);
        } else if i < j && k > j {
            assert(t[i] == s[i] && t[k] == s[k - 1]);
            assert(s[i].0 < b && s[k - 1].0 > b);
        } else if i == j {
            assert(t[k] == s[k - 1]);
        } else {
            assert(t[i] == s[i - 1] && t[k] == s[k - 1]);
        }
    }
    assert forall|x: int|
        bands_of(t).dom().contains(x) == bands_of(s).insert(b as int, c as nat).dom().contains(
            x,
        ) by {
        if bands_of(t).dom().contains(x) {
            let i = choose|i: int| 0 <= i < t.len() && (#[trigger] t[i]).0 as int == x;
            if i < j {
                assert(s[i].0 as int == x);
            } else if i > j {
                assert(s[i - 1].0 as int == x);
            }
        }
        if bands_of(s).insert(b as int, c as nat).dom().contains(x) {
            if x == b as int {
                assert(t[j].0 as int == x);
                assert(bands_of(t).dom().contains(x));
            } else {
                let i = choose|i: int| 0 <= i < s.len() && (#[trigger] s[i]).0 as int == x;
                if i < j {
                    assert(t[i].0 as int == x);
                } else {
                    assert(t[i + 1].0 as int == x);
                }
                assert(bands_of(t).dom().contains(x));
            }
        }
    }
    assert forall|x: int| bands_of(t).dom().contains(x) implies bands_of(t)[x] == bands_of(
        s,
    ).insert(b as int, c as nat)[x] by {
        let i = choose|i: int| 0 <= i < t.len() && (#[trigger] t[i]).0 as int == x;
        lemma_bands_index(t, i);
        if x == b as int {
            if i < j {
                assert(t[i] == s[i]);
                assert(s[i].0 < b);
            }
            if i > j {
                assert(t[i] == s[i - 1]);
                assert(s[i - 1].0 > b);
            }
            assert(i == j);
            assert(bands_of(t)[x] == c as nat);
        } else {
            assert(i != j);
            if i < j {
                assert(t[i] == s[i]);
                lemma_bands_index(s, i);
            } else {
                assert(t[i] == s[i - 1]);
                lemma_bands_index(s, i - 1);
            }
        }
    }
}

/// Looking the table up at the date of one of its own rows.
pub proof fn lemma_rows_index(rows: Seq<Row>, i: int)
    requires
        rows_sorted(rows),
        0 <= i < rows.len(),
    ensures
        table_view_of(rows).dom().contains(rows[i].date as int),
        table_view_of(rows)[rows[i].date as int] == bands_of(rows[i].counts@),
{
    let d = rows[i].date as int;
    assert(table_view_of(rows).dom().contains(d));
    let j = choose|j: int| 0 <= j < rows.len() && (#[trigger] rows[j]).date as int == d;
    if j < i {
        assert(rows[j].date < rows[i].date);
    }
    if i < j {
        assert(rows[i].date < rows[j].date);
    }
    assert(j == i);
}

/// A date carried by no row is not in the table's map.
pub proof fn lemma_rows_absent(rows: Seq<Row>, d: int)
    requires
        forall|i: int| 0 <= i < rows.len() ==> (#[trigger] rows[i]).date as int != d,
    ensures
        !table_view_of(rows).dom().contains(d),
{
}

/// Replacing one row by another with the same date updates the table's
/// map at that date alone.
pub proof fn lemma_rows_update(rows: Seq<Row>, j: int, r: Row)
    requires
        rows_sorted(rows),
        0 <= j < rows.len(),
        r.date == rows[j].date,
    ensures
        table_view_of(rows.update(j, r)) =~= table_view_of(rows).insert(
            r.date as int,
            bands_of(r.counts@),
        ),
        rows_sorted(rows.update(j, r)),
{
    let d = r.date as int;
    let t = rows.update(j, r);
    assert forall|i: int, k: int| 0 <= i < k < t.len() implies (#[trigger] t[i]).date < (
    #[trigger] t[k]).date by {
        assert(rows[i].date < rows[k].date);
    }
    assert forall|x: int|
        table_view_of(t).dom().contains(x) == table_view_of(rows).insert(
            d,
            bands_of(r.counts@),
        ).dom().contains(x) by {
        if table_view_of(t).dom().contains(x) {
            let i = choose|i: int| 0 <= i < t.len() && (#[trigger] t[i]).date as int == x;
            assert(rows[i].date == t[i].date);
            assert(table_view_of(rows).dom().contains(x));
        }
        if table_view_of(rows).dom().contains(x) {
            let i = choose|i: int| 0 <= i < rows.len() && (#[trigger] rows[i]).date as int == x;
            assert(t[i].date == rows[i].date);
            assert(table_view_of(t).dom().contains(x));
        }
    }
    assert forall|x: int| table_view_of(t).dom().contains(x) implies table_view_of(t)[x]
        == table_view_of(rows).insert(d, bands_of(r.counts@))[x] by {
        let i = choose|i: int| 0 <= i < t.len() && (#[trigger] t[i]).date as int == x;
        lemma_rows_index(t, i);
        if x == d {
            if i < j {
                assert(t[i].date < t[j].date);
            }
            if j < i {
                assert(t[j].date < t[i].date);
            }
            assert(i == j);
            assert(table_view_of(t)[x] == bands_of(r.counts@));
        } else {
            assert(i != j);
            assert(rows[i] == t[i]);
            lemma_rows_index(rows, i);
        }
    }
}

/// Inserting a row with a fresh date at its sorted position adds exactly
/// that date to the table's map and keeps the rows sorted.
pub proof fn lemma_rows_insert(rows: Seq<Row>, j: int, r: Row)
    requires
        rows_sorted(rows),
        0 <= j <= rows.len(),
        forall|k: int| 0 <= k < j ==> (#[trigger] rows[k]).date < r.date,
        forall|k: int| j <= k < rows.len() ==> (#[trigger] rows[k]).date > r.date,
    ensures
        table_view_of(rows.insert(j, r)) =~= table_view_of(rows).insert(
            r.date as int,
            bands_of(r.counts@),
        ),
        rows_sorted(rows.insert(j, r)),
{
    let d = r.date as int;
    let t = rows.insert(j, r);
    rows.insert_ensures(j, r);
    assert forall|i: int, k: int| 0 <= i < k < t.len() implies (#[trigger] t[i]).date < (
    #[trigger] t[k]).date by {
        if i < j && k < j {
            assert(t[i] == rows[i] && t[k] == rows[k]);
        } else if i < j && k == j {
            assert(t[i] == rows[i]);
        } else if i < j && k > j {
            assert(t[i] == rows[i] && t[k] == rows[k - 1]);
            assert(rows[i].date < r.date && rows[k - 1].date > r.date);
        } else if i == j {
            assert(t[k] == rows[k - 1]);
        } else {
            assert(t[i] == rows[i - 1] && t[k] == rows[k - 1]);
        }
    }
    assert forall|x: int|
        table_view_of(t).dom().contains(x) == table_view_of(rows).insert(
            d,
            bands_of(r.counts@),
        ).dom().contains(x) by {
        if table_view_of(t).dom().contains(x) {
            let i = choose|i: int| 0 <= i < t.len() && (#[trigger] t[i]).date as int == x;
            if i < j {
                assert(rows[i].date as int == x);
            } else if i > j {
                assert(rows[i - 1].date as int == x);
            }
        }
        if table_view_of(rows).insert(d, bands_of(r.counts@)).dom().contains(x) {
            if x == d {
                assert(t[j].date as int == x);
                assert(table_view_of(t).dom().contains(x));
            } else {
                let i = choose|i: int|
                    0 <= i < rows.len() && (#[trigger] rows[i]).date as int == x;
                if i < j {
                    assert(t[i].date as int == x);
                } else {
                    assert(t[i + 1].date as int == x);
                }
                assert(table_view_of(t).dom().contains(x));
            }
        }
    }
    assert forall|x: int| table_view_of(t).dom().contains(x) implies table_view_of(t)[x]
        == table_view_of(rows).insert(d, bands_of(r.counts@))[x] by {
        let i = choose|i: int| 0 <= i < t.len() && (#[trigger] t[i]).date as int == x;
        lemma_rows_index(t, i);
        if x == d {
            if i < j {
                assert(t[i] == rows[i]);
                assert(rows[i].date < r.date);
            }
            if i > j {
                assert(t[i] == rows[i - 1]);
                assert(rows[i - 1].date > r.date);
            }
            assert(i == j);
            assert(table_view_of(t)[x] == bands_of(r.counts@));
        } else {
            assert(i != j);
            if i < j {
                assert(t[i] == rows[i]);
                lemma_rows_index(rows, i);
            } else {
                assert(t[i] == rows[i - 1]);
                lemma_rows_index(rows, i - 1);
            }
        }
    }
}

impl CountTable {
    /// An empty table: no dates, no bands.
    pub fn new() -> (t: CountTable)
        ensures
            t.wf(),
            t@ =~= Map::<int, Map<int, nat>>::empty(),
    {
        let t = CountTable { rows: Vec::new() };
        proof {
            lemma_rows_absent(t.rows@, 0);
            assert(t@ =~= Map::<int, Map<int, nat>>::empty());
        }
        t
    }

    /// Records one match: the count at `(date, band)` grows by one, with
    /// the row and the column created as needed. Nothing else changes.
    #[verifier::loop_isolation(false)]
    pub fn record(&mut self, date: u32, band: u8)
        requires
            old(self).wf(),
            date < 100_000_000,
            band < 100,
            count_at(old(self)@, date as int, band as int) < usize::MAX,
        ensures
            final(self).wf(),
            final(self)@ == record_spec(old(self)@, date as int, band as int),
    {
        let ghost m0 = old(self)@;
        let ghost rows0 = old(self).rows@;
        let ghost d = date as int;
        let ghost b = band as int;
        let n = self.rows.len();
        let mut i: usize = 0;
        while i < n && self.rows[i].date < date
            invariant
                i <= n,
                self.rows@ == rows0,
                forall|k: int| 0 <= k < i ==> (#[trigger] rows0[k]).date < date,
            decreases n - i,
        {
            i = i + 1;
        }
        if i < n && self.rows[i].date == date {
            proof {
                lemma_rows_index(rows0, i as int);
            }
            let mut row = self.rows.remove(i);
            let ghost counts0 = row.counts@;
            let m = row.counts.len();
            let mut j: usize = 0;
            while j < m && row.counts[j].0 < band
                invariant
                    j <= m,
                    row == rows0[i as int],
                    m == row.counts@.len(),
                    forall|k: int| 0 <= k < j ==> (#[trigger] counts0[k]).0 < band,
                decreases m - j,
            {
                j = j + 1;
            }
            if j < m && row.counts[j].0 == band {
                proof {
                    lemma_bands_index(counts0, j as int);
                    assert(count_at(m0, d, b) == counts0[j as int].1 as nat);
                }
                let c = row.counts[j].1;
                row.counts.set(j, (band, c + 1));
                proof {
                    lemma_bands_update(counts0, j as int, (c + 1) as usize);
                    assert(counts0.update(j as int, (counts0[j as int].0, (c + 1) as usize))
                        =~= row.counts@);
                }
            } else {
                proof {
                    assert forall|k: int| j <= k < counts0.len() implies (
                    #[trigger] counts0[k]).0 > band by {
                        if k > j as int {
                            assert(counts0[j as int].0 < counts0[k].0);
                        }
                    }
                    lemma_bands_absent(counts0, b);
                    assert(count_at(m0, d, b) == 0);
                }
                row.counts.insert(j, (band, 1));
                proof {
                    lemma_bands_insert(counts0, j as int, band, 1);
                }
            }
            proof {
                assert(bands_of(row.counts@) == bands_of(counts0).insert(
                    b,
                    count_at(m0, d, b) + 1,
                ));
                assert forall|k: int| 0 <= k < row.counts@.len() implies (
                #[trigger] row.counts@[k]).0 < 100 by {
                    if j < m && counts0[j as int].0 == band {
                        assert(row.counts@ == counts0.update(
                            j as int,
                            (counts0[j as int].0, row.counts@[j as int].1 as usize),
                        ));
                    }
                }
            }
            self.rows.insert(i, row);
            proof {
                assert(self.rows@ =~= rows0.update(i as int, self.rows@[i as int]));
                lemma_rows_update(rows0, i as int, self.rows@[i as int]);
                assert(self@ =~= record_spec(m0, d, b));
            }
        } else {
            proof {
                assert forall|k: int| 0 <= k < rows0.len() implies (#[trigger] rows0[k]).date
                    as int != d by {
                    if k >= i as int && k > i as int {
                        assert(rows0[i as int].date < rows0[k].date);
                    }
                }
                lemma_rows_absent(rows0, d);
                assert(count_at(m0, d, b) == 0);
            }
            let mut counts: Vec<(u8, usize)> = Vec::new();
            counts.push((band, 1));
            let row = Row { date, counts };
            proof {
                assert(row.counts@ =~= Seq::<(u8, usize)>::empty().insert(0, (band, 1usize)));
                lemma_bands_insert(Seq::<(u8, usize)>::empty(), 0, band, 1);
                lemma_bands_absent(Seq::<(u8, usize)>::empty(), b);
                assert(bands_of(Seq::<(u8, usize)>::empty()) =~= Map::<int, nat>::empty());
                assert(bands_of(row.counts@) == Map::<int, nat>::empty().insert(b, 1nat));
                assert forall|k: int| i as int <= k < rows0.len() implies (
                #[trigger] rows0[k]).date > date by {
                    if k > i as int {
                        assert(rows0[i as int].date < rows0[k].date);
                    }
                }
                lemma_rows_insert(rows0, i as int, row);
            }
            self.rows.insert(i, row);
            proof {
                assert(self.rows@ == rows0.insert(i as int, row));
                assert(self@ =~= record_spec(m0, d, b));
            }
        }
    }
}

/// A header band list is strictly ascending.
pub open spec fn band_list_sorted(s: Seq<u8>) -> bool {
    forall|i: int, j: int| 0 <= i < j < s.len() ==> s[i] < s[j]
}

/// Every band of a header list is a two-digit value.
pub open spec fn band_list_small(s: Seq<u8>) -> bool {
    forall|i: int| 0 <= i < s.len() ==> s[i] < 100
}

/// The set of bands named by a header list.
pub open spec fn band_list_set(s: Seq<u8>) -> Set<int> {
    Set::new(|b: int| exists|i: int| 0 <= i < s.len() && #[trigger] s[i] as int == b)
}

/// The band column labels of one row, in row order.
pub open spec fn row_bands(s: Seq<(u8, usize)>) -> Seq<u8> {
    s.map_values(|p: (u8, usize)| p.0)
}

/// Adds a band to a sorted header list, keeping it sorted and without
/// duplicates.
#[verifier::loop_isolation(false)]
fn insert_band(bands: &mut Vec<u8>, b: u8)
    requires
        band_list_sorted(old(bands)@),
        band_list_small(old(bands)@),
        b < 100,
    ensures
        band_list_sorted(final(bands)@),
        band_list_small(final(bands)@),
        band_list_set(final(bands)@) =~= band_list_set(old(bands)@).insert(b as int),
{
    let ghost s = bands@;
    let n = bands.len();
    let mut i: usize = 0;
    while i < n && bands[i] < b
        invariant
            i <= n,
            bands@ == s,
            forall|k: int| 0 <= k < i ==> s[k] < b,
        decreases n - i,
    {
        i = i + 1;
    }
    if i < n && bands[i] == b {
        proof {
            assert(band_list_set(s).contains(b as int));
            assert(band_list_set(s) =~= band_list_set(s).insert(b as int));
        }
        return ;
    }
    proof {
        assert forall|k: int| i as int <= k < s.len() implies s[k] > b by {
            if k > i as int {
                assert(s[i as int] < s[k]);
            }
        }
    }
    bands.insert(i, b);
    proof {
        let t = bands@;
        s.insert_ensures(i as int, b);
        assert forall|p: int, q: int| 0 <= p < q < t.len() implies t[p] < t[q] by {
            if p < i as int && q < i as int {
                assert(t[p] == s[p] && t[q] == s[q]);
            } else if p < i as int && q == i as int {
                assert(t[p] == s[p]);
            } else if p < i as int && q > i as int {
                assert(t[p] == s[p] && t[q] == s[q - 1]);
            } else if p == i as int {
                assert(t[q] == s[q - 1]);
            } else {
                assert(t[p] == s[p - 1] && t[q] == s[q - 1]);
            }
        }
        assert forall|x: int|
            band_list_set(t).contains(x) == band_list_set(s).insert(b as int).contains(x) by {
            if band_list_set(t).contains(x) {
                let k = choose|k: int| 0 <= k < t.len() && #[trigger] t[k] as int == x;
                if k < i as int {
                    assert(s[k] as int == x);
                } else if k > i as int {
                    assert(s[k - 1] as int == x);
                }
            }
            if band_list_set(s).insert(b as int).contains(x) {
                if x == b as int {
                    assert(t[i as int] as int == x);
                    assert(band_list_set(t).contains(x));
                } else {
                    let k = choose|k: int| 0 <= k < s.len() && #[trigger] s[k] as int == x;
                    if k < i as int {
                        assert(t[k] as int == x);
                    } else {
                        assert(t[k + 1] as int == x);
                    }
                    assert(band_list_set(t).contains(x));
                }
            }
        }
    }
}

/// The count a row holds for a band, zero where the row lacks the band.
#[verifier::loop_isolation(false)]
fn lookup_band(counts: &Vec<(u8, usize)>, b: u8) -> (c: usize)
    requires
        bands_sorted(counts@),
    ensures
        c as nat == count_of_row(bands_of(counts@), b as int),
{
    let m = counts.len();
    let mut j: usize = 0;
    while j < m
        invariant
            j <= m,
            forall|k: int| 0 <= k < j ==> (#[trigger] counts@[k]).0 != b,
        decreases m - j,
    {
        if counts[j].0 == b {
            proof {
                lemma_bands_index(counts@, j as int);
            }
            return counts[j].1;
        }
        j = j + 1;
    }
    proof {
        lemma_bands_absent(counts@, b as int);
    }
    0
}

/// The count a row's map holds for a band, zero where it lacks the band.
pub open spec fn count_of_row(row: Map<int, nat>, b: int) -> nat {
    if row.dom().contains(b) {
        row[b]
    } else {
        0
    }
}

impl CountTable {
    /// Consolidation: computes the union of the bands observed across all
    /// dates and back-fills every row with an explicit zero count for each
    /// band the row lacks, so the table is rectangular. Returns the sorted
    /// header band list. Every row ends up with exactly one count per
    /// header band, in header order.
    #[verifier::loop_isolation(false)]
    pub fn consolidate_keys(&mut self) -> (bands: Vec<u8>)
        requires
            old(self).wf(),
        ensures
            final(self).wf(),
            final(self)@ == consolidate_spec(old(self)@),
            band_list_sorted(bands@),
            band_list_small(bands@),
            band_list_set(bands@) =~= all_bands(old(self)@),
            final(self).rows@.len() == old(self).rows@.len(),
            forall|k: int|
                0 <= k < final(self).rows@.len() ==> row_bands(
                    (#[trigger] final(self).rows@[k]).counts@,
                ) == bands@,
            forall|k: int|
                0 <= k < final(self).rows@.len() ==> (#[trigger] final(self).rows@[k]).date
                    == old(self).rows@[k].date,
    {
        let ghost m0 = old(self)@;
        let ghost rows0 = old(self).rows@;
        let n = self.rows.len();

        let mut bands: Vec<u8> = Vec::new();
        let mut i: usize = 0;
        while i < n
            invariant
                i <= n,
                self.rows@ == rows0,
                n == rows0.len(),
                band_list_sorted(bands@),
                band_list_small(bands@),
                forall|x: int|
                    band_list_set(bands@).contains(x) <==> exists|k: int|
                        0 <= k < i && #[trigger] bands_of(rows0[k].counts@).dom().contains(x),
            decreases n - i,
        {
            let m = self.rows[i].counts.len();
            let mut j: usize = 0;
            while j < m
                invariant
                    j <= m,
                    i < n,
                    self.rows@ == rows0,
                    m == rows0[i as int].counts@.len(),
                    band_list_sorted(bands@),
                    band_list_small(bands@),
                    forall|x: int|
                        band_list_set(bands@).contains(x) <==> (exists|k: int|
                            0 <= k < i && #[trigger] bands_of(rows0[k].counts@).dom().contains(
                                x,
                            )) || (exists|l: int|
                            0 <= l < j && (#[trigger] rows0[i as int].counts@[l]).0 as int == x),
                decreases m - j,
            {
                let b = self.rows[i].counts[j].0;
                proof {
                    assert(row_wf(rows0[i as int]));
                }
                insert_band(&mut bands, b);
                j = j + 1;
            }
            proof {
                assert forall|x: int|
                    band_list_set(bands@).contains(x) == ((exists|k: int|
                        0 <= k < i + 1 && #[trigger] bands_of(rows0[k].counts@).dom().contains(
                            x,
                        ))) by {
                    if band_list_set(bands@).contains(x) {
                        if exists|l: int|
                            0 <= l < j && (#[trigger] rows0[i as int].counts@[l]).0 as int == x {
                            assert(bands_of(rows0[i as int].counts@).dom().contains(x));
                        }
                    }
                    if exists|k: int|
                        0 <= k < i + 1 && #[trigger] bands_of(rows0[k].counts@).dom().contains(
                            x,
                        ) {
                        let k = choose|k: int|
                            0 <= k < i + 1 && #[trigger] bands_of(
                                rows0[k].counts@,
                            ).dom().contains(x);
                        if k == i as int {
                            assert(band_list_set(bands@).contains(x));
                        } else {
                            assert(band_list_set(bands@).contains(x));
                        }
                    }
                }
            }
            i = i + 1;
        }
        proof {
            assert forall|x: int| band_list_set(bands@).contains(x) == all_bands(m0).contains(
                x,
            ) by {
                if band_list_set(bands@).contains(x) {
                    let k = choose|k: int|
                        0 <= k < n && #[trigger] bands_of(rows0[k].counts@).dom().contains(x);
                    lemma_rows_index(rows0, k);
                    assert(m0.dom().contains(rows0[k].date as int));
                    assert(all_bands(m0).contains(x));
                }
                if all_bands(m0).contains(x) {
                    let d = choose|d: int|
                        #[trigger] m0.dom().contains(d) && m0[d].dom().contains(x);
                    let k = choose|k: int|
                        0 <= k < rows0.len() && (#[trigger] rows0[k]).date as int == d;
                    lemma_rows_index(rows0, k);
                    assert(bands_of(rows0[k].counts@).dom().contains(x));
                    assert(band_list_set(bands@).contains(x));
                }
            }
        }

        let bl = bands.len();
        let mut i: usize = 0;
        while i < n
            invariant
                i <= n,
                n == rows0.len(),
                self.rows@.len() == n,
                bl == bands@.len(),
                band_list_sorted(bands@),
                band_list_small(bands@),
                forall|x: int|
                    band_list_set(bands@).contains(x) == all_bands(m0).contains(x),
                forall|k: int| i <= k < n ==> #[trigger] self.rows@[k] == rows0[k],
                forall|k: int|
                    0 <= k < i ==> (#[trigger] self.rows@[k]).date == rows0[k].date,
                forall|k: int| 0 <= k < i ==> row_wf(#[trigger] self.rows@[k]),
                forall|k: int|
                    0 <= k < i ==> row_bands((#[trigger] self.rows@[k]).counts@) == bands@,
                forall|k: int|
                    0 <= k < i ==> bands_of((#[trigger] self.rows@[k]).counts@) == zero_fill(
                        bands_of(rows0[k].counts@),
                        all_bands(m0),
                    ),
            decreases n - i,
        {
            proof {
                assert(row_wf(rows0[i as int]));
            }
            let mut new_counts: Vec<(u8, usize)> = Vec::new();
            let mut j: usize = 0;
            while j < bl
                invariant
                    j <= bl,
                    i < n,
                    self.rows@[i as int] == rows0[i as int],
                    self.rows@.len() == n,
                    new_counts@.len() == j,
                    forall|l: int|
                        0 <= l < j ==> (#[trigger] new_counts@[l]).0 == bands@[l],
                    forall|l: int|
                        0 <= l < j ==> (#[trigger] new_counts@[l]).1 as nat == count_of_row(
                            bands_of(rows0[i as int].counts@),
                            bands@[l] as int,
                        ),
                decreases bl - j,
            {
                let b = bands[j];
                let c = lookup_band(&self.rows[i].counts, b);
                new_counts.push((b, c));
                j = j + 1;
            }
            let date_i = self.rows[i].date;
            let new_row = Row { date: date_i, counts: new_counts };
            proof {
                let nc = new_row.counts@;
                let old_map = bands_of(rows0[i as int].counts@);
                assert forall|p: int, q: int| 0 <= p < q < nc.len() implies (
                #[trigger] nc[p]).0 < (#[trigger] nc[q]).0 by {
                    assert(bands@[p] < bands@[q]);
                }
                assert(row_bands(nc) =~= bands@);
                assert forall|x: int| old_map.dom().contains(x) implies all_bands(
                    m0,
                ).contains(x) by {
                    lemma_rows_index(rows0, i as int);
                    assert(m0.dom().contains(rows0[i as int].date as int));
                }
                let zf = zero_fill(old_map, all_bands(m0));
                assert forall|x: int| bands_of(nc).dom().contains(x) == zf.dom().contains(
                    x,
                ) by {
                    if bands_of(nc).dom().contains(x) {
                        let l = choose|l: int| 0 <= l < nc.len() && (#[trigger] nc[l]).0 as int
                            == x;
                        assert(bands@[l] as int == x);
                        assert(band_list_set(bands@).contains(x));
                    }
                    if zf.dom().contains(x) {
                        assert(all_bands(m0).contains(x));
                        assert(band_list_set(bands@).contains(x));
                        let l = choose|l: int| 0 <= l < bands@.len() && #[trigger] bands@[l] as int
                            == x;
                        assert(nc[l].0 as int == x);
                        assert(bands_of(nc).dom().contains(x));
                    }
                }
                assert forall|x: int| bands_of(nc).dom().contains(x) implies bands_of(nc)[x]
                    == zf[x] by {
                    let l = choose|l: int| 0 <= l < nc.len() && (#[trigger] nc[l]).0 as int == x;
                    lemma_bands_index(nc, l);
                    assert(bands_of(nc)[x] == nc[l].1 as nat);
                    assert(nc[l].1 as nat == count_of_row(old_map, x));
                }
                assert(bands_of(nc) =~= zf);
                assert(row_wf(new_row));
            }
            self.rows.set(i, new_row);
            i = i + 1;
        }

        proof {
            assert forall|p: int, q: int| 0 <= p < q < self.rows@.len() implies (
            #[trigger] self.rows@[p]).date < (#[trigger] self.rows@[q]).date by {
                assert(rows0[p].date < rows0[q].date);
            }
            assert forall|x: int| self@.dom().contains(x) == consolidate_spec(
                m0,
            ).dom().contains(x) by {
                if self@.dom().contains(x) {
                    let k = choose|k: int|
                        0 <= k < self.rows@.len() && (#[trigger] self.rows@[k]).date as int == x;
                    assert(rows0[k].date as int == x);
                    lemma_rows_index(rows0, k);
                }
                if consolidate_spec(m0).dom().contains(x) {
                    let k = choose|k: int|
                        0 <= k < rows0.len() && (#[trigger] rows0[k]).date as int == x;
                    assert(self.rows@[k].date as int == x);
                    assert(table_view_of(self.rows@).dom().contains(x));
                }
            }
            assert forall|x: int| self@.dom().contains(x) implies self@[x] == consolidate_spec(
                m0,
            )[x] by {
                let k = choose|k: int|
                    0 <= k < self.rows@.len() && (#[trigger] self.rows@[k]).date as int == x;
                lemma_rows_index(self.rows@, k);
                lemma_rows_index(rows0, k);
                assert(self@[x] == bands_of(self.rows@[k].counts@));
                assert(m0[x] == bands_of(rows0[k].counts@));
            }
            assert(self@ =~= consolidate_spec(m0));
        }
        bands
    }
}

/// What one name contributes to a table: one recorded match when the
/// counting pattern fits, nothing otherwise.
pub open spec fn counter_after(m: Map<int, Map<int, nat>>, name: Seq<u8>) -> Map<
    int,
    Map<int, nat>,
> {
    if has_pattern(name) {
        record_spec(m, pattern_date(name) as int, pattern_band(name) as int)
    } else {
        m
    }
}

/// Tests a leaf container's name against the counting pattern and, on a
/// match, records its date and band; a name that does not fit the pattern
/// is silently skipped — that is a normal outcome, not an error.
pub fn update_counter(name: &[u8], table: &mut CountTable)
    requires
        old(table).wf(),
        has_pattern(name@) ==> count_at(
            old(table)@,
            pattern_date(name@) as int,
            pattern_band(name@) as int,
        ) < usize::MAX,
    ensures
        final(table).wf(),
        final(table)@ == counter_after(old(table)@, name@),
{
    match find_match(name) {
        Some((date, band)) => {
            table.record(date, band);
        },
        None => {},
    }
}

/// Recording one more match changes the count at its own date and band
/// alone, and by exactly one.
pub proof fn lemma_record_spec_count(m: Map<int, Map<int, nat>>, d0: int, b0: int, d: int, b: int)
    ensures
        count_at(record_spec(m, d0, b0), d, b) == if d == d0 && b == b0 {
            count_at(m, d, b) + 1
        } else {
            count_at(m, d, b)
        },
{
}

/// Recording is order-independent: two matches recorded in either order
/// leave the same table, so any sequence of matches yields the same final
/// table whatever the traversal order.
pub proof fn lemma_record_commutes(m: Map<int, Map<int, nat>>, d1: int, b1: int, d2: int, b2: int)
    ensures
        record_spec(record_spec(m, d1, b1), d2, b2) == record_spec(record_spec(m, d2, b2), d1, b1),
{
    let l = record_spec(record_spec(m, d1, b1), d2, b2);
    let r = record_spec(record_spec(m, d2, b2), d1, b1);
    assert forall|x: int| #[trigger] l.dom().contains(x) implies r.dom().contains(x) && l[x] =~= r[x] by {
        lemma_record_spec_count(m, d1, b1, x, b1);
        lemma_record_spec_count(m, d1, b1, x, b2);
        lemma_record_spec_count(m, d2, b2, x, b1);
        lemma_record_spec_count(m, d2, b2, x, b2);
        assert forall|y: int| #[trigger] l[x].dom().contains(y) implies r[x].dom().contains(y)
            && l[x][y] == r[x][y] by {
            lemma_record_spec_count(m, d1, b1, x, y);
            lemma_record_spec_count(m, d2, b2, x, y);
            lemma_record_spec_count(record_spec(m, d1, b1), d2, b2, x, y);
            lemma_record_spec_count(record_spec(m, d2, b2), d1, b1, x, y);
        }
        assert forall|y: int| #[trigger] r[x].dom().contains(y) implies l[x].dom().contains(
            y,
        ) by {}
    }
    assert forall|x: int| #[trigger] r.dom().contains(x) implies l.dom().contains(x) by {}
    assert(l =~~= r);
}

/// Rectangularity: after consolidation every date's row carries exactly
/// the set of bands observed across the whole table.
pub proof fn lemma_consolidate_rectangular(m: Map<int, Map<int, nat>>, d: int)
    requires
        consolidate_spec(m).dom().contains(d),
    ensures
        consolidate_spec(m)[d].dom() =~= all_bands(m),
{
    assert forall|b: int| m[d].dom().contains(b) implies all_bands(m).contains(b) by {
        assert(m.dom().contains(d) && m[d].dom().contains(b));
    }
}

/// The table after a whole sequence of `(date, band)` matches is
/// recorded, in sequence order.
pub open spec fn record_all(m: Map<int, Map<int, nat>>, s: Seq<(int, int)>) -> Map<
    int,
    Map<int, nat>,
>
    decreases s.len(),
{
    if s.len() == 0 {
        m
    } else {
        record_spec(record_all(m, s.drop_last()), s.last().0, s.last().1)
    }
}

/// One match of a sequence can be recorded last instead, without changing
/// the final table.
proof fn lemma_record_all_move_to_end(m: Map<int, Map<int, nat>>, s: Seq<(int, int)>, k: int)
    requires
        0 <= k < s.len(),
    ensures
        record_all(m, s) == record_all(m, s.remove(k).push(s[k])),
    decreases s.len(),
{
    if k == s.len() - 1 {
        assert(s.remove(k).push(s[k]) =~= s);
    } else {
        let t = s.drop_last();
        let a = s.last();
        let u = t.remove(k);
        lemma_record_all_move_to_end(m, t, k);
        assert(t.remove(k).push(t[k]).drop_last() =~= u);
        assert(record_all(m, t) == record_spec(record_all(m, u), t[k].0, t[k].1));
        lemma_record_commutes(record_all(m, u), t[k].0, t[k].1, a.0, a.1);
        let w = s.remove(k);
        assert(u.push(a).drop_last() =~= u);
        assert(record_all(m, u.push(a)) == record_spec(record_all(m, u), a.0, a.1));
        assert(w =~= u.push(a));
        assert(w.push(s[k]).drop_last() =~= w);
        assert(record_all(m, w.push(s[k])) == record_spec(record_all(m, w), s[k].0, s[k].1));
        assert(t[k] == s[k]);
    }
}

/// Recording is order-independent: two sequences holding the same matches
/// — the same multiset, in any order — leave the same final table.
pub proof fn lemma_record_order_independent(
    m: Map<int, Map<int, nat>>,
    s1: Seq<(int, int)>,
    s2: Seq<(int, int)>,
)
    requires
        s1.to_multiset() == s2.to_multiset(),
    ensures
        record_all(m, s1) == record_all(m, s2),
    decreases s1.len(),
{
    broadcast use vstd::seq_lib::group_to_multiset_ensures;

    assert(s1.to_multiset().len() == s1.len());
    assert(s2.to_multiset().len() == s2.len());
    if s1.len() == 0 {
        assert(s2.len() == 0);
    } else {
        let a = s1.last();
        assert(s1.contains(a));
        assert(s2.to_multiset().count(a) > 0);
        assert(s2.contains(a));
        let k = choose|k: int| 0 <= k < s2.len() && s2[k] == a;
        lemma_record_all_move_to_end(m, s2, k);
        assert(s2.remove(k).push(a).drop_last() =~= s2.remove(k));
        assert(s1.remove(s1.len() - 1) =~= s1.drop_last());
        assert(s1.drop_last().to_multiset() == s1.to_multiset().remove(a));
        assert(s2.remove(k).to_multiset() == s2.to_multiset().remove(a));
        lemma_record_order_independent(m, s1.drop_last(), s2.remove(k));
    }
}

/// Rectangularity, at the rows: when every row's band columns equal the
/// header list — as consolidation leaves them — every rendered row has
/// exactly one count field per header label.
pub proof fn lemma_rectangular_columns(rows: Seq<Row>, bands: Seq<u8>)
    requires
        forall|k: int| 0 <= k < rows.len() ==> row_bands((#[trigger] rows[k]).counts@) == bands,
    ensures
        forall|k: int| 0 <= k < rows.len() ==> (#[trigger] rows[k]).counts@.len() == bands.len(),
{
    assert forall|k: int| 0 <= k < rows.len() implies (#[trigger] rows[k]).counts@.len()
        == bands.len() by {
        assert(row_bands(rows[k].counts@).len() == rows[k].counts@.len());
    }
}

/// A sorted header list holds no duplicates, so its length is exactly the
/// number of distinct bands it names: with `consolidate_keys`'s guarantee
/// that the header set is `all_bands` and every row has one count per
/// header label, every row has exactly as many count columns as there are
/// distinct bands observed across the whole input.
pub proof fn lemma_band_list_count(s: Seq<u8>)
    requires
        band_list_sorted(s),
    ensures
        band_list_set(s).finite(),
        band_list_set(s).len() == s.len(),
    decreases s.len(),
{
    broadcast use vstd::set::axiom_set_insert_len;
    broadcast use vstd::set::axiom_set_insert_finite;
    broadcast use vstd::set::axiom_set_empty_len;

    if s.len() == 0 {
        assert(band_list_set(s) =~= Set::<int>::empty());
    } else {
        let t = s.drop_last();
        let b = s.last() as int;
        lemma_band_list_count(t);
        assert(!band_list_set(t).contains(b)) by {
            if band_list_set(t).contains(b) {
                let i = choose|i: int| 0 <= i < t.len() && #[trigger] t[i] as int == b;
                assert(s[i] < s.last());
            }
        }
        assert(band_list_set(s) =~= band_list_set(t).insert(b)) by {
            assert forall|x: int|
                band_list_set(s).contains(x) == band_list_set(t).insert(b).contains(x) by {
                if band_list_set(s).contains(x) {
                    let i = choose|i: int| 0 <= i < s.len() && #[trigger] s[i] as int == x;
                    if i < s.len() - 1 {
                        assert(t[i] as int == x);
                    }
                }
                if band_list_set(t).contains(x) {
                    let i = choose|i: int| 0 <= i < t.len() && #[trigger] t[i] as int == x;
                    assert(s[i] as int == x);
                }
            }
        }
    }
}

/// Consolidation is idempotent: consolidating a consolidated table
/// changes nothing.
pub proof fn lemma_consolidate_idempotent(m: Map<int, Map<int, nat>>)
    ensures
        consolidate_spec(consolidate_spec(m)) == consolidate_spec(m),
{
    let c = consolidate_spec(m);
    assert forall|x: int| all_bands(c).contains(x) == all_bands(m).contains(x) by {
        if all_bands(c).contains(x) {
            let d = choose|d: int| #[trigger] c.dom().contains(d) && c[d].dom().contains(x);
            if m[d].dom().contains(x) {
                assert(m.dom().contains(d) && m[d].dom().contains(x));
                assert(all_bands(m).contains(x));
            }
        }
        if all_bands(m).contains(x) {
            let d = choose|d: int| #[trigger] m.dom().contains(d) && m[d].dom().contains(x);
            assert(c.dom().contains(d) && c[d].dom().contains(x));
            assert(all_bands(c).contains(x));
        }
    }
    assert(all_bands(c) =~= all_bands(m));
    assert forall|d: int| #[trigger] c.dom().contains(d) implies consolidate_spec(c)[d] =~= c[d] by {
        lemma_consolidate_rectangular(m, d);
        assert forall|b: int| c[d].dom().contains(b) implies consolidate_spec(c)[d][b]
            == c[d][b] by {}
    }
    assert(consolidate_spec(c) =~~= c);
}

} // verus!
