//! The aggregation store: durable counters keyed by identifier plus the
//! two sync timestamps. A merge folds a snapshot's deltas into the rows
//! as one atomic step: it either applies completely or leaves the store
//! untouched.

use vstd::prelude::*;
use crate::classify::{classify, spec_category_of, Category};
use crate::stats::{lookup, Pairs, Stats};
use crate::text::str_eq;

verus! {

/// One persistent counter row.
pub struct CounterRow {
    pub event_name: String,
    pub event_type: Category,
    pub count: u64,
    pub created_at: u64,
    pub updated_at: u64,
}

/// The model of a row.
#[verifier::ext_equal]
pub struct RowGhost {
    pub name: Seq<char>,
    pub cat: Category,
    pub count: u64,
    pub created_at: u64,
    pub updated_at: u64,
}

impl View for CounterRow {
    type V = RowGhost;

    open spec fn view(&self) -> RowGhost {
        RowGhost {
            name: self.event_name@,
            cat: self.event_type,
            count: self.count,
            created_at: self.created_at,
            updated_at: self.updated_at,
        }
    }
}

pub type Rows = Seq<RowGhost>;

pub open spec fn spec_view_rows(rs: Seq<CounterRow>) -> Rows {
    rs.map_values(|r: CounterRow| r@)
}

/// Row names are pairwise distinct.
pub open spec fn row_names_unique(rows: Rows) -> bool {
    forall|i: int, j: int| 0 <= i < j < rows.len() ==> rows[i].name != rows[j].name
}

/// Every row's stored type is the one derived from its name.
pub open spec fn rows_typed(rows: Rows) -> bool {
    forall|i: int| 0 <= i < rows.len() ==> rows[i].cat == spec_category_of(rows[i].name)
}

/// The row holding an identifier, if any.
pub open spec fn row_lookup(rows: Rows, k: Seq<char>) -> Option<RowGhost>
    decreases rows.len(),
{
    if rows.len() == 0 {
        None
    } else if rows[0].name == k {
        Some(rows[0])
    } else {
        row_lookup(rows.drop_first(), k)
    }
}

/// The stored count of an identifier, zero if it has no row.
pub open spec fn row_count(rows: Rows, k: Seq<char>) -> int {
    match row_lookup(rows, k) {
        Some(r) => r.count as int,
        None => 0int,
    }
}

/// The sum of all stored counts.
pub open spec fn sum_counts(rows: Rows) -> int
    decreases rows.len(),
{
    if rows.len() == 0 {
        0int
    } else {
        rows[0].count as int + sum_counts(rows.drop_first())
    }
}

/// The sum of the stored counts of the rows of one category.
pub open spec fn sum_counts_cat(rows: Rows, c: Category) -> int
    decreases rows.len(),
{
    if rows.len() == 0 {
        0int
    } else {
        sum_counts_cat(rows.drop_first(), c) + if rows[0].cat == c {
            rows[0].count as int
        } else {
            0int
        }
    }
}

/// The sum of the stored counts of the rows whose *derived* category —
/// the one the classifier computes from the name — is `c`.
pub open spec fn sum_derived_cat(rows: Rows, c: Category) -> int
    decreases rows.len(),
{
    if rows.len() == 0 {
        0int
    } else {
        sum_derived_cat(rows.drop_first(), c) + if spec_category_of(rows[0].name) == c {
            rows[0].count as int
        } else {
            0int
        }
    }
}

/// The sum of a snapshot's deltas.
pub open spec fn sum_pairs(ps: Pairs) -> int
    decreases ps.len(),
{
    if ps.len() == 0 {
        0int
    } else {
        ps[0].1 as int + sum_pairs(ps.drop_first())
    }
}

/// Rebuild rows from an untrusted list: the first row for each name
/// wins, every type is re-derived from the name, and a row that would
/// push the grand total past the counter width is dropped.
pub open spec fn rebuild_rows(acc: Rows, rs: Rows) -> Rows
    decreases rs.len(),
{
    if rs.len() == 0 {
        acc
    } else {
        let fixed = RowGhost {
            name: rs[0].name,
            cat: spec_category_of(rs[0].name),
            count: rs[0].count,
            created_at: rs[0].created_at,
            updated_at: rs[0].updated_at,
        };
        if row_lookup(acc, rs[0].name) is Some || sum_counts(acc) + rs[0].count > u64::MAX {
            rebuild_rows(acc, rs.drop_first())
        } else {
            rebuild_rows(acc.push(fixed), rs.drop_first())
        }
    }
}

/// Fold one delta into the rows: add to the row holding the identifier,
/// refreshing its update time, or append a fresh row. (The addition is
/// stated with wrap-around; it is only relied upon where it fits.)
pub open spec fn upsert(rows: Rows, k: Seq<char>, d: u64, now: u64) -> Rows
    decreases rows.len(),
{
    if rows.len() == 0 {
        seq![
            RowGhost {
                name: k,
                cat: spec_category_of(k),
                count: d,
                created_at: now,
                updated_at: now,
            },
        ]
    } else if rows[0].name == k {
        seq![
            RowGhost {
                name: rows[0].name,
                cat: rows[0].cat,
                count: (rows[0].count + d) as u64,
                created_at: rows[0].created_at,
                updated_at: now,
            },
        ] + rows.drop_first()
    } else {
        seq![rows[0]] + upsert(rows.drop_first(), k, d, now)
    }
}

/// Fold a whole snapshot into the rows, first pair first.
pub open spec fn merge_rows(rows: Rows, ps: Pairs, now: u64) -> Rows
    decreases ps.len(),
{
    if ps.len() == 0 {
        rows
    } else {
        merge_rows(upsert(rows, ps[0].0, ps[0].1, now), ps.drop_first(), now)
    }
}

// ---------------------------------------------------------------------
// Lemmas about sums and upserts
// ---------------------------------------------------------------------

pub proof fn lemma_sum_counts_nonneg(rows: Rows)
    ensures
        sum_counts(rows) >= 0,
    decreases rows.len(),
{
    if rows.len() > 0 {
        lemma_sum_counts_nonneg(rows.drop_first());
    }
}

/// Appending a row adds its count to the sum.
pub proof fn lemma_sum_counts_push(rows: Rows, r: RowGhost)
    ensures
        sum_counts(rows.push(r)) == sum_counts(rows) + r.count,
    decreases rows.len(),
{
    let w = rows.push(r);
    if rows.len() == 0 {
        assert(w.drop_first() =~= Seq::<RowGhost>::empty());
        assert(sum_counts(w) == w[0].count as int + sum_counts(w.drop_first()));
        assert(sum_counts(Seq::<RowGhost>::empty()) == 0);
    } else {
        assert(w[0] == rows[0]);
        assert(w.drop_first() =~= rows.drop_first().push(r));
        lemma_sum_counts_push(rows.drop_first(), r);
        assert(sum_counts(w) == w[0].count as int + sum_counts(w.drop_first()));
        assert(sum_counts(rows) == rows[0].count as int + sum_counts(rows.drop_first()));
    }
}

/// A prefix sum never exceeds the whole sum.
pub proof fn lemma_sum_counts_take(rows: Rows, t: int)
    requires
        0 <= t <= rows.len(),
    ensures
        sum_counts(rows.take(t)) <= sum_counts(rows),
    decreases rows.len(),
{
    if t == 0 {
        assert(rows.take(0) =~= Seq::<RowGhost>::empty());
        lemma_sum_counts_nonneg(rows);
    } else {
        assert(rows.take(t)[0] == rows[0]);
        assert(rows.take(t).drop_first() =~= rows.drop_first().take(t - 1));
        lemma_sum_counts_take(rows.drop_first(), t - 1);
    }
}

/// Extending a prefix by one row adds that row's count.
pub proof fn lemma_sum_counts_take_step(rows: Rows, t: int)
    requires
        0 <= t < rows.len(),
    ensures
        sum_counts(rows.take(t + 1)) == sum_counts(rows.take(t)) + rows[t].count,
{
    assert(rows.take(t + 1) =~= rows.take(t).push(rows[t]));
    lemma_sum_counts_push(rows.take(t), rows[t]);
}

/// Each row's count is bounded by the sum of all counts.
pub proof fn lemma_row_le_sum(rows: Rows, i: int)
    requires
        0 <= i < rows.len(),
    ensures
        rows[i].count as int <= sum_counts(rows),
    decreases rows.len(),
{
    if i == 0 {
        lemma_sum_counts_nonneg(rows.drop_first());
    } else {
        lemma_row_le_sum(rows.drop_first(), i - 1);
        assert(rows.drop_first()[i - 1] == rows[i]);
    }
}

/// A category's sum is bounded by the sum of all counts, and nonnegative.
pub proof fn lemma_sum_cat_le_sum(rows: Rows, c: Category)
    ensures
        0 <= sum_counts_cat(rows, c) <= sum_counts(rows),
    decreases rows.len(),
{
    if rows.len() > 0 {
        lemma_sum_cat_le_sum(rows.drop_first(), c);
    }
}

/// In a well-formed store each row's stored type is the one derived
/// from its name, so a recomputed category total — a sum over the
/// stored types — equals the sum of the counts of the identifiers
/// whose derived category matches.
pub proof fn lemma_cat_sums_are_derived(rows: Rows, c: Category)
    requires
        rows_typed(rows),
    ensures
        sum_counts_cat(rows, c) == sum_derived_cat(rows, c),
    decreases rows.len(),
{
    if rows.len() > 0 {
        assert(rows[0].cat == spec_category_of(rows[0].name));
        assert(forall|i: int|
            0 <= i < rows.drop_first().len() ==> rows.drop_first()[i] == rows[i + 1]);
        lemma_cat_sums_are_derived(rows.drop_first(), c);
    }
}

/// Appending a row adds its count to its own category's sum alone.
pub proof fn lemma_sum_cat_push(rows: Rows, r: RowGhost, c: Category)
    ensures
        sum_counts_cat(rows.push(r), c) == sum_counts_cat(rows, c) + if r.cat == c {
            r.count as int
        } else {
            0int
        },
    decreases rows.len(),
{
    let w = rows.push(r);
    if rows.len() == 0 {
        assert(w.drop_first() =~= Seq::<RowGhost>::empty());
        assert(sum_counts_cat(w, c) == sum_counts_cat(w.drop_first(), c) + if w[0].cat == c {
            w[0].count as int
        } else {
            0int
        });
        assert(sum_counts_cat(Seq::<RowGhost>::empty(), c) == 0);
    } else {
        assert(w[0] == rows[0]);
        assert(w.drop_first() =~= rows.drop_first().push(r));
        lemma_sum_cat_push(rows.drop_first(), r, c);
        assert(sum_counts_cat(w, c) == sum_counts_cat(w.drop_first(), c) + if w[0].cat == c {
            w[0].count as int
        } else {
            0int
        });
        assert(sum_counts_cat(rows, c) == sum_counts_cat(rows.drop_first(), c) + if rows[0].cat
            == c {
            rows[0].count as int
        } else {
            0int
        });
    }
}

pub proof fn lemma_sum_pairs_nonneg(ps: Pairs)
    ensures
        sum_pairs(ps) >= 0,
    decreases ps.len(),
{
    if ps.len() > 0 {
        lemma_sum_pairs_nonneg(ps.drop_first());
    }
}

/// Appending a pair adds its delta to the sum.
pub proof fn lemma_sum_pairs_push(ps: Pairs, p: (Seq<char>, u64))
    ensures
        sum_pairs(ps.push(p)) == sum_pairs(ps) + p.1,
    decreases ps.len(),
{
    let w = ps.push(p);
    if ps.len() == 0 {
        assert(w.drop_first() =~= Seq::<(Seq<char>, u64)>::empty());
        assert(sum_pairs(w) == w[0].1 as int + sum_pairs(w.drop_first()));
        assert(sum_pairs(Seq::<(Seq<char>, u64)>::empty()) == 0);
    } else {
        assert(w[0] == ps[0]);
        assert(w.drop_first() =~= ps.drop_first().push(p));
        lemma_sum_pairs_push(ps.drop_first(), p);
        assert(sum_pairs(w) == w[0].1 as int + sum_pairs(w.drop_first()));
        assert(sum_pairs(ps) == ps[0].1 as int + sum_pairs(ps.drop_first()));
    }
}

pub proof fn lemma_sum_pairs_take(ps: Pairs, t: int)
    requires
        0 <= t <= ps.len(),
    ensures
        sum_pairs(ps.take(t)) <= sum_pairs(ps),
    decreases ps.len(),
{
    if t == 0 {
        assert(ps.take(0) =~= Seq::<(Seq<char>, u64)>::empty());
        lemma_sum_pairs_nonneg(ps);
    } else {
        assert(ps.take(t)[0] == ps[0]);
        assert(ps.take(t).drop_first() =~= ps.drop_first().take(t - 1));
        lemma_sum_pairs_take(ps.drop_first(), t - 1);
    }
}

/// Extending a prefix by one pair adds that pair's delta.
pub proof fn lemma_sum_pairs_take_step(ps: Pairs, t: int)
    requires
        0 <= t < ps.len(),
    ensures
        sum_pairs(ps.take(t + 1)) == sum_pairs(ps.take(t)) + ps[t].1,
{
    assert(ps.take(t + 1) =~= ps.take(t).push(ps[t]));
    lemma_sum_pairs_push(ps.take(t), ps[t]);
}

/// If the identifier sits at index `i` of rows with distinct names,
/// the upsert is an update in place.
pub proof fn lemma_upsert_found(rows: Rows, k: Seq<char>, d: u64, now: u64, i: int)
    requires
        0 <= i < rows.len(),
        rows[i].name == k,
        forall|j: int| 0 <= j < i ==> rows[j].name != k,
    ensures
        upsert(rows, k, d, now) =~= rows.update(
            i,
            RowGhost {
                name: rows[i].name,
                cat: rows[i].cat,
                count: (rows[i].count + d) as u64,
                created_at: rows[i].created_at,
                updated_at: now,
            },
        ),
        row_lookup(rows, k) == Some(rows[i]),
    decreases rows.len(),
{
    if i == 0 {
        assert(upsert(rows, k, d, now) =~= rows.update(
            0,
            RowGhost {
                name: rows[0].name,
                cat: rows[0].cat,
                count: (rows[0].count + d) as u64,
                created_at: rows[0].created_at,
                updated_at: now,
            },
        ));
    } else {
        assert(rows[0].name != k);
        assert(rows.drop_first()[i - 1] == rows[i]);
        lemma_upsert_found(rows.drop_first(), k, d, now, i - 1);
        assert(upsert(rows, k, d, now) =~= seq![rows[0]] + upsert(rows.drop_first(), k, d, now));
        assert(upsert(rows, k, d, now) =~= rows.update(
            i,
            RowGhost {
                name: rows[i].name,
                cat: rows[i].cat,
                count: (rows[i].count + d) as u64,
                created_at: rows[i].created_at,
                updated_at: now,
            },
        ));
    }
}

/// If the identifier has no row, the upsert appends a fresh one.
pub proof fn lemma_upsert_absent(rows: Rows, k: Seq<char>, d: u64, now: u64)
    requires
        forall|j: int| 0 <= j < rows.len() ==> rows[j].name != k,
    ensures
        upsert(rows, k, d, now) =~= rows.push(
            RowGhost {
                name: k,
                cat: spec_category_of(k),
                count: d,
                created_at: now,
                updated_at: now,
            },
        ),
        row_lookup(rows, k) is None,
    decreases rows.len(),
{
    if rows.len() > 0 {
        assert(forall|j: int|
            0 <= j < rows.drop_first().len() ==> rows.drop_first()[j].name != k);
        lemma_upsert_absent(rows.drop_first(), k, d, now);
        assert(upsert(rows, k, d, now) =~= rows.push(
            RowGhost {
                name: k,
                cat: spec_category_of(k),
                count: d,
                created_at: now,
                updated_at: now,
            },
        ));
    }
}

/// How `row_lookup` reads through an upsert.
pub proof fn lemma_upsert_lookup(rows: Rows, k: Seq<char>, d: u64, now: u64, k2: Seq<char>)
    ensures
        row_lookup(upsert(rows, k, d, now), k2) == if k2 == k {
            match row_lookup(rows, k) {
                Some(r) => Some(
                    RowGhost {
                        name: r.name,
                        cat: r.cat,
                        count: (r.count + d) as u64,
                        created_at: r.created_at,
                        updated_at: now,
                    },
                ),
                None => Some(
                    RowGhost {
                        name: k,
                        cat: spec_category_of(k),
                        count: d,
                        created_at: now,
                        updated_at: now,
                    },
                ),
            }
        } else {
            row_lookup(rows, k2)
        },
    decreases rows.len(),
{
    let u = upsert(rows, k, d, now);
    if rows.len() == 0 {
        assert(u.drop_first() =~= Seq::<RowGhost>::empty());
        assert(u[0].name == k);
        if k2 == k {
            assert(row_lookup(u, k2) == Some(u[0]));
        } else {
            assert(row_lookup(u, k2) == row_lookup(u.drop_first(), k2));
            assert(row_lookup(Seq::<RowGhost>::empty(), k2) is None);
        }
    } else if rows[0].name == k {
        assert(u[0] == RowGhost {
            name: rows[0].name,
            cat: rows[0].cat,
            count: (rows[0].count + d) as u64,
            created_at: rows[0].created_at,
            updated_at: now,
        });
        assert(u.drop_first() =~= rows.drop_first());
        if k2 == k {
            assert(row_lookup(u, k2) == Some(u[0]));
            assert(row_lookup(rows, k) == Some(rows[0]));
        } else {
            assert(row_lookup(u, k2) == row_lookup(rows.drop_first(), k2));
            assert(row_lookup(rows, k2) == row_lookup(rows.drop_first(), k2));
        }
    } else {
        assert(u[0] == rows[0]);
        assert(u.drop_first() =~= upsert(rows.drop_first(), k, d, now));
        lemma_upsert_lookup(rows.drop_first(), k, d, now, k2);
        if k2 == rows[0].name {
            assert(row_lookup(u, k2) == Some(u[0]));
            assert(row_lookup(rows, k2) == Some(rows[0]));
        } else {
            assert(row_lookup(u, k2) == row_lookup(u.drop_first(), k2));
            assert(row_lookup(rows, k2) == row_lookup(rows.drop_first(), k2));
        }
    }
}

/// An identifier has a row exactly when some position holds its name.
pub proof fn lemma_row_lookup_index_iff(rows: Rows, k: Seq<char>)
    ensures
        (row_lookup(rows, k) is Some) <==> exists|j: int| 0 <= j < rows.len() && rows[j].name
            == k,
    decreases rows.len(),
{
    if rows.len() == 0 {
    } else if rows[0].name == k {
        assert(rows[0].name == k);
    } else {
        lemma_row_lookup_index_iff(rows.drop_first(), k);
        if exists|j: int| 0 <= j < rows.len() && rows[j].name == k {
            let j = choose|j: int| 0 <= j < rows.len() && rows[j].name == k;
            assert(j != 0);
            assert(rows.drop_first()[j - 1].name == k);
        }
        if exists|j: int| 0 <= j < rows.drop_first().len() && rows.drop_first()[j].name == k {
            let j = choose|j: int|
                0 <= j < rows.drop_first().len() && rows.drop_first()[j].name == k;
            assert(rows[j + 1].name == k);
        }
    }
}

/// A stored count is bounded by the sum of all counts.
pub proof fn lemma_row_count_le_sum(rows: Rows, k: Seq<char>)
    ensures
        0 <= row_count(rows, k),
        row_lookup(rows, k) is Some ==> row_count(rows, k) <= sum_counts(rows),
    decreases rows.len(),
{
    if rows.len() == 0 {
    } else if rows[0].name == k {
        lemma_sum_counts_nonneg(rows.drop_first());
    } else {
        lemma_row_count_le_sum(rows.drop_first(), k);
        lemma_sum_counts_nonneg(rows.drop_first());
    }
}

/// Merging a whole snapshot raises the total by the snapshot's sum, and
/// each identifier's stored count by exactly its delta in the snapshot.
pub proof fn lemma_merge_rows_count(rows: Rows, ps: Pairs, now: u64, k: Seq<char>)
    requires
        sum_counts(rows) + sum_pairs(ps) <= u64::MAX,
        sum_counts(rows) >= 0,
        crate::stats::keys_unique(ps),
    ensures
        sum_counts(merge_rows(rows, ps, now)) == sum_counts(rows) + sum_pairs(ps),
        row_count(merge_rows(rows, ps, now), k) == row_count(rows, k) + (match lookup(ps, k) {
            Some(d) => d as int,
            None => 0int,
        }),
    decreases ps.len(),
{
    if ps.len() == 0 {
    } else {
        let k0 = ps[0].0;
        let d0 = ps[0].1;
        let u0 = upsert(rows, k0, d0, now);
        lemma_row_count_le_sum(rows, k0);
        lemma_sum_pairs_nonneg(ps.drop_first());
        assert(match row_lookup(rows, k0) {
            Some(r) => r.count + d0 <= u64::MAX,
            None => true,
        });
        lemma_upsert_sum(rows, k0, d0, now);
        lemma_upsert_lookup(rows, k0, d0, now, k);
        assert(crate::stats::keys_unique(ps.drop_first()));
        lemma_merge_rows_count(u0, ps.drop_first(), now, k);
        if k == k0 {
            assert(lookup(ps, k) == Some(d0));
            assert(lookup(ps.drop_first(), k) is None) by {
                crate::stats::lemma_lookup_index_iff(ps.drop_first(), k);
                if exists|j: int|
                    0 <= j < ps.drop_first().len() && ps.drop_first()[j].0 == k {
                    let j = choose|j: int|
                        0 <= j < ps.drop_first().len() && ps.drop_first()[j].0 == k;
                    assert(ps[j + 1].0 == ps[0].0);
                    assert(false);
                }
            }
            assert(row_count(u0, k) == row_count(rows, k) + d0);
        } else {
            assert(lookup(ps, k) == lookup(ps.drop_first(), k));
            assert(row_count(u0, k) == row_count(rows, k));
        }
    }
}

/// A fold of successive snapshots.
pub open spec fn merge_all(rows: Rows, snaps: Seq<Pairs>, now: u64) -> Rows
    decreases snaps.len(),
{
    if snaps.len() == 0 {
        rows
    } else {
        merge_all(merge_rows(rows, snaps[0], now), snaps.drop_first(), now)
    }
}

/// The sum of the deltas a sequence of snapshots carries for one identifier.
pub open spec fn delta_total(snaps: Seq<Pairs>, k: Seq<char>) -> int
    decreases snaps.len(),
{
    if snaps.len() == 0 {
        0int
    } else {
        (match lookup(snaps[0], k) {
            Some(d) => d as int,
            None => 0int,
        }) + delta_total(snaps.drop_first(), k)
    }
}

/// The grand sum of the deltas a sequence of snapshots carries.
pub open spec fn pairs_total_all(snaps: Seq<Pairs>) -> int
    decreases snaps.len(),
{
    if snaps.len() == 0 {
        0int
    } else {
        sum_pairs(snaps[0]) + pairs_total_all(snaps.drop_first())
    }
}

/// Merge monotonicity: after successive accepted snapshots, each with
/// pairwise-distinct keys, the stored count of an identifier is its
/// initial count plus the sum of every delta the snapshots carried for
/// it — merges only ever add, none is lost or overwritten.
pub proof fn lemma_merge_monotonicity(rows: Rows, snaps: Seq<Pairs>, now: u64, k: Seq<char>)
    requires
        sum_counts(rows) >= 0,
        sum_counts(rows) + pairs_total_all(snaps) <= u64::MAX,
        forall|x: int| 0 <= x < snaps.len() ==> crate::stats::keys_unique(#[trigger] snaps[x]),
    ensures
        row_count(merge_all(rows, snaps, now), k) == row_count(rows, k) + delta_total(snaps, k),
    decreases snaps.len(),
{
    if snaps.len() == 0 {
    } else {
        let m0 = merge_rows(rows, snaps[0], now);
        lemma_sum_pairs_nonneg(snaps[0]);
        assert(pairs_total_all(snaps.drop_first()) >= 0) by {
            lemma_pairs_total_all_nonneg(snaps.drop_first());
        }
        lemma_merge_rows_count(rows, snaps[0], now, k);
        assert(forall|x: int|
            0 <= x < snaps.drop_first().len() ==> crate::stats::keys_unique(
                #[trigger] snaps.drop_first()[x],
            )) by {
            assert(forall|x: int|
                0 <= x < snaps.drop_first().len() ==> snaps.drop_first()[x] == snaps[x + 1]);
        }
        lemma_merge_monotonicity(m0, snaps.drop_first(), now, k);
    }
}

pub proof fn lemma_pairs_total_all_nonneg(snaps: Seq<Pairs>)
    ensures
        pairs_total_all(snaps) >= 0,
    decreases snaps.len(),
{
    if snaps.len() > 0 {
        lemma_sum_pairs_nonneg(snaps[0]);
        lemma_pairs_total_all_nonneg(snaps.drop_first());
    }
}

/// One merge step: folding the next pair extends the fold of a prefix.
pub proof fn lemma_merge_take_step(rows: Rows, ps: Pairs, now: u64, k: int)
    requires
        0 <= k < ps.len(),
    ensures
        merge_rows(rows, ps.take(k + 1), now) == upsert(
            merge_rows(rows, ps.take(k), now),
            ps[k].0,
            ps[k].1,
            now,
        ),
    decreases k,
{
    if k == 0 {
        assert(ps.take(0) =~= Seq::<(Seq<char>, u64)>::empty());
        assert(ps.take(1)[0] == ps[0]);
        assert(ps.take(1).drop_first() =~= Seq::<(Seq<char>, u64)>::empty());
        assert(merge_rows(rows, ps.take(0), now) == rows);
        let u0 = upsert(rows, ps[0].0, ps[0].1, now);
        assert(merge_rows(rows, ps.take(1), now) == merge_rows(
            u0,
            ps.take(1).drop_first(),
            now,
        ));
        assert(merge_rows(u0, Seq::<(Seq<char>, u64)>::empty(), now) == u0);
    } else {
        let u0 = upsert(rows, ps[0].0, ps[0].1, now);
        let pdf = ps.drop_first();
        assert(ps.take(k + 1)[0] == ps[0]);
        assert(ps.take(k + 1).drop_first() =~= pdf.take(k));
        assert(ps.take(k)[0] == ps[0]);
        assert(ps.take(k).drop_first() =~= pdf.take(k - 1));
        lemma_merge_take_step(u0, pdf, now, k - 1);
        assert(pdf[k - 1] == ps[k]);
        assert(merge_rows(rows, ps.take(k + 1), now) == merge_rows(u0, pdf.take(k), now));
        assert(merge_rows(rows, ps.take(k), now) == merge_rows(u0, pdf.take(k - 1), now));
    }
}

/// An upsert raises the total sum by exactly the delta, when it fits.
pub proof fn lemma_upsert_sum(rows: Rows, k: Seq<char>, d: u64, now: u64)
    requires
        match row_lookup(rows, k) {
            Some(r) => r.count + d <= u64::MAX,
            None => true,
        },
    ensures
        sum_counts(upsert(rows, k, d, now)) == sum_counts(rows) + d,
    decreases rows.len(),
{
    let u = upsert(rows, k, d, now);
    if rows.len() == 0 {
        assert(u.drop_first() =~= Seq::<RowGhost>::empty());
        assert(sum_counts(u) == u[0].count as int + sum_counts(u.drop_first()));
        assert(sum_counts(Seq::<RowGhost>::empty()) == 0);
    } else if rows[0].name == k {
        assert(row_lookup(rows, k) == Some(rows[0]));
        assert(u[0].count == (rows[0].count + d) as u64);
        assert(u.drop_first() =~= rows.drop_first());
        assert(sum_counts(u) == u[0].count as int + sum_counts(u.drop_first()));
        assert(sum_counts(rows) == rows[0].count as int + sum_counts(rows.drop_first()));
    } else {
        assert(u[0] == rows[0]);
        assert(u.drop_first() =~= upsert(rows.drop_first(), k, d, now));
        assert(row_lookup(rows, k) == row_lookup(rows.drop_first(), k));
        lemma_upsert_sum(rows.drop_first(), k, d, now);
        assert(sum_counts(u) == u[0].count as int + sum_counts(u.drop_first()));
        assert(sum_counts(rows) == rows[0].count as int + sum_counts(rows.drop_first()));
    }
}

// ---------------------------------------------------------------------
// The store itself
// ---------------------------------------------------------------------

/// The one way a merge can fail in the store: the running totals would
/// no longer fit. The whole merge is then rolled back.
#[derive(Clone, Copy, Debug, PartialEq, Eq, Structural)]
pub enum StoreError {
    Capacity,
}

/// The persistent aggregate: counter rows plus the two sync marks.
pub struct Store {
    pub rows: Vec<CounterRow>,
    pub first_sync: Option<u64>,
    pub last_sync: Option<u64>,
}

/// The model of the store.
#[verifier::ext_equal]
pub struct StoreGhost {
    pub rows: Rows,
    pub first_sync: Option<u64>,
    pub last_sync: Option<u64>,
}

impl StoreGhost {
    /// Well-formedness: distinct names, types derived from names, and
    /// a total that fits the counter width.
    pub open spec fn wf(self) -> bool {
        &&& row_names_unique(self.rows)
        &&& rows_typed(self.rows)
        &&& sum_counts(self.rows) <= u64::MAX
    }
}

impl View for Store {
    type V = StoreGhost;

    open spec fn view(&self) -> StoreGhost {
        StoreGhost {
            rows: spec_view_rows(self.rows@),
            first_sync: self.first_sync,
            last_sync: self.last_sync,
        }
    }
}

impl Store {
    /// An empty store: no rows, no sync marks yet.
    pub fn new() -> (r: Store)
        ensures
            r@.rows =~= Seq::<RowGhost>::empty(),
            r@.first_sync is None,
            r@.last_sync is None,
            r@.wf(),
    {
        let r = Store { rows: Vec::new(), first_sync: None, last_sync: None };
        proof {
            assert(r@.rows =~= Seq::<RowGhost>::empty());
        }
        r
    }

    /// Build a store from rows read back from persistent storage, plus
    /// the two sync marks. The input is not trusted: a repeated name
    /// keeps its first row, every type is re-derived from the name, and
    /// a row that would push the grand total past the counter width is
    /// dropped — the result is well-formed whatever was handed in.
    pub fn from_rows(rows: Vec<CounterRow>, first_sync: Option<u64>, last_sync: Option<u64>) -> (r:
        Store)
        ensures
            r@.wf(),
            r@.rows == rebuild_rows(Seq::<RowGhost>::empty(), spec_view_rows(rows@)),
            r@.first_sync == first_sync,
            r@.last_sync == last_sync,
    {
        let ghost rsv = spec_view_rows(rows@);
        let ghost target = rebuild_rows(Seq::<RowGhost>::empty(), rsv);
        let mut st = Store::new();
        st.first_sync = first_sync;
        st.last_sync = last_sync;
        let mut total: u64 = 0;
        let n = rows.len();
        let mut i: usize = 0;
        proof {
            assert(rsv.skip(0) =~= rsv);
            assert(st@.rows =~= Seq::<RowGhost>::empty());
        }
        while i < n
            invariant
                n == rows@.len(),
                rsv == spec_view_rows(rows@),
                target == rebuild_rows(Seq::<RowGhost>::empty(), rsv),
                i <= n,
                row_names_unique(st@.rows),
                rows_typed(st@.rows),
                total as int == sum_counts(st@.rows),
                rebuild_rows(st@.rows, rsv.skip(i as int)) == target,
                st@.first_sync == first_sync,
                st@.last_sync == last_sync,
            decreases n - i,
        {
            proof {
                assert(rsv.skip(i as int)[0] == rsv[i as int]);
                assert(rsv.skip(i as int).drop_first() =~= rsv.skip(i as int + 1));
                assert(rsv[i as int] == rows@[i as int]@);
            }
            let ghost prev = st@.rows;
            let found = st.find_row(rows[i].event_name.as_str());
            let c = rows[i].count;
            match found {
                Some(_) => {
                    proof {
                        lemma_row_lookup_index_iff(prev, rsv[i as int].name);
                    }
                },
                None => {
                    proof {
                        lemma_row_lookup_index_iff(prev, rsv[i as int].name);
                    }
                    if c <= u64::MAX - total {
                        let nm = rows[i].event_name.clone();
                        let cat = classify(nm.as_str());
                        st.rows.push(
                            CounterRow {
                                event_name: nm,
                                event_type: cat,
                                count: c,
                                created_at: rows[i].created_at,
                                updated_at: rows[i].updated_at,
                            },
                        );
                        total = total + c;
                        proof {
                            let fixed = RowGhost {
                                name: rsv[i as int].name,
                                cat: spec_category_of(rsv[i as int].name),
                                count: rsv[i as int].count,
                                created_at: rsv[i as int].created_at,
                                updated_at: rsv[i as int].updated_at,
                            };
                            assert(st@.rows =~= prev.push(fixed));
                            lemma_sum_counts_push(prev, fixed);
                            assert(row_names_unique(st@.rows));
                            assert(rows_typed(st@.rows));
                        }
                    }
                },
            }
            i = i + 1;
        }
        proof {
            assert(rsv.skip(n as int) =~= Seq::<RowGhost>::empty());
        }
        st
    }

    /// The index of the row holding an identifier, if any.
    fn find_row(&self, name: &str) -> (r: Option<usize>)
        ensures
            match r {
                Some(i) => i < self@.rows.len() && self@.rows[i as int].name == name@ && forall|
                    j: int,
                |
                    0 <= j < i ==> self@.rows[j].name != name@,
                None => forall|j: int| 0 <= j < self@.rows.len() ==> self@.rows[j].name != name@,
            },
    {
        let n = self.rows.len();
        let mut i: usize = 0;
        while i < n
            invariant
                n == self.rows@.len(),
                i <= n,
                forall|j: int| 0 <= j < i ==> self@.rows[j].name != name@,
            decreases n - i,
        {
            if str_eq(self.rows[i].event_name.as_str(), name) {
                return Some(i);
            }
            i = i + 1;
        }
        None
    }

    /// The sum of all stored counts; fits by well-formedness.
    fn total_count(&self) -> (r: u64)
        requires
            self@.wf(),
        ensures
            r as int == sum_counts(self@.rows),
    {
        let n = self.rows.len();
        let mut acc: u64 = 0;
        let mut i: usize = 0;
        while i < n
            invariant
                self@.wf(),
                n == self.rows@.len(),
                i <= n,
                acc as int == sum_counts(self@.rows.take(i as int)),
            decreases n - i,
        {
            proof {
                lemma_sum_counts_take_step(self@.rows, i as int);
                lemma_sum_counts_take(self@.rows, i as int + 1);
            }
            acc = acc + self.rows[i].count;
            i = i + 1;
        }
        proof {
            assert(self@.rows.take(n as int) =~= self@.rows);
        }
        acc
    }

    /// The sum of a snapshot's deltas, or `None` when it would not fit.
    fn pairs_total(snap: &Stats) -> (r: Option<u64>)
        ensures
            match r {
                Some(t) => t as int == sum_pairs(snap@.events),
                None => sum_pairs(snap@.events) > u64::MAX,
            },
    {
        let n = snap.events.len();
        let mut acc: u64 = 0;
        let mut i: usize = 0;
        while i < n
            invariant
                n == snap.events@.len(),
                i <= n,
                acc as int == sum_pairs(snap@.events.take(i as int)),
            decreases n - i,
        {
            let d = snap.events[i].1;
            proof {
                lemma_sum_pairs_take_step(snap@.events, i as int);
            }
            if d > u64::MAX - acc {
                proof {
                    lemma_sum_pairs_take(snap@.events, i as int + 1);
                }
                return None;
            }
            acc = acc + d;
            i = i + 1;
        }
        proof {
            assert(snap@.events.take(n as int) =~= snap@.events);
        }
        Some(acc)
    }

    /// Merge a snapshot's deltas into the rows, one atomic step: every
    /// pair is folded in, `last_sync` is refreshed, and `first_sync` is
    /// set only if it was never set. If the grand total would overflow,
    /// nothing at all changes. Returns the number of identifiers merged.
    pub fn merge_snapshot(&mut self, snap: &Stats, now: u64) -> (r: Result<usize, StoreError>)
        requires
            old(self)@.wf(),
            snap@.wf(),
        ensures
            final(self)@.wf(),
            (r is Ok) == (sum_counts(old(self)@.rows) + sum_pairs(snap@.events) <= u64::MAX),
            match r {
                Ok(n) => n == snap@.events.len() && final(self)@.rows == merge_rows(
                    old(self)@.rows,
                    snap@.events,
                    now,
                ) && final(self)@.last_sync == Some(now) && final(self)@.first_sync == (
                match old(self)@.first_sync {
                    Some(t) => Some(t),
                    None => Some(now),
                }),
                Err(e) => *final(self) == *old(self) && e == StoreError::Capacity,
            },
    {
        let st = self.total_count();
        let sd = match Self::pairs_total(snap) {
            Some(x) => x,
            None => {
                proof {
                    lemma_sum_counts_nonneg(self@.rows);
                }
                return Err(StoreError::Capacity);
            },
        };
        if sd > u64::MAX - st {
            return Err(StoreError::Capacity);
        }
        let ghost rows0 = self@.rows;
        let ghost ps = snap@.events;
        let m = snap.events.len();
        let mut k: usize = 0;
        while k < m
            invariant
                m == snap.events@.len(),
                ps == snap@.events,
                sum_counts(rows0) + sum_pairs(ps) <= u64::MAX,
                k <= m,
                self@.rows == merge_rows(rows0, ps.take(k as int), now),
                row_names_unique(self@.rows),
                rows_typed(self@.rows),
                sum_counts(self@.rows) == sum_counts(rows0) + sum_pairs(ps.take(k as int)),
                self@.first_sync == old(self)@.first_sync,
                self@.last_sync == old(self)@.last_sync,
            decreases m - k,
        {
            let ghost prev = self@.rows;
            let ghost key = snap@.events[k as int].0;
            let d = snap.events[k].1;
            proof {
                assert(snap@.events[k as int] == (snap.events@[k as int].0@, snap.events@[k as int].1));
                lemma_sum_pairs_take_step(ps, k as int);
                lemma_sum_pairs_take(ps, k as int + 1);
                lemma_merge_take_step(rows0, ps, now, k as int);
            }
            let found = self.find_row(snap.events[k].0.as_str());
            match found {
                Some(i) => {
                    let c = self.rows[i].count;
                    proof {
                        lemma_upsert_found(prev, key, d, now, i as int);
                        lemma_row_le_sum(prev, i as int);
                        assert(c + d <= u64::MAX);
                        lemma_upsert_sum(prev, key, d, now);
                    }
                    self.rows[i].count = c + d;
                    self.rows[i].updated_at = now;
                    proof {
                        assert(self@.rows =~= prev.update(
                            i as int,
                            RowGhost {
                                name: prev[i as int].name,
                                cat: prev[i as int].cat,
                                count: (prev[i as int].count + d) as u64,
                                created_at: prev[i as int].created_at,
                                updated_at: now,
                            },
                        ));
                        assert(self@.rows == upsert(prev, key, d, now));
                    }
                },
                None => {
                    let nm = snap.events[k].0.clone();
                    let cat = classify(nm.as_str());
                    proof {
                        lemma_upsert_absent(prev, key, d, now);
                        lemma_upsert_sum(prev, key, d, now);
                    }
                    self.rows.push(
                        CounterRow {
                            event_name: nm,
                            event_type: cat,
                            count: d,
                            created_at: now,
                            updated_at: now,
                        },
                    );
                    proof {
                        assert(self@.rows =~= prev.push(
                            RowGhost {
                                name: key,
                                cat: spec_category_of(key),
                                count: d,
                                created_at: now,
                                updated_at: now,
                            },
                        ));
                        assert(self@.rows == upsert(prev, key, d, now));
                    }
                },
            }
            k = k + 1;
        }
        proof {
            assert(ps.take(m as int) =~= ps);
        }
        self.last_sync = Some(now);
        if self.first_sync.is_none() {
            self.first_sync = Some(now);
        }
        Ok(m)
    }
}

// ---------------------------------------------------------------------
// The query report
// ---------------------------------------------------------------------

/// One reported row: identifier, derived category, stored count.
pub struct QueryRow {
    pub name: String,
    pub event_type: Category,
    pub count: u64,
}

impl View for QueryRow {
    type V = (Seq<char>, Category, u64);

    open spec fn view(&self) -> (Seq<char>, Category, u64) {
        (self.name@, self.event_type, self.count)
    }
}

pub open spec fn row_entry(r: RowGhost) -> (Seq<char>, Category, u64) {
    (r.name, r.cat, r.count)
}

pub open spec fn entries_of(rows: Rows) -> Seq<(Seq<char>, Category, u64)> {
    rows.map_values(|r: RowGhost| row_entry(r))
}

pub open spec fn spec_view_qrows(qs: Seq<QueryRow>) -> Seq<(Seq<char>, Category, u64)> {
    qs.map_values(|q: QueryRow| q@)
}

/// Counts never increase along the sequence.
pub open spec fn sorted_desc(es: Seq<(Seq<char>, Category, u64)>) -> bool {
    forall|i: int, j: int| 0 <= i < j < es.len() ==> es[i].2 >= es[j].2
}

/// The full aggregate a read returns: recomputed category totals, the
/// two sync marks, and every row, ordered by count descending.
pub struct StatsReport {
    pub total_keys: u64,
    pub total_clicks: u64,
    pub total_wheels: u64,
    pub first_sync: Option<u64>,
    pub last_sync: Option<u64>,
    pub events: Vec<QueryRow>,
}

impl Store {
    /// Recompute the aggregate from the rows alone: each category total
    /// is the sum of the counts of the rows of that category, and the
    /// returned rows are exactly the stored ones, by count descending.
    pub fn query(&self) -> (r: StatsReport)
        requires
            self@.wf(),
        ensures
            r.total_keys as int == sum_counts_cat(self@.rows, Category::Key),
            r.total_clicks as int == sum_counts_cat(self@.rows, Category::Click),
            r.total_wheels as int == sum_counts_cat(self@.rows, Category::Wheel),
            r.first_sync == self@.first_sync,
            r.last_sync == self@.last_sync,
            spec_view_qrows(r.events@).to_multiset() == entries_of(self@.rows).to_multiset(),
            sorted_desc(spec_view_qrows(r.events@)),
    {
        let ghost rows = self@.rows;
        let n = self.rows.len();
        let mut tk: u64 = 0;
        let mut tc: u64 = 0;
        let mut tw: u64 = 0;
        let mut rest: Vec<QueryRow> = Vec::new();
        let mut i: usize = 0;
        while i < n
            invariant
                self@.wf(),
                rows == self@.rows,
                n == self.rows@.len(),
                i <= n,
                tk as int == sum_counts_cat(rows.take(i as int), Category::Key),
                tc as int == sum_counts_cat(rows.take(i as int), Category::Click),
                tw as int == sum_counts_cat(rows.take(i as int), Category::Wheel),
                spec_view_qrows(rest@) =~= entries_of(rows.take(i as int)),
            decreases n - i,
        {
            proof {
                assert(rows.take(i as int + 1) =~= rows.take(i as int).push(rows[i as int]));
                lemma_sum_cat_push(rows.take(i as int), rows[i as int], Category::Key);
                lemma_sum_cat_push(rows.take(i as int), rows[i as int], Category::Click);
                lemma_sum_cat_push(rows.take(i as int), rows[i as int], Category::Wheel);
                lemma_sum_cat_le_sum(rows.take(i as int + 1), Category::Key);
                lemma_sum_cat_le_sum(rows.take(i as int + 1), Category::Click);
                lemma_sum_cat_le_sum(rows.take(i as int + 1), Category::Wheel);
                lemma_sum_counts_take(rows, i as int + 1);
            }
            let row = &self.rows[i];
            let c = row.count;
            match row.event_type {
                Category::Key => {
                    tk = tk + c;
                },
                Category::Click => {
                    tc = tc + c;
                },
                Category::Wheel => {
                    tw = tw + c;
                },
                Category::Other => {},
            }
            let q = QueryRow {
                name: self.rows[i].event_name.clone(),
                event_type: self.rows[i].event_type,
                count: self.rows[i].count,
            };
            proof {
                assert(q@ == row_entry(rows[i as int]));
            }
            let ghost prev_rest = rest@;
            rest.push(q);
            proof {
                assert(rest@ =~= prev_rest.push(q));
                assert(spec_view_qrows(rest@) =~= spec_view_qrows(prev_rest).push(q@));
                assert(entries_of(rows.take(i as int + 1)) =~= entries_of(
                    rows.take(i as int),
                ).push(row_entry(rows[i as int])));
                assert(spec_view_qrows(rest@) =~= entries_of(rows.take(i as int + 1)));
            }
            i = i + 1;
        }
        proof {
            assert(rows.take(n as int) =~= rows);
        }
        // order by count descending: repeatedly move the largest over
        let mut out: Vec<QueryRow> = Vec::new();
        let ghost target = entries_of(rows).to_multiset();
        proof {
            broadcast use vstd::multiset::group_multiset_axioms;

            let eo = spec_view_qrows(out@);
            assert(eo =~= Seq::<(Seq<char>, Category, u64)>::empty());
            eo.to_multiset_ensures();
            assert(forall|e: (Seq<char>, Category, u64)| #[trigger] eo.to_multiset().count(e)
                == 0) by {
                assert forall|e: (Seq<char>, Category, u64)|
                    #[trigger] eo.to_multiset().count(e) == 0 by {
                    if eo.to_multiset().count(e) > 0 {
                        assert(eo.contains(e));
                    }
                }
            }
            assert(eo.to_multiset().add(spec_view_qrows(rest@).to_multiset()) =~= spec_view_qrows(
                rest@,
            ).to_multiset());
            assert(spec_view_qrows(rest@) == entries_of(rows));
        }
        while rest.len() > 0
            invariant
                sorted_desc(spec_view_qrows(out@)),
                forall|a: int, b: int|
                    0 <= a < out@.len() && 0 <= b < rest@.len() ==> spec_view_qrows(out@)[a].2
                        >= spec_view_qrows(rest@)[b].2,
                spec_view_qrows(out@).to_multiset().add(spec_view_qrows(rest@).to_multiset())
                    == target,
            decreases rest@.len(),
        {
            let m = rest.len();
            let mut best: usize = 0;
            let mut j: usize = 1;
            while j < m
                invariant
                    m == rest@.len(),
                    best < m,
                    j <= m,
                    forall|x: int| 0 <= x < j ==> rest@[best as int].count >= rest@[x].count,
                decreases m - j,
            {
                if rest[j].count > rest[best].count {
                    best = j;
                }
                j = j + 1;
            }
            let ghost qs_before = spec_view_qrows(rest@);
            let ghost outs_before = spec_view_qrows(out@);
            let ghost picked = qs_before[best as int];
            let row = rest.remove(best);
            out.push(row);
            proof {
                broadcast use vstd::multiset::group_multiset_axioms;

                assert(row@ == picked);
                assert(spec_view_qrows(rest@) =~= qs_before.remove(best as int));
                assert(spec_view_qrows(out@) =~= outs_before.push(picked));
                outs_before.to_multiset_ensures();
                qs_before.to_multiset_ensures();
                assert(outs_before.push(picked).to_multiset() =~= outs_before.to_multiset()
                    .insert(picked));
                assert(qs_before.remove(best as int).to_multiset() =~= qs_before.to_multiset()
                    .remove(picked));
                assert(qs_before.contains(picked));
                assert(qs_before.to_multiset().count(picked) > 0);
                assert(outs_before.to_multiset().insert(picked).add(
                    qs_before.to_multiset().remove(picked),
                ) =~= outs_before.to_multiset().add(qs_before.to_multiset()));
            }
        }
        proof {
            broadcast use vstd::multiset::group_multiset_axioms;

            let es = spec_view_qrows(rest@);
            assert(es =~= Seq::<(Seq<char>, Category, u64)>::empty());
            es.to_multiset_ensures();
            assert(forall|e: (Seq<char>, Category, u64)| #[trigger] es.to_multiset().count(e)
                == 0) by {
                assert forall|e: (Seq<char>, Category, u64)|
                    #[trigger] es.to_multiset().count(e) == 0 by {
                    if es.to_multiset().count(e) > 0 {
                        assert(es.contains(e));
                    }
                }
            }
            assert(spec_view_qrows(out@).to_multiset() =~= spec_view_qrows(out@).to_multiset()
                .add(es.to_multiset()));
        }
        StatsReport {
            total_keys: tk,
            total_clicks: tc,
            total_wheels: tw,
            first_sync: self.first_sync,
            last_sync: self.last_sync,
            events: out,
        }
    }
}

} // verus!
