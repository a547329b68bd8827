//! The local aggregator: three category totals plus a per-identifier
//! count table, mutated only by increments. The table is a vector of
//! pairs with pairwise-distinct keys; its mathematical model is the
//! sequence of (identifier, count) pairs in insertion order.

use vstd::prelude::*;
use crate::classify::{
    classify, key_code_name, key_name_of, lemma_button_identifier_is_click,
    lemma_wheel_identifier_is_wheel, spec_button_identifier, spec_category_of,
    spec_wheel_identifier, button_identifier, wheel_identifier, Category,
};
use crate::text::{all_plain, str_eq};

verus! {

/// The model of the count table: identifier/count pairs in order.
pub type Pairs = Seq<(Seq<char>, u64)>;

/// All identifiers in the table are pairwise distinct.
pub open spec fn keys_unique(ps: Pairs) -> bool {
    forall|i: int, j: int| 0 <= i < j < ps.len() ==> ps[i].0 != ps[j].0
}

/// All identifiers in the table lie in the plain identifier alphabet
/// (`crate::text::is_plain`), the only names the wire format carries.
pub open spec fn keys_plain(ps: Pairs) -> bool {
    forall|i: int| 0 <= i < ps.len() ==> all_plain(#[trigger] ps[i].0)
}

/// The count stored under an identifier, if any.
pub open spec fn lookup(ps: Pairs, k: Seq<char>) -> Option<u64>
    decreases ps.len(),
{
    if ps.len() == 0 {
        None
    } else if ps[0].0 == k {
        Some(ps[0].1)
    } else {
        lookup(ps.drop_first(), k)
    }
}

/// The count stored under an identifier, zero if absent.
pub open spec fn count_of(ps: Pairs, k: Seq<char>) -> u64 {
    match lookup(ps, k) {
        Some(c) => c,
        None => 0,
    }
}

/// The sum of the counts of the identifiers whose derived category is `c`.
pub open spec fn sum_in_cat(ps: Pairs, c: Category) -> int
    decreases ps.len(),
{
    if ps.len() == 0 {
        0int
    } else {
        sum_in_cat(ps.drop_last(), c) + if spec_category_of(ps.last().0) == c {
            ps.last().1 as int
        } else {
            0int
        }
    }
}

/// Incrementing an identifier's count by `d`: adds `d` to the pair that
/// holds the identifier, or appends a fresh pair. (The addition is stated
/// with wrap-around; it is only ever relied upon where it fits.)
pub open spec fn bump_pairs(ps: Pairs, k: Seq<char>, d: u64) -> Pairs
    decreases ps.len(),
{
    if ps.len() == 0 {
        seq![(k, d)]
    } else if ps[0].0 == k {
        seq![(ps[0].0, (ps[0].1 + d) as u64)] + ps.drop_first()
    } else {
        seq![ps[0]] + bump_pairs(ps.drop_first(), k, d)
    }
}

/// If the identifier sits at index `i` of a table with distinct keys,
/// bumping is an update in place.
pub proof fn lemma_bump_found(ps: Pairs, k: Seq<char>, d: u64, i: int)
    requires
        keys_unique(ps),
        0 <= i < ps.len(),
        ps[i].0 == k,
        forall|j: int| 0 <= j < i ==> ps[j].0 != k,
    ensures
        bump_pairs(ps, k, d) =~= ps.update(i, (k, (ps[i].1 + d) as u64)),
        lookup(ps, k) == Some(ps[i].1),
    decreases ps.len(),
{
    if i == 0 {
        assert(bump_pairs(ps, k, d) =~= ps.update(0, (k, (ps[0].1 + d) as u64)));
    } else {
        assert(ps[0].0 != k);
        lemma_bump_found(ps.drop_first(), k, d, i - 1);
        assert(bump_pairs(ps, k, d) =~= seq![ps[0]] + bump_pairs(ps.drop_first(), k, d));
        assert(ps.drop_first()[i - 1] == ps[i]);
        assert(bump_pairs(ps, k, d) =~= ps.update(i, (k, (ps[i].1 + d) as u64)));
    }
}

/// If the identifier is absent, bumping appends a fresh pair.
pub proof fn lemma_bump_absent(ps: Pairs, k: Seq<char>, d: u64)
    requires
        forall|j: int| 0 <= j < ps.len() ==> ps[j].0 != k,
    ensures
        bump_pairs(ps, k, d) =~= ps.push((k, d)),
        lookup(ps, k) is None,
    decreases ps.len(),
{
    if ps.len() > 0 {
        assert(forall|j: int|
            0 <= j < ps.drop_first().len() ==> ps.drop_first()[j].0 != k);
        lemma_bump_absent(ps.drop_first(), k, d);
        assert(bump_pairs(ps, k, d) =~= ps.push((k, d)));
    }
}

/// An identifier has a count exactly when some pair holds it.
pub proof fn lemma_lookup_index_iff(ps: Pairs, k: Seq<char>)
    ensures
        (lookup(ps, k) is Some) <==> exists|j: int| 0 <= j < ps.len() && ps[j].0 == k,
    decreases ps.len(),
{
    if ps.len() == 0 {
    } else if ps[0].0 == k {
        assert(ps[0].0 == k);
    } else {
        lemma_lookup_index_iff(ps.drop_first(), k);
        if exists|j: int| 0 <= j < ps.len() && ps[j].0 == k {
            let j = choose|j: int| 0 <= j < ps.len() && ps[j].0 == k;
            assert(j != 0);
            assert(ps.drop_first()[j - 1].0 == k);
        }
        if exists|j: int| 0 <= j < ps.drop_first().len() && ps.drop_first()[j].0 == k {
            let j = choose|j: int| 0 <= j < ps.drop_first().len() && ps.drop_first()[j].0 == k;
            assert(ps[j + 1].0 == k);
        }
    }
}

/// Updating the count at one index moves the one matching category sum by `d`.
pub proof fn lemma_sum_update(ps: Pairs, i: int, d: u64, c: Category)
    requires
        0 <= i < ps.len(),
        ps[i].1 + d <= u64::MAX,
    ensures
        sum_in_cat(ps.update(i, (ps[i].0, (ps[i].1 + d) as u64)), c) == sum_in_cat(ps, c)
            + if spec_category_of(ps[i].0) == c {
            d as int
        } else {
            0int
        },
    decreases ps.len(),
{
    let q = ps.update(i, (ps[i].0, (ps[i].1 + d) as u64));
    if i == ps.len() - 1 {
        assert(q.drop_last() =~= ps.drop_last());
        assert(q.last() == (ps[i].0, (ps[i].1 + d) as u64));
    } else {
        assert(q.drop_last() =~= ps.drop_last().update(i, (ps[i].0, (ps[i].1 + d) as u64)));
        assert(ps.drop_last()[i] == ps[i]);
        lemma_sum_update(ps.drop_last(), i, d, c);
        assert(q.last() == ps.last());
    }
}

/// Appending a pair adds its count to its category's sum.
pub proof fn lemma_sum_push(ps: Pairs, k: Seq<char>, d: u64, c: Category)
    ensures
        sum_in_cat(ps.push((k, d)), c) == sum_in_cat(ps, c) + if spec_category_of(k) == c {
            d as int
        } else {
            0int
        },
{
    assert(ps.push((k, d)).drop_last() =~= ps);
    assert(ps.push((k, d)).last() == (k, d));
}

/// The aggregator's mathematical model.
#[verifier::ext_equal]
pub struct StatsGhost {
    pub total_keys: u64,
    pub total_clicks: u64,
    pub total_wheels: u64,
    pub events: Pairs,
}

impl StatsGhost {
    /// Well-formedness: identifiers are pairwise distinct.
    pub open spec fn wf(self) -> bool {
        keys_unique(self.events)
    }

    /// The running total kept for a category (none is kept for `Other`).
    pub open spec fn cat_total(self, c: Category) -> u64 {
        match c {
            Category::Key => self.total_keys,
            Category::Click => self.total_clicks,
            Category::Wheel => self.total_wheels,
            Category::Other => 0u64,
        }
    }

    /// Each category total equals the sum of the counts of the
    /// identifiers whose derived category matches.
    pub open spec fn consistent(self) -> bool {
        &&& self.total_keys as int == sum_in_cat(self.events, Category::Key)
        &&& self.total_clicks as int == sum_in_cat(self.events, Category::Click)
        &&& self.total_wheels as int == sum_in_cat(self.events, Category::Wheel)
    }

    /// Nothing has been counted at all.
    pub open spec fn is_zero(self) -> bool {
        self.total_keys == 0 && self.total_clicks == 0 && self.total_wheels == 0
            && self.events.len() == 0
    }
}

pub open spec fn spec_view_pairs(es: Seq<(String, u64)>) -> Pairs {
    es.map_values(|p: (String, u64)| (p.0@, p.1))
}

/// Accumulated counters since the last successful delivery: three
/// category totals and the per-identifier count table. This same shape
/// is the wire body of a delivery and the content of the spool file.
pub struct Stats {
    pub total_keys: u64,
    pub total_clicks: u64,
    pub total_wheels: u64,
    pub events: Vec<(String, u64)>,
}

impl View for Stats {
    type V = StatsGhost;

    open spec fn view(&self) -> StatsGhost {
        StatsGhost {
            total_keys: self.total_keys,
            total_clicks: self.total_clicks,
            total_wheels: self.total_wheels,
            events: spec_view_pairs(self.events@),
        }
    }
}

impl Stats {
    /// A fresh aggregator with everything at zero.
    pub fn new() -> (r: Stats)
        ensures
            r@.is_zero(),
            r@.wf(),
            r@.consistent(),
            keys_plain(r@.events),
            r@.events =~= Seq::<(Seq<char>, u64)>::empty(),
    {
        let r = Stats {
            total_keys: 0,
            total_clicks: 0,
            total_wheels: 0,
            events: Vec::new(),
        };
        proof {
            assert(r@.events =~= Seq::<(Seq<char>, u64)>::empty());
        }
        r
    }

    /// The index of an identifier's pair in the table, if present.
    fn find_event(&self, name: &str) -> (r: Option<usize>)
        ensures
            match r {
                Some(i) => i < self@.events.len() && self@.events[i as int].0 == name@
                    && forall|j: int| 0 <= j < i ==> self@.events[j].0 != name@,
                None => forall|j: int| 0 <= j < self@.events.len() ==> self@.events[j].0 != name@,
            },
    {
        let n = self.events.len();
        let mut i: usize = 0;
        while i < n
            invariant
                n == self.events@.len(),
                i <= n,
                forall|j: int| 0 <= j < i ==> self@.events[j].0 != name@,
            decreases n - i,
        {
            if str_eq(self.events[i].0.as_str(), name) {
                return Some(i);
            }
            i = i + 1;
        }
        None
    }

    /// Record `delta` occurrences of an identifier: its count and the
    /// total of its derived category both grow by `delta`. Returns false
    /// and leaves the state untouched when either addition would not fit.
    pub fn record(&mut self, name: &str, delta: u64) -> (ok: bool)
        requires
            old(self)@.wf(),
        ensures
            final(self)@.wf(),
            ok == (count_of(old(self)@.events, name@) + delta <= u64::MAX
                && old(self)@.cat_total(spec_category_of(name@)) + delta <= u64::MAX),
            ok ==> final(self)@.events =~= bump_pairs(old(self)@.events, name@, delta),
            ok ==> final(self)@.total_keys == old(self)@.total_keys
                + if spec_category_of(name@) == Category::Key { delta as int } else { 0int },
            ok ==> final(self)@.total_clicks == old(self)@.total_clicks
                + if spec_category_of(name@) == Category::Click { delta as int } else { 0int },
            ok ==> final(self)@.total_wheels == old(self)@.total_wheels
                + if spec_category_of(name@) == Category::Wheel { delta as int } else { 0int },
            !ok ==> final(self)@ == old(self)@,
            old(self)@.consistent() ==> final(self)@.consistent(),
            keys_plain(old(self)@.events) && all_plain(name@) ==> keys_plain(
                final(self)@.events,
            ),
    {
        let ghost ps = self@.events;
        let cat = classify(name);
        let found = self.find_event(name);
        let cur: u64 = match found {
            Some(i) => self.events[i].1,
            None => 0,
        };
        proof {
            match found {
                Some(i) => {
                    lemma_bump_found(ps, name@, delta, i as int);
                },
                None => {
                    lemma_bump_absent(ps, name@, delta);
                },
            }
            assert(count_of(ps, name@) == cur);
        }
        if delta > u64::MAX - cur {
            return false;
        }
        let tot_ok = match cat {
            Category::Key => delta <= u64::MAX - self.total_keys,
            Category::Click => delta <= u64::MAX - self.total_clicks,
            Category::Wheel => delta <= u64::MAX - self.total_wheels,
            Category::Other => true,
        };
        if !tot_ok {
            return false;
        }
        match found {
            Some(i) => {
                self.events[i].1 = cur + delta;
                proof {
                    assert(self@.events =~= ps.update(i as int, (name@, (cur + delta) as u64)));
                    if old(self)@.consistent() {
                        lemma_sum_update(ps, i as int, delta, Category::Key);
                        lemma_sum_update(ps, i as int, delta, Category::Click);
                        lemma_sum_update(ps, i as int, delta, Category::Wheel);
                    }
                    if keys_plain(ps) && all_plain(name@) {
                        assert(keys_plain(self@.events));
                    }
                }
            },
            None => {
                let owned: String = name.to_owned();
                self.events.push((owned, delta));
                proof {
                    assert(self@.events =~= ps.push((name@, delta)));
                    if old(self)@.consistent() {
                        lemma_sum_push(ps, name@, delta, Category::Key);
                        lemma_sum_push(ps, name@, delta, Category::Click);
                        lemma_sum_push(ps, name@, delta, Category::Wheel);
                    }
                    if keys_plain(ps) && all_plain(name@) {
                        assert(keys_plain(self@.events));
                    }
                }
            },
        }
        match cat {
            Category::Key => {
                self.total_keys = self.total_keys + delta;
            },
            Category::Click => {
                self.total_clicks = self.total_clicks + delta;
            },
            Category::Wheel => {
                self.total_wheels = self.total_wheels + delta;
            },
            Category::Other => {},
        }
        true
    }

    /// Record one key press, named through the fixed key-code table.
    pub fn record_key_press(&mut self, code: u16) -> (ok: bool)
        requires
            old(self)@.wf(),
        ensures
            final(self)@.wf(),
            ok == (count_of(old(self)@.events, key_name_of(code)) + 1 <= u64::MAX
                && old(self)@.cat_total(spec_category_of(key_name_of(code))) + 1 <= u64::MAX),
            ok ==> final(self)@.events =~= bump_pairs(old(self)@.events, key_name_of(code), 1),
            !ok ==> final(self)@ == old(self)@,
            old(self)@.consistent() ==> final(self)@.consistent(),
            keys_plain(old(self)@.events) ==> keys_plain(final(self)@.events),
    {
        let name = key_code_name(code);
        self.record(name.as_str(), 1)
    }

    /// Record one button press, named through the fixed button-code table;
    /// every such identifier is a click.
    pub fn record_button_press(&mut self, button: u32) -> (ok: bool)
        requires
            old(self)@.wf(),
        ensures
            final(self)@.wf(),
            ok == (count_of(old(self)@.events, spec_button_identifier(button)) + 1 <= u64::MAX
                && old(self)@.total_clicks + 1 <= u64::MAX),
            ok ==> final(self)@.events =~= bump_pairs(
                old(self)@.events,
                spec_button_identifier(button),
                1,
            ),
            ok ==> final(self)@.total_clicks == old(self)@.total_clicks + 1,
            ok ==> final(self)@.total_keys == old(self)@.total_keys,
            ok ==> final(self)@.total_wheels == old(self)@.total_wheels,
            !ok ==> final(self)@ == old(self)@,
            old(self)@.consistent() ==> final(self)@.consistent(),
            keys_plain(old(self)@.events) ==> keys_plain(final(self)@.events),
    {
        proof {
            lemma_button_identifier_is_click(button);
        }
        let name = button_identifier(button);
        self.record(name, 1)
    }

    /// Record `notches` discrete scroll steps on one axis; every such
    /// identifier is a wheel.
    pub fn record_wheel(&mut self, horizontal: bool, notches: u64) -> (ok: bool)
        requires
            old(self)@.wf(),
        ensures
            final(self)@.wf(),
            ok == (count_of(old(self)@.events, spec_wheel_identifier(horizontal)) + notches
                <= u64::MAX && old(self)@.total_wheels + notches <= u64::MAX),
            ok ==> final(self)@.events =~= bump_pairs(
                old(self)@.events,
                spec_wheel_identifier(horizontal),
                notches,
            ),
            ok ==> final(self)@.total_wheels == old(self)@.total_wheels + notches,
            ok ==> final(self)@.total_keys == old(self)@.total_keys,
            ok ==> final(self)@.total_clicks == old(self)@.total_clicks,
            !ok ==> final(self)@ == old(self)@,
            old(self)@.consistent() ==> final(self)@.consistent(),
            keys_plain(old(self)@.events) ==> keys_plain(final(self)@.events),
    {
        proof {
            lemma_wheel_identifier_is_wheel(horizontal);
        }
        let name = wheel_identifier(horizontal);
        self.record(name, notches)
    }

    /// An immutable copy of the current state, for one delivery attempt.
    pub fn snapshot(&self) -> (r: Stats)
        ensures
            r@ == self@,
    {
        let mut events: Vec<(String, u64)> = Vec::new();
        let n = self.events.len();
        let mut i: usize = 0;
        while i < n
            invariant
                n == self.events@.len(),
                i <= n,
                events@.len() == i,
                forall|j: int| 0 <= j < i ==> events@[j].0@ == self.events@[j].0@
                    && events@[j].1 == self.events@[j].1,
            decreases n - i,
        {
            let nm = self.events[i].0.clone();
            let c = self.events[i].1;
            events.push((nm, c));
            i = i + 1;
        }
        let r = Stats {
            total_keys: self.total_keys,
            total_clicks: self.total_clicks,
            total_wheels: self.total_wheels,
            events,
        };
        proof {
            assert(r@.events =~= self@.events);
            assert(r@ =~= self@);
        }
        r
    }

    /// Zero all state; used only after a confirmed successful delivery.
    pub fn reset(&mut self)
        ensures
            final(self)@.is_zero(),
            final(self)@.wf(),
            final(self)@.consistent(),
            keys_plain(final(self)@.events),
            final(self)@.events =~= Seq::<(Seq<char>, u64)>::empty(),
    {
        self.total_keys = 0;
        self.total_clicks = 0;
        self.total_wheels = 0;
        self.events = Vec::new();
        proof {
            assert(self@.events =~= Seq::<(Seq<char>, u64)>::empty());
        }
    }

    /// Whether nothing at all has been counted (a vacuous delivery).
    pub fn is_zero(&self) -> (r: bool)
        ensures
            r == self@.is_zero(),
    {
        self.total_keys == 0 && self.total_clicks == 0 && self.total_wheels == 0
            && self.events.len() == 0
    }
}

} // verus!
