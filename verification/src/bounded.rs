//! Min/max-with-key extremum tracking.
//!
//! A pair of `Bounded` trackers (one keeping the minimum, one the
//! maximum) is fed `(key, value)` pairs through [`apply`]. Each side
//! remembers the best value seen, the key of the first record that
//! reached it, and how many further records tied with it.

use vstd::prelude::*;

verus! {

/// Mathematical state of one extremum tracker.
pub struct BoundedView {
    pub best_key: Option<Seq<char>>,
    pub best_value: u64,
    pub tie_count: nat,
}

/// One side of an extremum: the best value seen so far, the key of
/// the first record that achieved it, and the number of additional
/// records that tied with it. `best_key` is `None` exactly while no
/// record has been observed.
pub struct Bounded {
    pub best_key: Option<String>,
    pub best_value: u64,
    pub tie_count: u64,
}

impl View for Bounded {
    type V = BoundedView;

    open spec fn view(&self) -> BoundedView {
        BoundedView {
            best_key: match self.best_key {
                Some(k) => Some(k@),
                None => None,
            },
            best_value: self.best_value,
            tie_count: self.tie_count as nat,
        }
    }
}

/// The state of a tracker that has seen no record yet.
pub open spec fn unset() -> BoundedView {
    BoundedView { best_key: None, best_value: 0, tie_count: 0 }
}

/// The state of a tracker seeded by its first record.
pub open spec fn seeded(key: Seq<char>, value: u64) -> BoundedView {
    BoundedView { best_key: Some(key), best_value: value, tie_count: 0 }
}

/// One step of the minimum-keeping side.
pub open spec fn apply_min(b: BoundedView, key: Seq<char>, value: u64) -> BoundedView {
    if b.best_key is None {
        seeded(key, value)
    } else if value < b.best_value {
        seeded(key, value)
    } else if value == b.best_value {
        BoundedView { tie_count: b.tie_count + 1, ..b }
    } else {
        b
    }
}

/// One step of the maximum-keeping side.
pub open spec fn apply_max(b: BoundedView, key: Seq<char>, value: u64) -> BoundedView {
    if b.best_key is None {
        seeded(key, value)
    } else if value > b.best_value {
        seeded(key, value)
    } else if value == b.best_value {
        BoundedView { tie_count: b.tie_count + 1, ..b }
    } else {
        b
    }
}

/// One step of a low/high tracker pair: the first record seeds both
/// sides identically; afterwards each side follows its own rule.
pub open spec fn apply_spec(
    low: BoundedView,
    high: BoundedView,
    key: Seq<char>,
    value: u64,
) -> (BoundedView, BoundedView) {
    if low.best_key is None {
        (seeded(key, value), seeded(key, value))
    } else {
        (apply_min(low, key, value), apply_max(high, key, value))
    }
}

impl Bounded {
    /// A tracker that has seen no record.
    pub fn new() -> (b: Bounded)
        ensures
            b@ == unset(),
    {
        Bounded { best_key: None, best_value: 0, tie_count: 0 }
    }
}

/// Feeds one `(key, value)` pair to a low/high tracker pair.
pub fn apply(low: &mut Bounded, high: &mut Bounded, key: &str, value: u64)
    requires
        old(low)@.tie_count < u64::MAX,
        old(high)@.tie_count < u64::MAX,
    ensures
        final(low)@ == apply_spec(old(low)@, old(high)@, key@, value).0,
        final(high)@ == apply_spec(old(low)@, old(high)@, key@, value).1,
{
    if low.best_key.is_none() {
        low.best_key = Some(String::from_str(key));
        low.best_value = value;
        low.tie_count = 0;
        high.best_key = Some(String::from_str(key));
        high.best_value = value;
        high.tie_count = 0;
    } else {
        if value < low.best_value {
            low.best_key = Some(String::from_str(key));
            low.best_value = value;
            low.tie_count = 0;
        } else if value == low.best_value {
            low.tie_count = low.tie_count + 1;
        }
        if high.best_key.is_none() {
            high.best_key = Some(String::from_str(key));
            high.best_value = value;
            high.tie_count = 0;
        } else if value > high.best_value {
            high.best_key = Some(String::from_str(key));
            high.best_value = value;
            high.tie_count = 0;
        } else if value == high.best_value {
            high.tie_count = high.tie_count + 1;
        }
    }
}

/// The tracker pair after feeding every pair of `pairs` in order,
/// starting from `low` and `high`.
pub open spec fn apply_all(
    low: BoundedView,
    high: BoundedView,
    pairs: Seq<(Seq<char>, u64)>,
) -> (BoundedView, BoundedView)
    decreases pairs.len(),
{
    if pairs.len() == 0 {
        (low, high)
    } else {
        let prev = apply_all(low, high, pairs.drop_last());
        apply_spec(prev.0, prev.1, pairs.last().0, pairs.last().1)
    }
}

/// The values of a sequence of `(key, value)` pairs.
pub open spec fn values_of(pairs: Seq<(Seq<char>, u64)>) -> Seq<u64> {
    pairs.map_values(|p: (Seq<char>, u64)| p.1)
}

/// The least value of a non-empty sequence.
pub open spec fn min_of(vs: Seq<u64>) -> u64
    recommends
        vs.len() > 0,
    decreases vs.len(),
{
    if vs.len() <= 1 {
        vs.first()
    } else {
        let m = min_of(vs.drop_last());
        if vs.last() < m {
            vs.last()
        } else {
            m
        }
    }
}

/// The greatest value of a non-empty sequence.
pub open spec fn max_of(vs: Seq<u64>) -> u64
    recommends
        vs.len() > 0,
    decreases vs.len(),
{
    if vs.len() <= 1 {
        vs.first()
    } else {
        let m = max_of(vs.drop_last());
        if vs.last() > m {
            vs.last()
        } else {
            m
        }
    }
}

/// How many elements of `vs` equal `x`.
pub open spec fn count_eq(vs: Seq<u64>, x: u64) -> nat
    decreases vs.len(),
{
    if vs.len() == 0 {
        0
    } else {
        (if vs.first() == x {
            1nat
        } else {
            0nat
        }) + count_eq(vs.drop_first(), x)
    }
}

/// The key of the first pair whose value is `x`, if any.
pub open spec fn first_key_with(pairs: Seq<(Seq<char>, u64)>, x: u64) -> Option<Seq<char>>
    decreases pairs.len(),
{
    if pairs.len() == 0 {
        None
    } else if pairs.first().1 == x {
        Some(pairs.first().0)
    } else {
        first_key_with(pairs.drop_first(), x)
    }
}

proof fn lemma_count_eq_push(vs: Seq<u64>, v: u64, x: u64)
    ensures
        count_eq(vs.push(v), x) == count_eq(vs, x) + if v == x {
            1nat
        } else {
            0nat
        },
    decreases vs.len(),
{
    reveal_with_fuel(count_eq, 3);
    if vs.len() == 0 {
        assert(vs.push(v).first() == v);
        assert(vs.push(v).drop_first() =~= Seq::<u64>::empty());
    } else {
        assert(vs.push(v).first() == vs.first());
        assert(vs.push(v).drop_first() =~= vs.drop_first().push(v));
        lemma_count_eq_push(vs.drop_first(), v, x);
    }
}

proof fn lemma_first_key_with_push(pairs: Seq<(Seq<char>, u64)>, p: (Seq<char>, u64), x: u64)
    ensures
        first_key_with(pairs.push(p), x) == if first_key_with(pairs, x) is Some {
            first_key_with(pairs, x)
        } else if p.1 == x {
            Some(p.0)
        } else {
            None::<Seq<char>>
        },
    decreases pairs.len(),
{
    if pairs.len() == 0 {
        assert(pairs.push(p).drop_first() =~= Seq::<(Seq<char>, u64)>::empty());
    } else {
        assert(pairs.push(p).drop_first() =~= pairs.drop_first().push(p));
        lemma_first_key_with_push(pairs.drop_first(), p, x);
    }
}

proof fn lemma_first_key_some_iff(pairs: Seq<(Seq<char>, u64)>, x: u64)
    ensures
        first_key_with(pairs, x) is Some <==> count_eq(values_of(pairs), x) > 0,
    decreases pairs.len(),
{
    if pairs.len() > 0 {
        assert(values_of(pairs).drop_first() =~= values_of(pairs.drop_first()));
        lemma_first_key_some_iff(pairs.drop_first(), x);
    }
}

proof fn lemma_min_is_lower(vs: Seq<u64>)
    requires
        vs.len() > 0,
    ensures
        forall|i: int| 0 <= i < vs.len() ==> min_of(vs) <= vs[i],
    decreases vs.len(),
{
    if vs.len() > 1 {
        lemma_min_is_lower(vs.drop_last());
        assert forall|i: int| 0 <= i < vs.len() implies min_of(vs) <= vs[i] by {
            if i < vs.len() - 1 {
                assert(vs.drop_last()[i] == vs[i]);
            } else {
                assert(vs[i] == vs.last());
            }
        }
    }
}

proof fn lemma_max_is_upper(vs: Seq<u64>)
    requires
        vs.len() > 0,
    ensures
        forall|i: int| 0 <= i < vs.len() ==> vs[i] <= max_of(vs),
    decreases vs.len(),
{
    if vs.len() > 1 {
        lemma_max_is_upper(vs.drop_last());
        assert forall|i: int| 0 <= i < vs.len() implies vs[i] <= max_of(vs) by {
            if i < vs.len() - 1 {
                assert(vs.drop_last()[i] == vs[i]);
            } else {
                assert(vs[i] == vs.last());
            }
        }
    }
}

proof fn lemma_count_eq_zero(vs: Seq<u64>, x: u64)
    requires
        forall|i: int| 0 <= i < vs.len() ==> vs[i] != x,
    ensures
        count_eq(vs, x) == 0,
    decreases vs.len(),
{
    if vs.len() > 0 {
        assert(forall|i: int|
            0 <= i < vs.drop_first().len() ==> vs.drop_first()[i] == vs[i + 1]);
        lemma_count_eq_zero(vs.drop_first(), x);
    }
}

/// After applying any non-empty sequence of `(key, value)` pairs to a
/// fresh tracker pair, the low side holds the true minimum of the
/// values, keyed by the first pair that reached it, with one tie
/// counted for every further pair equal to it; symmetrically for the
/// high side and the maximum.
pub proof fn lemma_extremum_tracker(pairs: Seq<(Seq<char>, u64)>)
    requires
        pairs.len() > 0,
    ensures
        ({
            let r = apply_all(unset(), unset(), pairs);
            let vs = values_of(pairs);
            &&& r.0.best_value == min_of(vs)
            &&& r.0.best_key == first_key_with(pairs, min_of(vs))
            &&& r.0.tie_count + 1 == count_eq(vs, min_of(vs))
            &&& r.1.best_value == max_of(vs)
            &&& r.1.best_key == first_key_with(pairs, max_of(vs))
            &&& r.1.tie_count + 1 == count_eq(vs, max_of(vs))
        }),
    decreases pairs.len(),
{
    let vs = values_of(pairs);
    let p = pairs.last();
    if pairs.len() == 1 {
        reveal_with_fuel(apply_all, 2);
        reveal_with_fuel(count_eq, 2);
        assert(vs =~= seq![p.1]);
        assert(pairs.drop_last() =~= Seq::<(Seq<char>, u64)>::empty());
        assert(vs.drop_first() =~= Seq::<u64>::empty());
        assert(pairs.first() == p);
        let r = apply_all(unset(), unset(), pairs);
        assert(r == apply_spec(unset(), unset(), p.0, p.1));
        assert(r.0 == seeded(p.0, p.1));
        assert(min_of(vs) == p.1);
        assert(max_of(vs) == p.1);
        assert(count_eq(vs, p.1) == 1);
        assert(first_key_with(pairs, p.1) == Some(p.0));
    } else {
        let prev = pairs.drop_last();
        let pvs = values_of(prev);
        lemma_extremum_tracker(prev);
        assert(pvs =~= vs.drop_last());
        assert(prev.push(p) =~= pairs);
        assert(pvs.push(p.1) =~= vs);
        assert(vs.len() == pairs.len());
        assert(vs.last() == p.1);
        lemma_min_is_lower(pvs);
        lemma_max_is_upper(pvs);
        lemma_count_eq_push(pvs, p.1, min_of(vs));
        lemma_count_eq_push(pvs, p.1, max_of(vs));
        lemma_first_key_with_push(prev, p, min_of(vs));
        lemma_first_key_with_push(prev, p, max_of(vs));
        lemma_first_key_some_iff(prev, min_of(vs));
        lemma_first_key_some_iff(prev, max_of(vs));
        lemma_first_key_some_iff(prev, min_of(pvs));
        lemma_first_key_some_iff(prev, max_of(pvs));
        let rp = apply_all(unset(), unset(), prev);
        let r = apply_all(unset(), unset(), pairs);
        assert(r == apply_spec(rp.0, rp.1, p.0, p.1));
        assert(count_eq(pvs, min_of(pvs)) > 0);
        assert(count_eq(pvs, max_of(pvs)) > 0);
        assert(rp.0.best_key is Some);
        assert(rp.1.best_key is Some);
        assert(min_of(vs) == if p.1 < min_of(pvs) {
            p.1
        } else {
            min_of(pvs)
        });
        assert(max_of(vs) == if p.1 > max_of(pvs) {
            p.1
        } else {
            max_of(pvs)
        });
        if p.1 < min_of(pvs) {
            lemma_count_eq_zero(pvs, p.1);
            assert(first_key_with(prev, p.1) is None);
            assert(first_key_with(pairs, p.1) == Some(p.0));
        }
        if p.1 > max_of(pvs) {
            lemma_count_eq_zero(pvs, p.1);
            assert(first_key_with(prev, p.1) is None);
            assert(first_key_with(pairs, p.1) == Some(p.0));
        }
    }
}

/// Applying zero records leaves both trackers with an unset key.
pub proof fn lemma_no_records_unset()
    ensures
        apply_all(unset(), unset(), Seq::<(Seq<char>, u64)>::empty()).0.best_key is None,
        apply_all(unset(), unset(), Seq::<(Seq<char>, u64)>::empty()).1.best_key is None,
{
}

} // verus!
