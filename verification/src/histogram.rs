//! The histogram: one owned bucketing strategy plus the running aggregate.
//!
//! The aggregate is a sparse, key-sorted list of per-bucket counts (absent
//! buckets count zero and zero counts are never stored), the total number of
//! accumulated samples, and the running sum of accumulated values. A
//! snapshot reports each populated bucket under its lower bound, keys
//! ascending; buckets whose lower bounds coincide after integer rounding are
//! merged.

use vstd::prelude::*;
use crate::error::Error;
use crate::exponential::{spec_exp_bounds, ExponentialStrategy};
use crate::functional::FunctionalStrategy;
use crate::linear::LinearStrategy;
use crate::units::{sat_add, saturating_add_u64};

verus! {

/// One of the three interchangeable bucketing algorithms.
#[derive(Clone, Debug)]
pub enum Strategy {
    Linear(LinearStrategy),
    Exponential(ExponentialStrategy),
    Functional(FunctionalStrategy),
}

impl Strategy {
    pub open spec fn wf(self) -> bool {
        match self {
            Strategy::Linear(l) => l.wf(),
            Strategy::Exponential(e) => e.wf(),
            Strategy::Functional(f) => f.wf(),
        }
    }

    /// The bucket index of sample `s`.
    pub open spec fn spec_index(self, s: u64) -> nat {
        match self {
            Strategy::Linear(l) => l.spec_index(s),
            Strategy::Exponential(e) => e.spec_index(s),
            Strategy::Functional(f) => f.spec_index(s),
        }
    }

    /// The bucket index of sample `s` as the 64-bit key under which its
    /// count is stored.
    pub open spec fn spec_key(self, s: u64) -> u64 {
        self.spec_index(s) as u64
    }

    /// Whether `k` is an index this strategy can map a bucket of.
    pub open spec fn key_valid(self, k: u64) -> bool {
        match self {
            Strategy::Linear(l) => k < l.bucket_count,
            Strategy::Exponential(e) => k < e.boundaries@.len(),
            Strategy::Functional(_) => true,
        }
    }

    /// The lower bound of the bucket with index `k`.
    pub open spec fn spec_lower_key(self, k: u64) -> int {
        match self {
            Strategy::Linear(l) => l.spec_lower(k as nat),
            Strategy::Exponential(e) => e.spec_lower(k as nat) as int,
            Strategy::Functional(f) => f.spec_lower(k as nat) as int,
        }
    }

    /// `k` satisfies the strategy's index characterization for sample `s`.
    pub open spec fn index_witness(self, s: u64, k: u64) -> bool {
        match self {
            Strategy::Linear(l) => k as nat == l.spec_index(s),
            Strategy::Exponential(e) => e.exp_index_ok(s, k as nat),
            Strategy::Functional(f) => f.fun_index_ok(s, k as nat),
        }
    }

    /// `v` satisfies the strategy's lower-bound characterization for bucket
    /// `k`.
    pub open spec fn lb_witness(self, k: u64, v: u64) -> bool {
        match self {
            Strategy::Linear(l) => v as int == l.spec_lower(k as nat),
            Strategy::Exponential(e) => k < e.boundaries@.len() && v == e.spec_lower(k as nat),
            Strategy::Functional(f) => f.fun_lb_ok(k as nat, v),
        }
    }

    /// Lower bounds are monotone in the bucket index.
    pub proof fn lemma_lb_monotone(self, k1: u64, k2: u64, v1: u64, v2: u64)
        requires
            self.wf(),
            k1 <= k2,
            self.lb_witness(k1, v1),
            self.lb_witness(k2, v2),
        ensures
            v1 <= v2,
    {
        match self {
            Strategy::Linear(l) => {
                l.lemma_lower_monotone(k1 as nat, k2 as nat);
            },
            Strategy::Exponential(e) => {
                if k1 < k2 {
                    assert(e.boundaries@[k1 as int] < e.boundaries@[k2 as int]);
                }
            },
            Strategy::Functional(f) => {
                f.lemma_lower_monotone(k1 as nat, k2 as nat, v1, v2);
            },
        }
    }
}

/// Snapshot keys are idempotent: rerunning the sample-to-key mapping on a
/// reported key reproduces that key, for every strategy.
pub proof fn lemma_key_roundtrip(
    strat: Strategy,
    s: u64,
    k: u64,
    v: u64,
    k2: u64,
    v2: u64,
)
    requires
        strat.wf(),
        strat.index_witness(s, k),
        strat.lb_witness(k, v),
        strat.index_witness(v, k2),
        strat.lb_witness(k2, v2),
    ensures
        v2 == v,
{
    match strat {
        Strategy::Linear(l) => {
            l.lemma_roundtrip(s);
            assert(v as int == l.spec_lower(l.spec_index(s)));
            assert(v2 as int == l.spec_lower(l.spec_index(v)));
        },
        Strategy::Exponential(e) => {
            e.lemma_roundtrip(k as nat);
            e.lemma_index_unique(v, k as nat, k2 as nat);
        },
        Strategy::Functional(f) => {
            f.lemma_roundtrip(s, k as nat, v);
            f.lemma_index_unique(v, k as nat, k2 as nat);
            f.lemma_lower_unique(k as nat, v, v2);
        },
    }
}

/// The sum of the counts in a key-count list.
pub open spec fn total_count(s: Seq<(u64, u64)>) -> nat
    decreases s.len(),
{
    if s.len() == 0 {
        0
    } else {
        s[0].1 as nat + total_count(s.drop_first())
    }
}

/// Keys are strictly increasing.
pub open spec fn entries_sorted(s: Seq<(u64, u64)>) -> bool {
    forall|j1: int, j2: int| 0 <= j1 < j2 < s.len() ==> s[j1].0 < s[j2].0
}

/// Keys are nondecreasing.
pub open spec fn keys_nondecreasing(s: Seq<(u64, u64)>) -> bool {
    forall|j1: int, j2: int| 0 <= j1 < j2 < s.len() ==> s[j1].0 <= s[j2].0
}

/// Every count is positive.
pub open spec fn counts_positive(s: Seq<(u64, u64)>) -> bool {
    forall|j: int| 0 <= j < s.len() ==> (#[trigger] s[j]).1 >= 1
}

/// Some entry carries key `x`.
pub open spec fn has_key(s: Seq<(u64, u64)>, x: u64) -> bool {
    exists|j: int| 0 <= j < s.len() && (#[trigger] s[j]).0 == x
}

proof fn lemma_total_empty()
    ensures
        total_count(Seq::<(u64, u64)>::empty()) == 0,
{
}

/// Each entry's count is bounded by the total.
proof fn lemma_total_bounds(s: Seq<(u64, u64)>, j: int)
    requires
        0 <= j < s.len(),
    ensures
        s[j].1 <= total_count(s),
    decreases s.len(),
{
    if j > 0 {
        lemma_total_bounds(s.drop_first(), j - 1);
    }
}

/// The total splits around any cut point.
proof fn lemma_total_split(s: Seq<(u64, u64)>, i: int)
    requires
        0 <= i <= s.len(),
    ensures
        total_count(s) == total_count(s.take(i)) + total_count(s.skip(i)),
    decreases i,
{
    if i == 0 {
        assert(s.take(0) =~= Seq::<(u64, u64)>::empty());
        assert(s.skip(0) =~= s);
    } else {
        lemma_total_split(s.drop_first(), i - 1);
        assert(s.take(i).drop_first() =~= s.drop_first().take(i - 1));
        assert(s.skip(i) =~= s.drop_first().skip(i - 1));
        assert(s.take(i)[0] == s[0]);
    }
}

/// Appending an entry adds its count to the total.
proof fn lemma_total_push(s: Seq<(u64, u64)>, x: (u64, u64))
    ensures
        total_count(s.push(x)) == total_count(s) + x.1,
    decreases s.len(),
{
    if s.len() == 0 {
        assert(s.push(x).drop_first() =~= Seq::<(u64, u64)>::empty());
        assert(s.push(x)[0] == x);
        lemma_total_empty();
    } else {
        lemma_total_push(s.drop_first(), x);
        assert(s.push(x).drop_first() =~= s.drop_first().push(x));
        assert(s.push(x)[0] == s[0]);
    }
}

/// The record of accumulating one more sample with bucket key `k`: the
/// matching entry's count rises by one, or a fresh entry with count one
/// appears at its sorted position.
pub open spec fn spec_bump(s: Seq<(u64, u64)>, k: u64) -> Seq<(u64, u64)>
    decreases s.len(),
{
    if s.len() == 0 {
        seq![(k, 1u64)]
    } else if s[0].0 == k {
        seq![(k, (s[0].1 + 1) as u64)] + s.drop_first()
    } else if k < s[0].0 {
        seq![(k, 1u64)] + s
    } else {
        seq![s[0]] + spec_bump(s.drop_first(), k)
    }
}

/// Bumping preserves sortedness and positive counts, raises the total by
/// one, and adds exactly the bumped key to the key set.
proof fn lemma_bump_props(s: Seq<(u64, u64)>, k: u64)
    requires
        entries_sorted(s),
        counts_positive(s),
        total_count(s) < u64::MAX,
    ensures
        ({
            let b = spec_bump(s, k);
            &&& entries_sorted(b)
            &&& counts_positive(b)
            &&& total_count(b) == total_count(s) + 1
            &&& forall|x: u64| has_key(b, x) <==> (has_key(s, x) || x == k)
        }),
    decreases s.len(),
{
    let b = spec_bump(s, k);
    if s.len() == 0 {
        assert(b =~= seq![(k, 1u64)]);
        assert(b.drop_first() =~= Seq::<(u64, u64)>::empty());
        assert(b[0] == (k, 1u64));
        lemma_total_empty();
        assert(has_key(b, k));
    } else if s[0].0 == k {
        lemma_total_bounds(s, 0);
        let e0 = (k, (s[0].1 + 1) as u64);
        assert(b =~= seq![e0] + s.drop_first());
        assert(b[0] == e0);
        assert(forall|j: int| 1 <= j < b.len() ==> b[j] == s[j]);
        assert(b.drop_first() =~= s.drop_first());
        assert(total_count(b) == e0.1 as nat + total_count(s.drop_first()));
        assert(forall|x: u64| has_key(s, x) ==> has_key(b, x)) by {
            assert forall|x: u64| has_key(s, x) implies has_key(b, x) by {
                let j = choose|j: int| 0 <= j < s.len() && s[j].0 == x;
                assert(b[j].0 == x);
            }
        }
        assert(forall|x: u64| has_key(b, x) ==> has_key(s, x)) by {
            assert forall|x: u64| has_key(b, x) implies has_key(s, x) by {
                let j = choose|j: int| 0 <= j < b.len() && b[j].0 == x;
                assert(s[j].0 == x);
            }
        }
    } else if k < s[0].0 {
        assert(b =~= seq![(k, 1u64)] + s);
        assert(b[0] == (k, 1u64));
        assert(forall|j: int| 1 <= j < b.len() ==> b[j] == s[j - 1]);
        assert(b.drop_first() =~= s);
        assert(forall|x: u64| has_key(s, x) ==> has_key(b, x)) by {
            assert forall|x: u64| has_key(s, x) implies has_key(b, x) by {
                let j = choose|j: int| 0 <= j < s.len() && s[j].0 == x;
                assert(b[j + 1].0 == x);
            }
        }
        assert(forall|x: u64| has_key(b, x) ==> has_key(s, x) || x == k) by {
            assert forall|x: u64| has_key(b, x) implies has_key(s, x) || x == k by {
                let j = choose|j: int| 0 <= j < b.len() && b[j].0 == x;
                if j > 0 {
                    assert(s[j - 1].0 == x);
                }
            }
        }
        assert(has_key(b, k));
    } else {
        let t = s.drop_first();
        assert(forall|j1: int, j2: int|
            0 <= j1 < j2 < t.len() ==> t[j1].0 < t[j2].0);
        lemma_bump_props(t, k);
        let bt = spec_bump(t, k);
        assert(b =~= seq![s[0]] + bt);
        assert(b[0] == s[0]);
        assert(forall|j: int| 1 <= j < b.len() ==> b[j] == bt[j - 1]);
        assert(b.drop_first() =~= bt);
        assert(total_count(b) == s[0].1 as nat + total_count(bt));
        // every key in the tail's bump exceeds s[0].0
        assert(forall|j: int| 0 <= j < bt.len() ==> bt[j].0 > s[0].0) by {
            assert forall|j: int| 0 <= j < bt.len() implies bt[j].0 > s[0].0 by {
                assert(has_key(bt, bt[j].0));
                if has_key(t, bt[j].0) {
                    let jj = choose|jj: int| 0 <= jj < t.len() && t[jj].0 == bt[j].0;
                    assert(s[jj + 1].0 == bt[j].0);
                } else {
                    assert(bt[j].0 == k);
                }
            }
        }
        assert(entries_sorted(b));
        assert(forall|x: u64| has_key(b, x) ==> has_key(s, x) || x == k) by {
            assert forall|x: u64| has_key(b, x) implies has_key(s, x) || x == k by {
                let j = choose|j: int| 0 <= j < b.len() && b[j].0 == x;
                if j > 0 {
                    assert(bt[j - 1].0 == x);
                    assert(has_key(bt, x));
                    if has_key(t, x) {
                        let jj = choose|jj: int| 0 <= jj < t.len() && t[jj].0 == x;
                        assert(s[jj + 1].0 == x);
                    }
                }
            }
        }
        assert(forall|x: u64| has_key(s, x) || x == k ==> has_key(b, x)) by {
            assert forall|x: u64| has_key(s, x) || x == k implies has_key(b, x) by {
                if has_key(s, x) {
                    let j = choose|j: int| 0 <= j < s.len() && s[j].0 == x;
                    if j == 0 {
                        assert(b[0].0 == x);
                    } else {
                        assert(t[j - 1].0 == x);
                        assert(has_key(bt, x));
                        let jj = choose|jj: int| 0 <= jj < bt.len() && bt[jj].0 == x;
                        assert(b[jj + 1].0 == x);
                    }
                } else {
                    assert(has_key(bt, k));
                    let jj = choose|jj: int| 0 <= jj < bt.len() && bt[jj].0 == k;
                    assert(b[jj + 1].0 == k);
                }
            }
        }
    }
}

/// Collapses runs of adjacent equal keys into one entry carrying the run's
/// summed count.
pub open spec fn merge_adjacent(s: Seq<(u64, u64)>) -> Seq<(u64, u64)>
    decreases s.len(),
{
    if s.len() <= 1 {
        s
    } else if s[0].0 == s[1].0 {
        merge_adjacent(seq![(s[0].0, (s[0].1 + s[1].1) as u64)] + s.skip(2))
    } else {
        seq![s[0]] + merge_adjacent(s.drop_first())
    }
}

/// Merging keeps the first and last keys.
proof fn lemma_merge_ends(s: Seq<(u64, u64)>)
    requires
        s.len() > 0,
    ensures
        merge_adjacent(s).len() >= 1,
        merge_adjacent(s).last().0 == s.last().0,
        merge_adjacent(s)[0].0 == s[0].0,
    decreases s.len(),
{
    if s.len() == 1 {
    } else if s[0].0 == s[1].0 {
        let m1 = seq![(s[0].0, (s[0].1 + s[1].1) as u64)] + s.skip(2);
        lemma_merge_ends(m1);
        if s.len() == 2 {
            assert(m1.last().0 == s[0].0);
        } else {
            assert(m1.last() == s.last());
        }
    } else {
        let t = s.drop_first();
        lemma_merge_ends(t);
        let m = seq![s[0]] + merge_adjacent(t);
        assert(m.last() == merge_adjacent(t).last());
        assert(t.last() == s.last());
        assert(m[0] == s[0]);
    }
}

/// How merging reacts to one appended entry: it either opens a new run or
/// folds into the last one.
proof fn lemma_merge_push(s: Seq<(u64, u64)>, x: (u64, u64))
    ensures
        s.len() == 0 ==> merge_adjacent(s.push(x)) =~= seq![x],
        s.len() > 0 && s.last().0 == x.0 ==> merge_adjacent(s.push(x)) =~= merge_adjacent(
            s,
        ).update(
            merge_adjacent(s).len() - 1,
            (x.0, (merge_adjacent(s).last().1 + x.1) as u64),
        ),
        s.len() > 0 && s.last().0 != x.0 ==> merge_adjacent(s.push(x)) =~= merge_adjacent(
            s,
        ).push(x),
    decreases s.len(),
{
    if s.len() == 0 {
        assert(s.push(x) =~= seq![x]);
    } else if s.len() == 1 {
        let p = s.push(x);
        if s[0].0 == x.0 {
            let e = (p[0].0, (p[0].1 + p[1].1) as u64);
            assert(merge_adjacent(p) == merge_adjacent(seq![e] + p.skip(2)));
            assert(seq![e] + p.skip(2) =~= seq![e]);
            assert(merge_adjacent(seq![e]) =~= seq![e]);
            assert(merge_adjacent(s) =~= s);
            assert(merge_adjacent(s).update(0, (x.0, (s[0].1 + x.1) as u64)) =~= seq![e]);
        } else {
            assert(merge_adjacent(p) == seq![p[0]] + merge_adjacent(p.drop_first()));
            assert(p.drop_first() =~= seq![x]);
            assert(merge_adjacent(seq![x]) =~= seq![x]);
            assert(merge_adjacent(s) =~= s);
            assert(seq![p[0]] + seq![x] =~= s.push(x));
        }
    } else if s[0].0 == s[1].0 {
        let e = (s[0].0, (s[0].1 + s[1].1) as u64);
        let m1 = seq![e] + s.skip(2);
        let p = s.push(x);
        assert(p[0].0 == p[1].0);
        assert(seq![(p[0].0, (p[0].1 + p[1].1) as u64)] + p.skip(2) =~= m1.push(x));
        assert(merge_adjacent(p) == merge_adjacent(m1.push(x)));
        lemma_merge_push(m1, x);
        assert(m1.last().0 == s.last().0) by {
            if s.len() == 2 {
                assert(m1 =~= seq![e]);
            } else {
                assert(m1.last() == s.last());
            }
        }
        assert(merge_adjacent(s) == merge_adjacent(m1));
    } else {
        let t = s.drop_first();
        let p = s.push(x);
        assert(p[0].0 != p[1].0);
        assert(p.drop_first() =~= t.push(x));
        assert(merge_adjacent(p) == seq![p[0]] + merge_adjacent(t.push(x)));
        lemma_merge_push(t, x);
        assert(t.last() == s.last());
        lemma_merge_ends(t);
        let mt = merge_adjacent(t);
        if s.last().0 == x.0 {
            let y = (x.0, (mt.last().1 + x.1) as u64);
            assert(merge_adjacent(t.push(x)) =~= mt.update(mt.len() - 1, y));
            assert(seq![s[0]] + mt.update(mt.len() - 1, y) =~= (seq![s[0]] + mt).update(
                mt.len() as int,
                y,
            ));
            assert(merge_adjacent(s) == seq![s[0]] + mt);
            assert(merge_adjacent(s).last() == mt.last());
        } else {
            assert(merge_adjacent(t.push(x)) =~= mt.push(x));
            assert(seq![s[0]] + mt.push(x) =~= (seq![s[0]] + mt).push(x));
        }
    }
}

/// Merging preserves the total count and keeps counts positive.
proof fn lemma_merge_total(s: Seq<(u64, u64)>)
    requires
        counts_positive(s),
        total_count(s) <= u64::MAX,
    ensures
        total_count(merge_adjacent(s)) == total_count(s),
        counts_positive(merge_adjacent(s)),
    decreases s.len(),
{
    if s.len() <= 1 {
    } else if s[0].0 == s[1].0 {
        let t2 = s.skip(2);
        assert(s.drop_first().drop_first() =~= t2);
        assert(s.drop_first()[0] == s[1]);
        assert(total_count(s.drop_first()) == s[1].1 as nat + total_count(
            s.drop_first().drop_first(),
        ));
        assert(total_count(s) == s[0].1 as nat + s[1].1 as nat + total_count(t2));
        let e = (s[0].0, (s[0].1 + s[1].1) as u64);
        let m1 = seq![e] + t2;
        assert(m1[0] == e);
        assert(m1.drop_first() =~= t2);
        assert(forall|j: int| 0 <= j < t2.len() ==> t2[j] == s[j + 2]);
        assert(counts_positive(m1));
        assert(total_count(m1) == total_count(s));
        lemma_merge_total(m1);
    } else {
        let t = s.drop_first();
        lemma_merge_total(t);
        let m = seq![s[0]] + merge_adjacent(t);
        assert(m[0] == s[0]);
        assert(m.drop_first() =~= merge_adjacent(t));
        assert(total_count(m) == s[0].1 as nat + total_count(merge_adjacent(t)));
        assert(forall|j: int|
            1 <= j < m.len() ==> m[j] == merge_adjacent(t)[j - 1]);
        assert(counts_positive(m));
    }
}

/// Merging a key-nondecreasing list yields strictly increasing keys.
proof fn lemma_merge_sorted(s: Seq<(u64, u64)>)
    requires
        keys_nondecreasing(s),
    ensures
        entries_sorted(merge_adjacent(s)),
    decreases s.len(),
{
    if s.len() <= 1 {
    } else if s[0].0 == s[1].0 {
        let e = (s[0].0, (s[0].1 + s[1].1) as u64);
        let m1 = seq![e] + s.skip(2);
        assert(forall|j: int| 0 <= j < s.skip(2).len() ==> s.skip(2)[j] == s[j + 2]);
        assert(m1[0] == e);
        assert(keys_nondecreasing(m1));
        lemma_merge_sorted(m1);
    } else {
        let t = s.drop_first();
        assert(forall|j: int| 0 <= j < t.len() ==> t[j] == s[j + 1]);
        lemma_merge_sorted(t);
        lemma_merge_ends(t);
        let mt = merge_adjacent(t);
        let m = seq![s[0]] + mt;
        assert(m[0] == s[0]);
        assert(forall|j: int| 1 <= j < m.len() ==> m[j] == mt[j - 1]);
        assert(s[0].0 < t[0].0);
        assert forall|j1: int, j2: int| 0 <= j1 < j2 < m.len() implies m[j1].0 < m[j2].0 by {
            if j1 == 0 {
                if j2 - 1 > 0 {
                    assert(mt[0].0 < mt[j2 - 1].0);
                }
                assert(mt[0].0 == t[0].0);
            }
        }
    }
}

/// The entry list after accumulating `samples` in order, starting empty.
pub open spec fn fold_entries(strat: Strategy, samples: Seq<u64>) -> Seq<(u64, u64)>
    decreases samples.len(),
{
    if samples.len() == 0 {
        Seq::<(u64, u64)>::empty()
    } else {
        spec_bump(fold_entries(strat, samples.drop_last()), strat.spec_key(samples.last()))
    }
}

/// A bump skips past every entry whose key is below the bumped one.
proof fn lemma_bump_split(s: Seq<(u64, u64)>, k: u64, i: int)
    requires
        0 <= i <= s.len(),
        forall|j: int| 0 <= j < i ==> (#[trigger] s[j]).0 < k,
    ensures
        spec_bump(s, k) =~= s.take(i) + spec_bump(s.skip(i), k),
    decreases i,
{
    if i == 0 {
        assert(s.take(0) =~= Seq::<(u64, u64)>::empty());
        assert(s.skip(0) =~= s);
    } else {
        let t = s.drop_first();
        lemma_bump_split(t, k, i - 1);
        assert(s.take(i).drop_first() =~= t.take(i - 1));
        assert(s.skip(i) =~= t.skip(i - 1));
        assert(s.take(i)[0] == s[0]);
        assert(spec_bump(s, k) == seq![s[0]] + spec_bump(t, k));
    }
}

/// Finds the bucket of a sample under any strategy.
fn strategy_key(strat: &Strategy, sample: u64) -> (k: u64)
    requires
        strat.wf(),
    ensures
        k as nat == strat.spec_index(sample),
        k == strat.spec_key(sample),
        strat.key_valid(k),
        strat.index_witness(sample, k),
{
    match strat {
        Strategy::Linear(l) => l.bucket_index(sample),
        Strategy::Exponential(e) => e.bucket_index(sample),
        Strategy::Functional(f) => f.bucket_index(sample),
    }
}

/// Finds a bucket's lower bound under any strategy.
fn strategy_lower(strat: &Strategy, k: u64) -> (v: u64)
    requires
        strat.wf(),
        strat.key_valid(k),
    ensures
        v as int == strat.spec_lower_key(k),
        strat.lb_witness(k, v),
{
    match strat {
        Strategy::Linear(l) => l.bucket_lower_bound(k),
        Strategy::Exponential(e) => e.bucket_lower_bound(k),
        Strategy::Functional(f) => f.bucket_lower_bound(k),
    }
}

/// Raises the count under key `k` by one, inserting the key at its sorted
/// position if absent.
fn bump(entries: &mut Vec<(u64, u64)>, k: u64)
    requires
        entries_sorted(old(entries)@),
        total_count(old(entries)@) < u64::MAX,
    ensures
        final(entries)@ == spec_bump(old(entries)@, k),
{
    let ghost s0 = entries@;
    let mut i: usize = 0;
    while i < entries.len() && entries[i].0 < k
        invariant
            i <= s0.len(),
            entries@ == s0,
            forall|j: int| 0 <= j < i ==> (#[trigger] s0[j]).0 < k,
        decreases s0.len() - i,
    {
        i += 1;
    }
    proof {
        lemma_bump_split(s0, k, i as int);
    }
    if i < entries.len() && entries[i].0 == k {
        let c = entries[i].1;
        proof {
            lemma_total_bounds(s0, i as int);
        }
        entries.set(i, (k, c + 1));
        proof {
            assert(s0.skip(i as int)[0] == s0[i as int]);
            assert(s0.skip(i as int).drop_first() =~= s0.skip(i as int + 1));
            assert(spec_bump(s0.skip(i as int), k) =~= seq![(k, (c + 1) as u64)] + s0.skip(
                i as int + 1,
            ));
            assert(entries@ =~= s0.take(i as int) + spec_bump(s0.skip(i as int), k));
        }
    } else {
        entries.insert(i, (k, 1));
        proof {
            if i < s0.len() {
                assert(s0.skip(i as int)[0] == s0[i as int]);
                assert(k < s0[i as int].0);
                assert(spec_bump(s0.skip(i as int), k) =~= seq![(k, 1u64)] + s0.skip(i as int));
            } else {
                assert(s0.skip(i as int) =~= Seq::<(u64, u64)>::empty());
            }
            assert(entries@ =~= s0.take(i as int) + spec_bump(s0.skip(i as int), k));
        }
    }
}

/// An immutable capture of a histogram: the populated buckets under their
/// lower bounds, keys ascending, with the running sum and sample count.
pub struct Snapshot {
    pub values: Vec<(u64, u64)>,
    pub sum: u64,
    pub count: u64,
}

/// A histogram: one owned bucketing strategy plus the running aggregate.
pub struct Histogram {
    /// The owned bucketing strategy.
    pub strategy: Strategy,
    /// The sparse per-bucket counts, keyed by bucket index, key-sorted.
    pub entries: Vec<(u64, u64)>,
    /// How many samples have been accumulated.
    pub sample_count: u64,
    /// The running sum of accumulated values, saturating at `u64::MAX`.
    pub sum: u64,
}

impl Histogram {
    /// The histogram's invariant: the strategy is well formed, bucket
    /// entries are key-sorted with positive counts under valid keys, and
    /// the counts sum to `sample_count`.
    pub open spec fn wf(self) -> bool {
        &&& self.strategy.wf()
        &&& entries_sorted(self.entries@)
        &&& counts_positive(self.entries@)
        &&& total_count(self.entries@) == self.sample_count
        &&& forall|j: int|
            0 <= j < self.entries@.len() ==> self.strategy.key_valid(
                (#[trigger] self.entries@[j]).0,
            )
    }

    pub open spec fn spec_strategy(self) -> Strategy {
        self.strategy
    }

    /// The sparse per-bucket counts, keyed by bucket index.
    pub open spec fn spec_entries(self) -> Seq<(u64, u64)> {
        self.entries@
    }

    pub open spec fn spec_sample_count(self) -> u64 {
        self.sample_count
    }

    pub open spec fn spec_sum(self) -> u64 {
        self.sum
    }

    /// The entries with each bucket index replaced by its lower bound.
    pub open spec fn spec_mapped(self) -> Seq<(u64, u64)> {
        self.entries@.map_values(
            |e: (u64, u64)| ((self.strategy.spec_lower_key(e.0)) as u64, e.1),
        )
    }

    /// What a snapshot reports: the mapped entries with buckets of equal
    /// lower bound merged.
    pub open spec fn spec_snapshot(self) -> Seq<(u64, u64)> {
        merge_adjacent(self.spec_mapped())
    }

    /// Creates an empty histogram with a linear strategy.
    pub fn linear(range_min: u64, range_max: u64, bucket_count: usize) -> (r: Result<
        Histogram,
        Error,
    >)
        ensures
            bucket_count == 0 ==> r is Err && r->Err_0 == Error::InvalidBucketCount,
            bucket_count > 0 && range_max <= range_min ==> r is Err && r->Err_0
                == Error::InvalidRange,
            bucket_count > 0 && range_min < range_max ==> r is Ok && r->Ok_0.spec_strategy()
                == Strategy::Linear(
                LinearStrategy { range_min, range_max, bucket_count: bucket_count as u64 },
            ),
            r is Ok ==> r->Ok_0.wf() && r->Ok_0.spec_entries() == Seq::<(u64, u64)>::empty()
                && r->Ok_0.spec_sample_count() == 0 && r->Ok_0.spec_sum() == 0,
    {
        match LinearStrategy::linear(range_min, range_max, bucket_count) {
            Ok(l) => {
                let entries: Vec<(u64, u64)> = Vec::new();
                proof {
                    lemma_total_empty();
                    assert(entries@ =~= Seq::<(u64, u64)>::empty());
                }
                Ok(Histogram { strategy: Strategy::Linear(l), entries, sample_count: 0, sum: 0 })
            },
            Err(e) => Err(e),
        }
    }

    /// Creates an empty histogram with an exponential strategy.
    pub fn exponential(range_min: u64, range_max: u64, bucket_count: usize) -> (r: Result<
        Histogram,
        Error,
    >)
        ensures
            bucket_count == 0 ==> r is Err && r->Err_0 == Error::InvalidBucketCount,
            bucket_count > 0 && range_max <= range_min ==> r is Err && r->Err_0
                == Error::InvalidRange,
            bucket_count > 0 && range_min < range_max ==> r is Ok
                && (r->Ok_0.spec_strategy() matches Strategy::Exponential(e) && e.boundaries@
                == spec_exp_bounds(range_min, range_max, bucket_count as nat)),
            r is Ok ==> r->Ok_0.wf() && r->Ok_0.spec_entries() == Seq::<(u64, u64)>::empty()
                && r->Ok_0.spec_sample_count() == 0 && r->Ok_0.spec_sum() == 0,
    {
        match ExponentialStrategy::exponential(range_min, range_max, bucket_count) {
            Ok(s) => {
                let entries: Vec<(u64, u64)> = Vec::new();
                proof {
                    lemma_total_empty();
                    assert(entries@ =~= Seq::<(u64, u64)>::empty());
                }
                Ok(
                    Histogram {
                        strategy: Strategy::Exponential(s),
                        entries,
                        sample_count: 0,
                        sum: 0,
                    },
                )
            },
            Err(e) => Err(e),
        }
    }

    /// Creates an empty histogram with a functional strategy.
    pub fn functional(log_base: u64, buckets_per_magnitude: u64) -> (r: Result<Histogram, Error>)
        ensures
            log_base < 2 ==> r is Err && r->Err_0 == Error::InvalidLogBase,
            log_base >= 2 && !(1 <= buckets_per_magnitude
                <= crate::functional::MAX_BUCKETS_PER_MAGNITUDE) ==> r is Err && r->Err_0
                == Error::InvalidBucketsPerMagnitude,
            log_base >= 2 && 1 <= buckets_per_magnitude
                <= crate::functional::MAX_BUCKETS_PER_MAGNITUDE ==> r is Ok
                && r->Ok_0.spec_strategy() == Strategy::Functional(
                FunctionalStrategy { log_base, buckets_per_magnitude },
            ),
            r is Ok ==> r->Ok_0.wf() && r->Ok_0.spec_entries() == Seq::<(u64, u64)>::empty()
                && r->Ok_0.spec_sample_count() == 0 && r->Ok_0.spec_sum() == 0,
    {
        match FunctionalStrategy::functional(log_base, buckets_per_magnitude) {
            Ok(f) => {
                let entries: Vec<(u64, u64)> = Vec::new();
                proof {
                    lemma_total_empty();
                    assert(entries@ =~= Seq::<(u64, u64)>::empty());
                }
                Ok(
                    Histogram {
                        strategy: Strategy::Functional(f),
                        entries,
                        sample_count: 0,
                        sum: 0,
                    },
                )
            },
            Err(e) => Err(e),
        }
    }

    /// Accumulates one sample: its bucket's count, the sample count, and
    /// the running sum (saturating at `u64::MAX`) each rise accordingly.
    /// Never fails for any sample: out-of-range samples clamp into the edge
    /// buckets.
    pub fn accumulate(&mut self, sample: u64)
        requires
            old(self).wf(),
            old(self).spec_sample_count() < u64::MAX,
        ensures
            final(self).wf(),
            final(self).spec_strategy() == old(self).spec_strategy(),
            final(self).spec_entries() == spec_bump(
                old(self).spec_entries(),
                old(self).spec_strategy().spec_key(sample),
            ),
            final(self).spec_sample_count() == old(self).spec_sample_count() + 1,
            final(self).spec_sum() as nat == sat_add(
                old(self).spec_sum() as nat,
                sample as nat,
            ),
    {
        let k = strategy_key(&self.strategy, sample);
        proof {
            lemma_bump_props(self.entries@, k);
        }
        bump(&mut self.entries, k);
        self.sample_count = self.sample_count + 1;
        self.sum = saturating_add_u64(self.sum, sample);
        proof {
            assert forall|j: int| 0 <= j < self.entries@.len() implies self.strategy.key_valid(
                (#[trigger] self.entries@[j]).0,
            ) by {
                let x = self.entries@[j].0;
                assert(has_key(self.entries@, x));
                if has_key(old(self).entries@, x) {
                    let jj = choose|jj: int|
                        0 <= jj < old(self).entries@.len() && old(self).entries@[jj].0 == x;
                    assert(old(self).strategy.key_valid(old(self).entries@[jj].0));
                }
            }
        }
    }

    /// The number of accumulated samples.
    pub fn sample_count(&self) -> (c: u64)
        ensures
            c == self.spec_sample_count(),
    {
        self.sample_count
    }

    /// The running sum of accumulated values.
    pub fn sum(&self) -> (s: u64)
        ensures
            s == self.spec_sum(),
    {
        self.sum
    }

    /// The sparse bucket map: each populated bucket under its lower bound,
    /// keys strictly ascending, zero-count buckets omitted, and the counts
    /// summing to the sample count.
    pub fn snapshot_values(&self) -> (r: Vec<(u64, u64)>)
        requires
            self.wf(),
        ensures
            r@ == self.spec_snapshot(),
            entries_sorted(r@),
            total_count(r@) == self.spec_sample_count(),
    {
        let ghost mapped = self.spec_mapped();
        let mut m: Vec<(u64, u64)> = Vec::new();
        let mut i: usize = 0;
        proof {
            assert(m@ =~= mapped.take(0));
        }
        while i < self.entries.len()
            invariant
                self.wf(),
                i <= self.entries@.len(),
                mapped == self.spec_mapped(),
                m@ == mapped.take(i as int),
                forall|j: int|
                    0 <= j < i ==> self.strategy.lb_witness(
                        (#[trigger] self.entries@[j]).0,
                        mapped[j].0,
                    ),
                keys_nondecreasing(m@),
            decreases self.entries@.len() - i,
        {
            let e = self.entries[i];
            let v = strategy_lower(&self.strategy, e.0);
            proof {
                assert(mapped[i as int] == (v, e.1));
                assert forall|j: int| 0 <= j < i implies (#[trigger] m@[j]).0 <= v by {
                    self.strategy.lemma_lb_monotone(
                        self.entries@[j].0,
                        self.entries@[i as int].0,
                        mapped[j].0,
                        v,
                    );
                }
                assert(mapped.take(i as int + 1) =~= mapped.take(i as int).push((v, e.1)));
            }
            m.push((v, e.1));
            i += 1;
        }
        proof {
            assert(mapped.take(mapped.len() as int) =~= mapped);
            self.lemma_mapped_total();
        }
        let mut r: Vec<(u64, u64)> = Vec::new();
        let mut i2: usize = 0;
        proof {
            assert(r@ =~= merge_adjacent(m@.take(0)));
            assert(m@.take(0) =~= Seq::<(u64, u64)>::empty());
        }
        while i2 < m.len()
            invariant
                self.wf(),
                i2 <= m@.len(),
                m@ == self.spec_mapped(),
                keys_nondecreasing(m@),
                counts_positive(m@),
                total_count(m@) == self.spec_sample_count(),
                r@ == merge_adjacent(m@.take(i2 as int)),
            decreases m@.len() - i2,
        {
            let ghost pre = m@.take(i2 as int);
            let x = m[i2];
            proof {
                assert(m@.take(i2 as int + 1) =~= pre.push(x));
                lemma_merge_push(pre, x);
                lemma_total_split(m@, i2 as int);
                assert(forall|j: int| 0 <= j < pre.len() ==> pre[j] == m@[j]);
                assert(counts_positive(pre));
                lemma_merge_total(pre);
                assert(m@.skip(i2 as int)[0] == x);
                lemma_total_bounds(m@.skip(i2 as int), 0);
                if i2 > 0 {
                    lemma_merge_ends(pre);
                    assert(pre.last() == m@[i2 - 1]);
                }
            }
            if r.len() > 0 {
                proof {
                    if i2 == 0 {
                        assert(r@ =~= Seq::<(u64, u64)>::empty());
                    }
                }
                let last = r[r.len() - 1];
                if last.0 == x.0 {
                    let idx = r.len() - 1;
                    proof {
                        lemma_total_bounds(r@, idx as int);
                    }
                    r.set(idx, (x.0, last.1 + x.1));
                    proof {
                        assert(r@ =~= merge_adjacent(m@.take(i2 as int + 1)));
                    }
                } else {
                    r.push(x);
                    proof {
                        assert(r@ =~= merge_adjacent(m@.take(i2 as int + 1)));
                    }
                }
            } else {
                proof {
                    if i2 > 0 {
                        lemma_merge_ends(pre);
                        assert(false);
                    }
                    assert(pre =~= Seq::<(u64, u64)>::empty());
                }
                r.push(x);
                proof {
                    assert(r@ =~= merge_adjacent(m@.take(i2 as int + 1)));
                }
            }
            i2 += 1;
        }
        proof {
            assert(m@.take(m@.len() as int) =~= m@);
            lemma_merge_sorted(m@);
            lemma_merge_total(m@);
        }
        r
    }

    /// The mapped entries carry the same counts as the raw entries.
    proof fn lemma_mapped_total(self)
        ensures
            total_count(self.spec_mapped()) == total_count(self.entries@),
            counts_positive(self.entries@) ==> counts_positive(self.spec_mapped()),
    {
        lemma_total_map_values(self.entries@, self.strategy);
    }

    /// The full snapshot: the sparse bucket map plus the running sum and
    /// sample count, for callers that need the mean.
    pub fn snapshot(&self) -> (r: Snapshot)
        requires
            self.wf(),
        ensures
            r.values@ == self.spec_snapshot(),
            entries_sorted(r.values@),
            total_count(r.values@) == self.spec_sample_count(),
            r.sum == self.spec_sum(),
            r.count == self.spec_sample_count(),
    {
        let values = self.snapshot_values();
        Snapshot { values, sum: self.sum, count: self.sample_count }
    }
}

/// After any sequence of accumulations the per-bucket counts sum to the
/// sample count.
pub proof fn lemma_counts_sum_to_sample_count(h: Histogram)
    requires
        h.wf(),
    ensures
        total_count(h.spec_entries()) == h.spec_sample_count(),
{
}

/// Replacing keys leaves the counts, and so the total, unchanged.
proof fn lemma_total_map_values(s: Seq<(u64, u64)>, strat: Strategy)
    ensures
        total_count(
            s.map_values(|e: (u64, u64)| ((strat.spec_lower_key(e.0)) as u64, e.1)),
        ) == total_count(s),
        counts_positive(s) ==> counts_positive(
            s.map_values(|e: (u64, u64)| ((strat.spec_lower_key(e.0)) as u64, e.1)),
        ),
    decreases s.len(),
{
    let f = |e: (u64, u64)| ((strat.spec_lower_key(e.0)) as u64, e.1);
    let ms = s.map_values(f);
    if s.len() == 0 {
        assert(ms =~= Seq::<(u64, u64)>::empty());
        lemma_total_empty();
    } else {
        lemma_total_map_values(s.drop_first(), strat);
        assert(ms.drop_first() =~= s.drop_first().map_values(f));
        assert(ms[0] == f(s[0]));
        assert(forall|j: int| 0 <= j < ms.len() ==> ms[j] == f(s[j]));
    }
}

} // verus!
