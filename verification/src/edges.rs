//! The weighted outgoing-transition collection owned by a chain node: a
//! mapping from target node (by index) to a positive traversal count, kept in
//! first-insertion order, with a one-time frozen snapshot used for sampling.

use crate::rng::rand_below;
use vstd::prelude::*;
use vstd::set_lib::lemma_int_range;
use vstd::set_lib::set_int_range;

verus! {

/// Total weight a target `t` carries in an edge list.
pub open spec fn wt(s: Seq<(usize, u32)>, t: usize) -> nat
    decreases s.len(),
{
    if s.len() == 0 {
        0
    } else {
        wt(s.drop_last(), t) + if s.last().0 == t {
            s.last().1 as nat
        } else {
            0
        }
    }
}

/// Sum of all weights in an edge list.
pub open spec fn total(s: Seq<(usize, u32)>) -> nat
    decreases s.len(),
{
    if s.len() == 0 {
        0
    } else {
        total(s.drop_last()) + s.last().1 as nat
    }
}

/// Whether some entry of the edge list points at `t`.
pub open spec fn contains_target(s: Seq<(usize, u32)>, t: usize) -> bool {
    exists|i: int| 0 <= i < s.len() && (#[trigger] s[i]).0 == t
}

/// Each target appears in at most one entry.
pub open spec fn distinct_targets(s: Seq<(usize, u32)>) -> bool {
    forall|i: int, j: int|
        0 <= i < j < s.len() ==> (#[trigger] s[i]).0 != (#[trigger] s[j]).0
}

/// The edge list after recording one more transition to `t`: the entry for
/// `t` is incremented in place, or appended with weight 1 on first sight.
pub open spec fn spec_connect(s: Seq<(usize, u32)>, t: usize) -> Seq<(usize, u32)> {
    if contains_target(s, t) {
        let i = choose|i: int| 0 <= i < s.len() && (#[trigger] s[i]).0 == t;
        s.update(i, (t, (s[i].1 + 1) as u32))
    } else {
        s.push((t, 1))
    }
}

proof fn lemma_wt_update(s: Seq<(usize, u32)>, i: int, v: (usize, u32), u: usize)
    requires
        0 <= i < s.len(),
    ensures
        wt(s.update(i, v), u) + if s[i].0 == u {
            s[i].1 as nat
        } else {
            0
        } == wt(s, u) + if v.0 == u {
            v.1 as nat
        } else {
            0
        },
    decreases s.len(),
{
    if i == s.len() - 1 {
        assert(s.update(i, v).drop_last() =~= s.drop_last());
    } else {
        assert(s.update(i, v).drop_last() =~= s.drop_last().update(i, v));
        lemma_wt_update(s.drop_last(), i, v, u);
    }
}

proof fn lemma_total_update(s: Seq<(usize, u32)>, i: int, v: (usize, u32))
    requires
        0 <= i < s.len(),
    ensures
        total(s.update(i, v)) + s[i].1 as nat == total(s) + v.1 as nat,
    decreases s.len(),
{
    if i == s.len() - 1 {
        assert(s.update(i, v).drop_last() =~= s.drop_last());
    } else {
        assert(s.update(i, v).drop_last() =~= s.drop_last().update(i, v));
        lemma_total_update(s.drop_last(), i, v);
    }
}

proof fn lemma_wt_push(s: Seq<(usize, u32)>, v: (usize, u32), u: usize)
    ensures
        wt(s.push(v), u) == wt(s, u) + if v.0 == u {
            v.1 as nat
        } else {
            0
        },
        total(s.push(v)) == total(s) + v.1 as nat,
{
    assert(s.push(v).drop_last() =~= s);
}

/// A target absent from the list carries weight zero.
pub proof fn lemma_wt_absent(s: Seq<(usize, u32)>, u: usize)
    requires
        !contains_target(s, u),
    ensures
        wt(s, u) == 0,
    decreases s.len(),
{
    if s.len() > 0 {
        assert(forall|i: int|
            0 <= i < s.len() - 1 ==> (#[trigger] s.drop_last()[i]).0 == s[i].0);
        lemma_wt_absent(s.drop_last(), u);
    }
}

/// With distinct targets, an entry's stored count is exactly its target's
/// weight.
pub proof fn lemma_entry_wt(s: Seq<(usize, u32)>, i: int)
    requires
        distinct_targets(s),
        0 <= i < s.len(),
    ensures
        wt(s, s[i].0) == s[i].1 as nat,
    decreases s.len(),
{
    if i == s.len() - 1 {
        assert(!contains_target(s.drop_last(), s[i].0));
        lemma_wt_absent(s.drop_last(), s[i].0);
    } else {
        lemma_entry_wt(s.drop_last(), i);
        assert(s.last().0 != s[i].0);
    }
}

/// No target outweighs the whole list.
pub proof fn lemma_wt_le_total(s: Seq<(usize, u32)>, u: usize)
    ensures
        wt(s, u) <= total(s),
    decreases s.len(),
{
    if s.len() > 0 {
        lemma_wt_le_total(s.drop_last(), u);
    }
}

/// A list whose weights are all positive weighs at least its length.
pub proof fn lemma_total_lower(s: Seq<(usize, u32)>)
    requires
        forall|i: int| 0 <= i < s.len() ==> (#[trigger] s[i]).1 >= 1,
    ensures
        total(s) >= s.len(),
    decreases s.len(),
{
    if s.len() > 0 {
        lemma_total_lower(s.drop_last());
    }
}

/// Extending a prefix by one entry adds that entry's weight.
pub proof fn lemma_total_take_succ(s: Seq<(usize, u32)>, i: int)
    requires
        0 <= i < s.len(),
    ensures
        total(s.take(i + 1)) == total(s.take(i)) + s[i].1 as nat,
{
    assert(s.take(i + 1).drop_last() =~= s.take(i));
    assert(s.take(i + 1).last() == s[i]);
}

/// A prefix never outweighs the whole list.
pub proof fn lemma_total_take_le(s: Seq<(usize, u32)>, i: int)
    requires
        0 <= i <= s.len(),
    ensures
        total(s.take(i)) <= total(s),
    decreases s.len() - i,
{
    if i == s.len() {
        assert(s.take(i) =~= s);
    } else {
        lemma_total_take_succ(s, i);
        lemma_total_take_le(s, i + 1);
    }
}

/// The weighted outgoing-transition collection of one node. During
/// construction it is mutable through `connect`; `index_map` freezes it into
/// the snapshot that sampling reads. The entries stand in first-insertion
/// order throughout.
pub struct MarkovConns {
    conns: Vec<(usize, u32)>,
    im_cached: Option<Vec<(usize, u32)>>,
}

impl View for MarkovConns {
    type V = Seq<(usize, u32)>;

    closed spec fn view(&self) -> Seq<(usize, u32)> {
        self.conns@
    }
}

impl MarkovConns {
    /// Whether the one-time sampling snapshot has been computed.
    pub closed spec fn is_frozen(&self) -> bool {
        self.im_cached is Some
    }

    /// The frozen snapshot, once present, equals the live edge list.
    pub closed spec fn snapshot_ok(&self) -> bool {
        self.im_cached is Some ==> self.im_cached->0@ == self@
    }

    /// Well-formedness: one entry per target, positive weights, a total that
    /// fits the counter type, and a snapshot (once present) that equals the
    /// live edge list.
    pub open spec fn wf(&self) -> bool {
        &&& distinct_targets(self@)
        &&& forall|i: int| 0 <= i < self@.len() ==> (#[trigger] self@[i]).1 >= 1
        &&& total(self@) <= u32::MAX
        &&& self.snapshot_ok()
    }

    /// An empty edge set, not yet frozen.
    pub fn empty() -> (r: Self)
        ensures
            r.wf(),
            !r.is_frozen(),
            r@ =~= Seq::<(usize, u32)>::empty(),
    {
        MarkovConns { conns: Vec::new(), im_cached: None }
    }

    /// Number of distinct recorded targets.
    pub fn len(&self) -> (n: usize)
        ensures
            n == self@.len(),
    {
        self.conns.len()
    }

    /// The `i`-th recorded transition, in first-insertion order.
    pub fn entry_at(&self, i: usize) -> (e: (usize, u32))
        requires
            i < self@.len(),
        ensures
            e == self@[i as int],
    {
        self.conns[i]
    }

    /// Records one transition to `target`: its weight grows by 1 (inserted
    /// with weight 1 on first sight, appended after all existing entries);
    /// every other target's weight is untouched.
    pub fn connect(&mut self, target: usize)
        requires
            old(self).wf(),
            !old(self).is_frozen(),
            total(old(self)@) < u32::MAX,
        ensures
            final(self).wf(),
            !final(self).is_frozen(),
            final(self)@ == spec_connect(old(self)@, target),
            wt(final(self)@, target) == wt(old(self)@, target) + 1,
            forall|u: usize| u != target ==> wt(final(self)@, u) == wt(old(self)@, u),
            total(final(self)@) == total(old(self)@) + 1,
            forall|i: int|
                0 <= i < old(self)@.len() ==> (#[trigger] final(self)@[i]).0 == old(self)@[i].0,
            old(self)@.len() <= final(self)@.len() <= old(self)@.len() + 1,
            final(self)@.len() >= 1,
            forall|k: int|
                old(self)@.len() <= k < final(self)@.len() ==> #[trigger] final(self)@[k] == (
                target,
                1u32,
            ),
    {
        let ghost s = self@;
        let n = self.conns.len();
        let mut i: usize = 0;
        while i < n
            invariant
                0 <= i <= n,
                n == s.len(),
                *self == *old(self),
                s == old(self)@,
                old(self).wf(),
                !old(self).is_frozen(),
                total(old(self)@) < u32::MAX,
                forall|k: int| 0 <= k < i ==> (#[trigger] s[k]).0 != target,
            decreases n - i,
        {
            if self.conns[i].0 == target {
                let w = self.conns[i].1;
                proof {
                    lemma_entry_wt(s, i as int);
                    lemma_wt_le_total(s, target);
                }
                self.conns[i] = (target, w + 1);
                proof {
                    assert(contains_target(s, target));
                    let j = choose|j: int| 0 <= j < s.len() && (#[trigger] s[j]).0 == target;
                    assert(j == i);
                    lemma_wt_update(s, i as int, (target, (w + 1) as u32), target);
                    assert forall|u: usize| u != target implies wt(self@, u) == wt(s, u) by {
                        lemma_wt_update(s, i as int, (target, (w + 1) as u32), u);
                    }
                    lemma_total_update(s, i as int, (target, (w + 1) as u32));
                }
                return ;
            }
            i += 1;
        }
        proof {
            assert(!contains_target(s, target));
            lemma_wt_absent(s, target);
        }
        self.conns.push((target, 1));
        proof {
            lemma_wt_push(s, (target, 1u32), target);
            assert forall|u: usize| u != target implies wt(self@, u) == wt(s, u) by {
                lemma_wt_push(s, (target, 1u32), u);
            }
            assert(distinct_targets(self@));
        }
    }

    /// The sum of all recorded weights.
    pub fn total_weight(&self) -> (t: u32)
        requires
            self.wf(),
        ensures
            t as nat == total(self@),
    {
        let n = self.conns.len();
        let mut sum: u32 = 0;
        let mut i: usize = 0;
        while i < n
            invariant
                0 <= i <= n,
                n == self@.len(),
                self.wf(),
                sum as nat == total(self@.take(i as int)),
            decreases n - i,
        {
            proof {
                lemma_total_take_succ(self@, i as int);
                lemma_total_take_le(self@, i + 1);
            }
            sum = sum + self.conns[i].1;
            i += 1;
        }
        proof {
            assert(self@.take(n as int) =~= self@);
        }
        sum
    }

    /// Computes the frozen sampling snapshot on first call and hands it out;
    /// later calls are no-ops returning the same snapshot. The snapshot lists
    /// the recorded transitions in first-insertion order.
    pub fn index_map(&mut self) -> (snap: &Vec<(usize, u32)>)
        requires
            old(self).wf(),
        ensures
            final(self).wf(),
            final(self).is_frozen(),
            final(self)@ == old(self)@,
            snap@ == final(self)@,
    {
        if self.im_cached.is_none() {
            let mut copy: Vec<(usize, u32)> = Vec::new();
            let n = self.conns.len();
            let mut i: usize = 0;
            while i < n
                invariant
                    0 <= i <= n,
                    n == self.conns@.len(),
                    copy@ =~= self.conns@.take(i as int),
                decreases n - i,
            {
                let e = self.conns[i];
                copy.push(e);
                proof {
                    assert(copy@ =~= self.conns@.take(i + 1));
                }
                i += 1;
            }
            proof {
                assert(copy@ =~= self.conns@);
            }
            self.im_cached = Some(copy);
        }
        match &self.im_cached {
            Some(snap) => snap,
            None => vstd::pervasive::unreached(),
        }
    }

    /// Draws one recorded target with probability proportional to its weight
    /// (see `lemma_sampling_fidelity`): whatever the draw, the result is a
    /// target that some entry of the frozen snapshot names.
    pub fn random_weighted(&self, rng: &mut rand::rngs::ThreadRng) -> (t: usize)
        requires
            self.wf(),
            self.is_frozen(),
            self@.len() > 0,
        ensures
            contains_target(self@, t),
            wt(self@, t) >= 1,
    {
        let snap = match &self.im_cached {
            Some(snap) => snap,
            None => vstd::pervasive::unreached(),
        };
        let sum = self.total_weight();
        proof {
            lemma_total_lower(snap@);
        }
        let r = rand_below(rng, sum);
        let idx = pick(snap, r);
        let t = snap[idx].0;
        proof {
            lemma_entry_wt(snap@, idx as int);
        }
        t
    }
}

/// The cumulative-weight selection that weighted sampling performs: returns
/// the index whose half-open weight interval contains the draw `r`.
pub fn pick(snap: &Vec<(usize, u32)>, r: u32) -> (i: usize)
    requires
        (r as nat) < total(snap@),
        total(snap@) <= u32::MAX,
    ensures
        i < snap@.len(),
        total(snap@.take(i as int)) <= r as nat,
        (r as nat) < total(snap@.take(i as int)) + snap@[i as int].1,
{
    let n = snap.len();
    let mut acc: u32 = 0;
    let mut i: usize = 0;
    while i < n
        invariant
            0 <= i <= n,
            n == snap@.len(),
            acc as nat == total(snap@.take(i as int)),
            acc <= r,
            (r as nat) < total(snap@),
            total(snap@) <= u32::MAX,
        decreases n - i,
    {
        proof {
            lemma_total_take_succ(snap@, i as int);
            lemma_total_take_le(snap@, i + 1);
        }
        let w = snap[i].1;
        if r < acc + w {
            return i;
        }
        acc = acc + w;
        i += 1;
    }
    proof {
        assert(snap@.take(n as int) =~= snap@);
    }
    vstd::pervasive::unreached()
}

/// Weighted sampling fidelity, stated structurally: of the `total(s)` equally
/// likely draws, exactly `s[j].1` select entry `j` — the draws selecting `j`
/// form the half-open interval beginning at the weight of the preceding
/// entries, these intervals are pairwise disjoint, and each has as many
/// integers as the entry's weight. Under a uniform draw, entry `j` is thus
/// chosen with probability `s[j].1 / total(s)`.
pub proof fn lemma_sampling_fidelity(s: Seq<(usize, u32)>, j: int)
    requires
        0 <= j < s.len(),
    ensures
        total(s.take(j)) + s[j].1 <= total(s),
        set_int_range(total(s.take(j)) as int, total(s.take(j)) + s[j].1).len() == s[j].1,
        forall|k: int|
            0 <= k < s.len() && k != j ==> total(s.take(k)) + s[k].1 <= total(s.take(j)) || total(
                s.take(j),
            ) + s[j].1 <= total(s.take(k)),
{
    lemma_total_take_succ(s, j);
    lemma_total_take_le(s, j + 1);
    lemma_int_range(total(s.take(j)) as int, total(s.take(j)) + s[j].1);
    assert forall|k: int|
        0 <= k < s.len() && k != j implies total(s.take(k)) + s[k].1 <= total(s.take(j)) || total(
        s.take(j),
    ) + s[j].1 <= total(s.take(k)) by {
        lemma_total_take_succ(s, k);
        if k < j {
            lemma_total_take_range(s, k + 1, j);
        } else {
            lemma_total_take_range(s, j + 1, k);
        }
    }
}

/// Prefix totals are monotone in the prefix length.
proof fn lemma_total_take_range(s: Seq<(usize, u32)>, a: int, b: int)
    requires
        0 <= a <= b <= s.len(),
    ensures
        total(s.take(a)) <= total(s.take(b)),
    decreases b - a,
{
    if a < b {
        lemma_total_take_succ(s, a);
        lemma_total_take_range(s, a + 1, b);
    }
}

} // verus!
