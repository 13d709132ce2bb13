//! The level / critical-path analyzer.
//!
//! For an acyclic graph it computes, per node, the length of the longest
//! dependency chain ending there (`depth`), reuses that value as the node's
//! `level` (its row for statistics bucketing), and reports the critical-path
//! length: the greatest depth plus one.  A graph with a cycle is reported,
//! not repaired.

use vstd::prelude::*;
use vstd::pervasive::VecAdditionalExecFns;
use crate::config::SynthError;
use crate::dag::{TaskDag, TaskV, valid_deps, edges_respect_levels, level_increasing, acyclic};
use crate::stats::copy_u32s;

verus! {

/// Node `i`'s depth is zero without dependencies, else one more than the
/// greatest depth among its dependencies.
pub open spec fn depth_ok_at(g: Seq<TaskV>, d: Seq<u32>, i: int) -> bool {
    if g[i].deps.len() == 0 {
        d[i] == 0
    } else {
        &&& exists|k: int|
            0 <= k < g[i].deps.len() && d[i] == d[#[trigger] g[i].deps[k] as int] + 1
        &&& forall|k: int| 0 <= k < g[i].deps.len() ==> d[#[trigger] g[i].deps[k] as int] < d[i]
    }
}

/// `d` is the longest-chain depth assignment of the whole graph.
pub open spec fn depth_ok(g: Seq<TaskV>, d: Seq<u32>) -> bool {
    d.len() == g.len() && forall|i: int| 0 <= i < g.len() ==> depth_ok_at(g, d, i)
}

/// The greatest value of a sequence (zero when empty).
pub open spec fn max_u32(s: Seq<u32>) -> u32
    decreases s.len(),
{
    if s.len() == 0 {
        0
    } else {
        let m = max_u32(s.drop_last());
        if s.last() >= m {
            s.last()
        } else {
            m
        }
    }
}

/// The maximum bounds every element and, in a nonempty sequence, is
/// attained.
pub proof fn lemma_max_u32(s: Seq<u32>)
    ensures
        forall|i: int| 0 <= i < s.len() ==> (#[trigger] s[i]) <= max_u32(s),
        s.len() > 0 ==> exists|i: int| 0 <= i < s.len() && s[i] == max_u32(s),
    decreases s.len(),
{
    if s.len() > 0 {
        lemma_max_u32(s.drop_last());
        assert forall|i: int| 0 <= i < s.len() implies (#[trigger] s[i]) <= max_u32(s) by {
            if i < s.len() - 1 {
                assert(s.drop_last()[i] == s[i]);
            }
        }
        if s.last() >= max_u32(s.drop_last()) {
            assert(s[s.len() - 1] == max_u32(s));
        } else {
            let j = choose|j: int|
                0 <= j < s.drop_last().len() && s.drop_last()[j] == max_u32(s.drop_last());
            assert(s[j] == max_u32(s));
        }
    }
}

/// How many entries of `s` are true.
pub open spec fn count_true(s: Seq<bool>) -> nat
    decreases s.len(),
{
    if s.len() == 0 {
        0
    } else {
        count_true(s.drop_last()) + if s.last() {
            1nat
        } else {
            0
        }
    }
}

/// Setting a false entry true raises the count by one.
proof fn lemma_count_true_update(s: Seq<bool>, i: int)
    requires
        0 <= i < s.len(),
        !s[i],
    ensures
        count_true(s.update(i, true)) == count_true(s) + 1,
    decreases s.len(),
{
    if i == s.len() - 1 {
        assert(s.update(i, true).drop_last() =~= s.drop_last());
    } else {
        assert(s.update(i, true).drop_last() =~= s.drop_last().update(i, true));
        lemma_count_true_update(s.drop_last(), i);
        assert(s.update(i, true).last() == s.last());
    }
}

/// The count never exceeds the length, and reaches it only when every
/// entry is true.
proof fn lemma_count_true_all(s: Seq<bool>)
    ensures
        count_true(s) <= s.len(),
        count_true(s) == s.len() ==> forall|i: int| 0 <= i < s.len() ==> s[i],
    decreases s.len(),
{
    if s.len() > 0 {
        lemma_count_true_all(s.drop_last());
        if count_true(s) == s.len() {
            assert forall|i: int| 0 <= i < s.len() implies s[i] by {
                if i < s.len() - 1 {
                    assert(s.drop_last()[i] == s[i]);
                }
            }
        }
    }
}

/// From an unfinished node one can always step to an unfinished
/// dependency, each step strictly lowering the level: an unfinished
/// node's level therefore exceeds every bound.
proof fn lemma_descend(g: Seq<TaskV>, lm: Seq<nat>, done: Seq<bool>, i: int, b: nat)
    requires
        valid_deps(g),
        lm.len() == g.len(),
        done.len() == g.len(),
        level_increasing(g, lm),
        forall|j: int|
            0 <= j < g.len() && !done[j] ==> exists|k: int|
                0 <= k < g[j].deps.len() && !done[#[trigger] g[j].deps[k] as int],
        0 <= i < g.len(),
        !done[i],
    ensures
        lm[i] >= b,
    decreases b,
{
    if b > 0 {
        let k = choose|k: int| 0 <= k < g[i].deps.len() && !done[#[trigger] g[i].deps[k] as int];
        let d = g[i].deps[k] as int;
        assert(lm[d] < lm[i]);
        lemma_descend(g, lm, done, d, (b - 1) as nat);
    }
}

/// If some node is unfinished and every unfinished node has an unfinished
/// dependency, the graph holds a cycle.
pub proof fn lemma_stuck_not_acyclic(g: Seq<TaskV>, done: Seq<bool>)
    requires
        valid_deps(g),
        done.len() == g.len(),
        exists|i: int| 0 <= i < g.len() && !done[i],
        forall|j: int|
            0 <= j < g.len() && !done[j] ==> exists|k: int|
                0 <= k < g[j].deps.len() && !done[#[trigger] g[j].deps[k] as int],
    ensures
        !acyclic(g),
{
    if acyclic(g) {
        let lm = choose|lm: Seq<nat>| lm.len() == g.len() && level_increasing(g, lm);
        let i = choose|i: int| 0 <= i < g.len() && !done[i];
        lemma_descend(g, lm, done, i, lm[i] + 1);
    }
}

/// What the analyzer returns: per-node depths, per-node levels (the same
/// values, under the name the statistics use), and the critical-path
/// length.
pub struct LevelInfo {
    pub depths: Vec<u32>,
    pub levels: Vec<u32>,
    pub critical_path: u32,
}

impl TaskDag {
    /// Computes every node's depth and level and the critical-path length,
    /// or reports a cycle.  On success the depth assignment satisfies the
    /// longest-chain fixpoint, every level lies below the critical-path
    /// length, and every edge climbs strictly in level; the graph is then
    /// acyclic.  On failure the graph holds a cycle: no climbing level
    /// assignment exists at all.
    pub fn calc_levels(&self) -> (r: Result<LevelInfo, SynthError>)
        requires
            self.wf(),
            1 <= self@.len(),
            self@.len() <= u32::MAX as usize,
        ensures
            match r {
                Ok(li) => {
                    &&& li.depths@.len() == self@.len()
                    &&& li.levels@ == li.depths@
                    &&& depth_ok(self@, li.depths@)
                    &&& forall|i: int|
                        0 <= i < self@.len() ==> (#[trigger] li.depths@[i]) < self@.len()
                    &&& li.critical_path == max_u32(li.depths@) + 1
                    &&& 1 <= li.critical_path <= self@.len()
                    &&& forall|i: int|
                        0 <= i < self@.len() ==> (#[trigger] li.levels@[i]) < li.critical_path
                    &&& edges_respect_levels(self@, li.levels@)
                    &&& acyclic(self@)
                },
                Err(e) => e == SynthError::CycleDetected && !acyclic(self@),
            },
    {
        let n = self.node_count();
        let mut depths: Vec<u32> = Vec::new();
        let mut done: Vec<bool> = Vec::new();
        for j in 0..n
            invariant
                depths@.len() == j,
                done@.len() == j,
                count_true(done@) == 0,
                forall|i: int| 0 <= i < j ==> !(#[trigger] done@[i]),
        {
            depths.push(0);
            let ghost prev_done = done@;
            done.push(false);
            assert(done@.drop_last() =~= prev_done);
        }
        let mut done_cnt: usize = 0;
        let mut progress: bool = true;

        while progress && done_cnt < n
            invariant
                n == self@.len(),
                1 <= n <= u32::MAX as usize,
                self.wf(),
                depths@.len() == n,
                done@.len() == n,
                done_cnt == count_true(done@),
                done_cnt <= n,
                forall|i: int, k: int|
                    0 <= i < n && done@[i] && 0 <= k < self@[i].deps.len() ==> done@[
                        #[trigger] self@[i].deps[k] as int],
                forall|i: int| 0 <= i < n && done@[i] ==> depth_ok_at(self@, depths@, i),
                forall|i: int|
                    0 <= i < n && done@[i] ==> (#[trigger] depths@[i] as int) < done_cnt as int,
                !progress ==> forall|j: int|
                    0 <= j < n && !done@[j] ==> exists|k: int|
                        0 <= k < self@[j].deps.len() && !done@[#[trigger] self@[j].deps[k] as int],
            decreases 2 * (n - done_cnt) + if progress {
                1int
            } else {
                0int
            },
        {
            progress = false;
            let ghost start_cnt = done_cnt;
            for i in 0..n
                invariant
                    n == self@.len(),
                    1 <= n <= u32::MAX as usize,
                    self.wf(),
                    depths@.len() == n,
                    done@.len() == n,
                    done_cnt == count_true(done@),
                    done_cnt <= n,
                    done_cnt >= start_cnt,
                    progress ==> done_cnt > start_cnt,
                    forall|i2: int, k: int|
                        0 <= i2 < n && done@[i2] && 0 <= k < self@[i2].deps.len() ==> done@[
                            #[trigger] self@[i2].deps[k] as int],
                    forall|i2: int| 0 <= i2 < n && done@[i2] ==> depth_ok_at(self@, depths@, i2),
                    forall|i2: int|
                        0 <= i2 < n && done@[i2] ==> (#[trigger] depths@[i2] as int)
                            < done_cnt as int,
                    !progress ==> forall|j: int|
                        0 <= j < i && !done@[j] ==> exists|k: int|
                            0 <= k < self@[j].deps.len() && !done@[
                                #[trigger] self@[j].deps[k] as int],
            {
                if !done[i] {
                    let dc = self.dep_count(i);
                    let mut all_done = true;
                    let mut maxd: u32 = 0;
                    let ghost mut argmax: int = 0;
                    for k in 0..dc
                        invariant
                            n == self@.len(),
                            self.wf(),
                            i < n,
                            dc == self@[i as int].deps.len(),
                            depths@.len() == n,
                            done@.len() == n,
                            all_done ==> forall|k2: int|
                                0 <= k2 < k ==> done@[#[trigger] self@[i as int].deps[k2] as int],
                            all_done && k > 0 ==> 0 <= argmax < k && depths@[self@[
                                i as int
                            ].deps[argmax] as int] == maxd,
                            all_done && k == 0 ==> maxd == 0,
                            all_done ==> forall|k2: int|
                                0 <= k2 < k ==> depths@[#[trigger] self@[i as int].deps[k2] as int]
                                    <= maxd,
                            !all_done ==> exists|k2: int|
                                0 <= k2 < dc && !done@[#[trigger] self@[i as int].deps[k2] as int],
                    {
                        if all_done {
                            let d = self.dep_at(i, k);
                            if !done[d] {
                                all_done = false;
                                assert(!done@[self@[i as int].deps[k as int] as int]);
                            } else {
                                let dd = depths[d];
                                if k == 0 || dd > maxd {
                                    maxd = dd;
                                    proof {
                                        argmax = k as int;
                                    }
                                }
                            }
                        }
                    }
                    if all_done {
                        let ghost pre_done = done@;
                        let ghost pre_depths = depths@;
                        let depth_i: u32 = if dc == 0 {
                            0
                        } else {
                            assert(done@[self@[i as int].deps[argmax] as int]);
                            assert((maxd as int) < done_cnt as int);
                            maxd + 1
                        };
                        depths.set(i, depth_i);
                        done.set(i, true);
                        proof {
                            lemma_count_true_update(pre_done, i as int);
                            lemma_count_true_all(pre_done);
                            if count_true(pre_done) == n {
                                assert(pre_done[i as int]);
                            }
                            assert(count_true(pre_done) < n);
                        }
                        done_cnt = done_cnt + 1;
                        progress = true;
                        proof {
                            assert forall|i2: int| 0 <= i2 < n && done@[i2] implies depth_ok_at(
                                self@,
                                depths@,
                                i2,
                            ) by {
                                if i2 != i {
                                    assert(pre_done[i2]);
                                    assert(depth_ok_at(self@, pre_depths, i2));
                                    assert forall|k2: int|
                                        0 <= k2 < self@[i2].deps.len() implies depths@[
                                        #[trigger] self@[i2].deps[k2] as int] == pre_depths[self@[i2].deps[k2] as int] by {
                                        assert(pre_done[self@[i2].deps[k2] as int]);
                                        assert(self@[i2].deps[k2] as int != i);
                                    }
                                    assert(depths@[i2] == pre_depths[i2]);
                                } else {
                                    if self@[i2].deps.len() > 0 {
                                        assert forall|k2: int|
                                            0 <= k2 < self@[i2].deps.len() implies depths@[
                                            #[trigger] self@[i2].deps[k2] as int] < depths@[i2] by {
                                            assert(pre_done[self@[i2].deps[k2] as int]);
                                            assert(self@[i2].deps[k2] as int != i);
                                            assert(pre_depths[self@[i2].deps[k2] as int] <= maxd);
                                        }
                                        assert(self@[i2].deps[argmax] as int != i);
                                        assert(depths@[self@[i2].deps[argmax] as int] == maxd);
                                        assert(depths@[i2] == maxd + 1);
                                    }
                                }
                            }
                        }
                    }
                }
            }
        }
        if done_cnt == n {
            proof {
                lemma_count_true_all(done@);
            }
            let mut maxv: u32 = 0;
            for i in 0..n
                invariant
                    n == self@.len(),
                    depths@.len() == n,
                    forall|j: int| 0 <= j < i ==> (#[trigger] depths@[j]) <= maxv,
                    i == 0 ==> maxv == 0,
                    i > 0 ==> exists|j: int| 0 <= j < i && (#[trigger] depths@[j]) == maxv,
            {
                let dd = depths[i];
                if dd > maxv {
                    maxv = dd;
                }
            }
            proof {
                lemma_max_u32(depths@);
                let jw = choose|j: int| 0 <= j < n && (#[trigger] depths@[j]) == maxv;
                let jm = choose|j: int|
                    0 <= j < depths@.len() && depths@[j] == max_u32(depths@);
                assert(depths@[jw] <= max_u32(depths@));
                assert(depths@[jm] <= maxv);
                assert(maxv == max_u32(depths@));
            }
            assert(maxv < n);
            let levels = copy_u32s(&depths);
            let ghost lm = Seq::new(self@.len(), |i: int| depths@[i] as nat);
            proof {
                assert forall|i: int, k: int|
                    0 <= i < self@.len() && 0 <= k < self@[i].deps.len() implies lm[
                    #[trigger] self@[i].deps[k] as int] < lm[i] by {
                    assert(done@[i]);
                    assert(depth_ok_at(self@, depths@, i));
                }
                assert(lm.len() == self@.len() && level_increasing(self@, lm));
                assert(acyclic(self@));
                assert forall|i: int| 0 <= i < self@.len() implies depth_ok_at(
                    self@,
                    depths@,
                    i,
                ) by {
                    assert(done@[i]);
                }
                assert(depth_ok(self@, depths@));
                assert forall|i: int, k: int|
                    0 <= i < self@.len() && 0 <= k < self@[i].deps.len() implies depths@[
                    #[trigger] self@[i].deps[k] as int] < depths@[i] by {
                    assert(done@[i]);
                    assert(depth_ok_at(self@, depths@, i));
                }
                assert(edges_respect_levels(self@, depths@));
                assert forall|i: int| 0 <= i < self@.len() implies (#[trigger] depths@[i])
                    < self@.len() by {
                    assert(done@[i]);
                }
            }
            Ok(LevelInfo { depths, levels, critical_path: maxv + 1 })
        } else {
            proof {
                lemma_count_true_all(done@);
                assert(count_true(done@) < n);
                if forall|i: int| 0 <= i < n ==> #[trigger] done@[i] {
                    assert forall|i: int| 0 <= i < done@.len() implies done@[i] by {}
                    lemma_count_all_true(done@);
                }
                assert(exists|i: int| 0 <= i < n && !(#[trigger] done@[i]));
                lemma_stuck_not_acyclic(self@, done@);
            }
            Err(SynthError::CycleDetected)
        }
    }
}

/// A sequence of only true entries counts to its length.
proof fn lemma_count_all_true(s: Seq<bool>)
    requires
        forall|i: int| 0 <= i < s.len() ==> s[i],
    ensures
        count_true(s) == s.len(),
    decreases s.len(),
{
    if s.len() > 0 {
        assert forall|i: int| 0 <= i < s.drop_last().len() implies s.drop_last()[i] by {
            assert(s.drop_last()[i] == s[i]);
        }
        lemma_count_all_true(s.drop_last());
    }
}

} // verus!
