//! The fit phase: extracting structural statistics from source graphs.
//!
//! For one source graph the analyzer's levels are computed, the graph's
//! node count is recorded under its critical-path length, every node's
//! level is recorded under `(cp, part)`, and five per-node metrics are
//! grouped by level and appended to the metric store.

use vstd::prelude::*;
use vstd::pervasive::VecAdditionalExecFns;
use crate::config::SynthError;
use crate::dag::{TaskDag, TaskV, acyclic};
use crate::levels::{depth_ok, max_u32, LevelInfo};
use crate::stats::{
    calc_part, cp_samples, gen_samples, lvl_samples, CpStatistic, LevelGenerator, StatKind,
    StructStatistic,
};

verus! {

/// `x`, saturated at the largest `u32`.
pub open spec fn sat32(x: int) -> int {
    if x > u32::MAX as int {
        u32::MAX as int
    } else {
        x
    }
}

/// The smaller of an instance count and the cap.
pub open spec fn capped(inst: u64, max_inst: u64) -> int {
    if inst > max_inst {
        max_inst as int
    } else {
        inst as int
    }
}

/// How often `x` occurs in `s`.
pub open spec fn count_in(s: Seq<usize>, x: usize) -> nat
    decreases s.len(),
{
    if s.len() == 0 {
        0
    } else {
        count_in(s.drop_last(), x) + if s.last() == x {
            1nat
        } else {
            0
        }
    }
}

/// How many dependents node `x` has among the first `j` nodes.
pub open spec fn child_cnt_upto(g: Seq<TaskV>, x: usize, j: int) -> nat
    decreases j,
{
    if j <= 0 {
        0
    } else {
        child_cnt_upto(g, x, j - 1) + if 0 <= j - 1 < g.len() {
            count_in(g[j - 1].deps, x)
        } else {
            0
        }
    }
}

/// Node `x`'s fan-out: how many dependency entries across the graph name
/// it.
pub open spec fn spec_child_cnt(g: Seq<TaskV>, x: usize) -> nat {
    child_cnt_upto(g, x, g.len() as int)
}

/// The sum of the capped instance counts of the nodes `ds` names.
pub open spec fn dep_inst_sum(g: Seq<TaskV>, ds: Seq<usize>, max_inst: u64) -> int
    decreases ds.len(),
{
    if ds.len() == 0 {
        0
    } else {
        dep_inst_sum(g, ds.drop_last(), max_inst) + if (ds.last() as int) < g.len() {
            capped(g[ds.last() as int].instance_cnt, max_inst)
        } else {
            0
        }
    }
}

/// The observation node `i` contributes to the metric `kind`, if any.
pub open spec fn metric_at(g: Seq<TaskV>, max_inst: u64, kind: StatKind, i: int) -> Option<u32> {
    let t = g[i];
    match kind {
        StatKind::Childs => Some(sat32(spec_child_cnt(g, i as usize) as int) as u32),
        StatKind::Deps => Some(sat32(t.deps.len() as int) as u32),
        StatKind::InstInit => if t.deps.len() == 0 {
            Some(sat32(capped(t.instance_cnt, max_inst)) as u32)
        } else {
            None
        },
        StatKind::InstPerc => if t.deps.len() > 0 {
            let avg = dep_inst_sum(g, t.deps, max_inst) / t.deps.len() as int;
            Some(sat32(capped(t.instance_cnt, max_inst) * 10000 / avg) as u32)
        } else {
            None
        },
        StatKind::Heavy => {
            let ins = capped(t.instance_cnt, max_inst);
            let dur = t.end_time - t.start_time;
            Some(sat32(2 * ins * dur / (ins + dur)) as u32)
        },
        StatKind::Time => Some(sat32(t.end_time - t.start_time) as u32),
    }
}

/// All per-node observations of one metric, in node order.
pub open spec fn metric_seq(g: Seq<TaskV>, max_inst: u64, kind: StatKind) -> Seq<Option<u32>> {
    Seq::new(g.len(), |i: int| metric_at(g, max_inst, kind, i))
}

/// The observations of the first `j` nodes, grouped into one row per
/// level.
pub open spec fn group_prefix(vals: Seq<Option<u32>>, lm: Seq<u32>, cp: nat, j: int) -> Seq<
    Seq<u32>,
>
    decreases j,
{
    if j <= 0 {
        Seq::new(cp, |l: int| Seq::<u32>::empty())
    } else {
        let prev = group_prefix(vals, lm, cp, j - 1);
        if 0 <= j - 1 < vals.len() && j - 1 < lm.len() && (lm[j - 1] as nat) < cp {
            match vals[j - 1] {
                Some(v) => prev.update(lm[j - 1] as int, prev[lm[j - 1] as int].push(v)),
                None => prev,
            }
        } else {
            prev
        }
    }
}

/// All observations grouped into one row per level, in node order within
/// each row.
pub open spec fn group_by_level(vals: Seq<Option<u32>>, lm: Seq<u32>, cp: nat) -> Seq<Seq<u32>> {
    group_prefix(vals, lm, cp, vals.len() as int)
}

/// The per-level rows of one metric of one graph.
pub open spec fn metric_rows(
    g: Seq<TaskV>,
    lm: Seq<u32>,
    cp: u32,
    max_inst: u64,
    kind: StatKind,
) -> Seq<Seq<u32>> {
    group_by_level(metric_seq(g, max_inst, kind), lm, cp as nat)
}

/// A grouped prefix always has one row per level.
proof fn lemma_group_prefix_len(vals: Seq<Option<u32>>, lm: Seq<u32>, cp: nat, j: int)
    ensures
        group_prefix(vals, lm, cp, j).len() == cp,
    decreases j,
{
    if j > 0 {
        lemma_group_prefix_len(vals, lm, cp, j - 1);
    }
}

/// Groups per-node observations by level.
fn group_values(vals: &Vec<Option<u32>>, levels: &Vec<u32>, cp: u32) -> (r: Vec<Vec<u32>>)
    requires
        vals@.len() == levels@.len(),
        forall|i: int| 0 <= i < levels@.len() ==> (#[trigger] levels@[i]) < cp,
    ensures
        r@.len() == cp,
        forall|l: int|
            0 <= l < cp ==> (#[trigger] r@[l])@ == group_by_level(vals@, levels@, cp as nat)[l],
{
    let cpu = cp as usize;
    let mut rows: Vec<Vec<u32>> = Vec::new();
    for l in 0..cpu
        invariant
            rows@.len() == l,
            forall|l2: int| 0 <= l2 < l ==> (#[trigger] rows@[l2]@).len() == 0,
    {
        rows.push(Vec::new());
    }
    let n = vals.len();
    for i in 0..n
        invariant
            n == vals@.len(),
            n == levels@.len(),
            cpu == cp,
            forall|i2: int| 0 <= i2 < levels@.len() ==> (#[trigger] levels@[i2]) < cp,
            rows@.len() == cp,
            forall|l: int|
                0 <= l < cp ==> (#[trigger] rows@[l])@ == group_prefix(
                    vals@,
                    levels@,
                    cp as nat,
                    i as int,
                )[l],
    {
        match vals[i] {
            Some(v) => {
                let lv = levels[i] as usize;
                let ghost pre = rows@;
                let mut row = crate::stats::copy_u32s(&rows[lv]);
                row.push(v);
                rows.set(lv, row);
                proof {
                    lemma_group_prefix_len(vals@, levels@, cp as nat, i as int);
                    lemma_group_prefix_len(vals@, levels@, cp as nat, i + 1);
                    let gp = group_prefix(vals@, levels@, cp as nat, i + 1);
                    assert forall|l: int| 0 <= l < cp implies (#[trigger] rows@[l])@ == gp[l] by {
                        if l == lv as int {
                            assert(pre[l]@ == group_prefix(vals@, levels@, cp as nat, i as int)[l]);
                        } else {
                            assert(rows@[l] == pre[l]);
                        }
                    }
                }
            },
            None => {
                proof {
                    lemma_group_prefix_len(vals@, levels@, cp as nat, i as int);
                    lemma_group_prefix_len(vals@, levels@, cp as nat, i + 1);
                    let gp = group_prefix(vals@, levels@, cp as nat, i + 1);
                    assert forall|l: int| 0 <= l < cp implies (#[trigger] rows@[l])@ == gp[l] by {}
                }
            },
        }
    }
    rows
}

/// Counts every node's dependents, saturating at the largest `u32`.
pub(crate) fn child_counts(g: &TaskDag) -> (r: Vec<u32>)
    requires
        g.wf(),
    ensures
        r@.len() == g@.len(),
        forall|x: int| 0 <= x < g@.len() ==> (#[trigger] r@[x]) as int == sat32(
            spec_child_cnt(g@, x as usize) as int,
        ),
{
    let n = g.node_count();
    let mut counts: Vec<u32> = Vec::new();
    for x in 0..n
        invariant
            counts@.len() == x,
            forall|x2: int| 0 <= x2 < x ==> (#[trigger] counts@[x2]) == 0,
    {
        counts.push(0);
    }
    for j in 0..n
        invariant
            n == g@.len(),
            g.wf(),
            counts@.len() == n,
            forall|x: int|
                0 <= x < n ==> (#[trigger] counts@[x]) as int == sat32(
                    child_cnt_upto(g@, x as usize, j as int) as int,
                ),
    {
        let dc = g.dep_count(j);
        for k in 0..dc
            invariant
                n == g@.len(),
                g.wf(),
                j < n,
                dc == g@[j as int].deps.len(),
                counts@.len() == n,
                forall|x: int|
                    0 <= x < n ==> (#[trigger] counts@[x]) as int == sat32(
                        child_cnt_upto(g@, x as usize, j as int) + count_in(
                            g@[j as int].deps.take(k as int),
                            x as usize,
                        ) as int,
                    ),
        {
            let d = g.dep_at(j, k);
            let cur = counts[d];
            if cur < u32::MAX {
                counts.set(d, cur + 1);
            }
            proof {
                assert forall|x: int|
                    0 <= x < n implies (#[trigger] counts@[x]) as int == sat32(
                    child_cnt_upto(g@, x as usize, j as int) + count_in(
                        g@[j as int].deps.take(k + 1),
                        x as usize,
                    ) as int,
                ) by {
                    assert(g@[j as int].deps.take(k + 1).drop_last() =~= g@[j as int].deps.take(
                        k as int,
                    ));
                    assert(g@[j as int].deps.take(k + 1).last() == g@[j as int].deps[k as int]);
                }
            }
        }
        proof {
            assert forall|x: int|
                0 <= x < n implies (#[trigger] counts@[x]) as int == sat32(
                child_cnt_upto(g@, x as usize, j + 1) as int,
            ) by {
                assert(g@[j as int].deps.take(dc as int) =~= g@[j as int].deps);
            }
        }
    }
    proof {
        assert forall|x: int|
            0 <= x < n implies (#[trigger] counts@[x]) as int == sat32(
            spec_child_cnt(g@, x as usize) as int,
        ) by {}
    }
    counts
}

/// Computes every node's observation of the metric `kind`.
fn metric_values(g: &TaskDag, max_inst: u64, kind: StatKind) -> (r: Vec<Option<u32>>)
    requires
        g.wf(),
        1 <= max_inst <= u32::MAX as u64,
        forall|i: int| 0 <= i < g@.len() ==> (#[trigger] g@[i]).instance_cnt >= 1,
        forall|i: int| 0 <= i < g@.len() ==> (#[trigger] g@[i]).end_time >= g@[i].start_time,
        forall|i: int| 0 <= i < g@.len() ==> (#[trigger] g@[i]).deps.len() <= u32::MAX,
    ensures
        r@ == metric_seq(g@, max_inst, kind),
{
    let n = g.node_count();
    let mut vals: Vec<Option<u32>> = Vec::new();
    let childs: Vec<u32> = if matches!(kind, StatKind::Childs) {
        child_counts(g)
    } else {
        Vec::new()
    };
    for i in 0..n
        invariant
            n == g@.len(),
            g.wf(),
            1 <= max_inst <= u32::MAX as u64,
            forall|i2: int| 0 <= i2 < g@.len() ==> (#[trigger] g@[i2]).instance_cnt >= 1,
            forall|i2: int| 0 <= i2 < g@.len() ==> (#[trigger] g@[i2]).end_time >= g@[i2].start_time,
            forall|i2: int| 0 <= i2 < g@.len() ==> (#[trigger] g@[i2]).deps.len() <= u32::MAX,
            kind is Childs ==> childs@.len() == n && forall|x: int|
                0 <= x < n ==> (#[trigger] childs@[x]) as int == sat32(
                    spec_child_cnt(g@, x as usize) as int,
                ),
            vals@.len() == i,
            forall|i2: int| 0 <= i2 < i ==> (#[trigger] vals@[i2]) == metric_at(
                g@,
                max_inst,
                kind,
                i2,
            ),
    {
        let v: Option<u32> = match kind {
            StatKind::Childs => Some(childs[i]),
            StatKind::Deps => {
                let dl = g.dep_count(i);
                Some(dl as u32)
            },
            StatKind::InstInit => {
                if g.dep_count(i) == 0 {
                    let ic = g.instance_cnt_of(i);
                    let c = if ic > max_inst {
                        max_inst
                    } else {
                        ic
                    };
                    Some(c as u32)
                } else {
                    None
                }
            },
            StatKind::InstPerc => {
                let dl = g.dep_count(i);
                if dl > 0 {
                    let mut sum: u64 = 0;
                    for k in 0..dl
                        invariant
                            n == g@.len(),
                            g.wf(),
                            i < n,
                            1 <= max_inst <= u32::MAX as u64,
                            dl == g@[i as int].deps.len(),
                            dl <= u32::MAX,
                            forall|i2: int|
                                0 <= i2 < g@.len() ==> (#[trigger] g@[i2]).instance_cnt >= 1,
                            sum as int == dep_inst_sum(
                                g@,
                                g@[i as int].deps.take(k as int),
                                max_inst,
                            ),
                            sum as int <= (k as int) * (max_inst as int),
                    {
                        let p = g.dep_at(i, k);
                        let pv = g.instance_cnt_of(p);
                        let c = if pv > max_inst {
                            max_inst
                        } else {
                            pv
                        };
                        assert((sum as int) + (c as int) <= ((k as int) + 1) * (max_inst as int))
                            by (nonlinear_arith)
                            requires
                                sum as int <= (k as int) * (max_inst as int),
                                c as int <= max_inst as int,
                        ;
                        assert(((k as int) + 1) * (max_inst as int) <= 0x1_0000_0000int
                            * 0xFFFF_FFFFint) by (nonlinear_arith)
                            requires
                                0 <= (k as int) + 1 <= 0x1_0000_0000int,
                                0 <= max_inst as int <= 0xFFFF_FFFFint,
                        ;
                        sum = sum + c;
                        proof {
                            assert(g@[i as int].deps.take(k + 1).drop_last() =~= g@[
                                i as int].deps.take(k as int));
                            assert(g@[i as int].deps.take(k + 1).last() == g@[i as int].deps[
                                k as int]);
                        }
                    }
                    proof {
                        assert(g@[i as int].deps.take(dl as int) =~= g@[i as int].deps);
                    }
                    let ghost ds = g@[i as int].deps;
                    proof {
                        lemma_dep_inst_sum_pos(g@, ds, max_inst);
                    }
                    assert(sum as int >= dl as int);
                    assert((sum as int) / (dl as int) >= 1) by (nonlinear_arith)
                        requires
                            sum as int >= dl as int,
                            dl as int >= 1,
                    ;
                    let avg = sum / (dl as u64);
                    assert(avg >= 1);
                    let ic = g.instance_cnt_of(i);
                    let c = if ic > max_inst {
                        max_inst
                    } else {
                        ic
                    };
                    let scaled: u64 = c * 10000;
                    let ratio: u64 = scaled / avg;
                    let out: u32 = if ratio > u32::MAX as u64 {
                        u32::MAX
                    } else {
                        ratio as u32
                    };
                    Some(out)
                } else {
                    None
                }
            },
            StatKind::Heavy => {
                let ic = g.instance_cnt_of(i);
                let ins = if ic > max_inst {
                    max_inst
                } else {
                    ic
                };
                let dur = g.nodes[i].end_time - g.nodes[i].start_time;
                assert(ins >= 1);
                assert((2int * (ins as int)) * (dur as int) <= (2int * 0xFFFF_FFFFint)
                    * 0xFFFF_FFFF_FFFF_FFFFint) by (nonlinear_arith)
                    requires
                        0 <= ins as int <= 0xFFFF_FFFFint,
                        0 <= dur as int <= 0xFFFF_FFFF_FFFF_FFFFint,
                ;
                let num: u128 = 2u128 * (ins as u128) * (dur as u128);
                let den: u128 = (ins as u128) + (dur as u128);
                let h = num / den;
                let out: u32 = if h > u32::MAX as u128 {
                    u32::MAX
                } else {
                    h as u32
                };
                Some(out)
            },
            StatKind::Time => {
                let dur = g.nodes[i].end_time - g.nodes[i].start_time;
                let out: u32 = if dur > u32::MAX as u64 {
                    u32::MAX
                } else {
                    dur as u32
                };
                Some(out)
            },
        };
        vals.push(v);
    }
    assert(vals@ =~= metric_seq(g@, max_inst, kind));
    vals
}

/// The sum of capped instance counts of at least one dependency, all of
/// them at least one, is at least the number of dependencies.
proof fn lemma_dep_inst_sum_pos(g: Seq<TaskV>, ds: Seq<usize>, max_inst: u64)
    requires
        max_inst >= 1,
        forall|i: int| 0 <= i < g.len() ==> (#[trigger] g[i]).instance_cnt >= 1,
        forall|k: int| 0 <= k < ds.len() ==> (#[trigger] ds[k]) < g.len(),
    ensures
        dep_inst_sum(g, ds, max_inst) >= ds.len(),
    decreases ds.len(),
{
    if ds.len() > 0 {
        assert forall|k: int| 0 <= k < ds.drop_last().len() implies (
        #[trigger] ds.drop_last()[k]) < g.len() by {
            assert(ds.drop_last()[k] == ds[k]);
        }
        lemma_dep_inst_sum_pos(g, ds.drop_last(), max_inst);
    }
}

} // verus!

verus! {

/// Which metric kinds have been appended so far, in fit order.
spec fn kind_done(k: StatKind, m: int) -> bool {
    ||| (m >= 1 && k == StatKind::Childs)
    ||| (m >= 2 && k == StatKind::Deps)
    ||| (m >= 3 && k == StatKind::InstInit)
    ||| (m >= 4 && k == StatKind::InstPerc)
    ||| (m >= 5 && k == StatKind::Heavy)
    ||| (m >= 6 && k == StatKind::Time)
}

/// Fits one source graph into the three stores: its node count under its
/// critical-path length, its per-node levels under `(cp, part)`, and the
/// five per-node metrics grouped by level.  A cyclic graph is reported and
/// leaves every store untouched.
pub fn fit_graph(
    cp_ranges: &mut CpStatistic,
    level_distr: &mut StructStatistic,
    level_gen: &mut LevelGenerator,
    g: &TaskDag,
    max_inst_cnt: u64,
) -> (r: Result<LevelInfo, SynthError>)
    requires
        old(cp_ranges).wf(),
        old(level_distr).wf(),
        old(level_gen).wf(),
        g.wf(),
        1 <= g@.len() <= u32::MAX as usize,
        1 <= max_inst_cnt <= u32::MAX as u64,
        forall|i: int| 0 <= i < g@.len() ==> (#[trigger] g@[i]).instance_cnt >= 1,
        forall|i: int| 0 <= i < g@.len() ==> (#[trigger] g@[i]).end_time >= g@[i].start_time,
        forall|i: int| 0 <= i < g@.len() ==> (#[trigger] g@[i]).deps.len() <= u32::MAX,
    ensures
        final(cp_ranges).wf(),
        final(level_distr).wf(),
        final(level_gen).wf(),
        match r {
            Ok(li) => {
                &&& acyclic(g@)
                &&& depth_ok(g@, li.depths@)
                &&& li.levels@ == li.depths@
                &&& li.critical_path == max_u32(li.depths@) + 1
                &&& 1 <= li.critical_path <= g@.len()
                &&& forall|c: u32|
                    #[trigger] cp_samples(final(cp_ranges)@, c) == if c == li.critical_path {
                        cp_samples(old(cp_ranges)@, c).push(g@.len() as u32)
                    } else {
                        cp_samples(old(cp_ranges)@, c)
                    }
                &&& forall|c: u32, p: u32|
                    #[trigger] lvl_samples(final(level_distr)@, c, p) == if c == li.critical_path
                        && p == (g@.len() as u32) / li.critical_path {
                        lvl_samples(old(level_distr)@, c, p) + li.levels@
                    } else {
                        lvl_samples(old(level_distr)@, c, p)
                    }
                &&& forall|c: u32, p: u32, l: u32, k: StatKind|
                    #[trigger] gen_samples(final(level_gen)@, c, p, l, k) == if c
                        == li.critical_path && p == (g@.len() as u32) / li.critical_path && l
                        < li.critical_path {
                        gen_samples(old(level_gen)@, c, p, l, k) + metric_rows(
                            g@,
                            li.levels@,
                            li.critical_path,
                            max_inst_cnt,
                            k,
                        )[l as int]
                    } else {
                        gen_samples(old(level_gen)@, c, p, l, k)
                    }
            },
            Err(e) => {
                &&& e == SynthError::CycleDetected
                &&& !acyclic(g@)
                &&& final(cp_ranges)@ == old(cp_ranges)@
                &&& final(level_distr)@ == old(level_distr)@
                &&& final(level_gen)@ == old(level_gen)@
            },
        },
{
    let li = match g.calc_levels() {
        Ok(li) => li,
        Err(e) => {
            return Err(e);
        },
    };
    let cp = li.critical_path;
    let nc32 = g.node_count() as u32;
    cp_ranges.add(cp, nc32);
    let part = calc_part(nc32, cp);
    level_distr.add(cp, part, &li.levels);
    let ghost s0 = level_gen@;
    let ghost lmv = li.levels@;

    let vals1 = metric_values(g, max_inst_cnt, StatKind::Childs);
    let rows1 = group_values(&vals1, &li.levels, cp);
    level_gen.add_statistic(cp, part, StatKind::Childs, &rows1);
    proof {
        assert forall|c: u32, p: u32, l: u32, k: StatKind|
            #[trigger] gen_samples(level_gen@, c, p, l, k) == if c == cp && p == part && l < cp
                && kind_done(k, 1) {
            gen_samples(s0, c, p, l, k) + metric_rows(g@, lmv, cp, max_inst_cnt, k)[l as int]
        } else {
            gen_samples(s0, c, p, l, k)
        } by {
            if c == cp && p == part && k == StatKind::Childs && l < cp {
                assert(rows1@[l as int]@ == metric_rows(g@, lmv, cp, max_inst_cnt, k)[l as int]);
            }
        }
    }
    let ghost s1 = level_gen@;

    let vals2 = metric_values(g, max_inst_cnt, StatKind::Deps);
    let rows2 = group_values(&vals2, &li.levels, cp);
    level_gen.add_statistic(cp, part, StatKind::Deps, &rows2);
    proof {
        assert forall|c: u32, p: u32, l: u32, k: StatKind|
            #[trigger] gen_samples(level_gen@, c, p, l, k) == if c == cp && p == part && l < cp
                && kind_done(k, 2) {
            gen_samples(s0, c, p, l, k) + metric_rows(g@, lmv, cp, max_inst_cnt, k)[l as int]
        } else {
            gen_samples(s0, c, p, l, k)
        } by {
            assert(gen_samples(s1, c, p, l, k) == if c == cp && p == part && l < cp && kind_done(
                k,
                1,
            ) {
                gen_samples(s0, c, p, l, k) + metric_rows(g@, lmv, cp, max_inst_cnt, k)[l as int]
            } else {
                gen_samples(s0, c, p, l, k)
            });
            if c == cp && p == part && k == StatKind::Deps && l < cp {
                assert(rows2@[l as int]@ == metric_rows(g@, lmv, cp, max_inst_cnt, k)[l as int]);
            }
        }
    }
    let ghost s2 = level_gen@;

    let vals3 = metric_values(g, max_inst_cnt, StatKind::InstInit);
    let rows3 = group_values(&vals3, &li.levels, cp);
    level_gen.add_statistic(cp, part, StatKind::InstInit, &rows3);
    proof {
        assert forall|c: u32, p: u32, l: u32, k: StatKind|
            #[trigger] gen_samples(level_gen@, c, p, l, k) == if c == cp && p == part && l < cp
                && kind_done(k, 3) {
            gen_samples(s0, c, p, l, k) + metric_rows(g@, lmv, cp, max_inst_cnt, k)[l as int]
        } else {
            gen_samples(s0, c, p, l, k)
        } by {
            assert(gen_samples(s2, c, p, l, k) == if c == cp && p == part && l < cp && kind_done(
                k,
                2,
            ) {
                gen_samples(s0, c, p, l, k) + metric_rows(g@, lmv, cp, max_inst_cnt, k)[l as int]
            } else {
                gen_samples(s0, c, p, l, k)
            });
            if c == cp && p == part && k == StatKind::InstInit && l < cp {
                assert(rows3@[l as int]@ == metric_rows(g@, lmv, cp, max_inst_cnt, k)[l as int]);
            }
        }
    }
    let ghost s3 = level_gen@;

    let vals4 = metric_values(g, max_inst_cnt, StatKind::InstPerc);
    let rows4 = group_values(&vals4, &li.levels, cp);
    level_gen.add_statistic(cp, part, StatKind::InstPerc, &rows4);
    proof {
        assert forall|c: u32, p: u32, l: u32, k: StatKind|
            #[trigger] gen_samples(level_gen@, c, p, l, k) == if c == cp && p == part && l < cp
                && kind_done(k, 4) {
            gen_samples(s0, c, p, l, k) + metric_rows(g@, lmv, cp, max_inst_cnt, k)[l as int]
        } else {
            gen_samples(s0, c, p, l, k)
        } by {
            assert(gen_samples(s3, c, p, l, k) == if c == cp && p == part && l < cp && kind_done(
                k,
                3,
            ) {
                gen_samples(s0, c, p, l, k) + metric_rows(g@, lmv, cp, max_inst_cnt, k)[l as int]
            } else {
                gen_samples(s0, c, p, l, k)
            });
            if c == cp && p == part && k == StatKind::InstPerc && l < cp {
                assert(rows4@[l as int]@ == metric_rows(g@, lmv, cp, max_inst_cnt, k)[l as int]);
            }
        }
    }
    let ghost s4 = level_gen@;

    let vals5 = metric_values(g, max_inst_cnt, StatKind::Heavy);
    let rows5 = group_values(&vals5, &li.levels, cp);
    level_gen.add_statistic(cp, part, StatKind::Heavy, &rows5);
    proof {
        assert forall|c: u32, p: u32, l: u32, k: StatKind|
            #[trigger] gen_samples(level_gen@, c, p, l, k) == if c == cp && p == part && l < cp
                && kind_done(k, 5) {
            gen_samples(s0, c, p, l, k) + metric_rows(g@, lmv, cp, max_inst_cnt, k)[l as int]
        } else {
            gen_samples(s0, c, p, l, k)
        } by {
            assert(gen_samples(s4, c, p, l, k) == if c == cp && p == part && l < cp && kind_done(
                k,
                4,
            ) {
                gen_samples(s0, c, p, l, k) + metric_rows(g@, lmv, cp, max_inst_cnt, k)[l as int]
            } else {
                gen_samples(s0, c, p, l, k)
            });
            if c == cp && p == part && k == StatKind::Heavy && l < cp {
                assert(rows5@[l as int]@ == metric_rows(g@, lmv, cp, max_inst_cnt, k)[l as int]);
            }
        }
    }
    let ghost s5 = level_gen@;

    let vals6 = metric_values(g, max_inst_cnt, StatKind::Time);
    let rows6 = group_values(&vals6, &li.levels, cp);
    level_gen.add_statistic(cp, part, StatKind::Time, &rows6);
    proof {
        assert forall|c: u32, p: u32, l: u32, k: StatKind|
            #[trigger] gen_samples(level_gen@, c, p, l, k) == if c == cp && p == part && l < cp
                && kind_done(k, 6) {
            gen_samples(s0, c, p, l, k) + metric_rows(g@, lmv, cp, max_inst_cnt, k)[l as int]
        } else {
            gen_samples(s0, c, p, l, k)
        } by {
            assert(gen_samples(s5, c, p, l, k) == if c == cp && p == part && l < cp && kind_done(
                k,
                5,
            ) {
                gen_samples(s0, c, p, l, k) + metric_rows(g@, lmv, cp, max_inst_cnt, k)[l as int]
            } else {
                gen_samples(s0, c, p, l, k)
            });
            if c == cp && p == part && k == StatKind::Time && l < cp {
                assert(rows6@[l as int]@ == metric_rows(g@, lmv, cp, max_inst_cnt, k)[l as int]);
            }
        }
    }
    proof {
        assert forall|c: u32, p: u32, l: u32, k: StatKind|
            #[trigger] gen_samples(level_gen@, c, p, l, k) == if c == cp && p == part && l < cp {
            gen_samples(s0, c, p, l, k) + metric_rows(g@, lmv, cp, max_inst_cnt, k)[l as int]
        } else {
            gen_samples(s0, c, p, l, k)
        } by {
            assert(gen_samples(level_gen@, c, p, l, k) == if c == cp && p == part && l < cp
                && kind_done(k, 6) {
                gen_samples(s0, c, p, l, k) + metric_rows(g@, lmv, cp, max_inst_cnt, k)[l as int]
            } else {
                gen_samples(s0, c, p, l, k)
            });
            assert(kind_done(k, 6));
        }
    }
    Ok(li)
}

/// A sequence is a prefix of itself.
proof fn lemma_prefix_refl(s: Seq<u32>)
    ensures
        s.is_prefix_of(s),
{
    assert(s =~= s.subrange(0, s.len() as int));
}

/// A prefix stays a prefix when the longer sequence is extended.
proof fn lemma_prefix_extend(a: Seq<u32>, b: Seq<u32>, t: Seq<u32>)
    requires
        a.is_prefix_of(b),
    ensures
        a.is_prefix_of(b + t),
{
    assert((b + t).subrange(0, a.len() as int) =~= b.subrange(0, a.len() as int));
}

/// A prefix stays a prefix when one element is appended.
proof fn lemma_prefix_push(a: Seq<u32>, b: Seq<u32>, x: u32)
    requires
        a.is_prefix_of(b),
    ensures
        a.is_prefix_of(b.push(x)),
{
    assert(b.push(x).subrange(0, a.len() as int) =~= b.subrange(0, a.len() as int));
}

/// Whatever a prefix contains, the whole contains.
proof fn lemma_prefix_contains(a: Seq<u32>, b: Seq<u32>, x: u32)
    requires
        a.is_prefix_of(b),
        a.contains(x),
    ensures
        b.contains(x),
{
    let i = choose|i: int| 0 <= i < a.len() && a[i] == x;
    assert(b.subrange(0, a.len() as int)[i] == a[i]);
    assert(b[i] == x);
}

/// Fits a whole population.  Every cyclic graph is skipped — the result
/// counts exactly those — and every acyclic graph contributes its
/// statistics: no stored observation is lost or reordered (each prior
/// sample sequence is a prefix of the final one), and each acyclic graph's
/// node count is recorded under some critical-path length.
pub fn fit_population(
    cp_ranges: &mut CpStatistic,
    level_distr: &mut StructStatistic,
    level_gen: &mut LevelGenerator,
    dags: &Vec<TaskDag>,
    max_inst_cnt: u64,
) -> (skipped: usize)
    requires
        old(cp_ranges).wf(),
        old(level_distr).wf(),
        old(level_gen).wf(),
        1 <= max_inst_cnt <= u32::MAX as u64,
        forall|t: int|
            0 <= t < dags@.len() ==> {
                let g = (#[trigger] dags@[t])@;
                &&& dags@[t].wf()
                &&& 1 <= g.len() <= u32::MAX as usize
                &&& forall|i: int|
                    0 <= i < g.len() ==> (#[trigger] g[i]).instance_cnt >= 1 && g[i].end_time
                        >= g[i].start_time && g[i].deps.len() <= u32::MAX
            },
    ensures
        final(cp_ranges).wf(),
        final(level_distr).wf(),
        final(level_gen).wf(),
        skipped == dags@.filter(|d: TaskDag| !acyclic(d@)).len(),
        forall|c: u32|
            (#[trigger] cp_samples(old(cp_ranges)@, c)).is_prefix_of(
                cp_samples(final(cp_ranges)@, c),
            ),
        forall|c: u32, p: u32|
            (#[trigger] lvl_samples(old(level_distr)@, c, p)).is_prefix_of(
                lvl_samples(final(level_distr)@, c, p),
            ),
        forall|c: u32, p: u32, l: u32, k: StatKind|
            (#[trigger] gen_samples(old(level_gen)@, c, p, l, k)).is_prefix_of(
                gen_samples(final(level_gen)@, c, p, l, k),
            ),
        forall|t: int|
            0 <= t < dags@.len() && acyclic((#[trigger] dags@[t])@) ==> exists|c: u32|
                cp_samples(final(cp_ranges)@, c).contains(dags@[t]@.len() as u32),
{
    let mut skipped: usize = 0;
    let m = dags.len();
    proof {
        assert(dags@.take(0).filter(|d: TaskDag| !acyclic(d@)) =~= Seq::<TaskDag>::empty()) by {
            reveal(Seq::filter);
        }
    }
    for t in 0..m
        invariant
            m == dags@.len(),
            cp_ranges.wf(),
            level_distr.wf(),
            level_gen.wf(),
            1 <= max_inst_cnt <= u32::MAX as u64,
            skipped == dags@.take(t as int).filter(|d: TaskDag| !acyclic(d@)).len(),
            forall|c: u32|
                (#[trigger] cp_samples(old(cp_ranges)@, c)).is_prefix_of(
                    cp_samples(cp_ranges@, c),
                ),
            forall|c: u32, p: u32|
                (#[trigger] lvl_samples(old(level_distr)@, c, p)).is_prefix_of(
                    lvl_samples(level_distr@, c, p),
                ),
            forall|c: u32, p: u32, l: u32, k: StatKind|
                (#[trigger] gen_samples(old(level_gen)@, c, p, l, k)).is_prefix_of(
                    gen_samples(level_gen@, c, p, l, k),
                ),
            forall|t2: int|
                0 <= t2 < t && acyclic((#[trigger] dags@[t2])@) ==> exists|c: u32|
                    cp_samples(cp_ranges@, c).contains(dags@[t2]@.len() as u32),
            forall|t2: int|
                0 <= t2 < dags@.len() ==> {
                    let g = (#[trigger] dags@[t2])@;
                    &&& dags@[t2].wf()
                    &&& 1 <= g.len() <= u32::MAX as usize
                    &&& forall|i: int|
                        0 <= i < g.len() ==> (#[trigger] g[i]).instance_cnt >= 1 && g[i].end_time
                            >= g[i].start_time && g[i].deps.len() <= u32::MAX
                },
    {
        let ghost s_cp = cp_ranges@;
        let ghost s_lv = level_distr@;
        let ghost s_gn = level_gen@;
        let ghost skipped0 = skipped as int;
        let outcome = fit_graph(cp_ranges, level_distr, level_gen, &dags[t], max_inst_cnt);
        proof {
            assert(dags@.take(t + 1).drop_last() =~= dags@.take(t as int));
            assert(dags@.take(t + 1).last() == dags@[t as int]);
            reveal(Seq::filter);
        }
        match outcome {
            Ok(li) => {
                proof {
                    let glen = dags@[t as int]@.len() as u32;
                    assert forall|c: u32|
                        (#[trigger] cp_samples(old(cp_ranges)@, c)).is_prefix_of(
                        cp_samples(cp_ranges@, c),
                    ) by {
                        if c == li.critical_path {
                            lemma_prefix_push(cp_samples(s_cp, c), cp_samples(s_cp, c), glen);
                            assert(cp_samples(cp_ranges@, c) == cp_samples(s_cp, c).push(glen));
                        }
                    }
                    assert forall|c: u32, p: u32|
                        (#[trigger] lvl_samples(old(level_distr)@, c, p)).is_prefix_of(
                        lvl_samples(level_distr@, c, p),
                    ) by {
                        lemma_prefix_extend(
                            lvl_samples(s_lv, c, p),
                            lvl_samples(s_lv, c, p),
                            li.levels@,
                        );
                        lemma_prefix_refl(lvl_samples(s_lv, c, p));
                    }
                    assert forall|c: u32, p: u32, l: u32, k: StatKind|
                        (#[trigger] gen_samples(old(level_gen)@, c, p, l, k)).is_prefix_of(
                        gen_samples(level_gen@, c, p, l, k),
                    ) by {
                        if c == li.critical_path && p == (dags@[t as int]@.len() as u32)
                            / li.critical_path && l < li.critical_path {
                            lemma_prefix_extend(
                                gen_samples(s_gn, c, p, l, k),
                                gen_samples(s_gn, c, p, l, k),
                                metric_rows(
                                    dags@[t as int]@,
                                    li.levels@,
                                    li.critical_path,
                                    max_inst_cnt,
                                    k,
                                )[l as int],
                            );
                            lemma_prefix_refl(gen_samples(s_gn, c, p, l, k));
                        } else {
                            lemma_prefix_refl(gen_samples(s_gn, c, p, l, k));
                        }
                    }
                    assert forall|t2: int|
                        0 <= t2 < t + 1 && acyclic((#[trigger] dags@[t2])@) implies exists|c: u32|
                        cp_samples(cp_ranges@, c).contains(dags@[t2]@.len() as u32) by {
                        if t2 < t {
                            let c0 = choose|c: u32|
                                cp_samples(s_cp, c).contains(dags@[t2]@.len() as u32);
                            if c0 == li.critical_path {
                                lemma_prefix_push(
                                    cp_samples(s_cp, c0),
                                    cp_samples(s_cp, c0),
                                    glen,
                                );
                                lemma_prefix_contains(
                                    cp_samples(s_cp, c0),
                                    cp_samples(cp_ranges@, c0),
                                    dags@[t2]@.len() as u32,
                                );
                            }
                            assert(cp_samples(cp_ranges@, c0).contains(dags@[t2]@.len() as u32));
                        } else {
                            let c0 = li.critical_path;
                            assert(cp_samples(cp_ranges@, c0) == cp_samples(s_cp, c0).push(glen));
                            assert(cp_samples(cp_ranges@, c0).last() == glen);
                            assert(cp_samples(cp_ranges@, c0).contains(glen));
                        }
                    }
                    assert(!(!acyclic(dags@[t as int]@)));
                    assert(dags@.take(t + 1).filter(|d: TaskDag| !acyclic(d@)) =~= dags@.take(
                        t as int,
                    ).filter(|d: TaskDag| !acyclic(d@)));
                }
            },
            Err(e) => {
                skipped = skipped + 1;
                proof {
                    assert(!acyclic(dags@[t as int]@));
                    assert(dags@.take(t + 1).filter(|d: TaskDag| !acyclic(d@)) =~= dags@.take(
                        t as int,
                    ).filter(|d: TaskDag| !acyclic(d@)).push(dags@[t as int]));
                }
            },
        }
    }
    proof {
        assert(dags@.take(m as int) =~= dags@);
    }
    skipped
}

} // verus!
