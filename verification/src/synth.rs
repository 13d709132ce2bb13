//! The DAG synthesis engine.
//!
//! Generation of one graph: draw a target critical-path length, draw a node
//! count for it, allocate the nodes, seed one node per level as a single
//! dependency chain (which pins the critical path exactly), wire the
//! remaining nodes by the configured strategy, and finally assign instance
//! counts and cost per level in dependency order.

use vstd::prelude::*;
use vstd::pervasive::VecAdditionalExecFns;
use crate::config::{GenConfig, Strategy, SynthError};
use crate::dag::{TaskDag, TaskV, valid_deps, edges_respect_levels};
use crate::fifo::{queue_add, queue_new, queue_remove, queue_size, queue_view};
use crate::fit::{count_in, child_cnt_upto, spec_child_cnt};
use crate::randsrc::{gen_index, shuffle_indices};
use crate::expand::dep_inst_total;
use crate::stats::{
    calc_part, cp_samples, gen_has_any, lemma_lvl_observed, lvl_has_cp, lvl_observed, lvl_samples,
    stat_observed, CpEntryV, CpStatistic, GenEntryV, LevelEntryV, LevelGenerator, StatKind,
    StructStatistic,
};

verus! {

/// Nodes `0 .. cp` form one unbroken dependency chain: node `i` depends on
/// node `i - 1`.
pub open spec fn chain_seeded(g: Seq<TaskV>, cp: u32) -> bool {
    forall|i: int| 1 <= i < cp ==> (#[trigger] g[i]).deps.contains((i - 1) as usize)
}

/// Every node's level lies below the critical-path length.
pub open spec fn levels_wf(lm: Seq<u32>, cp: u32) -> bool {
    forall|i: int| 0 <= i < lm.len() ==> (#[trigger] lm[i]) < cp
}

/// The seed-chain node of each level sits at its own level.
pub open spec fn seed_levels(lm: Seq<u32>, cp: u32) -> bool {
    forall|i: int| 0 <= i < cp ==> (#[trigger] lm[i]) == i
}

/// Every edge joins a dependency to a dependent exactly one level above
/// it.  All three strategies wire edges this way.
pub open spec fn edges_step_one_level(g: Seq<TaskV>, lm: Seq<u32>) -> bool {
    forall|i: int, k: int|
        0 <= i < g.len() && 0 <= k < g[i].deps.len() ==> lm[#[trigger] g[i].deps[k] as int] as int
            + 1 == lm[i] as int
}

/// The seed chain is intact and the strategies never wire two seed nodes
/// beyond it: node 0 keeps no dependency, the first dependency of seed `i`
/// is its chain predecessor, and every further dependency of a seed is a
/// non-seed node.
pub open spec fn seeds_chain_only(g: Seq<TaskV>, cp: u32) -> bool {
    &&& g[0].deps.len() == 0
    &&& forall|i: int|
        1 <= i < cp ==> (#[trigger] g[i]).deps.len() >= 1 && g[i].deps[0] == (i - 1) as usize
    &&& forall|i: int, k: int|
        1 <= i < cp && 1 <= k < g[i].deps.len() ==> (#[trigger] g[i].deps[k]) >= cp
}

/// What every growth step preserves: the graph keeps its size and
/// well-formedness, the seed chain stays as wired (gaining only non-seed
/// dependencies), every edge joins levels one apart, and no dependency
/// recorded at the start of growth is ever removed or reordered: each
/// node's initial dependency list stays a prefix of its final one.
pub open spec fn growth_inv(g0: Seq<TaskV>, g: Seq<TaskV>, lm: Seq<u32>, cp: u32) -> bool {
    &&& g.len() == g0.len()
    &&& valid_deps(g)
    &&& seeds_chain_only(g, cp)
    &&& edges_step_one_level(g, lm)
    &&& forall|i: int| 0 <= i < g.len() ==> (#[trigger] g0[i].deps).is_prefix_of(g[i].deps)
}

/// A prefix stays a prefix when the longer sequence grows.
proof fn lemma_prefix_push(a: Seq<usize>, b: Seq<usize>, x: usize)
    requires
        a.is_prefix_of(b),
    ensures
        a.is_prefix_of(b.push(x)),
{
    assert(b.push(x).subrange(0, a.len() as int) =~= b.subrange(0, a.len() as int));
}

/// Pushing one occurrence changes one count by one.
proof fn lemma_count_in_push(s: Seq<usize>, p: usize, x: usize)
    ensures
        count_in(s.push(p), x) == count_in(s, x) + if p == x {
            1nat
        } else {
            0
        },
{
    assert(s.push(p).drop_last() =~= s);
}

/// Adding the edge parent -> child raises the dependent count of `parent`
/// by one and changes no other node's, prefix by prefix.
proof fn lemma_child_cnt_upto_push(
    g1: Seq<TaskV>,
    g2: Seq<TaskV>,
    child: int,
    parent: usize,
    x: usize,
    j: int,
)
    requires
        0 <= child < g1.len(),
        g2.len() == g1.len(),
        forall|i: int| 0 <= i < g1.len() && i != child ==> (#[trigger] g2[i]).deps == g1[i].deps,
        g2[child].deps == g1[child].deps.push(parent),
    ensures
        child_cnt_upto(g2, x, j) == child_cnt_upto(g1, x, j) + if child < j && x == parent {
            1int
        } else {
            0
        },
    decreases j,
{
    if j > 0 {
        lemma_child_cnt_upto_push(g1, g2, child, parent, x, j - 1);
        if j - 1 < g1.len() {
            if j - 1 == child {
                lemma_count_in_push(g1[child].deps, parent, x);
            } else {
                assert(g2[j - 1].deps == g1[j - 1].deps);
            }
        }
    }
}

/// As [`lemma_child_cnt_upto_push`], for the whole graph.
proof fn lemma_child_cnt_push(g1: Seq<TaskV>, g2: Seq<TaskV>, child: int, parent: usize, x: usize)
    requires
        0 <= child < g1.len(),
        g2.len() == g1.len(),
        forall|i: int| 0 <= i < g1.len() && i != child ==> (#[trigger] g2[i]).deps == g1[i].deps,
        g2[child].deps == g1[child].deps.push(parent),
    ensures
        spec_child_cnt(g2, x) == spec_child_cnt(g1, x) + if x == parent {
            1int
        } else {
            0
        },
{
    lemma_child_cnt_upto_push(g1, g2, child, parent, x, g1.len() as int);
}

/// In a graph whose only edges are the seed chain, node `x` has one
/// dependent when its chain successor exists and none otherwise.
proof fn lemma_chain_child_cnt_upto(g: Seq<TaskV>, cp: u32, x: usize, j: int)
    requires
        2 <= cp <= g.len(),
        g[0].deps.len() == 0,
        forall|i: int|
            1 <= i < cp ==> (#[trigger] g[i]).deps.len() == 1 && g[i].deps[0] == (i - 1) as usize,
        forall|i: int| cp <= i < g.len() ==> (#[trigger] g[i]).deps.len() == 0,
        j <= g.len(),
    ensures
        child_cnt_upto(g, x, j) == if 1 <= (x as int) + 1 < cp && (x as int) + 1 < j {
            1int
        } else {
            0
        },
    decreases j,
{
    if j > 0 {
        lemma_chain_child_cnt_upto(g, cp, x, j - 1);
        if 1 <= j - 1 < cp {
            assert(g[j - 1].deps.drop_last().len() == 0);
            assert(count_in(g[j - 1].deps.drop_last(), x) == 0);
            assert(g[j - 1].deps.last() == (j - 2) as usize);
            assert(count_in(g[j - 1].deps, x) == if (j - 2) as usize == x {
                1nat
            } else {
                0
            });
        } else if 0 <= j - 1 < g.len() {
            assert(count_in(g[j - 1].deps, x) == 0);
        }
    }
}

/// The shape every synthesized graph has: at least `cp` nodes, a full level
/// assignment under `cp`, the seed chain in place, and every edge climbing
/// strictly in level.
pub open spec fn structure_ok(g: Seq<TaskV>, lm: Seq<u32>, cp: u32) -> bool {
    &&& 2 <= cp <= g.len()
    &&& lm.len() == g.len()
    &&& valid_deps(g)
    &&& levels_wf(lm, cp)
    &&& seed_levels(lm, cp)
    &&& chain_seeded(g, cp)
    &&& edges_respect_levels(g, lm)
}

/// Every instance count lies in `[1, max_inst]`.
pub open spec fn inst_counts_ok(g: Seq<TaskV>, max_inst: u64) -> bool {
    forall|i: int| 0 <= i < g.len() ==> 1 <= (#[trigger] g[i]).instance_cnt <= max_inst
}

/// No node of the last level is left without a dependency.
pub open spec fn last_level_connected(g: Seq<TaskV>, lm: Seq<u32>, cp: u32) -> bool {
    forall|i: int|
        0 <= i < g.len() && (#[trigger] lm[i]) == cp - 1 ==> g[i].deps.len() > 0
}

/// No node above level zero is left without a dependency.
pub open spec fn all_levels_connected(g: Seq<TaskV>, lm: Seq<u32>) -> bool {
    forall|i: int| 0 <= i < g.len() && (#[trigger] lm[i]) >= 1 ==> g[i].deps.len() > 0
}

/// Copies a vector of node ids element by element.
pub(crate) fn copy_usizes(v: &Vec<usize>) -> (r: Vec<usize>)
    ensures
        r@ == v@,
{
    let mut r: Vec<usize> = Vec::new();
    let n = v.len();
    for i in 0..n
        invariant
            n == v@.len(),
            r@ == v@.take(i as int),
    {
        r.push(v[i]);
        assert(r@ =~= v@.take(i + 1));
    }
    assert(r@ =~= v@);
    r
}

/// The per-level node buckets used while wiring edges: every listed id is a
/// node of level `L`, and the seed node of each level is listed first.
pub open spec fn buckets_ok(bl: Seq<Vec<usize>>, lm: Seq<u32>, n: int, cp: u32) -> bool {
    &&& bl.len() == cp
    &&& forall|l: int, t: int|
        0 <= l < bl.len() && 0 <= t < bl[l]@.len() ==> (#[trigger] bl[l]@[t]) < n
            && lm[bl[l]@[t] as int] == l
    &&& forall|l: int| 0 <= l < bl.len() ==> (#[trigger] bl[l]@).len() >= 1 && bl[l]@[0] == l
}

/// Every node stands in the bucket of its level.
pub open spec fn buckets_complete(bl: Seq<Vec<usize>>, lm: Seq<u32>, n: int) -> bool {
    forall|i: int| 0 <= i < n ==> bl[(#[trigger] lm[i]) as int]@.contains(i as usize)
}

/// One synthesized graph together with its level assignment and the
/// critical-path length it was grown for.
pub struct GeneratedDag {
    pub dag: TaskDag,
    pub levels: Vec<u32>,
    pub cp: u32,
}

/// Everything `generate_one` promises of a successfully generated graph.
pub open spec fn generated_ok(gd: GeneratedDag, cfg: GenConfig) -> bool {
    &&& cfg.min_cp <= gd.cp < cfg.max_cp
    &&& structure_ok(gd.dag@, gd.levels@, gd.cp)
    &&& inst_counts_ok(gd.dag@, cfg.max_inst_cnt)
    &&& (cfg.strategy == Strategy::Other ==> last_level_connected(gd.dag@, gd.levels@, gd.cp))
    &&& (cfg.strategy == Strategy::Other && cfg.fix_isolated_intermediate ==> all_levels_connected(
        gd.dag@,
        gd.levels@,
    ))
    &&& (cfg.strategy == Strategy::Incr ==> all_levels_connected(gd.dag@, gd.levels@))
    &&& edges_step_one_level(gd.dag@, gd.levels@)
    &&& seeds_chain_only(gd.dag@, gd.cp)
    &&& (cfg.strategy == Strategy::Incr ==> (forall|i: int|
        1 <= i < gd.dag@.len() ==> (#[trigger] gd.dag@[i]).deps.len() == 1) && (forall|i: int|
        gd.cp <= i < gd.levels@.len() ==> (#[trigger] gd.levels@[i]) >= 1))
    &&& (cfg.strategy == Strategy::Decr ==> (forall|x: int|
        0 <= x < gd.dag@.len() ==> #[trigger] spec_child_cnt(gd.dag@, x as usize) <= 1) && (
    forall|x: int|
        gd.cp <= x < gd.dag@.len() ==> #[trigger] spec_child_cnt(gd.dag@, x as usize) == 1) && (
    forall|i: int|
        gd.cp <= i < gd.levels@.len() ==> (#[trigger] gd.levels@[i]) as int <= gd.cp - 2))
}

/// Level-parallel wiring: every non-seed node draws an independent level
/// from the level-assignment distribution, each level is wired forward to
/// the next one (edges step exactly one level; pairs of seed nodes are
/// skipped, their chain edge already standing), and any node of the last
/// level still without a dependency is given one parent of the level above
/// it.  No existing dependency is removed: each dependency list grows at
/// its end only.
#[allow(unused_variables)]
pub fn asign_edge_for_other(
    node_cnt: u32,
    cp: u32,
    part: u32,
    node_level: &mut Vec<u32>,
    level_gen: &LevelGenerator,
    result_dag: &mut TaskDag,
    rnd: &mut rand::rngs::StdRng,
    level_distr_gen: &StructStatistic,
    fix_isolated_intermediate: bool,
) -> (r: Result<(), SynthError>)
    requires
        2 <= cp,
        cp <= node_cnt,
        old(result_dag).wf(),
        old(result_dag)@.len() == node_cnt,
        old(node_level)@.len() == node_cnt,
        level_gen.wf(),
        level_distr_gen.wf(),
        lvl_samples(level_distr_gen@, cp, part).len() > 0,
        seeds_chain_only(old(result_dag)@, cp),
        forall|i: int| 1 <= i < cp ==> (#[trigger] old(result_dag)@[i]).deps.len() == 1,
        forall|i: int| cp <= i < node_cnt ==> (#[trigger] old(result_dag)@[i]).deps.len() == 0,
        seed_levels(old(node_level)@, cp),
        levels_wf(old(node_level)@, cp),
    ensures
        final(result_dag)@.len() == node_cnt,
        final(result_dag).wf(),
        final(node_level)@.len() == node_cnt,
        r is Ok ==> structure_ok(final(result_dag)@, final(node_level)@, cp)
            && edges_step_one_level(final(result_dag)@, final(node_level)@)
            && seeds_chain_only(final(result_dag)@, cp) && (forall|i: int|
            0 <= i < node_cnt ==> (#[trigger] old(result_dag)@[i].deps).is_prefix_of(
                final(result_dag)@[i].deps,
            )) && (forall|i: int|
            cp <= i < node_cnt ==> lvl_samples(level_distr_gen@, cp, part).contains(
                #[trigger] final(node_level)@[i],
            )) && last_level_connected(final(result_dag)@, final(node_level)@, cp) && (
        fix_isolated_intermediate ==> all_levels_connected(
            final(result_dag)@,
            final(node_level)@,
        )),
        r is Err ==> r == Err::<(), SynthError>(SynthError::DistributionExhausted)
            && !gen_has_any(level_gen@, cp, StatKind::Childs),
{
    let n = node_cnt as usize;
    let cpu = cp as usize;
    let ghost g0 = result_dag@;
    let mut by_level: Vec<Vec<usize>> = Vec::new();
    for l in 0..cpu
        invariant
            by_level@.len() == l,
            forall|l2: int| 0 <= l2 < l ==> (#[trigger] by_level@[l2]@).len() == 0,
    {
        by_level.push(Vec::new());
    }
    // Assign levels: seeds keep their own, the rest draw from the store.
    for i in 0..n
        invariant
            n == node_cnt,
            cpu == cp,
            2 <= cp <= node_cnt,
            node_level@.len() == n,
            by_level@.len() == cpu,
            level_distr_gen.wf(),
            lvl_samples(level_distr_gen@, cp, part).len() > 0,
            seed_levels(node_level@, cp),
            levels_wf(node_level@, cp),
            forall|i2: int|
                cpu <= i2 < i ==> lvl_samples(level_distr_gen@, cp, part).contains(
                    #[trigger] node_level@[i2],
                ),
            forall|l: int, t: int|
                0 <= l < by_level@.len() && 0 <= t < by_level@[l]@.len() ==> (
                #[trigger] by_level@[l]@[t]) < i && node_level@[by_level@[l]@[t] as int] == l,
            forall|l: int|
                0 <= l < cpu ==> if l < i {
                    (#[trigger] by_level@[l]@).len() >= 1 && by_level@[l]@[0] == l
                } else {
                    by_level@[l]@.len() == 0
                },
            forall|i2: int|
                0 <= i2 < i ==> by_level@[(#[trigger] node_level@[i2]) as int]@.contains(
                    i2 as usize,
                ),
            result_dag@ == old(result_dag)@,
    {
        let lv: u32 = if i < cpu {
            i as u32
        } else {
            let drawn = level_distr_gen.gen_level(rnd, cp, part);
            drawn.unwrap()
        };
        node_level.set(i, lv);
        let ghost pre_bl = by_level@;
        let mut row = copy_usizes(&by_level[lv as usize]);
        row.push(i);
        by_level.set(lv as usize, row);
        proof {
            assert forall|i2: int|
                0 <= i2 < i + 1 implies by_level@[(#[trigger] node_level@[i2]) as int]@.contains(
                i2 as usize,
            ) by {
                if i2 < i {
                    let l2 = node_level@[i2] as int;
                    if l2 == lv as int {
                        let old_row = pre_bl[l2]@;
                        assert(by_level@[l2]@ == old_row.push(i as usize));
                        let t = choose|t: int| 0 <= t < old_row.len() && old_row[t] == i2 as usize;
                        assert(by_level@[l2]@[t] == i2 as usize);
                    }
                } else {
                    assert(by_level@[lv as int]@.last() == i as usize);
                }
            }
        }
    }
    let ghost lm = node_level@;
    proof {
        assert forall|i: int, k: int|
            0 <= i < result_dag@.len() && 0 <= k < result_dag@[i].deps.len() implies lm[
        #[trigger] result_dag@[i].deps[k] as int] as int + 1 == lm[i] as int by {
            if i >= cp {
                assert(result_dag@[i].deps.len() == 0);
            } else {
                assert(result_dag@[i].deps.len() == 1);
                assert(result_dag@[i].deps[k] == (i - 1) as usize);
                assert(lm[i] == i);
                assert(lm[i - 1] == i - 1);
            }
        }
        assert forall|i: int| 0 <= i < result_dag@.len() implies (
        #[trigger] g0[i].deps).is_prefix_of(result_dag@[i].deps) by {
            assert(g0[i].deps =~= result_dag@[i].deps.subrange(0, g0[i].deps.len() as int));
        }
        assert(growth_inv(g0, result_dag@, lm, cp));
    }
    // Wire each level to the next one.
    for level in 0..(cpu - 1)
        invariant
            n == node_cnt,
            cpu == cp,
            2 <= cp <= node_cnt,
            node_level@ == lm,
            node_level@.len() == n,
            level_gen.wf(),
            seed_levels(lm, cp),
            levels_wf(lm, cp),
            buckets_ok(by_level@, lm, n as int, cp),
            buckets_complete(by_level@, lm, n as int),
            result_dag@.len() == n,
            g0.len() == n,
            growth_inv(g0, result_dag@, lm, cp),
    {
        let width = by_level[level].len();
        for t in 0..width
            invariant
                n == node_cnt,
                cpu == cp,
                2 <= cp <= node_cnt,
                level < cpu - 1,
                node_level@ == lm,
                node_level@.len() == n,
                level_gen.wf(),
                seed_levels(lm, cp),
                levels_wf(lm, cp),
                width == by_level@[level as int]@.len(),
                buckets_ok(by_level@, lm, n as int, cp),
                buckets_complete(by_level@, lm, n as int),
                result_dag@.len() == n,
                g0.len() == n,
                growth_inv(g0, result_dag@, lm, cp),
        {
            let node = by_level[level][t];
            let sampled = match level_gen.get_statistic(
                rnd,
                cp,
                part,
                level as u32,
                StatKind::Childs,
            ) {
                Ok(v) => v,
                Err(e) => {
                    return Err(SynthError::DistributionExhausted);
                },
            };
            let child_cnt: usize = if sampled < 1 {
                1
            } else {
                if sampled as usize > n {
                    n
                } else {
                    sampled as usize
                }
            };
            let mut next_level = copy_usizes(&by_level[level + 1]);
            shuffle_indices(rnd, &mut next_level);
            proof {
                assert forall|t2: int|
                    0 <= t2 < next_level@.len() implies (#[trigger] next_level@[t2]) < n && lm[
                    next_level@[t2] as int] == level + 1 by {
                    let x = next_level@[t2];
                    assert(next_level@.to_multiset().contains(x)) by {
                        next_level@.to_multiset_ensures();
                    }
                    assert(by_level@[level + 1]@.to_multiset().contains(x));
                    assert(by_level@[level + 1]@.contains(x)) by {
                        by_level@[level + 1]@.to_multiset_ensures();
                    }
                }
            }
            let limit = if next_level.len() < child_cnt {
                next_level.len()
            } else {
                child_cnt
            };
            for ci in 0..limit
                invariant
                    n == node_cnt,
                    cpu == cp,
                    2 <= cp <= node_cnt,
                    level < cpu - 1,
                    node < n,
                    lm[node as int] == level,
                    node_level@ == lm,
                    node_level@.len() == n,
                    seed_levels(lm, cp),
                    limit <= next_level@.len(),
                    forall|t2: int|
                        0 <= t2 < next_level@.len() ==> (#[trigger] next_level@[t2]) < n && lm[
                            next_level@[t2] as int] == level + 1,
                    result_dag@.len() == n,
                    g0.len() == n,
                    growth_inv(g0, result_dag@, lm, cp),
            {
                let child = next_level[ci];
                if !(node < cpu && child < cpu) {
                    proof {
                        if child == 0 {
                            assert(lm[0int] == 0);
                        }
                    }
                    add_edge_checked(result_dag, Ghost(g0), Ghost(lm), Ghost(cp), child, node);
                }
            }
        }
    }
    // Any last-level node still without a dependency gets one parent of the
    // level above.
    connect_isolated(
        node_cnt,
        cp,
        cp - 1,
        node_level,
        &by_level,
        result_dag,
        rnd,
        Ghost(g0),
    );
    if fix_isolated_intermediate {
        let mut lvl: usize = 1;
        while lvl < cpu - 1
            invariant
                n == node_cnt,
                cpu == cp,
                2 <= cp <= node_cnt,
                1 <= lvl <= cpu - 1,
                node_level@ == lm,
                node_level@.len() == n,
                seed_levels(lm, cp),
                levels_wf(lm, cp),
                buckets_ok(by_level@, lm, n as int, cp),
                buckets_complete(by_level@, lm, n as int),
                result_dag@.len() == n,
                g0.len() == n,
                growth_inv(g0, result_dag@, lm, cp),
                forall|i: int|
                    0 <= i < n && (cp - 1 == #[trigger] lm[i] || (1 <= lm[i] < lvl))
                        ==> result_dag@[i].deps.len() > 0,
            decreases cpu - 1 - lvl,
        {
            connect_isolated(
                node_cnt,
                cp,
                lvl as u32,
                node_level,
                &by_level,
                result_dag,
                rnd,
                Ghost(g0),
            );
            lvl = lvl + 1;
        }
        proof {
            assert forall|i: int|
                0 <= i < n && (#[trigger] lm[i]) >= 1 implies result_dag@[i].deps.len() > 0 by {
                assert(lm[i] < cp);
            }
        }
    }
    proof {
        lemma_growth_structure(g0, result_dag@, lm, cp);
    }
    Ok(())
}

/// The growth invariant entails the coarser structural statements: the
/// seed chain is wired and every edge climbs strictly in level.
proof fn lemma_growth_structure(g0: Seq<TaskV>, g: Seq<TaskV>, lm: Seq<u32>, cp: u32)
    requires
        1 <= cp <= g.len(),
        growth_inv(g0, g, lm, cp),
    ensures
        chain_seeded(g, cp),
        edges_respect_levels(g, lm),
{
    assert forall|i: int| 1 <= i < cp implies (#[trigger] g[i]).deps.contains(
        (i - 1) as usize,
    ) by {
        assert(g[i].deps[0] == (i - 1) as usize);
    }
    assert forall|i: int, k: int|
        0 <= i < g.len() && 0 <= k < g[i].deps.len() implies lm[#[trigger] g[i].deps[k] as int]
        < lm[i] by {
        assert(lm[g[i].deps[k] as int] as int + 1 == lm[i] as int);
    }
}

/// Gives every node of level `lvl` that still has no dependency one parent
/// drawn uniformly from the level above.  Nodes of other levels are
/// untouched, nodes of `lvl` (or of levels already repaired) that had a
/// dependency keep it, and no dependency list shrinks.
fn connect_isolated(
    node_cnt: u32,
    cp: u32,
    lvl: u32,
    node_level: &mut Vec<u32>,
    by_level: &Vec<Vec<usize>>,
    result_dag: &mut TaskDag,
    rnd: &mut rand::rngs::StdRng,
    Ghost(g0): Ghost<Seq<TaskV>>,
)
    requires
        2 <= cp,
        cp <= node_cnt,
        1 <= lvl < cp,
        old(node_level)@.len() == node_cnt,
        seed_levels(old(node_level)@, cp),
        levels_wf(old(node_level)@, cp),
        buckets_ok(by_level@, old(node_level)@, node_cnt as int, cp),
        buckets_complete(by_level@, old(node_level)@, node_cnt as int),
        old(result_dag)@.len() == node_cnt,
        g0.len() == node_cnt,
        growth_inv(g0, old(result_dag)@, old(node_level)@, cp),
    ensures
        final(node_level)@ == old(node_level)@,
        final(result_dag)@.len() == node_cnt,
        growth_inv(g0, final(result_dag)@, old(node_level)@, cp),
        forall|i: int|
            0 <= i < node_cnt && (#[trigger] old(node_level)@[i]) == lvl
                ==> final(result_dag)@[i].deps.len() > 0,
        forall|i: int|
            0 <= i < node_cnt && old(result_dag)@[i].deps.len() > 0
                ==> (#[trigger] final(result_dag)@[i]).deps.len() > 0,
{
    let ghost lm = node_level@;
    let n = node_cnt as usize;
    let width = by_level[lvl as usize].len();
    for t in 0..width
        invariant
            n == node_cnt,
            2 <= cp <= node_cnt,
            1 <= lvl < cp,
            node_level@ == lm,
            lm.len() == n,
            seed_levels(lm, cp),
            levels_wf(lm, cp),
            buckets_ok(by_level@, lm, n as int, cp),
            buckets_complete(by_level@, lm, n as int),
            width == by_level@[lvl as int]@.len(),
            result_dag@.len() == n,
            g0.len() == n,
            growth_inv(g0, result_dag@, lm, cp),
            forall|t2: int|
                0 <= t2 < t ==> result_dag@[by_level@[lvl as int]@[t2] as int].deps.len() > 0,
            forall|i: int|
                0 <= i < n && old(result_dag)@[i].deps.len() > 0 ==> (
                #[trigger] result_dag@[i]).deps.len() > 0,
    {
        let node = by_level[lvl as usize][t];
        if result_dag.dep_count(node) == 0 {
            proof {
                if node < cp {
                    assert(lm[node as int] == node);
                    assert(result_dag@[node as int].deps.len() >= 1);
                }
            }
            let above = (lvl - 1) as usize;
            let w = by_level[above].len();
            let pi = gen_index(rnd, w);
            let parent = by_level[above][pi];
            add_edge_checked(result_dag, Ghost(g0), Ghost(lm), Ghost(cp), node, parent);
        }
        proof {
            assert forall|t2: int|
                0 <= t2 < t + 1 implies result_dag@[by_level@[lvl as int]@[t2] as int].deps.len()
                > 0 by {}
        }
    }
    proof {
        assert forall|i: int|
            0 <= i < node_cnt && (#[trigger] lm[i]) == lvl implies result_dag@[i].deps.len()
            > 0 by {
            assert(by_level@[lm[i] as int]@.contains(i as usize));
            let t = choose|t: int|
                0 <= t < by_level@[lvl as int]@.len() && by_level@[lvl as int]@[t] == i as usize;
            assert(result_dag@[by_level@[lvl as int]@[t] as int].deps.len() > 0);
        }
    }
}

/// Adds the edge parent -> child while carrying the growth invariants:
/// the seed chain stays wired and gains only non-seed dependencies, every
/// edge still joins levels exactly one apart, and existing dependency
/// lists only grow at their end.
fn add_edge_checked(
    dag: &mut TaskDag,
    Ghost(g0): Ghost<Seq<TaskV>>,
    Ghost(lm): Ghost<Seq<u32>>,
    Ghost(cp): Ghost<u32>,
    child: usize,
    parent: usize,
)
    requires
        1 <= child < old(dag)@.len(),
        parent < old(dag)@.len(),
        1 <= cp <= old(dag)@.len(),
        lm.len() == old(dag)@.len(),
        lm[parent as int] as int + 1 == lm[child as int] as int,
        child < cp ==> parent >= cp,
        growth_inv(g0, old(dag)@, lm, cp),
    ensures
        final(dag)@.len() == old(dag)@.len(),
        growth_inv(g0, final(dag)@, lm, cp),
        final(dag)@[child as int].deps == old(dag)@[child as int].deps.push(parent),
        forall|i: int|
            0 <= i < old(dag)@.len() && i != child ==> final(dag)@[i] == old(dag)@[i],
{
    let ghost pre = dag@;
    dag.add_task_edge(child, parent);
    proof {
        assert(dag@[0int].deps == pre[0int].deps);
        assert forall|i: int|
            1 <= i < cp implies (#[trigger] dag@[i]).deps.len() >= 1 && dag@[i].deps[0] == (i
            - 1) as usize by {
            if i == child {
                assert(dag@[i].deps[0] == pre[i].deps[0]);
            } else {
                assert(dag@[i] == pre[i]);
            }
        }
        assert forall|i: int, k: int|
            1 <= i < cp && 1 <= k < dag@[i].deps.len() implies (#[trigger] dag@[i].deps[k])
            >= cp by {
            if i == child && k == pre[i].deps.len() {
                assert(dag@[i].deps[k] == parent);
            } else if i == child {
                assert(dag@[i].deps[k] == pre[i].deps[k]);
            } else {
                assert(dag@[i] == pre[i]);
            }
        }
        assert forall|i: int, k: int|
            0 <= i < dag@.len() && 0 <= k < dag@[i].deps.len() implies lm[
        #[trigger] dag@[i].deps[k] as int] as int + 1 == lm[i] as int by {
            if i == child && k == pre[i].deps.len() {
                assert(dag@[i].deps[k] == parent);
            } else if i == child {
                assert(dag@[i].deps[k] == pre[i].deps[k]);
            } else {
                assert(dag@[i] == pre[i]);
            }
        }
        assert forall|i: int| 0 <= i < dag@.len() implies (#[trigger] g0[i].deps).is_prefix_of(
            dag@[i].deps,
        ) by {
            if i == child {
                lemma_prefix_push(g0[i].deps, pre[i].deps, parent);
            } else {
                assert(dag@[i] == pre[i]);
            }
        }
    }
}

/// On entry to a strategy the only edges are the seed chain, each stepping
/// one level, and every dependency list is trivially a prefix of itself.
proof fn lemma_initial_growth(g: Seq<TaskV>, lm: Seq<u32>, cp: u32, n: int)
    requires
        2 <= cp <= n,
        g.len() == n,
        lm.len() == n,
        seeds_chain_only(g, cp),
        forall|i: int| 1 <= i < cp ==> (#[trigger] g[i]).deps.len() == 1,
        forall|i: int| cp <= i < n ==> (#[trigger] g[i]).deps.len() == 0,
        seed_levels(lm, cp),
    ensures
        growth_inv(g, g, lm, cp),
{
    assert forall|i: int, k: int|
        0 <= i < g.len() && 0 <= k < g[i].deps.len() implies lm[#[trigger] g[i].deps[k] as int]
        as int + 1 == lm[i] as int by {
        if i >= cp {
            assert(g[i].deps.len() == 0);
        } else {
            assert(g[i].deps.len() == 1);
            assert(g[i].deps[k] == (i - 1) as usize);
            assert(lm[i] == i);
            assert(lm[i - 1] == i - 1);
        }
    }
    assert forall|i: int, k: int|
        0 <= i < g.len() && 0 <= k < g[i].deps.len() implies (#[trigger] g[i].deps[k])
        < g.len() by {
        if i < cp {
            assert(g[i].deps[k] == (i - 1) as usize);
        } else {
            assert(g[i].deps.len() == 0);
        }
    }
    assert forall|i: int| 0 <= i < g.len() implies (#[trigger] g[i].deps).is_prefix_of(
        g[i].deps,
    ) by {
        assert(g[i].deps =~= g[i].deps.subrange(0, g[i].deps.len() as int));
    }
}

/// Forward growth: breadth-first from the chain's earliest node.  Each
/// dequeued node draws a child count from the fan-out distribution of its
/// level (one less for seed-chain nodes, whose chain successor is already
/// wired) and attaches that many fresh nodes one level below it; nodes left
/// over when the frontier empties become dependents of a random node of the
/// level above their drawn level.
#[allow(unused_variables)]
pub fn asign_edge_for_incr(
    node_cnt: u32,
    cp: u32,
    part: u32,
    node_level: &mut Vec<u32>,
    level_gen: &LevelGenerator,
    result_dag: &mut TaskDag,
    rnd: &mut rand::rngs::StdRng,
    level_distr_gen: &StructStatistic,
) -> (r: Result<(), SynthError>)
    requires
        2 <= cp,
        cp <= node_cnt,
        old(result_dag).wf(),
        old(result_dag)@.len() == node_cnt,
        old(node_level)@.len() == node_cnt,
        level_gen.wf(),
        level_distr_gen.wf(),
        lvl_samples(level_distr_gen@, cp, part).len() > 0,
        seeds_chain_only(old(result_dag)@, cp),
        forall|i: int| 1 <= i < cp ==> (#[trigger] old(result_dag)@[i]).deps.len() == 1,
        forall|i: int| cp <= i < node_cnt ==> (#[trigger] old(result_dag)@[i]).deps.len() == 0,
        seed_levels(old(node_level)@, cp),
        levels_wf(old(node_level)@, cp),
    ensures
        final(result_dag)@.len() == node_cnt,
        final(result_dag).wf(),
        final(node_level)@.len() == node_cnt,
        r is Ok ==> structure_ok(final(result_dag)@, final(node_level)@, cp)
            && edges_step_one_level(final(result_dag)@, final(node_level)@)
            && seeds_chain_only(final(result_dag)@, cp) && (forall|i: int|
            0 <= i < node_cnt ==> (#[trigger] old(result_dag)@[i].deps).is_prefix_of(
                final(result_dag)@[i].deps,
            )) && (forall|i: int|
            1 <= i < node_cnt ==> (#[trigger] final(result_dag)@[i]).deps.len() == 1) && (
        forall|i: int| cp <= i < node_cnt ==> (#[trigger] final(node_level)@[i]) >= 1),
        r is Err ==> r == Err::<(), SynthError>(SynthError::DistributionExhausted)
            && !gen_has_any(level_gen@, cp, StatKind::Childs),
{
    let n = node_cnt as usize;
    let cpu = cp as usize;
    let ghost g0 = result_dag@;
    let mut by_level: Vec<Vec<usize>> = Vec::new();
    for l in 0..cpu
        invariant
            l <= cpu,
            by_level@.len() == l,
            forall|l2: int|
                0 <= l2 < l ==> (#[trigger] by_level@[l2]@).len() == 1 && by_level@[l2]@[0] == l2,
    {
        let mut row: Vec<usize> = Vec::new();
        row.push(l);
        by_level.push(row);
    }
    proof {
        lemma_initial_growth(g0, node_level@, cp, n as int);
    }
    let mut frontier = queue_new();
    queue_add(&mut frontier, 0);
    let mut free: usize = n - cpu;
    let mut last_level: u32 = 0;
    let mut last_node_ind: usize = cpu;
    loop
        invariant
            n == node_cnt,
            cpu == cp,
            2 <= cp <= node_cnt,
            level_gen.wf(),
            node_level@.len() == n,
            seed_levels(node_level@, cp),
            levels_wf(node_level@, cp),
            by_level@.len() == cpu,
            buckets_ok(by_level@, node_level@, n as int, cp),
            forall|l: int, t: int|
                0 <= l < by_level@.len() && 0 <= t < by_level@[l]@.len() ==> (
                #[trigger] by_level@[l]@[t]) < last_node_ind,
            result_dag@.len() == n,
            g0.len() == n,
            growth_inv(g0, result_dag@, node_level@, cp),
            forall|i: int| 1 <= i < last_node_ind ==> (#[trigger] result_dag@[i]).deps.len() == 1,
            forall|i: int| cp <= i < last_node_ind ==> (#[trigger] node_level@[i]) >= 1,
            cpu <= last_node_ind <= n,
            free == n - last_node_ind,
            last_level < cp,
            forall|qi: int|
                0 <= qi < queue_view(frontier).len() ==> (#[trigger] queue_view(frontier)[qi])
                    < last_node_ind,
            forall|i: int|
                last_node_ind <= i < n ==> (#[trigger] result_dag@[i]).deps.len() == 0,
            forall|i: int, k: int|
                0 <= i < n && 0 <= k < result_dag@[i].deps.len() ==> (
                #[trigger] result_dag@[i].deps[k]) < last_node_ind,
        decreases 2 * free + (cp - 1 - last_level) + queue_view(frontier).len(),
    {
        let popped = queue_remove(&mut frontier);
        match popped {
            None => {
                break ;
            },
            Some(cur) => {
                let node_lv = node_level[cur];
                let qs = queue_size(&frontier);
                if (node_lv != last_level || qs == 0) && last_level + 1 < cp {
                    last_level = last_level + 1;
                    queue_add(&mut frontier, last_level as usize);
                }
                let sampled = match level_gen.get_statistic(
                    rnd,
                    cp,
                    part,
                    node_lv,
                    StatKind::Childs,
                ) {
                    Ok(v) => v,
                    Err(e) => {
                        return Err(SynthError::DistributionExhausted);
                    },
                };
                let mut child_cnt: usize = sampled as usize;
                if cur < cpu && child_cnt > 0 {
                    child_cnt = child_cnt - 1;
                }
                if node_lv + 1 >= cp {
                    child_cnt = 0;
                }
                let mut ci: usize = 0;
                let ghost m0 = 2 * free + queue_view(frontier).len();
                while ci < child_cnt
                    invariant
                        2 * free + queue_view(frontier).len() <= m0,
                        n == node_cnt,
                        cpu == cp,
                        2 <= cp <= node_cnt,
                        cur < last_node_ind,
                        node_level@[cur as int] == node_lv,
                        child_cnt > 0 ==> node_lv + 1 < cp,
                        node_level@.len() == n,
                        seed_levels(node_level@, cp),
                        levels_wf(node_level@, cp),
                        by_level@.len() == cpu,
                        buckets_ok(by_level@, node_level@, n as int, cp),
                        forall|l: int, t: int|
                            0 <= l < by_level@.len() && 0 <= t < by_level@[l]@.len() ==> (
                            #[trigger] by_level@[l]@[t]) < last_node_ind,
                        result_dag@.len() == n,
                        g0.len() == n,
                        growth_inv(g0, result_dag@, node_level@, cp),
                        forall|i: int|
                            1 <= i < last_node_ind ==> (#[trigger] result_dag@[i]).deps.len() == 1,
                        forall|i: int|
                            cp <= i < last_node_ind ==> (#[trigger] node_level@[i]) >= 1,
                        cpu <= last_node_ind <= n,
                        free == n - last_node_ind,
                        forall|qi: int|
                            0 <= qi < queue_view(frontier).len() ==> (#[trigger] queue_view(
                                frontier,
                            )[qi]) < last_node_ind,
                        forall|i: int|
                            last_node_ind <= i < n ==> (#[trigger] result_dag@[i]).deps.len()
                                == 0,
                        forall|i: int, k: int|
                            0 <= i < n && 0 <= k < result_dag@[i].deps.len() ==> (
                            #[trigger] result_dag@[i].deps[k]) < last_node_ind,
                    decreases child_cnt - ci,
                {
                    if free == 0 {
                        break ;
                    } else {
                        let child = last_node_ind;
                        let ghost pre_lm = node_level@;
                        node_level.set(child, node_lv + 1);
                        proof {
                            assert forall|i: int, k: int|
                                0 <= i < n && 0 <= k < result_dag@[i].deps.len() implies
                                node_level@[#[trigger] result_dag@[i].deps[k] as int] as int + 1
                                == node_level@[i] as int by {
                                assert(result_dag@[i].deps[k] < last_node_ind);
                                if i >= last_node_ind {
                                    assert(result_dag@[i].deps.len() == 0);
                                }
                                assert(pre_lm[result_dag@[i].deps[k] as int] as int + 1 == pre_lm[
                                    i] as int);
                            }
                            assert forall|l: int, t: int|
                                0 <= l < by_level@.len() && 0 <= t < by_level@[l]@.len() implies (
                            #[trigger] by_level@[l]@[t]) < n && node_level@[by_level@[l]@[t] as int] == l by {
                                assert(by_level@[l]@[t] < last_node_ind);
                            }
                        }
                        let ghost pre_bl = by_level@;
                        let mut row = copy_usizes(&by_level[(node_lv + 1) as usize]);
                        row.push(child);
                        by_level.set((node_lv + 1) as usize, row);
                        add_edge_checked(
                            result_dag,
                            Ghost(g0),
                            Ghost(node_level@),
                            Ghost(cp),
                            child,
                            cur,
                        );
                        queue_add(&mut frontier, child);
                        last_node_ind = last_node_ind + 1;
                        free = free - 1;
                        ci = ci + 1;
                    }
                }
                if free == 0 {
                    break ;
                }
            },
        }
    }
    while last_node_ind < n
        invariant
            n == node_cnt,
            cpu == cp,
            2 <= cp <= node_cnt,
            level_distr_gen.wf(),
            lvl_samples(level_distr_gen@, cp, part).len() > 0,
            node_level@.len() == n,
            seed_levels(node_level@, cp),
            levels_wf(node_level@, cp),
            by_level@.len() == cpu,
            buckets_ok(by_level@, node_level@, n as int, cp),
            forall|l: int, t: int|
                0 <= l < by_level@.len() && 0 <= t < by_level@[l]@.len() ==> (
                #[trigger] by_level@[l]@[t]) < last_node_ind,
            result_dag@.len() == n,
            g0.len() == n,
            growth_inv(g0, result_dag@, node_level@, cp),
            forall|i: int| 1 <= i < last_node_ind ==> (#[trigger] result_dag@[i]).deps.len() == 1,
            forall|i: int| cp <= i < last_node_ind ==> (#[trigger] node_level@[i]) >= 1,
            cpu <= last_node_ind <= n,
            forall|i: int|
                last_node_ind <= i < n ==> (#[trigger] result_dag@[i]).deps.len() == 0,
            forall|i: int, k: int|
                0 <= i < n && 0 <= k < result_dag@[i].deps.len() ==> (
                #[trigger] result_dag@[i].deps[k]) < last_node_ind,
        decreases n - last_node_ind,
    {
        let drawn = level_distr_gen.gen_level(rnd, cp, part).unwrap();
        let lv: u32 = if drawn < 1 {
            1
        } else {
            drawn
        };
        let straggler = last_node_ind;
        let ghost pre_lm = node_level@;
        node_level.set(straggler, lv);
        proof {
            assert forall|i: int, k: int|
                0 <= i < n && 0 <= k < result_dag@[i].deps.len() implies node_level@[
            #[trigger] result_dag@[i].deps[k] as int] as int + 1 == node_level@[i] as int by {
                assert(result_dag@[i].deps[k] < last_node_ind);
                if i >= last_node_ind {
                    assert(result_dag@[i].deps.len() == 0);
                }
                assert(pre_lm[result_dag@[i].deps[k] as int] as int + 1 == pre_lm[i] as int);
            }
            assert forall|l: int, t: int|
                0 <= l < by_level@.len() && 0 <= t < by_level@[l]@.len() implies (
            #[trigger] by_level@[l]@[t]) < n && node_level@[by_level@[l]@[t] as int] == l by {
                assert(by_level@[l]@[t] < last_node_ind);
            }
        }
        let above = (lv - 1) as usize;
        let w = by_level[above].len();
        let pi = gen_index(rnd, w);
        let parent = by_level[above][pi];
        add_edge_checked(result_dag, Ghost(g0), Ghost(node_level@), Ghost(cp), straggler, parent);
        last_node_ind = last_node_ind + 1;
    }
    proof {
        lemma_growth_structure(g0, result_dag@, node_level@, cp);
    }
    Ok(())
}

/// Backward growth: the mirror image.  Breadth-first from the chain's
/// latest node, each dequeued node draws a parent count from the fan-in
/// distribution of its level and attaches that many fresh nodes one level
/// above it; leftover nodes each get one random dependent of the level
/// below their drawn level.
#[allow(unused_variables)]
pub fn asign_edge_for_decr(
    node_cnt: u32,
    cp: u32,
    part: u32,
    node_level: &mut Vec<u32>,
    level_gen: &LevelGenerator,
    result_dag: &mut TaskDag,
    rnd: &mut rand::rngs::StdRng,
    level_distr_gen: &StructStatistic,
) -> (r: Result<(), SynthError>)
    requires
        2 <= cp,
        cp <= node_cnt,
        old(result_dag).wf(),
        old(result_dag)@.len() == node_cnt,
        old(node_level)@.len() == node_cnt,
        level_gen.wf(),
        level_distr_gen.wf(),
        lvl_samples(level_distr_gen@, cp, part).len() > 0,
        seeds_chain_only(old(result_dag)@, cp),
        forall|i: int| 1 <= i < cp ==> (#[trigger] old(result_dag)@[i]).deps.len() == 1,
        forall|i: int| cp <= i < node_cnt ==> (#[trigger] old(result_dag)@[i]).deps.len() == 0,
        seed_levels(old(node_level)@, cp),
        levels_wf(old(node_level)@, cp),
    ensures
        final(result_dag)@.len() == node_cnt,
        final(result_dag).wf(),
        final(node_level)@.len() == node_cnt,
        r is Ok ==> structure_ok(final(result_dag)@, final(node_level)@, cp)
            && edges_step_one_level(final(result_dag)@, final(node_level)@)
            && seeds_chain_only(final(result_dag)@, cp) && (forall|i: int|
            0 <= i < node_cnt ==> (#[trigger] old(result_dag)@[i].deps).is_prefix_of(
                final(result_dag)@[i].deps,
            )) && crate::classify::is_reverse_tree(final(result_dag)@) && (forall|x: int|
            cp <= x < node_cnt ==> #[trigger] spec_child_cnt(final(result_dag)@, x as usize)
                == 1) && (forall|i: int|
            cp <= i < node_cnt ==> (#[trigger] final(node_level)@[i]) as int <= cp - 2),
        r is Err ==> r == Err::<(), SynthError>(SynthError::DistributionExhausted)
            && !gen_has_any(level_gen@, cp, StatKind::Deps),
{
    let n = node_cnt as usize;
    let cpu = cp as usize;
    let ghost g0 = result_dag@;
    let mut by_level: Vec<Vec<usize>> = Vec::new();
    for l in 0..cpu
        invariant
            l <= cpu,
            by_level@.len() == l,
            forall|l2: int|
                0 <= l2 < l ==> (#[trigger] by_level@[l2]@).len() == 1 && by_level@[l2]@[0] == l2,
    {
        let mut row: Vec<usize> = Vec::new();
        row.push(l);
        by_level.push(row);
    }
    proof {
        lemma_initial_growth(g0, node_level@, cp, n as int);
        assert forall|x: int| 0 <= x < n implies #[trigger] spec_child_cnt(
            result_dag@,
            x as usize,
        ) as int == (if x + 1 < cp {
            1int
        } else {
            0
        }) by {
            lemma_chain_child_cnt_upto(result_dag@, cp, x as usize, n as int);
        }
    }
    let mut frontier = queue_new();
    queue_add(&mut frontier, cpu - 1);
    let mut free: usize = n - cpu;
    let mut last_level: u32 = cp - 1;
    let mut last_node_ind: usize = cpu;
    loop
        invariant
            n == node_cnt,
            cpu == cp,
            2 <= cp <= node_cnt,
            level_gen.wf(),
            node_level@.len() == n,
            seed_levels(node_level@, cp),
            levels_wf(node_level@, cp),
            by_level@.len() == cpu,
            buckets_ok(by_level@, node_level@, n as int, cp),
            forall|l: int, t: int|
                0 <= l < by_level@.len() && 0 <= t < by_level@[l]@.len() ==> (
                #[trigger] by_level@[l]@[t]) < last_node_ind,
            result_dag@.len() == n,
            g0.len() == n,
            growth_inv(g0, result_dag@, node_level@, cp),
            forall|x: int|
                0 <= x < n ==> #[trigger] spec_child_cnt(result_dag@, x as usize) as int == (
                if x + 1 < cp {
                    1int
                } else if cp <= x < last_node_ind {
                    1int
                } else {
                    0
                }),
            forall|i: int|
                cp <= i < last_node_ind ==> (#[trigger] node_level@[i]) as int <= cp - 2,
            cpu <= last_node_ind <= n,
            free == n - last_node_ind,
            last_level < cp,
            forall|qi: int|
                0 <= qi < queue_view(frontier).len() ==> (#[trigger] queue_view(frontier)[qi])
                    < last_node_ind,
            forall|i: int|
                last_node_ind <= i < n ==> (#[trigger] result_dag@[i]).deps.len() == 0,
            forall|i: int, k: int|
                0 <= i < n && 0 <= k < result_dag@[i].deps.len() ==> (
                #[trigger] result_dag@[i].deps[k]) < last_node_ind,
        decreases 2 * free + last_level + queue_view(frontier).len(),
    {
        let popped = queue_remove(&mut frontier);
        match popped {
            None => {
                break ;
            },
            Some(cur) => {
                let node_lv = node_level[cur];
                let qs = queue_size(&frontier);
                if (node_lv != last_level || qs == 0) && last_level > 0 {
                    last_level = last_level - 1;
                    queue_add(&mut frontier, last_level as usize);
                }
                let sampled = match level_gen.get_statistic(
                    rnd,
                    cp,
                    part,
                    node_lv,
                    StatKind::Deps,
                ) {
                    Ok(v) => v,
                    Err(e) => {
                        return Err(SynthError::DistributionExhausted);
                    },
                };
                let mut parent_cnt: usize = sampled as usize;
                if cur < cpu && parent_cnt > 0 {
                    parent_cnt = parent_cnt - 1;
                }
                if node_lv == 0 {
                    parent_cnt = 0;
                }
                let mut ci: usize = 0;
                let ghost m0 = 2 * free + queue_view(frontier).len();
                while ci < parent_cnt
                    invariant
                        2 * free + queue_view(frontier).len() <= m0,
                        n == node_cnt,
                        cpu == cp,
                        2 <= cp <= node_cnt,
                        cur < last_node_ind,
                        node_level@[cur as int] == node_lv,
                        parent_cnt > 0 ==> node_lv >= 1,
                        node_level@.len() == n,
                        seed_levels(node_level@, cp),
                        levels_wf(node_level@, cp),
                        by_level@.len() == cpu,
                        buckets_ok(by_level@, node_level@, n as int, cp),
                        forall|l: int, t: int|
                            0 <= l < by_level@.len() && 0 <= t < by_level@[l]@.len() ==> (
                            #[trigger] by_level@[l]@[t]) < last_node_ind,
                        result_dag@.len() == n,
                        g0.len() == n,
                        growth_inv(g0, result_dag@, node_level@, cp),
                        forall|x: int|
                            0 <= x < n ==> #[trigger] spec_child_cnt(result_dag@, x as usize)
                                as int == (if x + 1 < cp {
                                1int
                            } else if cp <= x < last_node_ind {
                                1int
                            } else {
                                0
                            }),
                        forall|i: int|
                            cp <= i < last_node_ind ==> (#[trigger] node_level@[i]) as int <= cp
                                - 2,
                        cpu <= last_node_ind <= n,
                        free == n - last_node_ind,
                        forall|qi: int|
                            0 <= qi < queue_view(frontier).len() ==> (#[trigger] queue_view(
                                frontier,
                            )[qi]) < last_node_ind,
                        forall|i: int|
                            last_node_ind <= i < n ==> (#[trigger] result_dag@[i]).deps.len()
                                == 0,
                        forall|i: int, k: int|
                            0 <= i < n && 0 <= k < result_dag@[i].deps.len() ==> (
                            #[trigger] result_dag@[i].deps[k]) < last_node_ind,
                    decreases parent_cnt - ci,
                {
                    if free == 0 {
                        break ;
                    } else {
                        let parent = last_node_ind;
                        let ghost pre_lm = node_level@;
                        node_level.set(parent, node_lv - 1);
                        proof {
                            assert forall|i: int, k: int|
                                0 <= i < n && 0 <= k < result_dag@[i].deps.len() implies
                                node_level@[#[trigger] result_dag@[i].deps[k] as int] as int + 1
                                == node_level@[i] as int by {
                                assert(result_dag@[i].deps[k] < last_node_ind);
                                if i >= last_node_ind {
                                    assert(result_dag@[i].deps.len() == 0);
                                }
                                assert(pre_lm[result_dag@[i].deps[k] as int] as int + 1 == pre_lm[
                                    i] as int);
                            }
                            assert forall|l: int, t: int|
                                0 <= l < by_level@.len() && 0 <= t < by_level@[l]@.len() implies (
                            #[trigger] by_level@[l]@[t]) < n && node_level@[by_level@[l]@[t] as int] == l by {
                                assert(by_level@[l]@[t] < last_node_ind);
                            }
                        }
                        let mut row = copy_usizes(&by_level[(node_lv - 1) as usize]);
                        row.push(parent);
                        by_level.set((node_lv - 1) as usize, row);
                        let ghost pre_g = result_dag@;
                        add_edge_checked(
                            result_dag,
                            Ghost(g0),
                            Ghost(node_level@),
                            Ghost(cp),
                            cur,
                            parent,
                        );
                        proof {
                            assert forall|x: int|
                                0 <= x < n implies #[trigger] spec_child_cnt(
                                result_dag@,
                                x as usize,
                            ) as int == (if x + 1 < cp {
                                1int
                            } else if cp <= x < last_node_ind + 1 {
                                1int
                            } else {
                                0
                            }) by {
                                lemma_child_cnt_push(
                                    pre_g,
                                    result_dag@,
                                    cur as int,
                                    parent,
                                    x as usize,
                                );
                            }
                        }
                        queue_add(&mut frontier, parent);
                        last_node_ind = last_node_ind + 1;
                        free = free - 1;
                        ci = ci + 1;
                    }
                }
                if free == 0 {
                    break ;
                }
            },
        }
    }
    while last_node_ind < n
        invariant
            n == node_cnt,
            cpu == cp,
            2 <= cp <= node_cnt,
            level_distr_gen.wf(),
            lvl_samples(level_distr_gen@, cp, part).len() > 0,
            node_level@.len() == n,
            seed_levels(node_level@, cp),
            levels_wf(node_level@, cp),
            by_level@.len() == cpu,
            buckets_ok(by_level@, node_level@, n as int, cp),
            forall|l: int, t: int|
                0 <= l < by_level@.len() && 0 <= t < by_level@[l]@.len() ==> (
                #[trigger] by_level@[l]@[t]) < last_node_ind,
            result_dag@.len() == n,
            g0.len() == n,
            growth_inv(g0, result_dag@, node_level@, cp),
            forall|x: int|
                0 <= x < n ==> #[trigger] spec_child_cnt(result_dag@, x as usize) as int == (
                if x + 1 < cp {
                    1int
                } else if cp <= x < last_node_ind {
                    1int
                } else {
                    0
                }),
            forall|i: int|
                cp <= i < last_node_ind ==> (#[trigger] node_level@[i]) as int <= cp - 2,
            cpu <= last_node_ind <= n,
            forall|i: int|
                last_node_ind <= i < n ==> (#[trigger] result_dag@[i]).deps.len() == 0,
            forall|i: int, k: int|
                0 <= i < n && 0 <= k < result_dag@[i].deps.len() ==> (
                #[trigger] result_dag@[i].deps[k]) < last_node_ind,
        decreases n - last_node_ind,
    {
        let drawn = level_distr_gen.gen_level(rnd, cp, part).unwrap();
        let lv: u32 = if drawn > cp - 2 {
            cp - 2
        } else {
            drawn
        };
        let straggler = last_node_ind;
        let ghost pre_lm = node_level@;
        node_level.set(straggler, lv);
        proof {
            assert forall|i: int, k: int|
                0 <= i < n && 0 <= k < result_dag@[i].deps.len() implies node_level@[
            #[trigger] result_dag@[i].deps[k] as int] as int + 1 == node_level@[i] as int by {
                assert(result_dag@[i].deps[k] < last_node_ind);
                if i >= last_node_ind {
                    assert(result_dag@[i].deps.len() == 0);
                }
                assert(pre_lm[result_dag@[i].deps[k] as int] as int + 1 == pre_lm[i] as int);
            }
            assert forall|l: int, t: int|
                0 <= l < by_level@.len() && 0 <= t < by_level@[l]@.len() implies (
            #[trigger] by_level@[l]@[t]) < n && node_level@[by_level@[l]@[t] as int] == l by {
                assert(by_level@[l]@[t] < last_node_ind);
            }
        }
        let below = (lv + 1) as usize;
        let w = by_level[below].len();
        let pi = gen_index(rnd, w);
        let child = by_level[below][pi];
        let ghost pre_g = result_dag@;
        add_edge_checked(result_dag, Ghost(g0), Ghost(node_level@), Ghost(cp), child, straggler);
        proof {
            assert forall|x: int|
                0 <= x < n implies #[trigger] spec_child_cnt(result_dag@, x as usize) as int == (
                if x + 1 < cp {
                1int
            } else if cp <= x < last_node_ind + 1 {
                1int
            } else {
                0
            }) by {
                lemma_child_cnt_push(pre_g, result_dag@, child as int, straggler, x as usize);
            }
        }
        last_node_ind = last_node_ind + 1;
    }
    proof {
        lemma_growth_structure(g0, result_dag@, node_level@, cp);
        assert forall|x: int| 0 <= x < n implies #[trigger] spec_child_cnt(
            result_dag@,
            x as usize,
        ) <= 1 by {}
    }
    Ok(())
}

} // verus!

verus! {

/// The stores hold every distribution one generation run for `cp` can ask
/// for: a node count under `cp`, level data for `cp`, and, for each metric
/// the active strategy and the cost assignment sample, at least one
/// observation under `(cp, kind)` at some bucket.  Since every query falls
/// back to the nearest populated bucket, generation for `cp` then cannot
/// exhaust a distribution.
pub open spec fn generation_supported(
    cps: Seq<CpEntryV>,
    lvls: Seq<LevelEntryV>,
    gens: Seq<GenEntryV>,
    strategy: Strategy,
    cp: u32,
) -> bool {
    &&& cp_samples(cps, cp).len() > 0
    &&& lvl_has_cp(lvls, cp)
    &&& (strategy == Strategy::Decr ==> gen_has_any(gens, cp, StatKind::Deps))
    &&& (strategy != Strategy::Decr ==> gen_has_any(gens, cp, StatKind::Childs))
    &&& gen_has_any(gens, cp, StatKind::InstInit)
    &&& gen_has_any(gens, cp, StatKind::InstPerc)
    &&& gen_has_any(gens, cp, StatKind::Time)
}

/// The clamp applied to every assigned instance count.
pub open spec fn clamp_inst(v: int, max_inst: u64) -> int {
    if v < 1 {
        1
    } else if v > max_inst {
        max_inst as int
    } else {
        v
    }
}

/// The instance-count rule for a node with dependencies: the summed
/// instance counts of its dependencies, times a drawn percentage, divided
/// by ten thousand times the dependency count, rounded up.
pub open spec fn ratio_rule(sum: int, dlen: int, ratio: int) -> int {
    (sum * ratio + dlen * 10000 - 1) / (dlen * 10000)
}

/// What cost assignment promises of node `i`: its cost is an observation
/// of the duration metric for `cp`; its instance count follows the initial
/// distribution when the node has no dependencies, and the ratio rule over
/// a drawn percentage otherwise; both clamped to `[1, max_inst]`.
pub open spec fn cost_rule_ok(
    g: Seq<TaskV>,
    i: int,
    cp: u32,
    gens: Seq<GenEntryV>,
    max_inst: u64,
) -> bool {
    &&& g[i].flops <= u32::MAX
    &&& stat_observed(gens, cp, StatKind::Time, g[i].flops as u32)
    &&& if g[i].deps.len() == 0 {
        exists|sv: u32|
            stat_observed(gens, cp, StatKind::InstInit, sv) && g[i].instance_cnt as int
                == clamp_inst(sv as int, max_inst)
    } else {
        exists|rv: u32|
            stat_observed(gens, cp, StatKind::InstPerc, rv) && g[i].instance_cnt as int
                == clamp_inst(
                ratio_rule(dep_inst_total(g, g[i].deps), g[i].deps.len() as int, rv as int),
                max_inst,
            )
    }
}

/// Every node's cost and instance count came from the stores by the cost
/// rules.
pub open spec fn costs_sampled(gd: GeneratedDag, gens: Seq<GenEntryV>, max_inst: u64) -> bool {
    forall|i: int|
        0 <= i < gd.dag@.len() ==> #[trigger] cost_rule_ok(gd.dag@, i, gd.cp, gens, max_inst)
}

/// Every non-seed level is one recorded under `cp` in the level store.
pub open spec fn levels_sampled(gd: GeneratedDag, lvls: Seq<LevelEntryV>) -> bool {
    forall|i: int|
        gd.cp <= i < gd.levels@.len() ==> lvl_observed(lvls, gd.cp, #[trigger] gd.levels@[i])
}

/// The dependency instance sum reads only the dependencies' counts.
proof fn lemma_dep_inst_total_congruent(g1: Seq<TaskV>, g2: Seq<TaskV>, ds: Seq<usize>)
    requires
        g2.len() == g1.len(),
        forall|k: int|
            0 <= k < ds.len() && (#[trigger] ds[k] as int) < g1.len() ==> g2[
                ds[k] as int].instance_cnt == g1[ds[k] as int].instance_cnt,
    ensures
        dep_inst_total(g2, ds) == dep_inst_total(g1, ds),
    decreases ds.len(),
{
    if ds.len() > 0 {
        assert forall|k: int|
            0 <= k < ds.drop_last().len() && (#[trigger] ds.drop_last()[k] as int) < g1.len()
            implies g2[ds.drop_last()[k] as int].instance_cnt == g1[
            ds.drop_last()[k] as int].instance_cnt by {
            assert(ds.drop_last()[k] == ds[k]);
        }
        lemma_dep_inst_total_congruent(g1, g2, ds.drop_last());
    }
}

/// The dependent count reads only the dependency lists.
proof fn lemma_child_cnt_deps_congruent(g1: Seq<TaskV>, g2: Seq<TaskV>, x: usize, j: int)
    requires
        g2.len() == g1.len(),
        forall|i: int| 0 <= i < g1.len() ==> (#[trigger] g2[i]).deps == g1[i].deps,
    ensures
        child_cnt_upto(g2, x, j) == child_cnt_upto(g1, x, j),
    decreases j,
{
    if j > 0 {
        lemma_child_cnt_deps_congruent(g1, g2, x, j - 1);
    }
}

/// A node's cost rule survives changes that touch neither the node nor its
/// dependencies' instance counts.
proof fn lemma_cost_rule_stable(
    g1: Seq<TaskV>,
    g2: Seq<TaskV>,
    i: int,
    cp: u32,
    gens: Seq<GenEntryV>,
    max_inst: u64,
)
    requires
        0 <= i < g1.len(),
        g2.len() == g1.len(),
        g2[i].deps == g1[i].deps,
        g2[i].instance_cnt == g1[i].instance_cnt,
        g2[i].flops == g1[i].flops,
        forall|k: int|
            0 <= k < g1[i].deps.len() && (#[trigger] g1[i].deps[k] as int) < g1.len() ==> g2[
                g1[i].deps[k] as int].instance_cnt == g1[g1[i].deps[k] as int].instance_cnt,
        cost_rule_ok(g1, i, cp, gens, max_inst),
    ensures
        cost_rule_ok(g2, i, cp, gens, max_inst),
{
    lemma_dep_inst_total_congruent(g1, g2, g1[i].deps);
    if g1[i].deps.len() == 0 {
        let sv = choose|sv: u32|
            stat_observed(gens, cp, StatKind::InstInit, sv) && g1[i].instance_cnt as int
                == clamp_inst(sv as int, max_inst);
        assert(stat_observed(gens, cp, StatKind::InstInit, sv) && g2[i].instance_cnt as int
            == clamp_inst(sv as int, max_inst));
    } else {
        let rv = choose|rv: u32|
            stat_observed(gens, cp, StatKind::InstPerc, rv) && g1[i].instance_cnt as int
                == clamp_inst(
                ratio_rule(dep_inst_total(g1, g1[i].deps), g1[i].deps.len() as int, rv as int),
                max_inst,
            );
        assert(stat_observed(gens, cp, StatKind::InstPerc, rv) && g2[i].instance_cnt as int
            == clamp_inst(
            ratio_rule(dep_inst_total(g2, g2[i].deps), g2[i].deps.len() as int, rv as int),
            max_inst,
        ));
    }
}

/// Grows one task graph for target critical-path length `cp`: draws a node
/// count for `cp`, snaps the size bucket, allocates the nodes, wires the
/// seed chain and the strategy's edges, and assigns instance counts and
/// cost per level in dependency order.  It errs exactly when some needed
/// distribution is exhausted; a returned graph carries the promised
/// structure, its node count is one observed for `cp`, and every instance
/// count lies in `[1, max_inst_cnt]`.
pub fn generate_one(
    cp_gen_ranges: &CpStatistic,
    level_distr_gen: &StructStatistic,
    level_gen: &LevelGenerator,
    cfg: &GenConfig,
    rnd: &mut rand::rngs::StdRng,
    cp: u32,
) -> (r: Result<GeneratedDag, SynthError>)
    requires
        cp_gen_ranges.wf(),
        level_distr_gen.wf(),
        level_gen.wf(),
        cfg.wf(),
        cfg.min_cp <= cp < cfg.max_cp,
    ensures
        r is Ok ==> generated_ok(r.unwrap(), *cfg) && r.unwrap().cp == cp && cp_samples(
            cp_gen_ranges@,
            cp,
        ).contains(r.unwrap().dag@.len() as u32) && costs_sampled(
            r.unwrap(),
            level_gen@,
            cfg.max_inst_cnt,
        ) && (cfg.strategy == Strategy::Other ==> levels_sampled(r.unwrap(), level_distr_gen@)),
        r is Err ==> r == Err::<GeneratedDag, SynthError>(SynthError::DistributionExhausted)
            && !generation_supported(
            cp_gen_ranges@,
            level_distr_gen@,
            level_gen@,
            cfg.strategy,
            cp,
        ),
{
    let node_cnt = match cp_gen_ranges.get_node_cnt(rnd, cp) {
        Some(v) => v,
        None => {
            return Err(SynthError::DistributionExhausted);
        },
    };
    let part0 = calc_part(node_cnt, cp);
    let part = match level_distr_gen.adjust_part(cp, part0) {
        Some(p) => p,
        None => {
            return Err(SynthError::DistributionExhausted);
        },
    };
    let n = node_cnt as usize;
    let cpu = cp as usize;
    let mut result_dag = TaskDag::new();
    result_dag.add_empty_nodes(n);
    let mut node_level: Vec<u32> = Vec::new();
    for i in 0..n
        invariant
            node_level@.len() == i,
            forall|j: int| 0 <= j < i ==> (#[trigger] node_level@[j]) == 0,
    {
        node_level.push(0);
    }
    for i in 0..cpu
        invariant
            cpu == cp,
            cpu <= n,
            node_level@.len() == n,
            forall|j: int| 0 <= j < i ==> (#[trigger] node_level@[j]) == j,
            forall|j: int| i <= j < n ==> (#[trigger] node_level@[j]) == 0,
    {
        node_level.set(i, i as u32);
    }
    let mut i: usize = 1;
    while i < cpu
        invariant
            2 <= cpu <= n,
            1 <= i <= cpu,
            result_dag@.len() == n,
            result_dag.wf(),
            forall|j: int| 1 <= j < i ==> (#[trigger] result_dag@[j]).deps == seq![(j - 1) as usize],
            forall|j: int|
                (j == 0 || i <= j < n) ==> (#[trigger] result_dag@[j]).deps.len() == 0,
        decreases cpu - i,
    {
        let ghost pre = result_dag@;
        result_dag.add_task_edge(i, i - 1);
        assert(result_dag@[i as int].deps =~= seq![(i - 1) as usize]);
        i = i + 1;
    }
    proof {
        assert forall|j: int|
            1 <= j < cp implies (#[trigger] result_dag@[j]).deps.len() == 1 && result_dag@[
            j].deps[0] == (j - 1) as usize by {
            assert(result_dag@[j].deps == seq![(j - 1) as usize]);
        }
        assert(seeds_chain_only(result_dag@, cp));
    }
    let strat_result = match cfg.strategy {
        Strategy::Other => asign_edge_for_other(
            node_cnt,
            cp,
            part,
            &mut node_level,
            level_gen,
            &mut result_dag,
            rnd,
            level_distr_gen,
            cfg.fix_isolated_intermediate,
        ),
        Strategy::Incr => asign_edge_for_incr(
            node_cnt,
            cp,
            part,
            &mut node_level,
            level_gen,
            &mut result_dag,
            rnd,
            level_distr_gen,
        ),
        Strategy::Decr => asign_edge_for_decr(
            node_cnt,
            cp,
            part,
            &mut node_level,
            level_gen,
            &mut result_dag,
            rnd,
            level_distr_gen,
        ),
    };
    match strat_result {
        Ok(u) => u,
        Err(e) => {
            return Err(SynthError::DistributionExhausted);
        },
    }
    let ghost base = result_dag@;
    let ghost lm = node_level@;
    let mut lv: u32 = 0;
    while lv < cp
        invariant
            n == node_cnt,
            cpu == cp,
            lv <= cp,
            cfg.wf(),
            level_gen.wf(),
            structure_ok(base, lm, cp),
            base.len() == n,
            lm.len() == n,
            node_level@ == lm,
            result_dag@.len() == n,
            forall|j: int| 0 <= j < n ==> (#[trigger] result_dag@[j]).deps == base[j].deps,
            forall|j: int|
                0 <= j < n && lm[j] < lv ==> 1 <= (#[trigger] result_dag@[j]).instance_cnt
                    <= cfg.max_inst_cnt,
            forall|j: int|
                0 <= j < n && lm[j] < lv ==> #[trigger] cost_rule_ok(
                    result_dag@,
                    j,
                    cp,
                    level_gen@,
                    cfg.max_inst_cnt,
                ),
        decreases cp - lv,
    {
        for i in 0..n
            invariant
                n == node_cnt,
                cpu == cp,
                lv < cp,
                cfg.wf(),
                level_gen.wf(),
                structure_ok(base, lm, cp),
                base.len() == n,
                lm.len() == n,
                node_level@ == lm,
                result_dag@.len() == n,
                forall|j: int| 0 <= j < n ==> (#[trigger] result_dag@[j]).deps == base[j].deps,
                forall|j: int|
                    0 <= j < n && (lm[j] < lv || (lm[j] == lv && j < i)) ==> 1 <= (
                    #[trigger] result_dag@[j]).instance_cnt <= cfg.max_inst_cnt,
                forall|j: int|
                    0 <= j < n && (lm[j] < lv || (lm[j] == lv && j < i)) ==> #[trigger] cost_rule_ok(
                        result_dag@,
                        j,
                        cp,
                        level_gen@,
                        cfg.max_inst_cnt,
                    ),
        {
            if node_level[i] == lv {
                let dcnt = result_dag.dep_count(i);
                let inst: u64;
                let ghost mut wit: u32 = 0;
                if dcnt > 0 {
                    let ratio = match level_gen.get_statistic(
                        rnd,
                        cp,
                        part,
                        lv,
                        StatKind::InstPerc,
                    ) {
                        Ok(v) => v,
                        Err(e) => {
                            return Err(SynthError::DistributionExhausted);
                        },
                    };
                    let mut sum: u128 = 0;
                    for k in 0..dcnt
                        invariant
                            n == node_cnt,
                            lv < cp,
                            i < n,
                            cfg.wf(),
                            structure_ok(base, lm, cp),
                            base.len() == n,
                            lm.len() == n,
                            node_level@ == lm,
                            lm[i as int] == lv,
                            result_dag@.len() == n,
                            dcnt == result_dag@[i as int].deps.len(),
                            forall|j: int|
                                0 <= j < n ==> (#[trigger] result_dag@[j]).deps == base[j].deps,
                            forall|j: int|
                                0 <= j < n && (lm[j] < lv || (lm[j] == lv && j < i)) ==> 1 <= (
                                #[trigger] result_dag@[j]).instance_cnt <= cfg.max_inst_cnt,
                            sum as int <= (k as int) * (cfg.max_inst_cnt as int),
                            sum as int == dep_inst_total(
                                result_dag@,
                                result_dag@[i as int].deps.take(k as int),
                            ),
                    {
                        let p = result_dag.dep_at(i, k);
                        proof {
                            assert(result_dag@[i as int].deps == base[i as int].deps);
                            assert(lm[base[i as int].deps[k as int] as int] < lm[i as int]);
                        }
                        let pv = result_dag.instance_cnt_of(p);
                        assert(1 <= pv <= cfg.max_inst_cnt);
                        assert((sum as int) + (pv as int) <= ((k as int) + 1) * (
                        cfg.max_inst_cnt as int)) by (nonlinear_arith)
                            requires
                                sum as int <= (k as int) * (cfg.max_inst_cnt as int),
                                pv as int <= cfg.max_inst_cnt as int,
                        ;
                        assert(((k as int) + 1) * (cfg.max_inst_cnt as int)
                            <= 0x1_0000_0000_0000_0000int * 0xFFFF_FFFFint) by (nonlinear_arith)
                            requires
                                0 <= (k as int) + 1 <= 0x1_0000_0000_0000_0000int,
                                0 <= cfg.max_inst_cnt as int <= 0xFFFF_FFFFint,
                        ;
                        sum = sum + (pv as u128);
                        proof {
                            assert(result_dag@[i as int].deps.take(k + 1).drop_last()
                                =~= result_dag@[i as int].deps.take(k as int));
                            assert(result_dag@[i as int].deps.take(k + 1).last() == result_dag@[
                                i as int].deps[k as int]);
                        }
                    }
                    proof {
                        assert(result_dag@[i as int].deps.take(dcnt as int) =~= result_dag@[
                            i as int].deps);
                    }
                    assert(sum as int <= 0x1_0000_0000_0000_0000int * 0xFFFF_FFFFint) by (
                    nonlinear_arith)
                        requires
                            sum as int <= (dcnt as int) * (cfg.max_inst_cnt as int),
                            0 <= dcnt as int <= 0x1_0000_0000_0000_0000int,
                            0 <= cfg.max_inst_cnt as int <= 0xFFFF_FFFFint,
                    ;
                    assert(dcnt as int <= 0x1_0000_0000_0000_0000int);
                    assert((dcnt as int) * 10000int <= 0x1_0000_0000_0000_0000int * 10000int) by (
                    nonlinear_arith)
                        requires
                            0 <= dcnt as int <= 0x1_0000_0000_0000_0000int,
                    ;
                    let d128: u128 = (dcnt as u128) * 10000u128;
                    assert((sum as int) * (ratio as int) <= (0x1_0000_0000_0000_0000int
                        * 0xFFFF_FFFFint) * 0xFFFF_FFFFint) by (nonlinear_arith)
                        requires
                            0 <= sum as int <= 0x1_0000_0000_0000_0000int * 0xFFFF_FFFFint,
                            0 <= ratio as int <= 0xFFFF_FFFFint,
                    ;
                    let t128: u128 = sum * (ratio as u128);
                    assert(d128 >= 10000) by (nonlinear_arith)
                        requires
                            d128 == (dcnt as u128) * 10000u128,
                            dcnt >= 1,
                    ;
                    let q: u128 = (t128 + d128 - 1) / d128;
                    inst = if q < 1 {
                        1
                    } else if q > cfg.max_inst_cnt as u128 {
                        cfg.max_inst_cnt
                    } else {
                        q as u64
                    };
                    proof {
                        wit = ratio;
                        assert(q as int == ratio_rule(sum as int, dcnt as int, wit as int));
                        assert(inst as int == clamp_inst(
                            ratio_rule(
                                dep_inst_total(result_dag@, result_dag@[i as int].deps),
                                dcnt as int,
                                wit as int,
                            ),
                            cfg.max_inst_cnt,
                        ));
                    }
                } else {
                    let init = match level_gen.get_statistic(
                        rnd,
                        cp,
                        part,
                        lv,
                        StatKind::InstInit,
                    ) {
                        Ok(v) => v,
                        Err(e) => {
                            return Err(SynthError::DistributionExhausted);
                        },
                    };
                    let iv = init as u64;
                    inst = if iv < 1 {
                        1
                    } else if iv > cfg.max_inst_cnt {
                        cfg.max_inst_cnt
                    } else {
                        iv
                    };
                    proof {
                        wit = init;
                        assert(inst as int == clamp_inst(wit as int, cfg.max_inst_cnt));
                    }
                }
                let fl = match level_gen.get_statistic(rnd, cp, part, lv, StatKind::Time) {
                    Ok(v) => v,
                    Err(e) => {
                        return Err(SynthError::DistributionExhausted);
                    },
                };
                let ghost pre = result_dag@;
                result_dag.set_cost(i, inst, fl as u64);
                proof {
                    assert forall|j: int| 0 <= j < n implies (#[trigger] result_dag@[j]).deps
                        == base[j].deps by {
                        if j != i {
                            assert(result_dag@[j] == pre[j]);
                        }
                    }
                    assert forall|j: int|
                        0 <= j < n && (lm[j] < lv || (lm[j] == lv && j < i)) implies
                        #[trigger] cost_rule_ok(
                        result_dag@,
                        j,
                        cp,
                        level_gen@,
                        cfg.max_inst_cnt,
                    ) by {
                        assert(cost_rule_ok(pre, j, cp, level_gen@, cfg.max_inst_cnt));
                        assert(result_dag@[j] == pre[j]);
                        assert forall|k: int|
                            0 <= k < pre[j].deps.len() && (#[trigger] pre[j].deps[k] as int) < n
                            implies result_dag@[pre[j].deps[k] as int].instance_cnt == pre[pre[
                            j].deps[k] as int].instance_cnt by {
                            assert(pre[j].deps == base[j].deps);
                            assert(lm[base[j].deps[k] as int] < lm[j]);
                            assert(pre[j].deps[k] as int != i);
                        }
                        lemma_cost_rule_stable(pre, result_dag@, j, cp, level_gen@,
                            cfg.max_inst_cnt);
                    }
                    // The node assigned in this iteration obeys the rule too.
                    assert(result_dag@[i as int].flops == fl as u64);
                    assert(stat_observed(level_gen@, cp, StatKind::Time, fl));
                    if dcnt > 0 {
                        assert forall|k: int|
                            0 <= k < pre[i as int].deps.len() && (
                            #[trigger] pre[i as int].deps[k] as int) < n implies result_dag@[pre[
                            i as int].deps[k] as int].instance_cnt == pre[pre[
                            i as int].deps[k] as int].instance_cnt by {
                            assert(pre[i as int].deps == base[i as int].deps);
                            assert(lm[base[i as int].deps[k] as int] < lm[i as int]);
                            assert(pre[i as int].deps[k] as int != i);
                        }
                        lemma_dep_inst_total_congruent(pre, result_dag@, pre[i as int].deps);
                        assert(stat_observed(level_gen@, cp, StatKind::InstPerc, wit)
                            && result_dag@[i as int].instance_cnt as int == clamp_inst(
                            ratio_rule(
                                dep_inst_total(result_dag@, result_dag@[i as int].deps),
                                result_dag@[i as int].deps.len() as int,
                                wit as int,
                            ),
                            cfg.max_inst_cnt,
                        ));
                        assert(cost_rule_ok(result_dag@, i as int, cp, level_gen@,
                            cfg.max_inst_cnt));
                    } else {
                        assert(stat_observed(level_gen@, cp, StatKind::InstInit, wit)
                            && result_dag@[i as int].instance_cnt as int == clamp_inst(
                            wit as int,
                            cfg.max_inst_cnt,
                        ));
                        assert(cost_rule_ok(result_dag@, i as int, cp, level_gen@,
                            cfg.max_inst_cnt));
                    }
                }
            }
        }
        lv = lv + 1;
    }
    proof {
        assert forall|j: int| 0 <= j < n implies 1 <= (#[trigger] result_dag@[j]).instance_cnt
            <= cfg.max_inst_cnt by {
            assert(lm[j] < cp);
        }
        assert forall|j: int, k: int|
            0 <= j < n && 0 <= k < result_dag@[j].deps.len() implies (
        #[trigger] result_dag@[j].deps[k]) < n by {
            assert(result_dag@[j].deps == base[j].deps);
        }
        assert forall|j: int| 1 <= j < cp implies (#[trigger] result_dag@[j]).deps.contains(
            (j - 1) as usize,
        ) by {
            assert(result_dag@[j].deps == base[j].deps);
            assert(base[j].deps.contains((j - 1) as usize));
        }
        assert forall|j: int, k: int|
            0 <= j < n && 0 <= k < result_dag@[j].deps.len() implies lm[
        #[trigger] result_dag@[j].deps[k] as int] < lm[j] by {
            assert(result_dag@[j].deps == base[j].deps);
            assert(lm[base[j].deps[k] as int] < lm[j]);
        }
        assert forall|j: int, k: int|
            0 <= j < n && 0 <= k < result_dag@[j].deps.len() implies lm[
        #[trigger] result_dag@[j].deps[k] as int] as int + 1 == lm[j] as int by {
            assert(result_dag@[j].deps == base[j].deps);
            assert(lm[base[j].deps[k] as int] as int + 1 == lm[j] as int);
        }
        assert(result_dag@[0int].deps == base[0int].deps);
        assert forall|j: int|
            1 <= j < cp implies (#[trigger] result_dag@[j]).deps.len() >= 1 && result_dag@[
            j].deps[0] == (j - 1) as usize by {
            assert(result_dag@[j].deps == base[j].deps);
        }
        assert forall|j: int, k: int|
            1 <= j < cp && 1 <= k < result_dag@[j].deps.len() implies (
        #[trigger] result_dag@[j].deps[k]) >= cp by {
            assert(result_dag@[j].deps == base[j].deps);
            assert(base[j].deps[k] >= cp);
        }
        assert(seeds_chain_only(result_dag@, cp));
        assert forall|j: int| 0 <= j < n implies #[trigger] cost_rule_ok(
            result_dag@,
            j,
            cp,
            level_gen@,
            cfg.max_inst_cnt,
        ) by {
            assert(lm[j] < cp);
        }
        if cfg.strategy == Strategy::Incr {
            assert forall|j: int| 1 <= j < n implies (#[trigger] result_dag@[j]).deps.len()
                == 1 by {
                assert(result_dag@[j].deps == base[j].deps);
            }
            assert forall|j: int| 0 <= j < n && (#[trigger] lm[j]) >= 1 implies result_dag@[
                j].deps.len() > 0 by {
                assert(lm[0int] == 0);
            }
        }
        if cfg.strategy == Strategy::Decr {
            assert forall|j: int| 0 <= j < n implies (#[trigger] result_dag@[j]).deps == base[
                j].deps by {}
            assert forall|x: int| 0 <= x < n implies #[trigger] spec_child_cnt(
                result_dag@,
                x as usize,
            ) == spec_child_cnt(base, x as usize) by {
                lemma_child_cnt_deps_congruent(base, result_dag@, x as usize, n as int);
            }
        }
        if cfg.strategy == Strategy::Other {
            assert forall|j: int| cp <= j < n implies lvl_observed(
                level_distr_gen@,
                cp,
                #[trigger] lm[j],
            ) by {
                lemma_lvl_observed(level_distr_gen@, cp, part, lm[j]);
            }
        }
    }
    Ok(GeneratedDag { dag: result_dag, levels: node_level, cp })
}

/// Synthesizes up to `sample_cnt` graphs, drawing each target critical-path
/// length uniformly from `[min_cp, max_cp)`.  Generation stops early the
/// first time a distribution is exhausted; every returned graph carries the
/// full generation guarantees.
pub fn generate_batch(
    cp_gen_ranges: &CpStatistic,
    level_distr_gen: &StructStatistic,
    level_gen: &LevelGenerator,
    cfg: &GenConfig,
    rnd: &mut rand::rngs::StdRng,
) -> (r: Vec<GeneratedDag>)
    requires
        cp_gen_ranges.wf(),
        level_distr_gen.wf(),
        level_gen.wf(),
        cfg.wf(),
    ensures
        r@.len() <= cfg.sample_cnt,
        forall|t: int| 0 <= t < r@.len() ==> generated_ok(#[trigger] r@[t], *cfg),
        forall|t: int|
            0 <= t < r@.len() ==> costs_sampled(#[trigger] r@[t], level_gen@, cfg.max_inst_cnt),
        cfg.strategy == Strategy::Other ==> (forall|t: int|
            0 <= t < r@.len() ==> levels_sampled(#[trigger] r@[t], level_distr_gen@)),
        (forall|c: u32|
            cfg.min_cp <= c < cfg.max_cp ==> generation_supported(
                cp_gen_ranges@,
                level_distr_gen@,
                level_gen@,
                cfg.strategy,
                c,
            )) ==> r@.len() == cfg.sample_cnt,
{
    let mut out: Vec<GeneratedDag> = Vec::new();
    let sc = cfg.sample_cnt;
    for j in 0..sc
        invariant
            cp_gen_ranges.wf(),
            level_distr_gen.wf(),
            level_gen.wf(),
            cfg.wf(),
            sc == cfg.sample_cnt,
            out@.len() <= j,
            (forall|c: u32|
                cfg.min_cp <= c < cfg.max_cp ==> generation_supported(
                    cp_gen_ranges@,
                    level_distr_gen@,
                    level_gen@,
                    cfg.strategy,
                    c,
                )) ==> out@.len() == j,
            forall|t: int| 0 <= t < out@.len() ==> generated_ok(#[trigger] out@[t], *cfg),
            forall|t: int|
                0 <= t < out@.len() ==> costs_sampled(
                    #[trigger] out@[t],
                    level_gen@,
                    cfg.max_inst_cnt,
                ),
            cfg.strategy == Strategy::Other ==> (forall|t: int|
                0 <= t < out@.len() ==> levels_sampled(#[trigger] out@[t], level_distr_gen@)),
    {
        let span = (cfg.max_cp - cfg.min_cp) as usize;
        let cp = cfg.min_cp + gen_index(rnd, span) as u32;
        match generate_one(cp_gen_ranges, level_distr_gen, level_gen, cfg, rnd, cp) {
            Ok(gd) => {
                out.push(gd);
            },
            Err(e) => {
                return out;
            },
        }
    }
    out
}

} // verus!

verus! {

/// Along a dependency path the level climbs at every step, so the last
/// node's level is at least the path length minus one.
proof fn lemma_path_levels(g: Seq<TaskV>, lm: Seq<u32>, p: Seq<int>)
    requires
        valid_deps(g),
        g.len() <= usize::MAX,
        lm.len() == g.len(),
        edges_respect_levels(g, lm),
        crate::dag::is_path(g, p),
    ensures
        lm[p[p.len() - 1]] as int >= p.len() - 1,
    decreases p.len(),
{
    if p.len() >= 2 {
        let q = p.drop_last();
        assert forall|j: int| 1 <= j < q.len() implies g[#[trigger] q[j]].deps.contains(
            (q[j - 1]) as usize,
        ) by {
            assert(g[p[j]].deps.contains(p[j - 1] as usize));
        }
        assert(crate::dag::is_path(g, q));
        lemma_path_levels(g, lm, q);
        let last = p[p.len() - 1];
        let prev = p[p.len() - 2];
        assert(q[q.len() - 1] == prev);
        assert(g[last].deps.contains(prev as usize));
        let k = choose|k: int| 0 <= k < g[last].deps.len() && g[last].deps[k] == prev as usize;
        assert(lm[g[last].deps[k] as int] < lm[last]);
    }
}

/// The critical path of a synthesized graph is exactly its target `cp`:
/// the seed chain is a dependency path of `cp` nodes, and no dependency
/// path is longer, because levels climb along every edge and stay below
/// `cp`.
pub proof fn lemma_critical_path_exact(g: Seq<TaskV>, lm: Seq<u32>, cp: u32)
    requires
        structure_ok(g, lm, cp),
        g.len() <= usize::MAX,
    ensures
        crate::dag::is_path(g, Seq::new(cp as nat, |j: int| j)),
        Seq::new(cp as nat, |j: int| j).len() == cp,
        forall|p: Seq<int>| crate::dag::is_path(g, p) ==> p.len() <= cp,
{
    let chain = Seq::new(cp as nat, |j: int| j);
    assert forall|j: int| 1 <= j < chain.len() implies g[#[trigger] chain[j]].deps.contains(
        (chain[j - 1]) as usize,
    ) by {
        assert(g[j].deps.contains((j - 1) as usize));
    }
    assert(crate::dag::is_path(g, chain));
    assert forall|p: Seq<int>| crate::dag::is_path(g, p) implies p.len() <= cp by {
        lemma_path_levels(g, lm, p);
        assert(lm[p[p.len() - 1]] < cp);
    }
}

} // verus!
