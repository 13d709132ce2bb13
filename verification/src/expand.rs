//! The instance expander.
//!
//! A finished task graph is expanded into an instance-level graph: each
//! task becomes `instance_cnt` instance nodes, laid out contiguously in
//! task order, and every task dependency becomes an all-to-all
//! communication pattern between the two instance sets.  One communication
//! volume is shared by every instance edge, sized so that the aggregate
//! computation stands to the aggregate communication as the configured
//! computation/communication ratio; the expansion is fully deterministic.

use vstd::prelude::*;
use crate::dag::{TaskDag, TaskV};

verus! {

/// The id of the first instance of task `t`: instances are laid out in
/// task order.
pub open spec fn inst_offset(g: Seq<TaskV>, t: int) -> int
    decreases t,
{
    if t <= 0 {
        0
    } else {
        inst_offset(g, t - 1) + if t - 1 < g.len() {
            g[t - 1].instance_cnt as int
        } else {
            0
        }
    }
}

/// The instance ids `start .. start + cnt`.
pub open spec fn range_seq(start: int, cnt: int) -> Seq<usize> {
    Seq::new(if cnt >= 0 {
        cnt as nat
    } else {
        0
    }, |j: int| (start + j) as usize)
}

/// All instance ids of the tasks `ds` names, in dependency order.
pub open spec fn parent_insts(g: Seq<TaskV>, ds: Seq<usize>) -> Seq<usize>
    decreases ds.len(),
{
    if ds.len() == 0 {
        Seq::empty()
    } else {
        parent_insts(g, ds.drop_last()) + if (ds.last() as int) < g.len() {
            range_seq(inst_offset(g, ds.last() as int), g[ds.last() as int].instance_cnt as int)
        } else {
            Seq::empty()
        }
    }
}

/// The summed instance counts of the tasks `ds` names.
pub open spec fn dep_inst_total(g: Seq<TaskV>, ds: Seq<usize>) -> int
    decreases ds.len(),
{
    if ds.len() == 0 {
        0
    } else {
        dep_inst_total(g, ds.drop_last()) + if (ds.last() as int) < g.len() {
            g[ds.last() as int].instance_cnt as int
        } else {
            0
        }
    }
}

/// The aggregate computation of the first `t` tasks: instances times cost.
pub open spec fn total_comp(g: Seq<TaskV>, t: int) -> int
    decreases t,
{
    if t <= 0 {
        0
    } else {
        total_comp(g, t - 1) + if t - 1 < g.len() {
            (g[t - 1].instance_cnt as int) * (g[t - 1].flops as int)
        } else {
            0
        }
    }
}

/// The number of instance edges of the first `t` tasks: each task
/// contributes one edge per own instance per parent instance.
pub open spec fn edge_total(g: Seq<TaskV>, t: int) -> int
    decreases t,
{
    if t <= 0 {
        0
    } else {
        edge_total(g, t - 1) + if t - 1 < g.len() {
            (g[t - 1].instance_cnt as int) * dep_inst_total(g, g[t - 1].deps)
        } else {
            0
        }
    }
}

/// Offsets grow with the task index.
proof fn lemma_offset_mono(g: Seq<TaskV>, a: int, b: int)
    requires
        0 <= a <= b,
    ensures
        inst_offset(g, a) <= inst_offset(g, b),
    decreases b - a,
{
    if a < b {
        lemma_offset_mono(g, a, b - 1);
    }
}

/// One instance node: the task it came from, its computation, and the
/// instance ids it depends on.
pub struct InstNode {
    pub task: usize,
    pub comp: u64,
    pub deps: Vec<usize>,
}

/// The mathematical image of an [`InstNode`].
pub struct InstNodeV {
    pub task: usize,
    pub comp: u64,
    pub deps: Seq<usize>,
}

impl View for InstNode {
    type V = InstNodeV;

    open spec fn view(&self) -> InstNodeV {
        InstNodeV { task: self.task, comp: self.comp, deps: self.deps@ }
    }
}

/// An instance-level graph: one node per task instance, and the single
/// communication volume every instance edge carries.
pub struct InstanceDag {
    pub nodes: Vec<InstNode>,
    pub comm_volume: u128,
}

impl View for InstanceDag {
    type V = Seq<InstNodeV>;

    open spec fn view(&self) -> Seq<InstNodeV> {
        Seq::new(self.nodes@.len(), |i: int| self.nodes@[i]@)
    }
}

impl TaskDag {
    /// Expands the finished task graph into an instance graph under the
    /// computation/communication ratio `ccr`.  Instance
    /// `inst_offset(t) + k` of task `t` carries the task's cost and
    /// depends on every instance of every dependency of `t`; the shared
    /// communication volume spreads `total computation / ccr` evenly over
    /// all instance edges (zero when there are none).
    pub fn convert_to_inst_dag(&self, ccr: u64) -> (r: InstanceDag)
        requires
            self.wf(),
            ccr >= 1,
            self@.len() <= u32::MAX as usize,
            forall|i: int| 0 <= i < self@.len() ==> (#[trigger] self@[i]).instance_cnt <= u32::MAX
                as u64,
            forall|i: int| 0 <= i < self@.len() ==> (#[trigger] self@[i]).flops <= u32::MAX as u64,
            forall|i: int| 0 <= i < self@.len() ==> (#[trigger] self@[i]).deps.len() <= u32::MAX,
            inst_offset(self@, self@.len() as int) <= usize::MAX,
        ensures
            r@.len() == inst_offset(self@, self@.len() as int),
            forall|t: int, k: int|
                0 <= t < self@.len() && 0 <= k < self@[t].instance_cnt ==> {
                    let node = #[trigger] r@[inst_offset(self@, t) + k];
                    &&& node.task == t
                    &&& node.comp == self@[t].flops
                    &&& node.deps == parent_insts(self@, self@[t].deps)
                },
            r.comm_volume == if edge_total(self@, self@.len() as int) > 0 {
                ((total_comp(self@, self@.len() as int) / ccr as int) / edge_total(
                    self@,
                    self@.len() as int,
                ))
            } else {
                0
            },
    {
        let n = self.node_count();
        let ghost gv = self@;
        // Offsets of every task's first instance.
        let mut offs: Vec<usize> = Vec::new();
        offs.push(0);
        let mut t: usize = 0;
        while t < n
            invariant
                n == gv.len(),
                gv == self@,
                self.wf(),
                forall|i: int| 0 <= i < gv.len() ==> (#[trigger] gv[i]).instance_cnt <= u32::MAX
                    as u64,
                inst_offset(gv, gv.len() as int) <= usize::MAX,
                t <= n,
                offs@.len() == t + 1,
                forall|t2: int| 0 <= t2 <= t ==> (#[trigger] offs@[t2]) == inst_offset(gv, t2),
            decreases n - t,
        {
            let cur = offs[t];
            let ic = self.instance_cnt_of(t);
            proof {
                lemma_offset_mono(gv, t + 1, gv.len() as int);
            }
            offs.push(cur + ic as usize);
            t = t + 1;
        }
        // Aggregate computation and instance-edge count.
        let mut comp_sum: u128 = 0;
        let mut edges: u128 = 0;
        let mut t2: usize = 0;
        while t2 < n
            invariant
                n == gv.len(),
                gv == self@,
                self.wf(),
                n <= u32::MAX as usize,
                forall|i: int| 0 <= i < gv.len() ==> (#[trigger] gv[i]).instance_cnt <= u32::MAX
                    as u64,
                forall|i: int| 0 <= i < gv.len() ==> (#[trigger] gv[i]).flops <= u32::MAX as u64,
                forall|i: int| 0 <= i < gv.len() ==> (#[trigger] gv[i]).deps.len() <= u32::MAX,
                t2 <= n,
                comp_sum as int == total_comp(gv, t2 as int),
                comp_sum as int <= (t2 as int) * (0xFFFF_FFFFint * 0xFFFF_FFFFint),
                edges as int == edge_total(gv, t2 as int),
                edges as int <= (t2 as int) * (0xFFFF_FFFFint * (0xFFFF_FFFFint * 0xFFFF_FFFFint)),
            decreases n - t2,
        {
            let ic = self.instance_cnt_of(t2);
            let fl = self.flops_of(t2);
            assert((ic as int) * (fl as int) <= 0xFFFF_FFFFint * 0xFFFF_FFFFint) by (
            nonlinear_arith)
                requires
                    0 <= ic as int <= 0xFFFF_FFFFint,
                    0 <= fl as int <= 0xFFFF_FFFFint,
            ;
            assert((t2 as int + 1) * (0xFFFF_FFFFint * 0xFFFF_FFFFint) == (t2 as int) * (
            0xFFFF_FFFFint * 0xFFFF_FFFFint) + 0xFFFF_FFFFint * 0xFFFF_FFFFint) by (nonlinear_arith);
            assert((t2 as int) * (0xFFFF_FFFFint * 0xFFFF_FFFFint) <= 0xFFFF_FFFFint * (
            0xFFFF_FFFFint * 0xFFFF_FFFFint)) by (nonlinear_arith)
                requires
                    0 <= t2 as int <= 0xFFFF_FFFFint,
            ;
            comp_sum = comp_sum + (ic as u128) * (fl as u128);
            let dc = self.dep_count(t2);
            let mut psum: u64 = 0;
            let mut dk: usize = 0;
            while dk < dc
                invariant
                    n == gv.len(),
                    gv == self@,
                    self.wf(),
                    t2 < n,
                    dc == gv[t2 as int].deps.len(),
                    dc <= u32::MAX,
                    forall|i: int| 0 <= i < gv.len() ==> (#[trigger] gv[i]).instance_cnt
                        <= u32::MAX as u64,
                    dk <= dc,
                    psum as int == dep_inst_total(gv, gv[t2 as int].deps.take(dk as int)),
                    psum as int <= (dk as int) * 0xFFFF_FFFFint,
                decreases dc - dk,
            {
                let p = self.dep_at(t2, dk);
                let pic = self.instance_cnt_of(p);
                assert((dk as int + 1) * 0xFFFF_FFFFint == (dk as int) * 0xFFFF_FFFFint
                    + 0xFFFF_FFFFint) by (nonlinear_arith);
                assert((dk as int) * 0xFFFF_FFFFint <= 0xFFFF_FFFFint * 0xFFFF_FFFFint) by (
                nonlinear_arith)
                    requires
                        0 <= dk as int <= 0xFFFF_FFFFint,
                ;
                psum = psum + pic;
                proof {
                    assert(gv[t2 as int].deps.take(dk + 1).drop_last() =~= gv[t2 as int].deps.take(
                        dk as int,
                    ));
                    assert(gv[t2 as int].deps.take(dk + 1).last() == gv[t2 as int].deps[dk as int]);
                }
                dk = dk + 1;
            }
            proof {
                assert(gv[t2 as int].deps.take(dc as int) =~= gv[t2 as int].deps);
            }
            assert((ic as int) * (psum as int) <= 0xFFFF_FFFFint * (0xFFFF_FFFFint
                * 0xFFFF_FFFFint)) by (nonlinear_arith)
                requires
                    0 <= ic as int <= 0xFFFF_FFFFint,
                    0 <= psum as int <= 0xFFFF_FFFFint * 0xFFFF_FFFFint,
            ;
            assert((t2 as int + 1) * (0xFFFF_FFFFint * (0xFFFF_FFFFint * 0xFFFF_FFFFint)) == (
            t2 as int) * (0xFFFF_FFFFint * (0xFFFF_FFFFint * 0xFFFF_FFFFint)) + 0xFFFF_FFFFint * (
            0xFFFF_FFFFint * 0xFFFF_FFFFint)) by (nonlinear_arith);
            assert((t2 as int) * (0xFFFF_FFFFint * (0xFFFF_FFFFint * 0xFFFF_FFFFint))
                <= 0xFFFF_FFFFint * (0xFFFF_FFFFint * (0xFFFF_FFFFint * 0xFFFF_FFFFint))) by (
            nonlinear_arith)
                requires
                    0 <= t2 as int <= 0xFFFF_FFFFint,
            ;
            edges = edges + (ic as u128) * (psum as u128);
            t2 = t2 + 1;
        }
        let volume: u128 = if edges > 0 {
            (comp_sum / (ccr as u128)) / edges
        } else {
            0
        };
        // Build the instance nodes task by task.
        let mut nodes: Vec<InstNode> = Vec::new();
        let mut t3: usize = 0;
        while t3 < n
            invariant
                n == gv.len(),
                gv == self@,
                self.wf(),
                inst_offset(gv, gv.len() as int) <= usize::MAX,
                t3 <= n,
                offs@.len() == n + 1,
                forall|t2x: int| 0 <= t2x <= n ==> (#[trigger] offs@[t2x]) == inst_offset(gv, t2x),
                nodes@.len() == inst_offset(gv, t3 as int),
                forall|tx: int, kx: int|
                    0 <= tx < t3 && 0 <= kx < gv[tx].instance_cnt ==> {
                        let node = #[trigger] nodes@[inst_offset(gv, tx) + kx]@;
                        &&& node.task == tx
                        &&& node.comp == gv[tx].flops
                        &&& node.deps == parent_insts(gv, gv[tx].deps)
                    },
            decreases n - t3,
        {
            // The shared dependency list of all the instances of one node.
            let dc = self.dep_count(t3);
            let mut pdeps: Vec<usize> = Vec::new();
            let mut dk: usize = 0;
            while dk < dc
                invariant
                    n == gv.len(),
                    gv == self@,
                    self.wf(),
                    t3 < n,
                    dc == gv[t3 as int].deps.len(),
                    inst_offset(gv, gv.len() as int) <= usize::MAX,
                    offs@.len() == n + 1,
                    forall|t2x: int| 0 <= t2x <= n ==> (#[trigger] offs@[t2x]) == inst_offset(
                        gv,
                        t2x,
                    ),
                    pdeps@ == parent_insts(gv, gv[t3 as int].deps.take(dk as int)),
                    dk <= dc,
                decreases dc - dk,
            {
                let p = self.dep_at(t3, dk);
                let poff = offs[p];
                let pic = self.instance_cnt_of(p);
                proof {
                    assert(inst_offset(gv, p as int + 1) == inst_offset(gv, p as int) + gv[
                        p as int].instance_cnt);
                    lemma_offset_mono(gv, p as int + 1, gv.len() as int);
                }
                let mut j: usize = 0;
                while j < pic as usize
                    invariant
                        n == gv.len(),
                        gv == self@,
                        t3 < n,
                        p < n,
                        p == gv[t3 as int].deps[dk as int],
                        dk < dc,
                        dc == gv[t3 as int].deps.len(),
                        pic == gv[p as int].instance_cnt,
                        poff == inst_offset(gv, p as int),
                        inst_offset(gv, p as int) + pic <= usize::MAX,
                        j <= pic as usize,
                        pdeps@ == parent_insts(gv, gv[t3 as int].deps.take(dk as int)) + range_seq(
                            poff as int,
                            j as int,
                        ),
                    decreases pic as usize - j,
                {
                    pdeps.push(poff + j);
                    proof {
                        assert(range_seq(poff as int, j + 1) =~= range_seq(
                            poff as int,
                            j as int,
                        ).push((poff + j) as usize));
                        assert(pdeps@ =~= parent_insts(gv, gv[t3 as int].deps.take(dk as int))
                            + range_seq(poff as int, j + 1));
                    }
                    j = j + 1;
                }
                proof {
                    assert(gv[t3 as int].deps.take(dk + 1).drop_last() =~= gv[t3 as int].deps.take(
                        dk as int,
                    ));
                    assert(gv[t3 as int].deps.take(dk + 1).last() == gv[t3 as int].deps[dk as int]);
                    assert(pdeps@ =~= parent_insts(gv, gv[t3 as int].deps.take(dk + 1)));
                }
                dk = dk + 1;
            }
            proof {
                assert(gv[t3 as int].deps.take(dc as int) =~= gv[t3 as int].deps);
            }
            let ic = self.instance_cnt_of(t3);
            let fl = self.flops_of(t3);
            proof {
                lemma_offset_mono(gv, t3 + 1, gv.len() as int);
            }
            let mut k: usize = 0;
            while k < ic as usize
                invariant
                    n == gv.len(),
                    gv == self@,
                    self.wf(),
                    t3 < n,
                    ic == gv[t3 as int].instance_cnt,
                    fl == gv[t3 as int].flops,
                    inst_offset(gv, t3 as int) + ic <= usize::MAX,
                    pdeps@ == parent_insts(gv, gv[t3 as int].deps),
                    k <= ic as usize,
                    nodes@.len() == inst_offset(gv, t3 as int) + k,
                    forall|tx: int, kx: int|
                        0 <= tx < t3 && 0 <= kx < gv[tx].instance_cnt ==> {
                            let node = #[trigger] nodes@[inst_offset(gv, tx) + kx]@;
                            &&& node.task == tx
                            &&& node.comp == gv[tx].flops
                            &&& node.deps == parent_insts(gv, gv[tx].deps)
                        },
                    forall|kx: int|
                        0 <= kx < k ==> {
                            let node = #[trigger] nodes@[inst_offset(gv, t3 as int) + kx]@;
                            &&& node.task == t3
                            &&& node.comp == gv[t3 as int].flops
                            &&& node.deps == parent_insts(gv, gv[t3 as int].deps)
                        },
                decreases ic as usize - k,
            {
                let deps_copy = crate::synth::copy_usizes(&pdeps);
                let ghost pre_nodes = nodes@;
                nodes.push(InstNode { task: t3, comp: fl, deps: deps_copy });
                proof {
                    assert forall|tx: int, kx: int|
                        0 <= tx < t3 && 0 <= kx < gv[tx].instance_cnt implies {
                        let node = #[trigger] nodes@[inst_offset(gv, tx) + kx]@;
                        &&& node.task == tx
                        &&& node.comp == gv[tx].flops
                        &&& node.deps == parent_insts(gv, gv[tx].deps)
                    } by {
                        lemma_offset_mono(gv, 0, tx);
                        assert(inst_offset(gv, tx + 1) == inst_offset(gv, tx) + gv[
                            tx].instance_cnt);
                        lemma_offset_mono(gv, tx + 1, t3 as int);
                        assert(inst_offset(gv, tx) + kx < pre_nodes.len());
                        assert(nodes@[inst_offset(gv, tx) + kx] == pre_nodes[inst_offset(gv, tx)
                            + kx]);
                    }
                    assert forall|kx: int| 0 <= kx < k + 1 implies {
                        let node = #[trigger] nodes@[inst_offset(gv, t3 as int) + kx]@;
                        &&& node.task == t3
                        &&& node.comp == gv[t3 as int].flops
                        &&& node.deps == parent_insts(gv, gv[t3 as int].deps)
                    } by {
                        lemma_offset_mono(gv, 0, t3 as int);
                        if kx < k {
                            assert(nodes@[inst_offset(gv, t3 as int) + kx] == pre_nodes[
                                inst_offset(gv, t3 as int) + kx]);
                        } else {
                            assert(nodes@[inst_offset(gv, t3 as int) + kx] == nodes@.last());
                        }
                    }
                }
                k = k + 1;
            }
            t3 = t3 + 1;
            proof {
                assert(nodes@.len() == inst_offset(gv, t3 as int));
            }
        }
        let r = InstanceDag { nodes, comm_volume: volume };
        proof {
            assert(r@.len() == inst_offset(gv, gv.len() as int));
            assert forall|tx: int, kx: int|
                0 <= tx < gv.len() && 0 <= kx < gv[tx].instance_cnt implies {
                let node = #[trigger] r@[inst_offset(gv, tx) + kx];
                &&& node.task == tx
                &&& node.comp == gv[tx].flops
                &&& node.deps == parent_insts(gv, gv[tx].deps)
            } by {
                lemma_offset_mono(gv, 0, tx);
                lemma_offset_mono(gv, tx + 1, gv.len() as int);
                assert(inst_offset(gv, tx + 1) == inst_offset(gv, tx) + gv[tx].instance_cnt);
                assert(0 <= inst_offset(gv, tx) + kx < nodes@.len());
                assert(r@[inst_offset(gv, tx) + kx] == nodes@[inst_offset(gv, tx) + kx]@);
            }
        }
        r
    }
}

} // verus!
