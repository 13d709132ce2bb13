//! The task-graph data model.
//!
//! A graph is a vector of tasks; the task at index `i` names the indices it
//! depends on.  Edges therefore run dependency -> dependent, and a node id
//! is its position in the vector.

use vstd::prelude::*;

verus! {

/// One task of a graph.  `deps` holds the ids of the tasks this one depends
/// on; `start_time`/`end_time` carry the observed execution window of tasks
/// that came from a trace, and `flops` the cost assigned by synthesis.
pub struct Task {
    pub name: String,
    pub deps: Vec<usize>,
    pub instance_cnt: u64,
    pub flops: u64,
    pub start_time: u64,
    pub end_time: u64,
}

/// The mathematical image of a [`Task`].
pub struct TaskV {
    pub name: Seq<char>,
    pub deps: Seq<usize>,
    pub instance_cnt: u64,
    pub flops: u64,
    pub start_time: u64,
    pub end_time: u64,
}

impl View for Task {
    type V = TaskV;

    open spec fn view(&self) -> TaskV {
        TaskV {
            name: self.name@,
            deps: self.deps@,
            instance_cnt: self.instance_cnt,
            flops: self.flops,
            start_time: self.start_time,
            end_time: self.end_time,
        }
    }
}

/// Every dependency id points at a node of the graph.
pub open spec fn valid_deps(g: Seq<TaskV>) -> bool {
    forall|i: int, k: int|
        0 <= i < g.len() && 0 <= k < g[i].deps.len() ==> #[trigger] g[i].deps[k] < g.len()
}

/// `lm` assigns each node a level under which every edge climbs strictly:
/// a node's level is greater than the level of each of its dependencies.
pub open spec fn edges_respect_levels(g: Seq<TaskV>, lm: Seq<u32>) -> bool {
    forall|i: int, k: int|
        0 <= i < g.len() && 0 <= k < g[i].deps.len() ==> lm[#[trigger] g[i].deps[k] as int] < lm[i]
}

/// As [`edges_respect_levels`], over an unbounded level assignment.
pub open spec fn level_increasing(g: Seq<TaskV>, lm: Seq<nat>) -> bool {
    forall|i: int, k: int|
        0 <= i < g.len() && 0 <= k < g[i].deps.len() ==> lm[#[trigger] g[i].deps[k] as int] < lm[i]
}

/// A graph is acyclic exactly when some level assignment climbs along every
/// edge.
pub open spec fn acyclic(g: Seq<TaskV>) -> bool {
    exists|lm: Seq<nat>| lm.len() == g.len() && level_increasing(g, lm)
}

/// `p` walks the graph from a dependency towards its dependents: each node
/// of the path depends on the one before it.
pub open spec fn is_path(g: Seq<TaskV>, p: Seq<int>) -> bool {
    &&& p.len() >= 1
    &&& forall|j: int| 0 <= j < p.len() ==> 0 <= #[trigger] p[j] < g.len()
    &&& forall|j: int| 1 <= j < p.len() ==> g[#[trigger] p[j]].deps.contains(p[j - 1] as usize)
}

/// A directed acyclic graph of tasks, addressed by index.
pub struct TaskDag {
    pub nodes: Vec<Task>,
}

impl View for TaskDag {
    type V = Seq<TaskV>;

    open spec fn view(&self) -> Seq<TaskV> {
        Seq::new(self.nodes@.len(), |i: int| self.nodes@[i]@)
    }
}

impl TaskDag {
    /// Dependency lists name only nodes of the graph.
    pub open spec fn wf(&self) -> bool {
        valid_deps(self@)
    }

    /// An empty graph.
    pub fn new() -> (r: TaskDag)
        ensures
            r@.len() == 0,
            r.wf(),
    {
        TaskDag { nodes: Vec::new() }
    }

    /// How many nodes the graph holds.
    pub fn node_count(&self) -> (r: usize)
        ensures
            r == self@.len(),
    {
        self.nodes.len()
    }

    /// Appends a node; its id is the previous node count.
    pub fn add_node(&mut self, t: Task)
        ensures
            final(self)@ == old(self)@.push(t@),
    {
        self.nodes.push(t);
        assert(final(self)@ =~= old(self)@.push(t@));
    }

    /// Appends `node_cnt` tasks with empty names, no dependencies and no
    /// cost, as the synthesis engine allocates them.
    pub fn add_empty_nodes(&mut self, node_cnt: usize)
        requires
            old(self)@.len() + node_cnt <= usize::MAX,
        ensures
            final(self)@.len() == old(self)@.len() + node_cnt,
            forall|i: int| 0 <= i < old(self)@.len() ==> final(self)@[i] == old(self)@[i],
            forall|i: int|
                old(self)@.len() <= i < final(self)@.len() ==> (#[trigger] final(self)@[i]).deps.len()
                    == 0 && final(self)@[i].instance_cnt == 0 && final(self)@[i].flops == 0,
            old(self).wf() ==> final(self).wf(),
    {
        let base = self.nodes.len();
        for j in 0..node_cnt
            invariant
                self@.len() == base + j,
                base == old(self)@.len(),
                forall|i: int| 0 <= i < base ==> self@[i] == old(self)@[i],
                forall|i: int|
                    base <= i < self@.len() ==> (#[trigger] self@[i]).deps.len() == 0
                        && self@[i].instance_cnt == 0 && self@[i].flops == 0,
        {
            let t = Task {
                name: String::new(),
                deps: Vec::new(),
                instance_cnt: 0,
                flops: 0,
                start_time: 0,
                end_time: 0,
            };
            self.add_node(t);
        }
        assert forall|i: int, k: int|
            0 <= i < final(self)@.len() && 0 <= k < final(self)@[i].deps.len() && old(self).wf()
            implies #[trigger] final(self)@[i].deps[k] < final(self)@.len() by {
            if i < old(self)@.len() {
                assert(final(self)@[i] == old(self)@[i]);
            }
        }
    }

    /// Records that `child` depends on `parent`: the edge parent -> child.
    /// Everything else of the graph is untouched.
    pub fn add_task_edge(&mut self, child: usize, parent: usize)
        requires
            child < old(self)@.len(),
            parent < old(self)@.len(),
        ensures
            final(self)@.len() == old(self)@.len(),
            final(self)@[child as int].deps == old(self)@[child as int].deps.push(parent),
            final(self)@[child as int].name == old(self)@[child as int].name,
            final(self)@[child as int].instance_cnt == old(self)@[child as int].instance_cnt,
            final(self)@[child as int].flops == old(self)@[child as int].flops,
            final(self)@[child as int].start_time == old(self)@[child as int].start_time,
            final(self)@[child as int].end_time == old(self)@[child as int].end_time,
            forall|i: int| 0 <= i < old(self)@.len() && i != child ==> final(self)@[i] == old(self)@[i],
            old(self).wf() ==> final(self).wf(),
    {
        self.nodes[child].deps.push(parent);
        assert forall|i: int, k: int|
            old(self).wf() && 0 <= i < final(self)@.len() && 0 <= k < final(self)@[i].deps.len()
            implies #[trigger] final(self)@[i].deps[k] < final(self)@.len() by {
            if i != child {
                assert(final(self)@[i] == old(self)@[i]);
            } else if k < old(self)@[i].deps.len() {
                assert(final(self)@[i].deps[k] == old(self)@[i].deps[k]);
            }
        }
    }

    /// Overwrites the instance count and cost of node `i`, leaving its
    /// identity and edges as they were.
    pub fn set_cost(&mut self, i: usize, instance_cnt: u64, flops: u64)
        requires
            i < old(self)@.len(),
        ensures
            final(self)@.len() == old(self)@.len(),
            final(self)@[i as int].deps == old(self)@[i as int].deps,
            final(self)@[i as int].name == old(self)@[i as int].name,
            final(self)@[i as int].start_time == old(self)@[i as int].start_time,
            final(self)@[i as int].end_time == old(self)@[i as int].end_time,
            final(self)@[i as int].instance_cnt == instance_cnt,
            final(self)@[i as int].flops == flops,
            forall|j: int| 0 <= j < old(self)@.len() && j != i ==> final(self)@[j] == old(self)@[j],
            old(self).wf() ==> final(self).wf(),
    {
        self.nodes[i].instance_cnt = instance_cnt;
        self.nodes[i].flops = flops;
        assert forall|j: int, k: int|
            old(self).wf() && 0 <= j < final(self)@.len() && 0 <= k < final(self)@[j].deps.len()
            implies #[trigger] final(self)@[j].deps[k] < final(self)@.len() by {
            if j != i {
                assert(final(self)@[j] == old(self)@[j]);
            } else {
                assert(final(self)@[j].deps == old(self)@[j].deps);
            }
        }
    }

    /// How many dependencies node `i` has.
    pub fn dep_count(&self, i: usize) -> (r: usize)
        requires
            i < self@.len(),
        ensures
            r == self@[i as int].deps.len(),
    {
        self.nodes[i].deps.len()
    }

    /// The `k`-th dependency of node `i`.
    pub fn dep_at(&self, i: usize, k: usize) -> (r: usize)
        requires
            i < self@.len(),
            k < self@[i as int].deps.len(),
        ensures
            r == self@[i as int].deps[k as int],
    {
        self.nodes[i].deps[k]
    }

    /// The instance count of node `i`.
    pub fn instance_cnt_of(&self, i: usize) -> (r: u64)
        requires
            i < self@.len(),
        ensures
            r == self@[i as int].instance_cnt,
    {
        self.nodes[i].instance_cnt
    }

    /// The cost of node `i`.
    pub fn flops_of(&self, i: usize) -> (r: u64)
        requires
            i < self@.len(),
        ensures
            r == self@[i as int].flops,
    {
        self.nodes[i].flops
    }
}

} // verus!
