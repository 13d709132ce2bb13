//! Shape classification of source graphs.
//!
//! A graph is a forward tree when no node has more than one dependency, a
//! reverse tree when no node has more than one dependent, and a chain when
//! it is both.  Chains are degenerate and excluded from further
//! processing; the rest of a population is split by shape.

use vstd::prelude::*;
use crate::dag::TaskDag;
use crate::fit::spec_child_cnt;

verus! {

/// Every node has at most one dependency.
pub open spec fn is_forward_tree(g: Seq<crate::dag::TaskV>) -> bool {
    forall|i: int| 0 <= i < g.len() ==> (#[trigger] g[i]).deps.len() <= 1
}

/// Every node has at most one dependent.
pub open spec fn is_reverse_tree(g: Seq<crate::dag::TaskV>) -> bool {
    forall|x: int| 0 <= x < g.len() ==> #[trigger] spec_child_cnt(g, x as usize) <= 1
}

/// The shape of a graph.
#[derive(Clone, Copy, Debug, PartialEq, Eq, Structural)]
pub enum GraphClass {
    /// Both a forward and a reverse tree: a single chain.
    Chain,
    /// A forward tree that is not a chain.
    ForwardTree,
    /// A reverse tree that is not a chain.
    ReverseTree,
    /// Neither kind of tree.
    Other,
}

/// Classifies one graph by its fan-in and fan-out.
pub fn classify_graph(g: &TaskDag) -> (r: GraphClass)
    requires
        g.wf(),
    ensures
        r == GraphClass::Chain <==> is_forward_tree(g@) && is_reverse_tree(g@),
        r == GraphClass::ForwardTree <==> is_forward_tree(g@) && !is_reverse_tree(g@),
        r == GraphClass::ReverseTree <==> !is_forward_tree(g@) && is_reverse_tree(g@),
        r == GraphClass::Other <==> !is_forward_tree(g@) && !is_reverse_tree(g@),
{
    let n = g.node_count();
    let mut fwd = true;
    for i in 0..n
        invariant
            n == g@.len(),
            g.wf(),
            fwd <==> forall|j: int| 0 <= j < i ==> (#[trigger] g@[j]).deps.len() <= 1,
    {
        if g.dep_count(i) > 1 {
            fwd = false;
        }
        proof {
            if !fwd {
                let j = choose|j: int| 0 <= j < i + 1 && (#[trigger] g@[j]).deps.len() > 1;
            }
        }
    }
    let counts = crate::fit::child_counts(g);
    let mut rev = true;
    for x in 0..n
        invariant
            n == g@.len(),
            g.wf(),
            counts@.len() == n,
            forall|x2: int| 0 <= x2 < n ==> (#[trigger] counts@[x2]) as int == crate::fit::sat32(
                spec_child_cnt(g@, x2 as usize) as int,
            ),
            rev <==> forall|x2: int| 0 <= x2 < x ==> #[trigger] spec_child_cnt(g@, x2 as usize)
                <= 1,
    {
        if counts[x] > 1 {
            rev = false;
        }
    }
    if fwd && rev {
        GraphClass::Chain
    } else if fwd {
        GraphClass::ForwardTree
    } else if rev {
        GraphClass::ReverseTree
    } else {
        GraphClass::Other
    }
}

/// The forward trees of a population, chains excluded.
pub open spec fn fwd_pred(d: TaskDag) -> bool {
    is_forward_tree(d@) && !is_reverse_tree(d@)
}

/// The reverse trees of a population, chains excluded.
pub open spec fn rev_pred(d: TaskDag) -> bool {
    !is_forward_tree(d@) && is_reverse_tree(d@)
}

/// The graphs of a population that are no kind of tree.
pub open spec fn other_pred(d: TaskDag) -> bool {
    !is_forward_tree(d@) && !is_reverse_tree(d@)
}

/// Splits a population by shape: forward trees, reverse trees, the rest.
/// Chains are dropped.  Each returned group is exactly the input filtered
/// by its shape, order kept.
pub fn partition_graphs(dags: Vec<TaskDag>) -> (r: (Vec<TaskDag>, Vec<TaskDag>, Vec<TaskDag>))
    requires
        forall|t: int| 0 <= t < dags@.len() ==> (#[trigger] dags@[t]).wf(),
    ensures
        r.0@ == dags@.filter(|d: TaskDag| fwd_pred(d)),
        r.1@ == dags@.filter(|d: TaskDag| rev_pred(d)),
        r.2@ == dags@.filter(|d: TaskDag| other_pred(d)),
{
    let ghost orig = dags@;
    let mut rest = dags;
    proof {
        assert(orig.len() == rest@.len());
    }
    let initial_count = rest.len();
    assert(initial_count == orig.len() && orig.len() <= usize::MAX);
    let mut incr: Vec<TaskDag> = Vec::new();
    let mut decr: Vec<TaskDag> = Vec::new();
    let mut others: Vec<TaskDag> = Vec::new();
    let mut t: usize = 0;
    proof {
        assert(orig.take(0).filter(|d: TaskDag| fwd_pred(d)) =~= Seq::<TaskDag>::empty()) by {
            reveal(Seq::filter);
        }
        assert(orig.take(0).filter(|d: TaskDag| rev_pred(d)) =~= Seq::<TaskDag>::empty()) by {
            reveal(Seq::filter);
        }
        assert(orig.take(0).filter(|d: TaskDag| other_pred(d)) =~= Seq::<TaskDag>::empty()) by {
            reveal(Seq::filter);
        }
    }
    while rest.len() > 0
        invariant
            orig.len() <= usize::MAX,
            orig.len() == t + rest@.len(),
            rest@ == orig.skip(t as int),
            0 <= t <= orig.len(),
            forall|t2: int| 0 <= t2 < orig.len() ==> (#[trigger] orig[t2]).wf(),
            incr@ == orig.take(t as int).filter(|d: TaskDag| fwd_pred(d)),
            decr@ == orig.take(t as int).filter(|d: TaskDag| rev_pred(d)),
            others@ == orig.take(t as int).filter(|d: TaskDag| other_pred(d)),
        decreases rest@.len(),
    {
        let d = rest.remove(0);
        proof {
            assert(d == orig[t as int]);
            assert(rest@ =~= orig.skip(t + 1));
        }
        let cls = classify_graph(&d);
        proof {
            assert(orig.take(t + 1).drop_last() =~= orig.take(t as int));
            assert(orig.take(t + 1).last() == orig[t as int]);
            reveal(Seq::filter);
        }
        match cls {
            GraphClass::Chain => {},
            GraphClass::ForwardTree => {
                incr.push(d);
            },
            GraphClass::ReverseTree => {
                decr.push(d);
            },
            GraphClass::Other => {
                others.push(d);
            },
        }
        t = t + 1;
    }
    proof {
        assert(orig.take(orig.len() as int) =~= orig);
    }
    (incr, decr, others)
}

} // verus!
