//! The empirical statistics stores.
//!
//! Each store keeps, under a composite key, the ordered sequence of values
//! observed during the fit phase; sampling draws one stored value uniformly
//! at random (empirical bootstrap).  Stores convert losslessly to and from
//! their plain entry vectors, so a persisted store reloads with exactly the
//! observation sets it was saved with.

use vstd::prelude::*;
use vstd::pervasive::VecAdditionalExecFns;
use crate::config::SynthError;
use crate::randsrc::gen_index;

verus! {

/// The named per-level metrics the fit phase collects and the synthesis
/// engine resamples.
#[derive(Clone, Copy, Debug, PartialEq, Eq, Structural)]
pub enum StatKind {
    /// Fan-out: how many tasks depend on a node.
    Childs,
    /// Fan-in: how many dependencies a node has.
    Deps,
    /// Instance count of nodes without dependencies.
    InstInit,
    /// Instance count relative to the mean of the dependencies', times
    /// ten thousand.
    InstPerc,
    /// Harmonic-mean-like combination of instance count and duration.
    Heavy,
    /// Raw task duration.
    Time,
}

/// The size bucket: node count divided by critical-path length.
pub fn calc_part(node_cnt: u32, critical_path: u32) -> (r: u32)
    requires
        critical_path >= 1,
    ensures
        r == node_cnt / critical_path,
{
    node_cnt / critical_path
}

/// `|a - b|` over two bucket coordinates.
pub open spec fn key_dist(a: u32, b: u32) -> int {
    if a >= b {
        a - b
    } else {
        b - a
    }
}

/// Draws one stored observation uniformly at random.
fn sample_from(rng: &mut rand::rngs::StdRng, samples: &Vec<u32>) -> (r: u32)
    requires
        samples@.len() >= 1,
    ensures
        samples@.contains(r),
{
    let i = gen_index(rng, samples.len());
    samples[i]
}

// ------------------------------------------------------------------
// Critical-path -> size distribution
// ------------------------------------------------------------------

/// One persisted row of the critical-path -> size distribution.
pub struct CpEntry {
    pub cp: u32,
    pub counts: Vec<u32>,
}

/// The mathematical image of a [`CpEntry`].
pub struct CpEntryV {
    pub cp: u32,
    pub counts: Seq<u32>,
}

impl View for CpEntry {
    type V = CpEntryV;

    open spec fn view(&self) -> CpEntryV {
        CpEntryV { cp: self.cp, counts: self.counts@ }
    }
}

/// Some row carries key `cp`.
pub open spec fn cp_has(s: Seq<CpEntryV>, cp: u32) -> bool {
    exists|i: int| 0 <= i < s.len() && s[i].cp == cp
}

/// The index of the row with key `cp`.
pub open spec fn cp_idx(s: Seq<CpEntryV>, cp: u32) -> int {
    choose|i: int| 0 <= i < s.len() && s[i].cp == cp
}

/// All node counts observed under critical-path length `cp`.
pub open spec fn cp_samples(s: Seq<CpEntryV>, cp: u32) -> Seq<u32> {
    if cp_has(s, cp) {
        s[cp_idx(s, cp)].counts
    } else {
        Seq::empty()
    }
}

/// Row keys are unique; a graph with `cp` levels has at least `cp` nodes,
/// so every count recorded under `cp` is at least `cp`, and `cp` at least 1.
pub open spec fn cp_entries_wf(s: Seq<CpEntryV>) -> bool {
    &&& forall|i: int, j: int| 0 <= i < j < s.len() ==> (#[trigger] s[i]).cp != (#[trigger] s[j]).cp
    &&& forall|i: int| 0 <= i < s.len() ==> (#[trigger] s[i]).cp >= 1
    &&& forall|i: int, k: int|
        0 <= i < s.len() && 0 <= k < s[i].counts.len() ==> (#[trigger] s[i].counts[k]) >= s[i].cp
}

/// The critical-path -> size distribution: under each observed
/// critical-path length, every observed node count.
pub struct CpStatistic {
    pub entries: Vec<CpEntry>,
}

impl View for CpStatistic {
    type V = Seq<CpEntryV>;

    open spec fn view(&self) -> Seq<CpEntryV> {
        Seq::new(self.entries@.len(), |i: int| self.entries@[i]@)
    }
}

impl CpStatistic {
    pub open spec fn wf(&self) -> bool {
        cp_entries_wf(self@)
    }

    /// An empty store.
    pub fn new() -> (r: CpStatistic)
        ensures
            r@.len() == 0,
            r.wf(),
    {
        CpStatistic { entries: Vec::new() }
    }

    /// Index of the row keyed `cp`, if any.
    fn find(&self, cp: u32) -> (r: Option<usize>)
        ensures
            match r {
                Some(i) => i < self@.len() && self@[i as int].cp == cp,
                None => !cp_has(self@, cp),
            },
    {
        let n = self.entries.len();
        for i in 0..n
            invariant
                n == self@.len(),
                forall|j: int| 0 <= j < i ==> (#[trigger] self@[j]).cp != cp,
        {
            if self.entries[i].cp == cp {
                return Some(i);
            }
        }
        None
    }

    /// Records that a graph of `node_cnt` nodes had critical-path length
    /// `cp`.  Only the row keyed `cp` changes: it gains `node_cnt` at its
    /// end.
    pub fn add(&mut self, cp: u32, node_cnt: u32)
        requires
            old(self).wf(),
            cp >= 1,
            node_cnt >= cp,
        ensures
            final(self).wf(),
            forall|c: u32|
                #[trigger] cp_samples(final(self)@, c) == if c == cp {
                    cp_samples(old(self)@, cp).push(node_cnt)
                } else {
                    cp_samples(old(self)@, c)
                },
    {
        let found = self.find(cp);
        match found {
            Some(i) => {
                self.entries[i].counts.push(node_cnt);
                assert(self@ =~= old(self)@.update(
                    i as int,
                    CpEntryV {
                        cp,
                        counts: old(self)@[i as int].counts.push(node_cnt),
                    },
                ));
                proof {
                    lemma_cp_update(old(self)@, self@, i as int, cp, node_cnt);
                }
            },
            None => {
                let mut counts: Vec<u32> = Vec::new();
                counts.push(node_cnt);
                assert(counts@ =~= seq![node_cnt]);
                self.entries.push(CpEntry { cp, counts });
                assert(self@ =~= old(self)@.push(
                    CpEntryV { cp, counts: seq![node_cnt] },
                ));
                proof {
                    lemma_cp_append(old(self)@, self@, cp, node_cnt);
                }
            },
        }
    }

    /// Draws a node count for target critical-path length `cp`; `None`
    /// signals that the store holds no data for `cp` (exhaustion).
    pub fn get_node_cnt(&self, rng: &mut rand::rngs::StdRng, cp: u32) -> (r: Option<u32>)
        requires
            self.wf(),
        ensures
            r is Some <==> cp_samples(self@, cp).len() > 0,
            r is Some ==> cp_samples(self@, cp).contains(r.unwrap()) && r.unwrap() >= cp,
    {
        let found = self.find(cp);
        match found {
            Some(i) => {
                proof {
                    lemma_cp_idx_unique(self@, cp, i as int);
                }
                if self.entries[i].counts.len() == 0 {
                    None
                } else {
                    let v = sample_from(rng, &self.entries[i].counts);
                    assert(cp_samples(self@, cp).contains(v));
                    Some(v)
                }
            },
            None => None,
        }
    }

    /// Hands the store's rows out for persistence; nothing is lost or
    /// reordered.
    pub fn into_entries(self) -> (r: Vec<CpEntry>)
        ensures
            r@.len() == self@.len(),
            forall|i: int| 0 <= i < r@.len() ==> (#[trigger] r@[i])@ == self@[i],
    {
        self.entries
    }

    /// Rebuilds a store from persisted rows, refusing rows that break the
    /// store invariant.
    pub fn from_entries(entries: Vec<CpEntry>) -> (r: Result<CpStatistic, SynthError>)
        ensures
            match r {
                Ok(s) => s.wf() && s@.len() == entries@.len() && (forall|i: int|
                    0 <= i < entries@.len() ==> s@[i] == (#[trigger] entries@[i])@),
                Err(e) => e == SynthError::MalformedStore && !cp_entries_wf(
                    Seq::new(entries@.len(), |i: int| entries@[i]@),
                ),
            },
    {
        let ghost v = Seq::new(entries@.len(), |i: int| entries@[i]@);
        let n = entries.len();
        for i in 0..n
            invariant
                n == entries@.len(),
                v == Seq::new(entries@.len(), |i: int| entries@[i]@),
                forall|a: int, b: int| 0 <= a < b < i ==> (#[trigger] v[a]).cp != (
                #[trigger] v[b]).cp,
                forall|a: int| 0 <= a < i ==> (#[trigger] v[a]).cp >= 1,
                forall|a: int, k: int|
                    0 <= a < i && 0 <= k < v[a].counts.len() ==> (#[trigger] v[a].counts[k])
                        >= v[a].cp,
        {
            if entries[i].cp < 1 {
                return Err(SynthError::MalformedStore);
            }
            for j in 0..i
                invariant
                    n == entries@.len(),
                    i < n,
                    v == Seq::new(entries@.len(), |i: int| entries@[i]@),
                    forall|b: int| 0 <= b < j ==> (#[trigger] v[b]).cp != v[i as int].cp,
            {
                if entries[j].cp == entries[i].cp {
                    assert(v[j as int].cp == v[i as int].cp);
                    return Err(SynthError::MalformedStore);
                }
            }
            let m = entries[i].counts.len();
            for k in 0..m
                invariant
                    n == entries@.len(),
                    i < n,
                    m == v[i as int].counts.len(),
                    v == Seq::new(entries@.len(), |i: int| entries@[i]@),
                    forall|k2: int|
                        0 <= k2 < k ==> (#[trigger] v[i as int].counts[k2]) >= v[i as int].cp,
            {
                if entries[i].counts[k] < entries[i].cp {
                    return Err(SynthError::MalformedStore);
                }
            }
        }
        let s = CpStatistic { entries };
        assert(s@ =~= v);
        Ok(s)
    }
}

/// With unique keys, any index holding `cp` is the one [`cp_idx`] picks.
proof fn lemma_cp_idx_unique(s: Seq<CpEntryV>, cp: u32, i: int)
    requires
        cp_entries_wf(s),
        0 <= i < s.len(),
        s[i].cp == cp,
    ensures
        cp_has(s, cp),
        cp_idx(s, cp) == i,
{
    assert(cp_has(s, cp));
    let j = cp_idx(s, cp);
    if i < j {
        assert(s[i].cp != s[j].cp);
    } else if j < i {
        assert(s[j].cp != s[i].cp);
    }
}

/// Pushing one count into row `i` changes only the samples of its key.
proof fn lemma_cp_update(s1: Seq<CpEntryV>, s2: Seq<CpEntryV>, i: int, cp: u32, node_cnt: u32)
    requires
        cp_entries_wf(s1),
        0 <= i < s1.len(),
        s1[i].cp == cp,
        node_cnt >= cp,
        s2 == s1.update(i, CpEntryV { cp, counts: s1[i].counts.push(node_cnt) }),
    ensures
        cp_entries_wf(s2),
        forall|c: u32|
            #[trigger] cp_samples(s2, c) == if c == cp {
                cp_samples(s1, cp).push(node_cnt)
            } else {
                cp_samples(s1, c)
            },
{
    lemma_cp_idx_unique(s1, cp, i);
    assert forall|a: int, b: int| 0 <= a < b < s2.len() implies (#[trigger] s2[a]).cp != (
    #[trigger] s2[b]).cp by {
        assert(s1[a].cp != s1[b].cp);
        assert(s2[a].cp == s1[a].cp && s2[b].cp == s1[b].cp);
    }
    assert forall|a: int, k: int|
        0 <= a < s2.len() && 0 <= k < s2[a].counts.len() implies (#[trigger] s2[a].counts[k])
        >= s2[a].cp by {
        if a != i {
            assert(s2[a] == s1[a]);
        } else if k < s1[i].counts.len() {
            assert(s2[i].counts[k] == s1[i].counts[k]);
        }
    }
    assert(cp_entries_wf(s2));
    assert forall|c: u32| #[trigger] cp_samples(s2, c) == if c == cp {
        cp_samples(s1, cp).push(node_cnt)
    } else {
        cp_samples(s1, c)
    } by {
        if c == cp {
            lemma_cp_idx_unique(s2, cp, i);
        } else {
            if cp_has(s1, c) {
                let j = cp_idx(s1, c);
                assert(s2[j].cp == c);
                lemma_cp_idx_unique(s2, c, j);
            } else if cp_has(s2, c) {
                let j = cp_idx(s2, c);
                assert(s1[j].cp == c);
            }
        }
    }
}

/// Appending a fresh row changes only the samples of its key, which had
/// none before.
proof fn lemma_cp_append(s1: Seq<CpEntryV>, s2: Seq<CpEntryV>, cp: u32, node_cnt: u32)
    requires
        cp_entries_wf(s1),
        cp >= 1,
        node_cnt >= cp,
        !cp_has(s1, cp),
        s2 == s1.push(CpEntryV { cp, counts: seq![node_cnt] }),
    ensures
        cp_entries_wf(s2),
        forall|c: u32|
            #[trigger] cp_samples(s2, c) == if c == cp {
                cp_samples(s1, cp).push(node_cnt)
            } else {
                cp_samples(s1, c)
            },
{
    let n = s1.len() as int;
    assert forall|i: int, j: int| 0 <= i < j < s2.len() implies (#[trigger] s2[i]).cp != (
    #[trigger] s2[j]).cp by {
        if j < n {
            assert(s1[i].cp != s1[j].cp);
        } else {
            assert(!(s1[i].cp == cp));
        }
    }
    assert(cp_entries_wf(s2));
    assert forall|c: u32| #[trigger] cp_samples(s2, c) == if c == cp {
        cp_samples(s1, cp).push(node_cnt)
    } else {
        cp_samples(s1, c)
    } by {
        if c == cp {
            lemma_cp_idx_unique(s2, cp, n);
            assert(cp_samples(s1, cp) =~= Seq::<u32>::empty());
            assert(cp_samples(s2, cp) =~= cp_samples(s1, cp).push(node_cnt));
        } else {
            if cp_has(s1, c) {
                let j = cp_idx(s1, c);
                assert(s2[j].cp == c);
                lemma_cp_idx_unique(s2, c, j);
            } else if cp_has(s2, c) {
                let j = cp_idx(s2, c);
                assert(s2[j].cp == c);
                assert(j < n || s2[j].cp == cp);
                assert(s1[j].cp == c);
            }
        }
    }
}

} // verus!

verus! {

/// Copies a vector of observations element by element.
pub(crate) fn copy_u32s(v: &Vec<u32>) -> (r: Vec<u32>)
    ensures
        r@ == v@,
{
    let mut r: Vec<u32> = Vec::new();
    let n = v.len();
    for i in 0..n
        invariant
            n == v@.len(),
            r@ == v@.take(i as int),
    {
        r.push(v[i]);
        assert(r@ =~= v@.take(i + 1));
    }
    assert(r@ =~= v@);
    r
}

/// The shared nearest-bucket scan of all three stores: among the rows that
/// can stand in for a query (those with a distance), the first one at the
/// smallest distance.
fn nearest_index(dists: &Vec<Option<u64>>) -> (r: Option<usize>)
    ensures
        r is Some <==> exists|j: int| 0 <= j < dists@.len() && (#[trigger] dists@[j]) is Some,
        r is Some ==> {
            let i = r.unwrap() as int;
            &&& 0 <= i < dists@.len()
            &&& dists@[i] is Some
            &&& forall|j: int|
                0 <= j < dists@.len() && (#[trigger] dists@[j]) is Some ==> dists@[i].unwrap()
                    <= dists@[j].unwrap()
        },
{
    let n = dists.len();
    let mut best: usize = 0;
    let mut best_d: u64 = 0;
    let mut have: bool = false;
    for idx in 0..n
        invariant
            n == dists@.len(),
            have <==> exists|j: int| 0 <= j < idx && (#[trigger] dists@[j]) is Some,
            have ==> best < idx && dists@[best as int] is Some && best_d == dists@[
                best as int].unwrap(),
            have ==> forall|j: int|
                0 <= j < idx && (#[trigger] dists@[j]) is Some ==> best_d <= dists@[j].unwrap(),
    {
        match dists[idx] {
            Some(d) => {
                if !have || d < best_d {
                    best = idx;
                    best_d = d;
                    have = true;
                }
                assert(dists@[idx as int] is Some);
            },
            None => {
                assert(!((dists@[idx as int]) is Some));
            },
        }
    }
    if have {
        Some(best)
    } else {
        None
    }
}

// ------------------------------------------------------------------
// Level-assignment distribution
// ------------------------------------------------------------------

/// One persisted row of the level-assignment distribution.
pub struct LevelEntry {
    pub cp: u32,
    pub part: u32,
    pub levels: Vec<u32>,
}

/// The mathematical image of a [`LevelEntry`].
pub struct LevelEntryV {
    pub cp: u32,
    pub part: u32,
    pub levels: Seq<u32>,
}

impl View for LevelEntry {
    type V = LevelEntryV;

    open spec fn view(&self) -> LevelEntryV {
        LevelEntryV { cp: self.cp, part: self.part, levels: self.levels@ }
    }
}

/// Some row carries key `(cp, part)`.
pub open spec fn lvl_has(s: Seq<LevelEntryV>, cp: u32, part: u32) -> bool {
    exists|i: int| 0 <= i < s.len() && s[i].cp == cp && s[i].part == part
}

/// The index of the row with key `(cp, part)`.
pub open spec fn lvl_idx(s: Seq<LevelEntryV>, cp: u32, part: u32) -> int {
    choose|i: int| 0 <= i < s.len() && s[i].cp == cp && s[i].part == part
}

/// All level observations recorded under `(cp, part)`.
pub open spec fn lvl_samples(s: Seq<LevelEntryV>, cp: u32, part: u32) -> Seq<u32> {
    if lvl_has(s, cp, part) {
        s[lvl_idx(s, cp, part)].levels
    } else {
        Seq::empty()
    }
}

/// Some row with key component `cp` holds observations: `cp` is not
/// exhausted in this store.
pub open spec fn lvl_has_cp(s: Seq<LevelEntryV>, cp: u32) -> bool {
    exists|i: int| 0 <= i < s.len() && (#[trigger] s[i]).cp == cp && s[i].levels.len() > 0
}

/// Row keys are unique, and a level recorded under `cp` lies below `cp`.
pub open spec fn lvl_entries_wf(s: Seq<LevelEntryV>) -> bool {
    &&& forall|i: int, j: int|
        0 <= i < j < s.len() ==> !((#[trigger] s[i]).cp == (#[trigger] s[j]).cp && s[i].part
            == s[j].part)
    &&& forall|i: int, k: int|
        0 <= i < s.len() && 0 <= k < s[i].levels.len() ==> (#[trigger] s[i].levels[k]) < s[i].cp
}

/// The level-assignment distribution: under `(cp, part)`, the level of
/// every node of every fitted graph with those keys.
pub struct StructStatistic {
    pub entries: Vec<LevelEntry>,
}

impl View for StructStatistic {
    type V = Seq<LevelEntryV>;

    open spec fn view(&self) -> Seq<LevelEntryV> {
        Seq::new(self.entries@.len(), |i: int| self.entries@[i]@)
    }
}

/// With unique keys, any index holding `(cp, part)` is the one
/// [`lvl_idx`] picks.
proof fn lemma_lvl_idx_unique(s: Seq<LevelEntryV>, cp: u32, part: u32, i: int)
    requires
        lvl_entries_wf(s),
        0 <= i < s.len(),
        s[i].cp == cp,
        s[i].part == part,
    ensures
        lvl_has(s, cp, part),
        lvl_idx(s, cp, part) == i,
{
    assert(lvl_has(s, cp, part));
    let j = lvl_idx(s, cp, part);
    if i < j {
        assert(!(s[i].cp == s[j].cp && s[i].part == s[j].part));
    } else if j < i {
        assert(!(s[j].cp == s[i].cp && s[j].part == s[i].part));
    }
}

/// Appending observations to row `i` changes only the samples of its key.
proof fn lemma_lvl_update(
    s1: Seq<LevelEntryV>,
    s2: Seq<LevelEntryV>,
    i: int,
    cp: u32,
    part: u32,
    tail: Seq<u32>,
)
    requires
        lvl_entries_wf(s1),
        0 <= i < s1.len(),
        s1[i].cp == cp,
        s1[i].part == part,
        forall|k: int| 0 <= k < tail.len() ==> tail[k] < cp,
        s2 == s1.update(i, LevelEntryV { cp, part, levels: s1[i].levels + tail }),
    ensures
        lvl_entries_wf(s2),
        forall|c: u32, p: u32|
            #[trigger] lvl_samples(s2, c, p) == if c == cp && p == part {
                lvl_samples(s1, cp, part) + tail
            } else {
                lvl_samples(s1, c, p)
            },
{
    lemma_lvl_idx_unique(s1, cp, part, i);
    assert forall|a: int, b: int| 0 <= a < b < s2.len() implies !((#[trigger] s2[a]).cp == (
    #[trigger] s2[b]).cp && s2[a].part == s2[b].part) by {
        assert(!(s1[a].cp == s1[b].cp && s1[a].part == s1[b].part));
    }
    assert forall|a: int, k: int|
        0 <= a < s2.len() && 0 <= k < s2[a].levels.len() implies (#[trigger] s2[a].levels[k])
        < s2[a].cp by {
        if a != i {
            assert(s2[a] == s1[a]);
        } else if k < s1[i].levels.len() {
            assert(s2[i].levels[k] == s1[i].levels[k]);
        } else {
            assert(s2[i].levels[k] == tail[k - s1[i].levels.len()]);
        }
    }
    assert(lvl_entries_wf(s2));
    assert forall|c: u32, p: u32| #[trigger] lvl_samples(s2, c, p) == if c == cp && p == part {
        lvl_samples(s1, cp, part) + tail
    } else {
        lvl_samples(s1, c, p)
    } by {
        if c == cp && p == part {
            lemma_lvl_idx_unique(s2, cp, part, i);
        } else {
            if lvl_has(s1, c, p) {
                let j = lvl_idx(s1, c, p);
                assert(s2[j].cp == c && s2[j].part == p);
                lemma_lvl_idx_unique(s2, c, p, j);
            } else if lvl_has(s2, c, p) {
                let j = lvl_idx(s2, c, p);
                assert(s1[j].cp == c && s1[j].part == p);
            }
        }
    }
}

/// Appending a fresh row changes only the samples of its key, which had
/// none before.
proof fn lemma_lvl_append(
    s1: Seq<LevelEntryV>,
    s2: Seq<LevelEntryV>,
    cp: u32,
    part: u32,
    tail: Seq<u32>,
)
    requires
        lvl_entries_wf(s1),
        !lvl_has(s1, cp, part),
        forall|k: int| 0 <= k < tail.len() ==> tail[k] < cp,
        s2 == s1.push(LevelEntryV { cp, part, levels: tail }),
    ensures
        lvl_entries_wf(s2),
        forall|c: u32, p: u32|
            #[trigger] lvl_samples(s2, c, p) == if c == cp && p == part {
                lvl_samples(s1, cp, part) + tail
            } else {
                lvl_samples(s1, c, p)
            },
{
    let n = s1.len() as int;
    assert forall|a: int, b: int| 0 <= a < b < s2.len() implies !((#[trigger] s2[a]).cp == (
    #[trigger] s2[b]).cp && s2[a].part == s2[b].part) by {
        if b < n {
            assert(!(s1[a].cp == s1[b].cp && s1[a].part == s1[b].part));
        } else {
            assert(!(s1[a].cp == cp && s1[a].part == part));
        }
    }
    assert(lvl_entries_wf(s2));
    assert forall|c: u32, p: u32| #[trigger] lvl_samples(s2, c, p) == if c == cp && p == part {
        lvl_samples(s1, cp, part) + tail
    } else {
        lvl_samples(s1, c, p)
    } by {
        if c == cp && p == part {
            lemma_lvl_idx_unique(s2, cp, part, n);
            assert(lvl_samples(s1, cp, part) =~= Seq::<u32>::empty());
            assert(lvl_samples(s2, cp, part) =~= lvl_samples(s1, cp, part) + tail);
        } else {
            if lvl_has(s1, c, p) {
                let j = lvl_idx(s1, c, p);
                assert(s2[j].cp == c && s2[j].part == p);
                lemma_lvl_idx_unique(s2, c, p, j);
            } else if lvl_has(s2, c, p) {
                let j = lvl_idx(s2, c, p);
                assert(s2[j].cp == c && s2[j].part == p);
                assert(j < n || (s2[j].cp == cp && s2[j].part == part));
                assert(s1[j].cp == c && s1[j].part == p);
            }
        }
    }
}

impl StructStatistic {
    pub open spec fn wf(&self) -> bool {
        lvl_entries_wf(self@)
    }

    /// An empty store.
    pub fn new() -> (r: StructStatistic)
        ensures
            r@.len() == 0,
            r.wf(),
    {
        StructStatistic { entries: Vec::new() }
    }

    /// Index of the row keyed `(cp, part)`, if any.
    fn find(&self, cp: u32, part: u32) -> (r: Option<usize>)
        ensures
            match r {
                Some(i) => i < self@.len() && self@[i as int].cp == cp && self@[i as int].part
                    == part,
                None => !lvl_has(self@, cp, part),
            },
    {
        let n = self.entries.len();
        for i in 0..n
            invariant
                n == self@.len(),
                forall|j: int|
                    0 <= j < i ==> !((#[trigger] self@[j]).cp == cp && self@[j].part == part),
        {
            if self.entries[i].cp == cp && self.entries[i].part == part {
                return Some(i);
            }
        }
        None
    }

    /// Records the level of every node of one graph under `(cp, part)`.
    /// Only the row keyed `(cp, part)` changes: it gains `levels` at its
    /// end.
    pub fn add(&mut self, cp: u32, part: u32, levels: &Vec<u32>)
        requires
            old(self).wf(),
            forall|k: int| 0 <= k < levels@.len() ==> levels@[k] < cp,
        ensures
            final(self).wf(),
            forall|c: u32, p: u32|
                #[trigger] lvl_samples(final(self)@, c, p) == if c == cp && p == part {
                    lvl_samples(old(self)@, cp, part) + levels@
                } else {
                    lvl_samples(old(self)@, c, p)
                },
    {
        let found = self.find(cp, part);
        match found {
            Some(i) => {
                let m = levels.len();
                let mut combined = copy_u32s(&self.entries[i].levels);
                assert(combined@ == self@[i as int].levels);
                assert(combined@ =~= old(self)@[i as int].levels + levels@.take(0));
                for k in 0..m
                    invariant
                        m == levels@.len(),
                        i < self@.len(),
                        self@ == old(self)@,
                        combined@ == old(self)@[i as int].levels + levels@.take(k as int),
                {
                    combined.push(levels[k]);
                    assert(combined@ =~= old(self)@[i as int].levels + levels@.take(k + 1));
                }
                assert(combined@ == old(self)@[i as int].levels + levels@) by {
                    assert(levels@.take(levels@.len() as int) =~= levels@);
                }
                self.entries.set(i, LevelEntry { cp, part, levels: combined });
                assert(self@ =~= old(self)@.update(
                    i as int,
                    LevelEntryV { cp, part, levels: old(self)@[i as int].levels + levels@ },
                ));
                proof {
                    lemma_lvl_update(old(self)@, self@, i as int, cp, part, levels@);
                }
            },
            None => {
                let copied = copy_u32s(levels);
                self.entries.push(LevelEntry { cp, part, levels: copied });
                assert(self@ =~= old(self)@.push(
                    LevelEntryV { cp, part, levels: levels@ },
                ));
                proof {
                    lemma_lvl_append(old(self)@, self@, cp, part, levels@);
                }
            },
        }
    }

    /// Draws a level for `(cp, part)` proportionally to its observed
    /// frequency; `None` when the exact bucket holds nothing.
    pub fn gen_level(&self, rng: &mut rand::rngs::StdRng, cp: u32, part: u32) -> (r: Option<u32>)
        requires
            self.wf(),
        ensures
            r is Some <==> lvl_samples(self@, cp, part).len() > 0,
            r is Some ==> lvl_samples(self@, cp, part).contains(r.unwrap()) && r.unwrap() < cp,
    {
        let found = self.find(cp, part);
        match found {
            Some(i) => {
                proof {
                    lemma_lvl_idx_unique(self@, cp, part, i as int);
                }
                if self.entries[i].levels.len() == 0 {
                    None
                } else {
                    let v = sample_from(rng, &self.entries[i].levels);
                    assert(lvl_samples(self@, cp, part).contains(v));
                    Some(v)
                }
            },
            None => None,
        }
    }

    /// Snaps a requested size bucket to the nearest bucket that actually
    /// holds data for `cp`; `None` exactly when `cp` has no data at all.
    pub fn adjust_part(&self, cp: u32, part: u32) -> (r: Option<u32>)
        requires
            self.wf(),
        ensures
            r is Some <==> lvl_has_cp(self@, cp),
            r is Some ==> lvl_samples(self@, cp, r.unwrap()).len() > 0 && (forall|i: int|
                0 <= i < self@.len() && (#[trigger] self@[i]).cp == cp && self@[i].levels.len() > 0
                    ==> key_dist(r.unwrap(), part) <= key_dist(self@[i].part, part)),
    {
        let n = self.entries.len();
        let mut dists: Vec<Option<u64>> = Vec::new();
        for i in 0..n
            invariant
                n == self@.len(),
                dists@.len() == i,
                forall|j: int|
                    0 <= j < i ==> ((#[trigger] dists@[j]) is Some <==> ((#[trigger] self@[j]).cp
                        == cp && self@[j].levels.len() > 0)),
                forall|j: int|
                    0 <= j < i && (#[trigger] dists@[j]) is Some ==> dists@[j].unwrap() as int
                        == key_dist(self@[j].part, part),
        {
            let e = &self.entries[i];
            if e.cp == cp && e.levels.len() > 0 {
                let d: u64 = if e.part >= part {
                    (e.part - part) as u64
                } else {
                    (part - e.part) as u64
                };
                dists.push(Some(d));
            } else {
                dists.push(None);
            }
        }
        match nearest_index(&dists) {
            Some(i) => {
                proof {
                    assert(dists@[i as int] is Some);
                    assert(self@[i as int].cp == cp && self@[i as int].levels.len() > 0);
                    lemma_lvl_idx_unique(self@, cp, self@[i as int].part, i as int);
                    assert forall|j: int|
                        0 <= j < self@.len() && (#[trigger] self@[j]).cp == cp && self@[
                        j].levels.len() > 0 implies key_dist(self@[i as int].part, part)
                        <= key_dist(self@[j].part, part) by {
                        assert(dists@[j] is Some);
                        assert(dists@[i as int].unwrap() <= dists@[j].unwrap());
                    }
                    assert(lvl_has_cp(self@, cp));
                }
                Some(self.entries[i].part)
            },
            None => {
                proof {
                    if lvl_has_cp(self@, cp) {
                        let j = choose|j: int|
                            0 <= j < self@.len() && (#[trigger] self@[j]).cp == cp && self@[
                                j].levels.len() > 0;
                        assert(dists@[j] is Some);
                    }
                }
                None
            },
        }
    }

    /// Hands the store's rows out for persistence; nothing is lost or
    /// reordered.
    pub fn into_entries(self) -> (r: Vec<LevelEntry>)
        ensures
            r@.len() == self@.len(),
            forall|i: int| 0 <= i < r@.len() ==> (#[trigger] r@[i])@ == self@[i],
    {
        self.entries
    }

    /// Rebuilds a store from persisted rows, refusing rows that break the
    /// store invariant.
    pub fn from_entries(entries: Vec<LevelEntry>) -> (r: Result<StructStatistic, SynthError>)
        ensures
            match r {
                Ok(s) => s.wf() && s@.len() == entries@.len() && (forall|i: int|
                    0 <= i < entries@.len() ==> s@[i] == (#[trigger] entries@[i])@),
                Err(e) => e == SynthError::MalformedStore && !lvl_entries_wf(
                    Seq::new(entries@.len(), |i: int| entries@[i]@),
                ),
            },
    {
        let ghost v = Seq::new(entries@.len(), |i: int| entries@[i]@);
        let n = entries.len();
        for i in 0..n
            invariant
                n == entries@.len(),
                v == Seq::new(entries@.len(), |i: int| entries@[i]@),
                forall|a: int, b: int|
                    0 <= a < b < i ==> !((#[trigger] v[a]).cp == (#[trigger] v[b]).cp && v[a].part
                        == v[b].part),
                forall|a: int, k: int|
                    0 <= a < i && 0 <= k < v[a].levels.len() ==> (#[trigger] v[a].levels[k])
                        < v[a].cp,
        {
            for j in 0..i
                invariant
                    n == entries@.len(),
                    i < n,
                    v == Seq::new(entries@.len(), |i: int| entries@[i]@),
                    forall|b: int|
                        0 <= b < j ==> !((#[trigger] v[b]).cp == v[i as int].cp && v[b].part
                            == v[i as int].part),
            {
                if entries[j].cp == entries[i].cp && entries[j].part == entries[i].part {
                    assert(v[j as int].cp == v[i as int].cp && v[j as int].part == v[i as int].part);
                    return Err(SynthError::MalformedStore);
                }
            }
            let m = entries[i].levels.len();
            for k in 0..m
                invariant
                    n == entries@.len(),
                    i < n,
                    m == v[i as int].levels.len(),
                    v == Seq::new(entries@.len(), |i: int| entries@[i]@),
                    forall|k2: int|
                        0 <= k2 < k ==> (#[trigger] v[i as int].levels[k2]) < v[i as int].cp,
            {
                if entries[i].levels[k] >= entries[i].cp {
                    return Err(SynthError::MalformedStore);
                }
            }
        }
        let s = StructStatistic { entries };
        assert(s@ =~= v);
        Ok(s)
    }
}

} // verus!

verus! {

// ------------------------------------------------------------------
// Generic per-level distribution collector
// ------------------------------------------------------------------

/// One persisted row of the per-level metric distributions.
pub struct GenEntry {
    pub cp: u32,
    pub part: u32,
    pub level: u32,
    pub kind: StatKind,
    pub samples: Vec<u32>,
}

/// The mathematical image of a [`GenEntry`].
pub struct GenEntryV {
    pub cp: u32,
    pub part: u32,
    pub level: u32,
    pub kind: StatKind,
    pub samples: Seq<u32>,
}

impl View for GenEntry {
    type V = GenEntryV;

    open spec fn view(&self) -> GenEntryV {
        GenEntryV {
            cp: self.cp,
            part: self.part,
            level: self.level,
            kind: self.kind,
            samples: self.samples@,
        }
    }
}

/// The row `e` carries exactly this key.
pub open spec fn gen_key_eq(e: GenEntryV, cp: u32, part: u32, level: u32, kind: StatKind) -> bool {
    e.cp == cp && e.part == part && e.level == level && e.kind == kind
}

/// The row `e` can stand in for a query under `(cp, kind)`: the first and
/// last key components agree and it holds at least one observation.
pub open spec fn gen_matches(e: GenEntryV, cp: u32, kind: StatKind) -> bool {
    e.cp == cp && e.kind == kind && e.samples.len() > 0
}

/// How far row `e` is from the queried `(part, level)`: bucket distance
/// weighs infinitely more than level distance.
pub open spec fn gen_score(e: GenEntryV, part: u32, level: u32) -> int {
    key_dist(e.part, part) * 0x1_0000_0000 + key_dist(e.level, level)
}

/// Some row carries key `(cp, part, level, kind)`.
pub open spec fn gen_has(s: Seq<GenEntryV>, cp: u32, part: u32, level: u32, kind: StatKind) -> bool {
    exists|i: int| 0 <= i < s.len() && gen_key_eq(#[trigger] s[i], cp, part, level, kind)
}

/// The index of the row with key `(cp, part, level, kind)`.
pub open spec fn gen_idx(s: Seq<GenEntryV>, cp: u32, part: u32, level: u32, kind: StatKind) -> int {
    choose|i: int| 0 <= i < s.len() && gen_key_eq(#[trigger] s[i], cp, part, level, kind)
}

/// All observations recorded under `(cp, part, level, kind)`.
pub open spec fn gen_samples(
    s: Seq<GenEntryV>,
    cp: u32,
    part: u32,
    level: u32,
    kind: StatKind,
) -> Seq<u32> {
    if gen_has(s, cp, part, level, kind) {
        s[gen_idx(s, cp, part, level, kind)].samples
    } else {
        Seq::empty()
    }
}

/// Some row under `(cp, kind)` holds observations: the query cannot be
/// exhausted.
pub open spec fn gen_has_any(s: Seq<GenEntryV>, cp: u32, kind: StatKind) -> bool {
    exists|i: int| 0 <= i < s.len() && gen_matches(#[trigger] s[i], cp, kind)
}

/// The value `v` is one of the observations stored under `(cp, kind)` at
/// some bucket: what any draw for that pair can return.
pub open spec fn stat_observed(s: Seq<GenEntryV>, cp: u32, kind: StatKind, v: u32) -> bool {
    exists|i: int|
        0 <= i < s.len() && gen_matches(#[trigger] s[i], cp, kind) && s[i].samples.contains(v)
}

/// The value `v` is a level recorded under `cp` at some bucket of the
/// level-assignment store.
pub open spec fn lvl_observed(s: Seq<LevelEntryV>, cp: u32, v: u32) -> bool {
    exists|i: int| 0 <= i < s.len() && (#[trigger] s[i]).cp == cp && s[i].levels.contains(v)
}

/// A value of the exact bucket `(cp, part)` is in particular observed
/// under `cp`.
pub proof fn lemma_lvl_observed(s: Seq<LevelEntryV>, cp: u32, part: u32, v: u32)
    requires
        lvl_samples(s, cp, part).contains(v),
    ensures
        lvl_observed(s, cp, v),
{
    let i = lvl_idx(s, cp, part);
    assert(0 <= i < s.len() && s[i].cp == cp && s[i].levels.contains(v));
}

/// Row keys are unique.
pub open spec fn gen_entries_wf(s: Seq<GenEntryV>) -> bool {
    forall|i: int, j: int|
        0 <= i < j < s.len() ==> !((#[trigger] s[i]).cp == (#[trigger] s[j]).cp && s[i].part
            == s[j].part && s[i].level == s[j].level && s[i].kind == s[j].kind)
}

/// The per-level metric distributions: under `(cp, part, level, kind)`,
/// every observation the fit phase collected for that metric at that level.
pub struct LevelGenerator {
    pub entries: Vec<GenEntry>,
}

impl View for LevelGenerator {
    type V = Seq<GenEntryV>;

    open spec fn view(&self) -> Seq<GenEntryV> {
        Seq::new(self.entries@.len(), |i: int| self.entries@[i]@)
    }
}

/// With unique keys, any index holding the key is the one [`gen_idx`]
/// picks.
proof fn lemma_gen_idx_unique(
    s: Seq<GenEntryV>,
    cp: u32,
    part: u32,
    level: u32,
    kind: StatKind,
    i: int,
)
    requires
        gen_entries_wf(s),
        0 <= i < s.len(),
        gen_key_eq(s[i], cp, part, level, kind),
    ensures
        gen_has(s, cp, part, level, kind),
        gen_idx(s, cp, part, level, kind) == i,
{
    assert(gen_has(s, cp, part, level, kind));
    let j = gen_idx(s, cp, part, level, kind);
    if i < j {
        assert(!(s[i].cp == s[j].cp && s[i].part == s[j].part && s[i].level == s[j].level
            && s[i].kind == s[j].kind));
    } else if j < i {
        assert(!(s[j].cp == s[i].cp && s[j].part == s[i].part && s[j].level == s[i].level
            && s[j].kind == s[i].kind));
    }
}

/// Appending observations to row `i` changes only the samples of its key.
proof fn lemma_gen_update(
    s1: Seq<GenEntryV>,
    s2: Seq<GenEntryV>,
    i: int,
    cp: u32,
    part: u32,
    level: u32,
    kind: StatKind,
    tail: Seq<u32>,
)
    requires
        gen_entries_wf(s1),
        0 <= i < s1.len(),
        gen_key_eq(s1[i], cp, part, level, kind),
        s2 == s1.update(i, GenEntryV { cp, part, level, kind, samples: s1[i].samples + tail }),
    ensures
        gen_entries_wf(s2),
        forall|c: u32, p: u32, lv: u32, k: StatKind|
            #[trigger] gen_samples(s2, c, p, lv, k) == if c == cp && p == part && lv == level && k
                == kind {
                gen_samples(s1, cp, part, level, kind) + tail
            } else {
                gen_samples(s1, c, p, lv, k)
            },
{
    lemma_gen_idx_unique(s1, cp, part, level, kind, i);
    assert forall|a: int, b: int| 0 <= a < b < s2.len() implies !((#[trigger] s2[a]).cp == (
    #[trigger] s2[b]).cp && s2[a].part == s2[b].part && s2[a].level == s2[b].level && s2[a].kind
        == s2[b].kind) by {
        assert(!(s1[a].cp == s1[b].cp && s1[a].part == s1[b].part && s1[a].level == s1[b].level
            && s1[a].kind == s1[b].kind));
    }
    assert forall|c: u32, p: u32, lv: u32, k: StatKind|
        #[trigger] gen_samples(s2, c, p, lv, k) == if c == cp && p == part && lv == level && k
            == kind {
        gen_samples(s1, cp, part, level, kind) + tail
    } else {
        gen_samples(s1, c, p, lv, k)
    } by {
        if c == cp && p == part && lv == level && k == kind {
            lemma_gen_idx_unique(s2, cp, part, level, kind, i);
        } else {
            if gen_has(s1, c, p, lv, k) {
                let j = gen_idx(s1, c, p, lv, k);
                assert(gen_key_eq(s2[j], c, p, lv, k));
                lemma_gen_idx_unique(s2, c, p, lv, k, j);
            } else if gen_has(s2, c, p, lv, k) {
                let j = gen_idx(s2, c, p, lv, k);
                assert(gen_key_eq(s1[j], c, p, lv, k));
            }
        }
    }
}

/// Appending a fresh row changes only the samples of its key, which had
/// none before.
proof fn lemma_gen_append(
    s1: Seq<GenEntryV>,
    s2: Seq<GenEntryV>,
    cp: u32,
    part: u32,
    level: u32,
    kind: StatKind,
    tail: Seq<u32>,
)
    requires
        gen_entries_wf(s1),
        !gen_has(s1, cp, part, level, kind),
        s2 == s1.push(GenEntryV { cp, part, level, kind, samples: tail }),
    ensures
        gen_entries_wf(s2),
        forall|c: u32, p: u32, lv: u32, k: StatKind|
            #[trigger] gen_samples(s2, c, p, lv, k) == if c == cp && p == part && lv == level && k
                == kind {
                gen_samples(s1, cp, part, level, kind) + tail
            } else {
                gen_samples(s1, c, p, lv, k)
            },
{
    let n = s1.len() as int;
    assert forall|a: int, b: int| 0 <= a < b < s2.len() implies !((#[trigger] s2[a]).cp == (
    #[trigger] s2[b]).cp && s2[a].part == s2[b].part && s2[a].level == s2[b].level && s2[a].kind
        == s2[b].kind) by {
        if b < n {
            assert(!(s1[a].cp == s1[b].cp && s1[a].part == s1[b].part && s1[a].level == s1[b].level
                && s1[a].kind == s1[b].kind));
        } else {
            assert(!gen_key_eq(s1[a], cp, part, level, kind));
        }
    }
    assert forall|c: u32, p: u32, lv: u32, k: StatKind|
        #[trigger] gen_samples(s2, c, p, lv, k) == if c == cp && p == part && lv == level && k
            == kind {
        gen_samples(s1, cp, part, level, kind) + tail
    } else {
        gen_samples(s1, c, p, lv, k)
    } by {
        if c == cp && p == part && lv == level && k == kind {
            lemma_gen_idx_unique(s2, cp, part, level, kind, n);
            assert(gen_samples(s1, cp, part, level, kind) =~= Seq::<u32>::empty());
            assert(gen_samples(s2, cp, part, level, kind) =~= gen_samples(
                s1,
                cp,
                part,
                level,
                kind,
            ) + tail);
        } else {
            if gen_has(s1, c, p, lv, k) {
                let j = gen_idx(s1, c, p, lv, k);
                assert(gen_key_eq(s2[j], c, p, lv, k));
                lemma_gen_idx_unique(s2, c, p, lv, k, j);
            } else if gen_has(s2, c, p, lv, k) {
                let j = gen_idx(s2, c, p, lv, k);
                assert(gen_key_eq(s2[j], c, p, lv, k));
                assert(j < n || gen_key_eq(s2[j], cp, part, level, kind));
                assert(gen_key_eq(s1[j], c, p, lv, k));
            }
        }
    }
}

impl LevelGenerator {
    pub open spec fn wf(&self) -> bool {
        gen_entries_wf(self@)
    }

    /// An empty store.
    pub fn new() -> (r: LevelGenerator)
        ensures
            r@.len() == 0,
            r.wf(),
    {
        LevelGenerator { entries: Vec::new() }
    }

    /// Index of the row with the full key, if any.
    fn find(&self, cp: u32, part: u32, level: u32, kind: StatKind) -> (r: Option<usize>)
        ensures
            match r {
                Some(i) => i < self@.len() && gen_key_eq(self@[i as int], cp, part, level, kind),
                None => !gen_has(self@, cp, part, level, kind),
            },
    {
        let n = self.entries.len();
        for i in 0..n
            invariant
                n == self@.len(),
                forall|j: int|
                    0 <= j < i ==> !gen_key_eq(#[trigger] self@[j], cp, part, level, kind),
        {
            let e = &self.entries[i];
            if e.cp == cp && e.part == part && e.level == level && e.kind == kind {
                return Some(i);
            }
        }
        None
    }

    /// Appends the observations of one level under its full key.
    fn append_bucket(&mut self, cp: u32, part: u32, level: u32, kind: StatKind, vals: &Vec<u32>)
        requires
            old(self).wf(),
        ensures
            final(self).wf(),
            forall|c: u32, p: u32, lv: u32, k: StatKind|
                #[trigger] gen_samples(final(self)@, c, p, lv, k) == if c == cp && p == part && lv
                    == level && k == kind {
                    gen_samples(old(self)@, cp, part, level, kind) + vals@
                } else {
                    gen_samples(old(self)@, c, p, lv, k)
                },
    {
        let found = self.find(cp, part, level, kind);
        match found {
            Some(i) => {
                let m = vals.len();
                let mut combined = copy_u32s(&self.entries[i].samples);
                assert(combined@ =~= old(self)@[i as int].samples + vals@.take(0));
                for k in 0..m
                    invariant
                        m == vals@.len(),
                        i < self@.len(),
                        self@ == old(self)@,
                        combined@ == old(self)@[i as int].samples + vals@.take(k as int),
                {
                    combined.push(vals[k]);
                    assert(combined@ =~= old(self)@[i as int].samples + vals@.take(k + 1));
                }
                assert(combined@ == old(self)@[i as int].samples + vals@) by {
                    assert(vals@.take(vals@.len() as int) =~= vals@);
                }
                self.entries.set(i, GenEntry { cp, part, level, kind, samples: combined });
                assert(self@ =~= old(self)@.update(
                    i as int,
                    GenEntryV {
                        cp,
                        part,
                        level,
                        kind,
                        samples: old(self)@[i as int].samples + vals@,
                    },
                ));
                proof {
                    lemma_gen_update(old(self)@, self@, i as int, cp, part, level, kind, vals@);
                }
            },
            None => {
                let copied = copy_u32s(vals);
                self.entries.push(GenEntry { cp, part, level, kind, samples: copied });
                assert(self@ =~= old(self)@.push(
                    GenEntryV { cp, part, level, kind, samples: vals@ },
                ));
                proof {
                    lemma_gen_append(old(self)@, self@, cp, part, level, kind, vals@);
                }
            },
        }
    }

    /// Records one graph's observations of the metric `kind`: for each
    /// level `l`, the values `per_level[l]` go under
    /// `(cp, part, l, kind)`.  No other key changes.
    pub fn add_statistic(&mut self, cp: u32, part: u32, kind: StatKind, per_level: &Vec<Vec<u32>>)
        requires
            old(self).wf(),
            per_level@.len() <= u32::MAX,
        ensures
            final(self).wf(),
            forall|c: u32, p: u32, lv: u32, k: StatKind|
                #[trigger] gen_samples(final(self)@, c, p, lv, k) == if c == cp && p == part && k
                    == kind && lv < per_level@.len() {
                    gen_samples(old(self)@, c, p, lv, k) + per_level@[lv as int]@
                } else {
                    gen_samples(old(self)@, c, p, lv, k)
                },
    {
        let n = per_level.len();
        for l in 0..n
            invariant
                n == per_level@.len(),
                n <= u32::MAX,
                self.wf(),
                forall|c: u32, p: u32, lv: u32, k: StatKind|
                    #[trigger] gen_samples(self@, c, p, lv, k) == if c == cp && p == part && k
                        == kind && lv < l {
                        gen_samples(old(self)@, c, p, lv, k) + per_level@[lv as int]@
                    } else {
                        gen_samples(old(self)@, c, p, lv, k)
                    },
        {
            let ghost mid = self@;
            self.append_bucket(cp, part, l as u32, kind, &per_level[l]);
            assert forall|c: u32, p: u32, lv: u32, k: StatKind|
                #[trigger] gen_samples(self@, c, p, lv, k) == if c == cp && p == part && k == kind
                    && lv < l + 1 {
                gen_samples(old(self)@, c, p, lv, k) + per_level@[lv as int]@
            } else {
                gen_samples(old(self)@, c, p, lv, k)
            } by {
                if c == cp && p == part && k == kind && lv == l as u32 {
                    assert(gen_samples(mid, c, p, lv, k) == gen_samples(old(self)@, c, p, lv, k));
                } else {
                    assert(gen_samples(self@, c, p, lv, k) == gen_samples(mid, c, p, lv, k));
                }
            }
        }
    }

    /// Draws one observation for `(cp, part, level, kind)`.  When the exact
    /// key holds data the draw comes from it; otherwise the query falls
    /// back to the row under `(cp, kind)` nearest in `(part, level)`.  It
    /// errs exactly when no row under `(cp, kind)` holds anything.
    pub fn get_statistic(
        &self,
        rng: &mut rand::rngs::StdRng,
        cp: u32,
        part: u32,
        level: u32,
        kind: StatKind,
    ) -> (r: Result<u32, SynthError>)
        requires
            self.wf(),
        ensures
            r is Ok <==> gen_has_any(self@, cp, kind),
            r is Err ==> r == Err::<u32, SynthError>(SynthError::DistributionExhausted),
            r is Ok ==> stat_observed(self@, cp, kind, r.unwrap()),
            r is Ok ==> exists|i: int|
                0 <= i < self@.len() && gen_matches(#[trigger] self@[i], cp, kind)
                    && self@[i].samples.contains(r.unwrap()) && (forall|j: int|
                    0 <= j < self@.len() && gen_matches(#[trigger] self@[j], cp, kind)
                        ==> gen_score(self@[i], part, level) <= gen_score(self@[j], part, level)),
            gen_samples(self@, cp, part, level, kind).len() > 0 ==> r is Ok && gen_samples(
                self@,
                cp,
                part,
                level,
                kind,
            ).contains(r.unwrap()),
    {
        let n = self.entries.len();
        let mut dists: Vec<Option<u64>> = Vec::new();
        for i in 0..n
            invariant
                n == self@.len(),
                dists@.len() == i,
                forall|j: int|
                    0 <= j < i ==> ((#[trigger] dists@[j]) is Some <==> gen_matches(
                        self@[j],
                        cp,
                        kind,
                    )),
                forall|j: int|
                    0 <= j < i && (#[trigger] dists@[j]) is Some ==> dists@[j].unwrap() as int
                        == gen_score(self@[j], part, level),
        {
            let e = &self.entries[i];
            if e.cp == cp && e.kind == kind && e.samples.len() > 0 {
                let pd: u64 = if e.part >= part {
                    (e.part - part) as u64
                } else {
                    (part - e.part) as u64
                };
                let ld: u64 = if e.level >= level {
                    (e.level - level) as u64
                } else {
                    (level - e.level) as u64
                };
                let score: u64 = pd * 0x1_0000_0000u64 + ld;
                assert(score == gen_score(self@[i as int], part, level));
                assert(gen_matches(self@[i as int], cp, kind));
                dists.push(Some(score));
            } else {
                assert(!gen_matches(self@[i as int], cp, kind));
                dists.push(None);
            }
        }
        match nearest_index(&dists) {
            Some(best_i) => {
                proof {
                    assert(dists@[best_i as int] is Some);
                    assert(gen_matches(self@[best_i as int], cp, kind));
                }
                let v = sample_from(rng, &self.entries[best_i].samples);
                proof {
                    assert forall|j: int|
                        0 <= j < self@.len() && gen_matches(#[trigger] self@[j], cp, kind)
                        implies gen_score(self@[best_i as int], part, level) <= gen_score(
                        self@[j],
                        part,
                        level,
                    ) by {
                        assert(dists@[j] is Some);
                        assert(dists@[best_i as int].unwrap() <= dists@[j].unwrap());
                    }
                    if gen_samples(self@, cp, part, level, kind).len() > 0 {
                        let i0 = gen_idx(self@, cp, part, level, kind);
                        assert(0 <= i0 < self@.len() && gen_key_eq(
                            self@[i0],
                            cp,
                            part,
                            level,
                            kind,
                        ));
                        assert(gen_matches(self@[i0], cp, kind));
                        assert(gen_score(self@[i0], part, level) == 0);
                        assert(gen_score(self@[best_i as int], part, level) <= 0);
                        assert(key_dist(self@[best_i as int].part, part) * 0x1_0000_0000 >= 0);
                        assert(key_dist(self@[best_i as int].part, part) == 0 && key_dist(
                            self@[best_i as int].level,
                            level,
                        ) == 0);
                        assert(self@[best_i as int].part == part && self@[best_i as int].level
                            == level);
                        lemma_gen_idx_unique(self@, cp, part, level, kind, best_i as int);
                    }
                }
                Ok(v)
            },
            None => {
                proof {
                    if gen_has_any(self@, cp, kind) {
                        let j = choose|j: int|
                            0 <= j < self@.len() && gen_matches(#[trigger] self@[j], cp, kind);
                        assert(dists@[j] is Some);
                    }
                }
                Err(SynthError::DistributionExhausted)
            },
        }
    }

    /// Hands the store's rows out for persistence; nothing is lost or
    /// reordered.
    pub fn into_entries(self) -> (r: Vec<GenEntry>)
        ensures
            r@.len() == self@.len(),
            forall|i: int| 0 <= i < r@.len() ==> (#[trigger] r@[i])@ == self@[i],
    {
        self.entries
    }

    /// Rebuilds a store from persisted rows, refusing rows that break the
    /// store invariant.
    pub fn from_entries(entries: Vec<GenEntry>) -> (r: Result<LevelGenerator, SynthError>)
        ensures
            match r {
                Ok(s) => s.wf() && s@.len() == entries@.len() && (forall|i: int|
                    0 <= i < entries@.len() ==> s@[i] == (#[trigger] entries@[i])@),
                Err(e) => e == SynthError::MalformedStore && !gen_entries_wf(
                    Seq::new(entries@.len(), |i: int| entries@[i]@),
                ),
            },
    {
        let ghost v = Seq::new(entries@.len(), |i: int| entries@[i]@);
        let n = entries.len();
        for i in 0..n
            invariant
                n == entries@.len(),
                v == Seq::new(entries@.len(), |i: int| entries@[i]@),
                forall|a: int, b: int|
                    0 <= a < b < i ==> !((#[trigger] v[a]).cp == (#[trigger] v[b]).cp && v[a].part
                        == v[b].part && v[a].level == v[b].level && v[a].kind == v[b].kind),
        {
            for j in 0..i
                invariant
                    n == entries@.len(),
                    i < n,
                    v == Seq::new(entries@.len(), |i: int| entries@[i]@),
                    forall|b: int|
                        0 <= b < j ==> !((#[trigger] v[b]).cp == v[i as int].cp && v[b].part
                            == v[i as int].part && v[b].level == v[i as int].level && v[b].kind
                            == v[i as int].kind),
            {
                let ej = &entries[j];
                let ei = &entries[i];
                if ej.cp == ei.cp && ej.part == ei.part && ej.level == ei.level && ej.kind
                    == ei.kind {
                    assert(v[j as int].cp == v[i as int].cp && v[j as int].part == v[i as int].part
                        && v[j as int].level == v[i as int].level && v[j as int].kind
                        == v[i as int].kind);
                    return Err(SynthError::MalformedStore);
                }
            }
        }
        let s = LevelGenerator { entries };
        assert(s@ =~= v);
        Ok(s)
    }
}

} // verus!

verus! {

/// Persisting a well-formed store and reloading it yields a store with
/// exactly the same observation sets under every key, so sampling draws
/// from the same data after a reload.
pub fn cp_store_round_trip(s: CpStatistic) -> (r: CpStatistic)
    requires
        s.wf(),
    ensures
        r.wf(),
        r@ == s@,
{
    let ghost v = s@;
    let entries = s.into_entries();
    let ghost ev = entries@;
    match CpStatistic::from_entries(entries) {
        Ok(r) => {
            assert forall|i: int| 0 <= i < r@.len() implies r@[i] == v[i] by {
                assert(ev[i]@ == v[i]);
                assert(r@[i] == ev[i]@);
            }
            assert(r@ =~= v);
            r
        },
        Err(e) => {
            proof {
                assert(Seq::new(ev.len(), |i: int| ev[i]@) =~= v);
            }
            assert(false);
            CpStatistic::new()
        },
    }
}

/// As [`cp_store_round_trip`], for the level-assignment store.
pub fn lvl_store_round_trip(s: StructStatistic) -> (r: StructStatistic)
    requires
        s.wf(),
    ensures
        r.wf(),
        r@ == s@,
{
    let ghost v = s@;
    let entries = s.into_entries();
    let ghost ev = entries@;
    match StructStatistic::from_entries(entries) {
        Ok(r) => {
            assert forall|i: int| 0 <= i < r@.len() implies r@[i] == v[i] by {
                assert(ev[i]@ == v[i]);
                assert(r@[i] == ev[i]@);
            }
            assert(r@ =~= v);
            r
        },
        Err(e) => {
            proof {
                assert(Seq::new(ev.len(), |i: int| ev[i]@) =~= v);
            }
            assert(false);
            StructStatistic::new()
        },
    }
}

/// As [`cp_store_round_trip`], for the per-level metric store.
pub fn gen_store_round_trip(s: LevelGenerator) -> (r: LevelGenerator)
    requires
        s.wf(),
    ensures
        r.wf(),
        r@ == s@,
{
    let ghost v = s@;
    let entries = s.into_entries();
    let ghost ev = entries@;
    match LevelGenerator::from_entries(entries) {
        Ok(r) => {
            assert forall|i: int| 0 <= i < r@.len() implies r@[i] == v[i] by {
                assert(ev[i]@ == v[i]);
                assert(r@[i] == ev[i]@);
            }
            assert(r@ =~= v);
            r
        },
        Err(e) => {
            proof {
                assert(Seq::new(ev.len(), |i: int| ev[i]@) =~= v);
            }
            assert(false);
            LevelGenerator::new()
        },
    }
}

} // verus!
