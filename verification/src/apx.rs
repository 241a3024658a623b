//! The randomized approximation of the minimum connected cut, as a state
//! machine.  Each of `capacity` rounds walks from the source: it takes the
//! current vertex into its cut, adds the vertices with positive flow that
//! the current vertex has edges to (and that are not in the cut yet) to the
//! candidates, and lets the caller pick the next vertex among all
//! candidates gathered so far, until the cut holds `capacity` vertices; no
//! pick is asked for once it does, so a round of capacity 1 is the source
//! alone.
//! The smallest cut of all rounds is kept.  Picking at random, weighted by
//! flow, is the caller's part.
use vstd::prelude::*;
use std::collections::HashSet;
use crate::cut::{view_ok, crossing_count, size_of_cut, lemma_crossing_count_bound, FlowView};

verus! {

broadcast use vstd::std_specs::hash::group_hash_axioms;

/// The flow graph has the edge `u -> w`.
pub open spec fn has_edge(edges: Seq<(u32, u32)>, u: u32, w: u32) -> bool {
    exists|k: int| 0 <= k < edges.len() && #[trigger] edges[k] == (u, w)
}

/// `order` lists the vertices of a walk's cut in the order they joined:
/// the source first, then each vertex with positive flow and an edge to it
/// from a vertex that joined before.
pub open spec fn is_walk(edges: Seq<(u32, u32)>, positive: Seq<bool>, source: u32, order: Seq<u32>) -> bool {
    &&& order.no_duplicates()
    &&& order.len() > 0 ==> order[0] == source
    &&& forall|i: int| 0 < i < order.len() ==> (#[trigger] order[i]) < positive.len() && positive[order[i] as int]
        && exists|j: int| 0 <= j < i && has_edge(edges, #[trigger] order[j], order[i])
}

/// The candidates of a walk: vertices with positive flow that a vertex of
/// the walk has an edge to, and that were not in the cut when that vertex
/// joined.
pub open spec fn candidates_of(edges: Seq<(u32, u32)>, positive: Seq<bool>, order: Seq<u32>) -> Set<u32> {
    Set::new(|w: u32| w < positive.len() && positive[w as int]
        && exists|j: int| 0 <= j < order.len() && has_edge(edges, #[trigger] order[j], w) && !order.take(j + 1).contains(w))
}

/// The walk after the current vertex `c` joins it.
pub open spec fn walk_with(order: Seq<u32>, c: u32) -> Seq<u32> {
    if order.contains(c) { order } else { order.push(c) }
}

/// The vertices with positive flow that `c` has an edge to and that are
/// not in `cut`.
pub open spec fn fresh_targets(edges: Seq<(u32, u32)>, positive: Seq<bool>, c: u32, cut: Seq<u32>) -> Set<u32> {
    Set::new(|w: u32| w < positive.len() && positive[w as int] && has_edge(edges, c, w) && !cut.contains(w))
}

/// A vertex that joins the walk brings its fresh targets as candidates.
pub proof fn lemma_candidates_grow(edges: Seq<(u32, u32)>, positive: Seq<bool>, order: Seq<u32>, c: u32)
    requires
        !order.contains(c),
    ensures
        candidates_of(edges, positive, order.push(c)) == candidates_of(edges, positive, order).union(
            fresh_targets(edges, positive, c, order.push(c))),
{
    let o2 = order.push(c);
    let n1 = candidates_of(edges, positive, order);
    let n2 = candidates_of(edges, positive, o2);
    let f = fresh_targets(edges, positive, c, o2);
    assert forall|w: u32| n2.contains(w) implies n1.union(f).contains(w) by {
        let j = choose|j: int| 0 <= j < o2.len() && has_edge(edges, #[trigger] o2[j], w) && !o2.take(j + 1).contains(w);
        if j < order.len() {
            assert(o2.take(j + 1) =~= order.take(j + 1));
            assert(order[j] == o2[j]);
            assert(n1.contains(w));
        } else {
            assert(o2.take(j + 1) =~= o2);
            assert(f.contains(w));
        }
    }
    assert forall|w: u32| n1.union(f).contains(w) implies n2.contains(w) by {
        if n1.contains(w) {
            let j = choose|j: int| 0 <= j < order.len() && has_edge(edges, #[trigger] order[j], w) && !order.take(j + 1).contains(w);
            assert(o2.take(j + 1) =~= order.take(j + 1));
            assert(order[j] == o2[j]);
            assert(has_edge(edges, o2[j], w) && !o2.take(j + 1).contains(w));
        } else {
            let j = order.len() as int;
            assert(o2.take(j + 1) =~= o2);
            assert(o2[j] == c);
            assert(has_edge(edges, o2[j], w) && !o2.take(j + 1).contains(w));
        }
    }
    assert(n2 =~= n1.union(f));
}

/// A vertex that is already in the walk brings no new candidates.
pub proof fn lemma_candidates_stay(edges: Seq<(u32, u32)>, positive: Seq<bool>, order: Seq<u32>, c: u32)
    requires
        order.contains(c),
    ensures
        fresh_targets(edges, positive, c, order).subset_of(candidates_of(edges, positive, order)),
{
    let j = choose|j: int| 0 <= j < order.len() && order[j] == c;
    assert forall|w: u32| fresh_targets(edges, positive, c, order).contains(w) implies candidates_of(edges, positive, order).contains(w) by {
        assert forall|x: u32| order.take(j + 1).contains(x) implies order.contains(x) by {
            let t = order.take(j + 1);
            let i = choose|i: int| 0 <= i < t.len() && #[trigger] t[i] == x;
            assert(order[i] == x);
        }
        assert(has_edge(edges, order[j], w) && !order.take(j + 1).contains(w));
    }
}

/// The vertices that the first `k` edges lead to from `c`.
pub open spec fn targets_before(edges: Seq<(u32, u32)>, c: u32, k: int) -> Set<u32> {
    Set::new(|w: u32| exists|q: int| 0 <= q < k && #[trigger] edges[q] == (c, w))
}

proof fn lemma_targets_step(edges: Seq<(u32, u32)>, c: u32, k: int)
    requires
        0 <= k < edges.len(),
    ensures
        targets_before(edges, c, k + 1) == if edges[k].0 == c {
            targets_before(edges, c, k).insert(edges[k].1)
        } else {
            targets_before(edges, c, k)
        },
{
    let t0 = targets_before(edges, c, k);
    let t1 = targets_before(edges, c, k + 1);
    assert forall|w: u32| t1.contains(w) implies (if edges[k].0 == c { t0.insert(edges[k].1) } else { t0 }).contains(w) by {
        let q = choose|q: int| 0 <= q < k + 1 && #[trigger] edges[q] == (c, w);
        if q < k {
            assert(t0.contains(w));
        }
    }
    assert forall|w: u32| (if edges[k].0 == c { t0.insert(edges[k].1) } else { t0 }).contains(w) implies t1.contains(w) by {
        if t0.contains(w) {
            let q = choose|q: int| 0 <= q < k && #[trigger] edges[q] == (c, w);
            assert(0 <= q < k + 1 && edges[q] == (c, w));
        } else {
            assert(edges[k] == (c, w));
            assert(0 <= k < k + 1 && edges[k] == (c, w));
        }
    }
    assert(t1 =~= if edges[k].0 == c { t0.insert(edges[k].1) } else { t0 });
}

fn vec_contains(v: &Vec<u32>, x: u32) -> (r: bool)
    ensures
        r == v@.contains(x),
{
    let mut i: usize = 0;
    while i < v.len()
        invariant
            i <= v@.len(),
            forall|j: int| 0 <= j < i ==> v@[j] != x,
        decreases v@.len() - i,
    {
        if v[i] == x {
            return true;
        }
        i = i + 1;
    }
    false
}

/// What the caller does next.
pub enum ApxStep {
    /// Pick the next vertex among these candidates.
    Choose(Vec<u32>),
    /// The cut of the round holds `capacity` vertices and needs no more
    /// pick: the next step measures it.
    Full,
    /// All rounds are over.
    Done,
}

/// The state of the approximation.
pub struct Approximation {
    edges: Vec<(u32, u32)>,
    positive: Vec<bool>,
    capacity: u32,
    source: u32,
    rounds: u32,
    in_round: bool,
    awaiting: bool,
    cut: HashSet<u32>,
    order: Ghost<Seq<u32>>,
    current: u32,
    neighbours: Vec<u32>,
    best: HashSet<u32>,
    best_order: Ghost<Seq<u32>>,
    best_size: usize,
    sizes: Ghost<Seq<nat>>,
}

impl Approximation {
    pub closed spec fn edges(&self) -> Seq<(u32, u32)> {
        self.edges@
    }

    pub closed spec fn positive(&self) -> Seq<bool> {
        self.positive@
    }

    pub closed spec fn capacity(&self) -> u32 {
        self.capacity
    }

    pub closed spec fn source(&self) -> u32 {
        self.source
    }

    /// How many rounds have started.
    pub closed spec fn rounds(&self) -> u32 {
        self.rounds
    }

    pub closed spec fn in_round(&self) -> bool {
        self.in_round
    }

    /// A pick is awaited.
    pub closed spec fn awaiting(&self) -> bool {
        self.awaiting
    }

    /// The walk of the current round.
    pub closed spec fn walk(&self) -> Seq<u32> {
        self.order@
    }

    /// The vertex that joins the walk next.
    pub closed spec fn current(&self) -> u32 {
        self.current
    }

    /// The candidates gathered in the current round, in the order found.
    pub closed spec fn candidates(&self) -> Seq<u32> {
        self.neighbours@
    }

    /// The walk of the smallest cut so far.
    pub closed spec fn best_walk(&self) -> Seq<u32> {
        self.best_order@
    }

    /// The size of the smallest cut so far (`usize::MAX` before any).
    pub closed spec fn best_size(&self) -> usize {
        self.best_size
    }

    /// The cut size of each finished round.
    pub closed spec fn round_sizes(&self) -> Seq<nat> {
        self.sizes@
    }

    pub closed spec fn wf(&self) -> bool {
        let n = self.positive@.len();
        let e = self.edges@;
        let p = self.positive@;
        &&& view_ok(e, n)
        &&& e.len() < usize::MAX
        &&& self.rounds <= self.capacity
        &&& is_walk(e, p, self.source, self.order@)
        &&& self.order@.to_set() == self.cut@
        &&& self.order@.len() <= self.capacity
        &&& self.neighbours@.no_duplicates()
        &&& self.neighbours@.to_set() == candidates_of(e, p, self.order@)
        &&& (self.in_round ==> self.rounds >= 1)
        &&& (!self.in_round ==> self.order@.len() == 0 && self.neighbours@.len() == 0)
        &&& (self.awaiting ==> self.in_round && self.order@.len() >= 1)
        &&& (self.in_round && !self.awaiting ==> (self.order@.len() == 0 && self.current == self.source
            && self.neighbours@.len() == 0) || (self.order@.len() >= 1 && candidates_of(e, p, self.order@).contains(self.current))
            || self.order@.len() >= self.capacity)
        &&& self.sizes@.len() == self.rounds - (if self.in_round { 1int } else { 0int })
        &&& is_walk(e, p, self.source, self.best_order@)
        &&& self.best_order@.to_set() == self.best@
        &&& (self.best_size < usize::MAX ==> self.best_order@.len() == self.capacity
            && self.best_size == crossing_count(e, self.best@, e.len() as int) && self.sizes@.contains(self.best_size as nat))
        &&& (self.best_size == usize::MAX ==> self.best_order@.len() == 0 && self.sizes@.len() == 0)
        &&& forall|i: int| 0 <= i < self.sizes@.len() ==> self.best_size <= #[trigger] self.sizes@[i]
    }

    /// Starts an approximation with `capacity` rounds on a flow graph.
    pub fn new(view: FlowView, capacity: u32, source: u32) -> (a: Self)
        requires
            view_ok(view.edges@, view.positive@.len()),
            view.edges@.len() < usize::MAX,
        ensures
            a.wf(),
            a.edges() == view.edges@,
            a.positive() == view.positive@,
            a.capacity() == capacity,
            a.source() == source,
            a.rounds() == 0,
            !a.in_round(),
            !a.awaiting(),
            a.best_size() == usize::MAX,
            a.round_sizes() == Seq::<nat>::empty(),
            a.walk() == Seq::<u32>::empty(),
            a.candidates() == Seq::<u32>::empty(),
            a.best_walk() == Seq::<u32>::empty(),
    {
        let a = Approximation {
            edges: view.edges,
            positive: view.positive,
            capacity,
            source,
            rounds: 0,
            in_round: false,
            awaiting: false,
            cut: HashSet::new(),
            order: Ghost(Seq::empty()),
            current: source,
            neighbours: Vec::new(),
            best: HashSet::new(),
            best_order: Ghost(Seq::empty()),
            best_size: usize::MAX,
            sizes: Ghost(Seq::empty()),
        };
        proof {
            assert(a.order@.to_set() =~= a.cut@);
            assert(a.best_order@.to_set() =~= a.best@);
            assert(a.neighbours@.to_set() =~= candidates_of(a.edges@, a.positive@, a.order@));
        }
        a
    }

    /// The current vertex joins the walk and brings its fresh targets as
    /// candidates; then a pick is awaited.
    fn expand(&mut self)
        requires
            old(self).wf(),
            old(self).in_round,
            !old(self).awaiting,
            old(self).order@.len() < old(self).capacity,
        ensures
            final(self).wf(),
            final(self).awaiting == (final(self).order@.len() < final(self).capacity),
            final(self).in_round,
            final(self).order@ == walk_with(old(self).order@, old(self).current),
            final(self).current == old(self).current,
            final(self).rounds == old(self).rounds,
            final(self).best_order == old(self).best_order,
            final(self).best_size == old(self).best_size,
            final(self).sizes == old(self).sizes,
            final(self).edges == old(self).edges,
            final(self).positive == old(self).positive,
            final(self).capacity == old(self).capacity,
            final(self).source == old(self).source,
    {
        let c = self.current;
        let ghost e = self.edges@;
        let ghost p = self.positive@;
        let ghost order0 = self.order@;
        let ghost n0 = self.neighbours@.to_set();
        let is_new = !self.cut.contains(&c);
        if is_new {
            self.cut.insert(c);
            self.order = Ghost(self.order@.push(c));
            proof {
                assert(self.order@.to_set() =~= order0.to_set().insert(c)) by {
                    assert forall|x: u32| self.order@.contains(x) <==> order0.contains(x) || x == c by {
                        vstd::seq_lib::lemma_seq_contains_after_push(order0, c, x);
                    }
                }
                lemma_candidates_grow(e, p, order0, c);
                if order0.len() == 0 {
                    assert(self.order@ =~= seq![c]);
                } else {
                    assert(candidates_of(e, p, order0).contains(c));
                    let j = choose|j: int| 0 <= j < order0.len() && has_edge(e, #[trigger] order0[j], c) && !order0.take(j + 1).contains(c);
                    assert(self.order@[order0.len() as int] == c);
                    assert(self.order@[j] == order0[j]);
                }
                assert forall|i: int| 0 < i < self.order@.len() implies (#[trigger] self.order@[i]) < p.len() && p[self.order@[i] as int]
                    && exists|j: int| 0 <= j < i && has_edge(e, #[trigger] self.order@[j], self.order@[i]) by {
                    if i < order0.len() {
                        assert(self.order@[i] == order0[i]);
                        let j = choose|j: int| 0 <= j < i && has_edge(e, #[trigger] order0[j], order0[i]);
                        assert(self.order@[j] == order0[j]);
                    } else {
                        let j = choose|j: int| 0 <= j < order0.len() && has_edge(e, #[trigger] order0[j], c) && !order0.take(j + 1).contains(c);
                        assert(self.order@[j] == order0[j]);
                    }
                }
            }
        } else {
            proof {
                lemma_candidates_stay(e, p, order0, c);
            }
        }
        let ghost cut1 = self.order@;
        let m = self.edges.len();
        let mut nb: Vec<u32> = Vec::new();
        std::mem::swap(&mut nb, &mut self.neighbours);
        let mut k: usize = 0;
        while k < m
            invariant
                k <= m == e.len(),
                e == self.edges@,
                p == self.positive@,
                view_ok(e, p.len()),
                cut1.to_set() == self.cut@,
                nb@.no_duplicates(),
                nb@.to_set() == n0.union(Set::new(|w: u32| w < p.len() && p[w as int]
                    && targets_before(e, c, k as int).contains(w) && !cut1.contains(w))),
            decreases m - k,
        {
            let (a, b) = self.edges[k];
            let ghost before = nb@;
            let ghost old_set = nb@.to_set();
            proof {
                lemma_targets_step(e, c, k as int);
                assert(e[k as int] == (a, b));
                assert(b < p.len());
            }
            let fresh = a == c && !self.cut.contains(&b) && self.positive[b as usize];
            if fresh && !vec_contains(&nb, b) {
                nb.push(b);
                proof {
                    assert forall|x: u32| nb@.contains(x) <==> before.contains(x) || x == b by {
                        vstd::seq_lib::lemma_seq_contains_after_push(before, b, x);
                    }
                    assert(nb@.to_set() =~= old_set.insert(b));
                }
            }
            proof {
                let target = n0.union(Set::new(|w: u32| w < p.len() && p[w as int]
                    && targets_before(e, c, k + 1).contains(w) && !cut1.contains(w)));
                assert forall|w: u32| nb@.to_set().contains(w) <==> target.contains(w) by {
                    if w == b && a == c {
                        assert(targets_before(e, c, k + 1).contains(w));
                        if fresh {
                            assert(!cut1.contains(w));
                        }
                    }
                }
                assert(nb@.to_set() =~= target);
            }
            k = k + 1;
        }
        self.neighbours = nb;
        proof {
            let added = Set::new(|w: u32| w < p.len() && p[w as int]
                && targets_before(e, c, m as int).contains(w) && !cut1.contains(w));
            assert(added =~= fresh_targets(e, p, c, cut1)) by {
                assert forall|w: u32| targets_before(e, c, m as int).contains(w) <==> has_edge(e, c, w) by {
                    if has_edge(e, c, w) {
                        let q = choose|q: int| 0 <= q < e.len() && #[trigger] e[q] == (c, w);
                        assert(0 <= q < m && e[q] == (c, w));
                    }
                }
            }
            if is_new {
                assert(self.neighbours@.to_set() =~= candidates_of(e, p, self.order@));
            } else {
                assert(cut1 == order0);
                assert(self.neighbours@.to_set() =~= candidates_of(e, p, self.order@));
            }
        }
        self.awaiting = self.cut.len() < self.capacity as usize;
        proof {
            self.order@.unique_seq_to_set();
        }
    }

    /// The round is over: its cut is measured, and kept when it is the
    /// smallest so far.
    fn finish_round(&mut self)
        requires
            old(self).wf(),
            old(self).in_round,
            !old(self).awaiting,
            old(self).order@.len() >= old(self).capacity,
        ensures
            final(self).wf(),
            !final(self).in_round,
            !final(self).awaiting,
            ({
                let size = crossing_count(old(self).edges@, old(self).order@.to_set(), old(self).edges@.len() as int);
                let better = size < old(self).best_size;
                &&& final(self).sizes@ == old(self).sizes@.push(size)
                &&& final(self).best_order@ == if better { old(self).order@ } else { old(self).best_order@ }
                &&& final(self).best_size == if better { size as usize } else { old(self).best_size }
            }),
            final(self).rounds == old(self).rounds,
            final(self).edges == old(self).edges,
            final(self).positive == old(self).positive,
            final(self).capacity == old(self).capacity,
            final(self).source == old(self).source,
    {
        let size = size_of_cut(&self.cut, &self.edges);
        proof {
            lemma_crossing_count_bound(self.edges@, self.cut@, self.edges@.len() as int);
        }
        let ghost size_n = size as nat;
        self.sizes = Ghost(self.sizes@.push(size_n));
        let mut fresh: HashSet<u32> = HashSet::new();
        std::mem::swap(&mut fresh, &mut self.cut);
        if size < self.best_size {
            self.best = fresh;
            self.best_order = Ghost(self.order@);
            self.best_size = size;
        }
        self.order = Ghost(Seq::empty());
        self.neighbours = Vec::new();
        self.in_round = false;
        proof {
            assert(self.order@.to_set() =~= self.cut@);
            assert(self.neighbours@.to_set() =~= candidates_of(self.edges@, self.positive@, self.order@));
            assert(self.sizes@.contains(self.best_size as nat)) by {
                if size < old(self).best_size {
                    assert(self.sizes@[self.sizes@.len() - 1] == size_n);
                } else {
                    let i = choose|i: int| 0 <= i < old(self).sizes@.len() && old(self).sizes@[i] == old(self).best_size as nat;
                    assert(self.sizes@[i] == old(self).sizes@[i]);
                }
            }
            assert forall|i: int| 0 <= i < self.sizes@.len() implies self.best_size <= #[trigger] self.sizes@[i] by {
                if i < old(self).sizes@.len() {
                    assert(self.sizes@[i] == old(self).sizes@[i]);
                }
            }
        }
    }

    /// Goes on until a pick is needed, the cut of the round is full, or all
    /// rounds are over: finishes the round whose cut is full, starts the
    /// next round from the source when none is under way, and lets the
    /// current vertex join the walk.  A pick is asked for only while the
    /// cut has room for another vertex.
    pub fn step(&mut self) -> (r: ApxStep)
        requires
            old(self).wf(),
            !old(self).awaiting(),
        ensures
            final(self).wf(),
            final(self).edges() == old(self).edges(),
            final(self).positive() == old(self).positive(),
            final(self).capacity() == old(self).capacity(),
            final(self).source() == old(self).source(),
            ({
                let fin = old(self).in_round() && old(self).walk().len() >= old(self).capacity();
                let size = crossing_count(old(self).edges(), old(self).walk().to_set(), old(self).edges().len() as int);
                let better = fin && size < old(self).best_size();
                let start = !old(self).in_round() || fin;
                &&& final(self).round_sizes() == if fin { old(self).round_sizes().push(size) } else { old(self).round_sizes() }
                &&& final(self).best_walk() == if better { old(self).walk() } else { old(self).best_walk() }
                &&& final(self).best_size() == if better { size as usize } else { old(self).best_size() }
                &&& (r is Done <==> start && old(self).rounds() >= old(self).capacity())
                &&& (r is Done ==> !final(self).in_round() && !final(self).awaiting() && final(self).rounds() == old(self).rounds())
                &&& (!(r is Done) ==> {
                    &&& final(self).in_round()
                    &&& final(self).rounds() == if start { (old(self).rounds() + 1) as u32 } else { old(self).rounds() }
                    &&& final(self).current() == if start { old(self).source() } else { old(self).current() }
                    &&& final(self).walk() == walk_with(if start { Seq::<u32>::empty() } else { old(self).walk() },
                        if start { old(self).source() } else { old(self).current() })
                })
                &&& (r matches ApxStep::Choose(cands) ==> {
                    &&& final(self).awaiting()
                    &&& cands@ == final(self).candidates()
                    &&& final(self).walk().len() < final(self).capacity()
                })
                &&& (r is Full <==> !(r is Done) && final(self).walk().len() >= final(self).capacity())
                &&& (r is Full ==> !final(self).awaiting() && final(self).walk().len() == final(self).capacity())
            }),
    {
        proof {
            self.order@.unique_seq_to_set();
        }
        if self.in_round && self.cut.len() >= self.capacity as usize {
            self.finish_round();
        }
        if !self.in_round {
            if self.rounds >= self.capacity {
                return ApxStep::Done;
            }
            self.rounds = self.rounds + 1;
            self.in_round = true;
            self.current = self.source;
        }
        self.expand();
        if !self.awaiting {
            return ApxStep::Full;
        }
        let mut cands: Vec<u32> = Vec::new();
        let mut i: usize = 0;
        while i < self.neighbours.len()
            invariant
                i <= self.neighbours@.len(),
                cands@ == self.neighbours@.take(i as int),
            decreases self.neighbours@.len() - i,
        {
            cands.push(self.neighbours[i]);
            assert(cands@ =~= self.neighbours@.take(i + 1));
            i = i + 1;
        }
        assert(cands@ =~= self.neighbours@);
        ApxStep::Choose(cands)
    }

    /// What holds of every state: the walk and the smallest cut so far are
    /// walks from the source over vertices with positive flow, each vertex
    /// reached by an edge from one that joined before; the candidates are
    /// exactly those of the walk; the smallest cut, once there is one,
    /// holds `capacity` vertices, and its size is the least of the sizes
    /// of all finished rounds.
    pub proof fn lemma_state(&self)
        requires
            self.wf(),
        ensures
            is_walk(self.edges(), self.positive(), self.source(), self.walk()),
            self.walk().len() <= self.capacity(),
            !self.in_round() ==> self.walk().len() == 0 && self.candidates().len() == 0,
            self.awaiting() ==> self.in_round() && self.walk().len() >= 1,
            self.candidates().no_duplicates(),
            self.candidates().to_set() == candidates_of(self.edges(), self.positive(), self.walk()),
            is_walk(self.edges(), self.positive(), self.source(), self.best_walk()),
            self.rounds() <= self.capacity(),
            self.round_sizes().len() == self.rounds() - (if self.in_round() { 1int } else { 0int }),
            self.best_size() < usize::MAX ==> self.best_walk().len() == self.capacity()
                && self.best_size() == crossing_count(self.edges(), self.best_walk().to_set(), self.edges().len() as int)
                && self.round_sizes().contains(self.best_size() as nat),
            self.best_size() == usize::MAX ==> self.best_walk().len() == 0 && self.round_sizes().len() == 0,
            forall|i: int| 0 <= i < self.round_sizes().len() ==> self.best_size() <= #[trigger] self.round_sizes()[i],
    {
    }

    /// When all rounds are over and there was at least one, the smallest
    /// cut is a walk of exactly `capacity` vertices from the source, and its
    /// size is the least of all rounds.
    pub proof fn lemma_done(&self)
        requires
            self.wf(),
            !self.in_round(),
            self.rounds() == self.capacity(),
            self.capacity() >= 1,
        ensures
            self.best_size() < usize::MAX,
            self.best_walk().len() == self.capacity(),
            self.best_walk()[0] == self.source(),
            is_walk(self.edges(), self.positive(), self.source(), self.best_walk()),
            self.best_size() == crossing_count(self.edges(), self.best_walk().to_set(), self.edges().len() as int),
            self.round_sizes().len() == self.capacity(),
            forall|i: int| 0 <= i < self.round_sizes().len() ==> self.best_size() <= #[trigger] self.round_sizes()[i],
    {
    }

    /// A pick is awaited.
    pub fn is_awaiting(&self) -> (r: bool)
        ensures
            r == self.awaiting(),
    {
        self.awaiting
    }

    /// The caller picked `v` among the candidates.
    pub fn pick(&mut self, v: u32)
        requires
            old(self).wf(),
            old(self).awaiting(),
            old(self).candidates().contains(v),
        ensures
            final(self).wf(),
            !final(self).awaiting(),
            final(self).current() == v,
            final(self).in_round(),
            final(self).walk() == old(self).walk(),
            final(self).candidates() == old(self).candidates(),
            final(self).rounds() == old(self).rounds(),
            final(self).best_walk() == old(self).best_walk(),
            final(self).best_size() == old(self).best_size(),
            final(self).round_sizes() == old(self).round_sizes(),
            final(self).edges() == old(self).edges(),
            final(self).positive() == old(self).positive(),
            final(self).capacity() == old(self).capacity(),
            final(self).source() == old(self).source(),
    {
        proof {
            assert(self.neighbours@.to_set().contains(v));
        }
        self.current = v;
        self.awaiting = false;
    }

    /// The smallest cut found, and its size (`usize::MAX` when no round
    /// finished).
    pub fn into_best(self) -> (r: (HashSet<u32>, usize))
        requires
            self.wf(),
        ensures
            r.0@ == self.best_walk().to_set(),
            r.1 == self.best_size(),
    {
        (self.best, self.best_size)
    }
}

} // verus!
