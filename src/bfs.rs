use vstd::prelude::*;

use crate::graph::{
    contains_label, labels, lemma_closed_holds_reachable, lemma_reachable_edge, lemma_reachable_self, reachable,
    Graph,
};

verus! {

/// The nodes of `ns` that breadth-first search enqueues when `seen` is already
/// visited: each node not yet seen, once, in order.
pub open spec fn discover(ns: Seq<Seq<char>>, seen: Set<Seq<char>>) -> Seq<Seq<char>>
    decreases ns.len(),
{
    if ns.len() == 0 {
        Seq::empty()
    } else {
        let pre = discover(ns.drop_last(), seen);
        let x = ns.last();
        if seen.contains(x) || pre.contains(x) {
            pre
        } else {
            pre.push(x)
        }
    }
}

proof fn lemma_discover_in(ns: Seq<Seq<char>>, seen: Set<Seq<char>>)
    ensures
        forall|i: int| 0 <= i < discover(ns, seen).len() ==> ns.contains(#[trigger] discover(ns, seen)[i]),
    decreases ns.len(),
{
    if ns.len() > 0 {
        let pre = discover(ns.drop_last(), seen);
        lemma_discover_in(ns.drop_last(), seen);
        assert forall|i: int| 0 <= i < discover(ns, seen).len() implies ns.contains(
            #[trigger] discover(ns, seen)[i],
        ) by {
            if i < pre.len() {
                assert(discover(ns, seen)[i] == pre[i]);
                let k = choose|k: int| 0 <= k < ns.drop_last().len() && ns.drop_last()[k] == pre[i];
                assert(ns[k] == pre[i]);
            } else {
                assert(discover(ns, seen)[i] == ns[ns.len() - 1]);
            }
        }
    }
}

proof fn lemma_discover_covers(ns: Seq<Seq<char>>, seen: Set<Seq<char>>)
    ensures
        forall|i: int| 0 <= i < ns.len() ==> seen.contains(#[trigger] ns[i]) || discover(ns, seen).contains(ns[i]),
    decreases ns.len(),
{
    if ns.len() > 0 {
        let pre = discover(ns.drop_last(), seen);
        lemma_discover_covers(ns.drop_last(), seen);
        assert forall|i: int| 0 <= i < ns.len() implies seen.contains(#[trigger] ns[i]) || discover(ns, seen).contains(
            ns[i],
        ) by {
            if i < ns.len() - 1 {
                assert(ns.drop_last()[i] == ns[i]);
                if pre.contains(ns[i]) && !seen.contains(ns[i]) {
                    let k = choose|k: int| 0 <= k < pre.len() && pre[k] == ns[i];
                    assert(discover(ns, seen)[k] == pre[k]);
                }
            } else if !seen.contains(ns[i]) && pre.contains(ns[i]) {
                let k = choose|k: int| 0 <= k < pre.len() && pre[k] == ns[i];
                assert(discover(ns, seen)[k] == pre[k]);
            } else if !seen.contains(ns[i]) {
                assert(discover(ns, seen)[pre.len() as int] == ns[i]);
            }
        }
    }
}

/// Breadth-first search over a labelled graph, one dequeued node per `step`.
pub struct BFS {
    graph: Graph,
    visited: Vec<String>,
    queue: std::collections::VecDeque<String>,
    current_node: Option<String>,
    initialized: bool,
    origin: Ghost<Seq<char>>,
    expanded: Ghost<Set<Seq<char>>>,
}

impl BFS {
    /// The nodes dequeued since the search started, other than a matching one.
    pub closed spec fn expanded_set(&self) -> Set<Seq<char>> {
        self.expanded@
    }

    /// While armed: every visited node has been expanded or is queued, the neighbours
    /// of every expanded node are visited, and the start node is visited.
    pub open spec fn closure_inv(&self) -> bool {
        self.armed() ==> {
            &&& forall|x: Seq<char>| #[trigger]
                self.visited_set().contains(x) ==> self.expanded_set().contains(x) || self.frontier().contains(x)
            &&& forall|u: Seq<char>, d: Seq<char>|
                self.expanded_set().contains(u) && #[trigger] self.graph_view().neighbors(u).contains(d)
                    ==> self.visited_set().contains(d)
            &&& self.visited_set().contains(self.start_node())
        }
    }

    /// The node the current search started from.
    pub closed spec fn start_node(&self) -> Seq<char> {
        self.origin@
    }

    /// Every queued node is reachable from the start node.
    pub open spec fn reach_inv(&self) -> bool {
        forall|i: int|
            0 <= i < self.frontier().len() ==> reachable(self.graph_view(), self.start_node(), #[trigger] self.frontier()[i])
    }

    pub closed spec fn graph_view(&self) -> Graph {
        self.graph
    }

    pub closed spec fn visited_set(&self) -> Set<Seq<char>> {
        labels(self.visited@).to_set()
    }

    pub closed spec fn frontier(&self) -> Seq<Seq<char>> {
        labels(self.queue@)
    }

    pub closed spec fn current(&self) -> Option<Seq<char>> {
        match self.current_node {
            Some(s) => Some(s@),
            None => None,
        }
    }

    pub closed spec fn armed(&self) -> bool {
        self.initialized
    }

    pub open spec fn wf(&self) -> bool {
        self.graph_view().wf()
    }

    pub fn new() -> (r: BFS)
        ensures
            r.wf(),
            forall|n: Seq<char>| r.graph_view().neighbors(n) == Seq::<Seq<char>>::empty(),
            r.visited_set() == Set::<Seq<char>>::empty(),
            r.frontier() == Seq::<Seq<char>>::empty(),
            r.current() is None,
            !r.armed(),
    {
        let r = BFS {
            graph: Graph::new(),
            visited: Vec::new(),
            queue: std::collections::VecDeque::new(),
            current_node: None,
            initialized: false,
            origin: Ghost(Seq::empty()),
            expanded: Ghost(Set::empty()),
        };
        assert(labels(r.visited@).to_set() =~= Set::empty());
        assert(labels(r.queue@) =~= Seq::empty());
        r
    }

    /// Appends the edge `from -> to`.
    pub fn add_edge(&mut self, from: String, to: String)
        requires
            old(self).wf(),
        ensures
            final(self).wf(),
            forall|n: Seq<char>| #[trigger]
                final(self).graph_view().neighbors(n) == if n == from@ {
                    old(self).graph_view().neighbors(n).push(to@)
                } else {
                    old(self).graph_view().neighbors(n)
                },
            final(self).visited_set() == old(self).visited_set(),
            final(self).frontier() == old(self).frontier(),
            final(self).current() == old(self).current(),
            final(self).armed() == old(self).armed(),
    {
        self.graph.add_edge(from, to);
    }

    /// Clears all traversal state; the graph is kept.
    pub fn reset(&mut self)
        requires
            old(self).wf(),
        ensures
            final(self).wf(),
            final(self).graph_view() == old(self).graph_view(),
            final(self).visited_set() == Set::<Seq<char>>::empty(),
            final(self).frontier() == Seq::<Seq<char>>::empty(),
            final(self).current() is None,
            !final(self).armed(),
    {
        self.visited.clear();
        self.queue.clear();
        self.current_node = None;
        self.initialized = false;
        assert(labels(self.visited@).to_set() =~= Set::empty());
        assert(labels(self.queue@) =~= Seq::empty());
    }

    /// Clears all traversal state and arms the search with `start` queued and visited.
    pub fn start_search(&mut self, start: String)
        requires
            old(self).wf(),
        ensures
            final(self).wf(),
            final(self).graph_view() == old(self).graph_view(),
            final(self).visited_set() == Set::<Seq<char>>::empty().insert(start@),
            final(self).frontier() == seq![start@],
            final(self).current() is None,
            final(self).armed(),
            final(self).start_node() == start@,
            final(self).reach_inv(),
            final(self).expanded_set() == Set::<Seq<char>>::empty(),
            final(self).closure_inv(),
    {
        self.reset();
        self.origin = Ghost(start@);
        self.expanded = Ghost(Set::empty());
        proof {
            lemma_reachable_self(self.graph, start@);
        }
        let seen = start.clone();
        let ghost old_vis = self.visited@;
        self.queue.push_back(start);
        self.visited.push(seen);
        self.initialized = true;
        proof {
            labels(old_vis).lemma_push_to_set_commute(start@);
            if labels(old_vis).len() > 0 {
                assert(labels(old_vis).to_set().contains(labels(old_vis)[0]));
            }
            assert(labels(old_vis) =~= Seq::empty());
            assert(labels(self.visited@) =~= labels(old_vis).push(start@));
        }
        assert(labels(self.queue@) =~= seq![start@]);
        assert(labels(self.queue@)[0] == start@);
    }

    /// How one `step` relates the state before it (`self`) to the state after it
    /// (`next`) and to its result `r`.
    pub open spec fn step_spec(&self, next: &Self, r: Option<(String, bool)>, target: Seq<char>) -> bool {
        &&& next.start_node() == self.start_node()
        &&& self.closure_inv() ==> next.closure_inv()
        &&& next.expanded_set() == if self.armed() && self.frontier().len() > 0 && self.frontier()[0] != target {
            self.expanded_set().insert(self.frontier()[0])
        } else {
            self.expanded_set()
        }
        &&& self.reach_inv() ==> next.reach_inv()
        &&& self.reach_inv() && r is Some ==> reachable(self.graph_view(), self.start_node(), r.unwrap().0@)
        &&& next.graph_view() == self.graph_view()
        &&& ({
            let q = self.frontier();
            let v = self.visited_set();
            if !self.armed() || q.len() == 0 {
                &&& r is None
                &&& !next.armed()
                &&& next.frontier() == q
                &&& next.visited_set() == v
                &&& next.current() == self.current()
            } else {
                let c = q[0];
                let found = c == target;
                let added = discover(self.graph_view().neighbors(c), v);
                &&& r is Some && r.unwrap().0@ == c && r.unwrap().1 == found
                &&& next.current() == Some(c)
                &&& next.armed() == !found
                &&& found ==> next.frontier() == q.drop_first()
                    && next.visited_set() == v
                &&& !found ==> next.frontier() == q.drop_first() + added
                    && next.visited_set() == v.union(added.to_set())
            }
        })
    }

    /// Dequeues one node and reports it with whether it is `target`. Unless it is,
    /// its neighbours not yet visited are marked visited and queued, in edge order.
    /// Returns `None`, and disarms, when not armed or when the queue is empty.
    pub fn step(&mut self, target: String) -> (r: Option<(String, bool)>)
        requires
            old(self).wf(),
        ensures
            final(self).wf(),
            old(self).step_spec(final(self), r, target@),
    {
        if !self.initialized || self.queue.len() == 0 {
            self.initialized = false;
            return None;
        }
        let ghost q0 = labels(self.queue@);
        let ghost v0 = labels(self.visited@).to_set();
        let current = self.queue.pop_front().unwrap();
        proof {
            assert(labels(self.queue@) =~= q0.drop_first());
        }
        self.current_node = Some(current.clone());
        proof {
            if old(self).reach_inv() {
                assert(old(self).frontier() == q0);
                assert(reachable(old(self).graph_view(), old(self).start_node(), old(self).frontier()[0]));
                assert forall|i: int| 0 <= i < labels(self.queue@).len() implies reachable(
                    self.graph,
                    self.origin@,
                    #[trigger] labels(self.queue@)[i],
                ) by {
                    assert(labels(self.queue@)[i] == q0[i + 1]);
                    assert(reachable(old(self).graph_view(), old(self).start_node(), old(self).frontier()[i + 1]));
                }
            }
        }
        if current == target {
            self.initialized = false;
            return Some((current, true));
        }
        let ghost ns = self.graph.neighbors(current@);
        let ghost q1 = labels(self.queue@);
        match self.graph.entry_of(&current) {
            None => {
                assert(discover(ns, v0) =~= Seq::<Seq<char>>::empty());
                assert(v0.union(discover(ns, v0).to_set()) =~= v0);
                assert(q1 + discover(ns, v0) =~= q1);
            },
            Some(e) => {
                let d = self.graph.degree(e);
                let mut k: usize = 0;
                while k < d
                    invariant
                        self.graph.wf(),
                        e < self.graph.key_labels().len(),
                        ns == self.graph.list_at(e as int),
                        d == ns.len(),
                        k <= d,
                        self.graph == old(self).graph,
                        self.origin == old(self).origin,
                        self.expanded == old(self).expanded,
                        self.current_node == Some(current),
                        self.initialized == old(self).initialized,
                        labels(self.queue@) == q1 + discover(ns.take(k as int), v0),
                        labels(self.visited@).to_set() == v0.union(discover(ns.take(k as int), v0).to_set()),
                    decreases d - k,
                {
                    let nb = self.graph.neighbor(e, k);
                    let ghost pre = discover(ns.take(k as int), v0);
                    proof {
                        assert(ns.take(k + 1).drop_last() =~= ns.take(k as int));
                        assert(ns.take(k + 1).last() == nb@);
                    }
                    let ghost vis0 = self.visited@;
                    if !contains_label(&self.visited, nb) {
                        let s = nb.clone();
                        let s2 = nb.clone();
                        self.visited.push(s);
                        self.queue.push_back(s2);
                        proof {
                            assert(!labels(vis0).to_set().contains(nb@));
                            assert(!v0.contains(nb@) && !pre.to_set().contains(nb@));
                            assert(!pre.contains(nb@));
                            assert(discover(ns.take(k + 1), v0) == pre.push(nb@));
                            assert(labels(self.queue@) =~= (q1 + pre).push(nb@));
                            assert(labels(self.visited@) =~= labels(vis0).push(nb@));
                            labels(vis0).lemma_push_to_set_commute(nb@);
                            pre.lemma_push_to_set_commute(nb@);
                            assert(v0.union(pre.push(nb@).to_set()) =~= v0.union(pre.to_set()).insert(nb@));
                        }
                    } else {
                        proof {
                            assert(labels(self.visited@).to_set().contains(nb@));
                            assert(v0.contains(nb@) || pre.to_set().contains(nb@));
                            assert(v0.contains(nb@) || pre.contains(nb@));
                            assert(discover(ns.take(k + 1), v0) == pre);
                        }
                    }
                    k = k + 1;
                }
                assert(ns.take(d as int) =~= ns);
            },
        }
        assert(labels(self.visited@).to_set() =~= v0.union(discover(ns, v0).to_set()));
        self.expanded = Ghost(self.expanded@.insert(current@));
        proof {
            if old(self).closure_inv() {
                let g = self.graph;
                let d = discover(ns, v0);
                let fr = labels(self.queue@);
                let vis = labels(self.visited@).to_set();
                let ex = self.expanded@;
                assert(old(self).frontier() == q0);
                assert(fr == q1 + d);
                assert forall|x: Seq<char>| #[trigger] vis.contains(x) implies ex.contains(x) || fr.contains(x) by {
                    if v0.contains(x) {
                        assert(old(self).visited_set().contains(x));
                        if !old(self).expanded_set().contains(x) && x != current@ {
                            assert(q0.contains(x));
                            let k = choose|k: int| 0 <= k < q0.len() && q0[k] == x;
                            assert(k > 0);
                            assert(fr[k - 1] == x);
                        }
                    } else {
                        assert(d.to_set().contains(x));
                        let k = choose|k: int| 0 <= k < d.len() && d[k] == x;
                        assert(fr[q1.len() + k] == x);
                    }
                }
                lemma_discover_covers(ns, v0);
                assert forall|u: Seq<char>, w: Seq<char>| ex.contains(u) && #[trigger] g.neighbors(u).contains(w) implies vis.contains(w) by {
                    if u == current@ {
                        let k = choose|k: int| 0 <= k < ns.len() && ns[k] == w;
                        assert(v0.contains(ns[k]) || d.contains(ns[k]));
                        if d.contains(w) {
                            assert(d.to_set().contains(w));
                        }
                    } else {
                        assert(old(self).expanded_set().contains(u));
                        assert(old(self).graph_view().neighbors(u).contains(w));
                        assert(v0.contains(w));
                    }
                }
                assert(v0.contains(self.origin@));
            }
        }
        proof {
            if old(self).reach_inv() {
                let g = self.graph;
                let s0 = self.origin@;
                let fr = labels(self.queue@);
                let d = discover(ns, v0);
                assert(old(self).frontier() == q0);
                assert(reachable(old(self).graph_view(), old(self).start_node(), old(self).frontier()[0]));
                lemma_discover_in(ns, v0);
                assert forall|i: int| 0 <= i < fr.len() implies reachable(g, s0, #[trigger] fr[i]) by {
                    if i < q1.len() {
                        assert(fr[i] == q0[i + 1]);
                        assert(reachable(old(self).graph_view(), old(self).start_node(), old(self).frontier()[i + 1]));
                    } else {
                        assert(fr[i] == d[i - q1.len()]);
                        lemma_reachable_edge(g, s0, current@, fr[i]);
                    }
                }
            }
        }
        Some((current, false))
    }

    /// An armed search that has never dequeued `target` and runs out of queued nodes
    /// does so only when `target` is unreachable from the start node.
    pub proof fn lemma_exhausted_unreachable(&self, next: &Self, r: Option<(String, bool)>, target: Seq<char>)
        requires
            self.wf(),
            self.armed(),
            self.closure_inv(),
            !self.expanded_set().contains(target),
            self.step_spec(next, r, target),
            r is None,
        ensures
            !reachable(self.graph_view(), self.start_node(), target),
    {
        let ex = self.expanded_set();
        let g = self.graph_view();
        assert(self.frontier().len() == 0);
        assert forall|u: Seq<char>, d: Seq<char>| ex.contains(u) && #[trigger] g.neighbors(u).contains(d) implies ex.contains(d) by {
            assert(self.visited_set().contains(d));
        }
        assert(ex.contains(self.start_node())) by {
            assert(self.visited_set().contains(self.start_node()));
        }
        if reachable(g, self.start_node(), target) {
            lemma_closed_holds_reachable(g, ex, self.start_node(), target);
        }
    }

    pub fn is_complete(&self) -> (r: bool)
        ensures
            r == !self.armed(),
    {
        !self.initialized
    }

    /// The node most recently dequeued since the search was armed.
    pub fn get_current_node(&self) -> (r: Option<String>)
        ensures
            match r {
                Some(s) => self.current() == Some(s@),
                None => self.current() is None,
            },
    {
        match &self.current_node {
            Some(s) => Some(s.clone()),
            None => None,
        }
    }
}

} // verus!
