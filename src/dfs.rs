use vstd::prelude::*;

use crate::graph::{
    contains_label, labels, lemma_closed_holds_reachable, lemma_reachable_edge, lemma_reachable_self, reachable,
    Graph,
};

verus! {

/// `st` with the already visited nodes on its top popped off.
pub open spec fn skip_seen(st: Seq<Seq<char>>, seen: Set<Seq<char>>) -> Seq<Seq<char>>
    decreases st.len(),
{
    if st.len() > 0 && seen.contains(st.last()) {
        skip_seen(st.drop_last(), seen)
    } else {
        st
    }
}

/// What depth-first search pushes for the neighbours `ns`: those not in `seen`,
/// last neighbour first, so that the first neighbour ends on top.
pub open spec fn push_order(ns: Seq<Seq<char>>, seen: Set<Seq<char>>) -> Seq<Seq<char>>
    decreases ns.len(),
{
    if ns.len() == 0 {
        Seq::empty()
    } else {
        push_order(ns.drop_first(), seen) + if seen.contains(ns[0]) {
            Seq::empty()
        } else {
            seq![ns[0]]
        }
    }
}

proof fn lemma_skip_seen_prefix(st: Seq<Seq<char>>, seen: Set<Seq<char>>)
    ensures
        skip_seen(st, seen).len() <= st.len(),
        forall|i: int| 0 <= i < skip_seen(st, seen).len() ==> #[trigger] skip_seen(st, seen)[i] == st[i],
    decreases st.len(),
{
    if st.len() > 0 && seen.contains(st.last()) {
        lemma_skip_seen_prefix(st.drop_last(), seen);
    }
}

proof fn lemma_skip_seen_dropped(st: Seq<Seq<char>>, seen: Set<Seq<char>>)
    ensures
        forall|k: int| skip_seen(st, seen).len() <= k < st.len() ==> seen.contains(#[trigger] st[k]),
    decreases st.len(),
{
    if st.len() > 0 && seen.contains(st.last()) {
        lemma_skip_seen_dropped(st.drop_last(), seen);
        lemma_skip_seen_prefix(st.drop_last(), seen);
        assert forall|k: int| skip_seen(st, seen).len() <= k < st.len() implies seen.contains(#[trigger] st[k]) by {
            if k < st.len() - 1 {
                assert(st.drop_last()[k] == st[k]);
            }
        }
    }
}

proof fn lemma_push_order_covers(ns: Seq<Seq<char>>, seen: Set<Seq<char>>)
    ensures
        forall|i: int| 0 <= i < ns.len() ==> seen.contains(#[trigger] ns[i]) || push_order(ns, seen).contains(ns[i]),
    decreases ns.len(),
{
    if ns.len() > 0 {
        let rest = push_order(ns.drop_first(), seen);
        lemma_push_order_covers(ns.drop_first(), seen);
        assert forall|i: int| 0 <= i < ns.len() implies seen.contains(#[trigger] ns[i]) || push_order(ns, seen).contains(
            ns[i],
        ) by {
            if i > 0 {
                assert(ns.drop_first()[i - 1] == ns[i]);
                if !seen.contains(ns[i]) {
                    let k = choose|k: int| 0 <= k < rest.len() && rest[k] == ns[i];
                    assert(push_order(ns, seen)[k] == rest[k]);
                }
            } else if !seen.contains(ns[0]) {
                assert(push_order(ns, seen)[rest.len() as int] == ns[0]);
            }
        }
    }
}

proof fn lemma_push_order_in(ns: Seq<Seq<char>>, seen: Set<Seq<char>>)
    ensures
        forall|i: int| 0 <= i < push_order(ns, seen).len() ==> ns.contains(#[trigger] push_order(ns, seen)[i]),
    decreases ns.len(),
{
    if ns.len() > 0 {
        let rest = push_order(ns.drop_first(), seen);
        lemma_push_order_in(ns.drop_first(), seen);
        assert forall|i: int| 0 <= i < push_order(ns, seen).len() implies ns.contains(
            #[trigger] push_order(ns, seen)[i],
        ) by {
            if i < rest.len() {
                assert(push_order(ns, seen)[i] == rest[i]);
                let k = choose|k: int| 0 <= k < ns.drop_first().len() && ns.drop_first()[k] == rest[i];
                assert(ns[k + 1] == rest[i]);
            } else {
                assert(push_order(ns, seen)[i] == ns[0]);
            }
        }
    }
}

/// Depth-first search over a labelled graph, one newly visited node per `step`.
pub struct DFS {
    graph: Graph,
    visited: Vec<String>,
    stack: Vec<String>,
    current_node: Option<String>,
    initialized: bool,
    origin: Ghost<Seq<char>>,
}

impl DFS {
    /// The node the current search started from.
    pub closed spec fn start_node(&self) -> Seq<char> {
        self.origin@
    }

    /// While armed: the neighbours of every visited node are visited or on the stack,
    /// and so is the start node.
    pub open spec fn closure_inv(&self) -> bool {
        self.armed() ==> {
            &&& forall|u: Seq<char>, d: Seq<char>|
                self.visited_set().contains(u) && #[trigger] self.graph_view().neighbors(u).contains(d)
                    ==> self.visited_set().contains(d) || self.frontier().contains(d)
            &&& self.visited_set().contains(self.start_node()) || self.frontier().contains(self.start_node())
        }
    }

    /// Every node on the stack is reachable from the start node.
    pub open spec fn reach_inv(&self) -> bool {
        forall|i: int|
            0 <= i < self.frontier().len() ==> reachable(self.graph_view(), self.start_node(), #[trigger] self.frontier()[i])
    }

    pub closed spec fn graph_view(&self) -> Graph {
        self.graph
    }

    pub closed spec fn visited_set(&self) -> Set<Seq<char>> {
        labels(self.visited@).to_set()
    }

    pub closed spec fn frontier(&self) -> Seq<Seq<char>> {
        labels(self.stack@)
    }

    pub closed spec fn current(&self) -> Option<Seq<char>> {
        match self.current_node {
            Some(s) => Some(s@),
            None => None,
        }
    }

    pub closed spec fn armed(&self) -> bool {
        self.initialized
    }

    pub open spec fn wf(&self) -> bool {
        self.graph_view().wf()
    }

    pub fn new() -> (r: DFS)
        ensures
            r.wf(),
            forall|n: Seq<char>| r.graph_view().neighbors(n) == Seq::<Seq<char>>::empty(),
            r.visited_set() == Set::<Seq<char>>::empty(),
            r.frontier() == Seq::<Seq<char>>::empty(),
            r.current() is None,
            !r.armed(),
    {
        let r = DFS {
            graph: Graph::new(),
            visited: Vec::new(),
            stack: Vec::new(),
            current_node: None,
            initialized: false,
            origin: Ghost(Seq::empty()),
        };
        assert(labels(r.visited@).to_set() =~= Set::empty());
        assert(labels(r.stack@) =~= Seq::empty());
        r
    }

    /// Appends the edge `from -> to`.
    pub fn add_edge(&mut self, from: String, to: String)
        requires
            old(self).wf(),
        ensures
            final(self).wf(),
            forall|n: Seq<char>| #[trigger]
                final(self).graph_view().neighbors(n) == if n == from@ {
                    old(self).graph_view().neighbors(n).push(to@)
                } else {
                    old(self).graph_view().neighbors(n)
                },
            final(self).visited_set() == old(self).visited_set(),
            final(self).frontier() == old(self).frontier(),
            final(self).current() == old(self).current(),
            final(self).armed() == old(self).armed(),
    {
        self.graph.add_edge(from, to);
    }

    /// Clears all traversal state; the graph is kept.
    pub fn reset(&mut self)
        requires
            old(self).wf(),
        ensures
            final(self).wf(),
            final(self).graph_view() == old(self).graph_view(),
            final(self).visited_set() == Set::<Seq<char>>::empty(),
            final(self).frontier() == Seq::<Seq<char>>::empty(),
            final(self).current() is None,
            !final(self).armed(),
    {
        self.visited.clear();
        self.stack.clear();
        self.current_node = None;
        self.initialized = false;
        assert(labels(self.visited@).to_set() =~= Set::empty());
        assert(labels(self.stack@) =~= Seq::empty());
    }

    /// Clears all traversal state and arms the search with `start` on the stack.
    pub fn start_search(&mut self, start: String)
        requires
            old(self).wf(),
        ensures
            final(self).wf(),
            final(self).graph_view() == old(self).graph_view(),
            final(self).visited_set() == Set::<Seq<char>>::empty(),
            final(self).frontier() == seq![start@],
            final(self).current() is None,
            final(self).armed(),
            final(self).start_node() == start@,
            final(self).reach_inv(),
            final(self).closure_inv(),
    {
        self.reset();
        self.origin = Ghost(start@);
        proof {
            lemma_reachable_self(self.graph, start@);
        }
        let ghost st0 = self.stack@;
        self.stack.push(start);
        self.initialized = true;
        proof {
            assert(labels(st0).len() == 0);
            assert(labels(self.stack@) =~= seq![start@]);
            assert(labels(self.stack@)[0] == start@);
        }
    }

    /// How one `step` relates the state before it (`self`) to the state after it
    /// (`next`) and to its result `r`.
    pub open spec fn step_spec(&self, next: &Self, r: Option<(String, bool)>, target: Seq<char>) -> bool {
        &&& next.start_node() == self.start_node()
        &&& self.closure_inv() ==> next.closure_inv()
        &&& self.reach_inv() ==> next.reach_inv()
        &&& self.reach_inv() && r is Some ==> reachable(self.graph_view(), self.start_node(), r.unwrap().0@)
        &&& next.graph_view() == self.graph_view()
        &&& ({
            let v = self.visited_set();
            let st = skip_seen(self.frontier(), v);
            if !self.armed() {
                &&& r is None
                &&& !next.armed()
                &&& next.frontier() == self.frontier()
                &&& next.visited_set() == v
                &&& next.current() == self.current()
            } else if st.len() == 0 {
                &&& r is None
                &&& !next.armed()
                &&& next.frontier() == st
                &&& next.visited_set() == v
                &&& next.current() == self.current()
            } else {
                let c = st.last();
                let found = c == target;
                let seen = v.insert(c);
                &&& r is Some && r.unwrap().0@ == c && r.unwrap().1 == found
                &&& next.current() == Some(c)
                &&& next.armed() == !found
                &&& next.visited_set() == seen
                &&& found ==> next.frontier() == st.drop_last()
                &&& !found ==> next.frontier() == st.drop_last() + push_order(
                    self.graph_view().neighbors(c),
                    seen,
                )
            }
        })
    }

    /// Pops nodes until one not yet visited comes up, marks it visited and reports it
    /// with whether it is `target`. Unless it is, its neighbours not yet visited are
    /// pushed, last first. Returns `None`, and disarms, when not armed or when the
    /// stack holds no unvisited node.
    pub fn step(&mut self, target: String) -> (r: Option<(String, bool)>)
        requires
            old(self).wf(),
        ensures
            final(self).wf(),
            old(self).step_spec(final(self), r, target@),
    {
        if !self.initialized || self.stack.len() == 0 {
            self.initialized = false;
            return None;
        }
        let ghost v0 = labels(self.visited@).to_set();
        let ghost st = skip_seen(labels(self.stack@), v0);
        let mut cur: Option<String> = None;
        while cur.is_none() && self.stack.len() > 0
            invariant
                self.graph == old(self).graph,
                self.origin == old(self).origin,
                self.visited@ == old(self).visited@,
                self.current_node == old(self).current_node,
                self.initialized == old(self).initialized,
                v0 == labels(self.visited@).to_set(),
                cur is None ==> skip_seen(labels(self.stack@), v0) == st,
                cur matches Some(c) ==> st == labels(self.stack@).push(c@) && !v0.contains(c@),
            decreases self.stack@.len(),
        {
            let ghost before = labels(self.stack@);
            let x = self.stack.pop().unwrap();
            proof {
                assert(labels(self.stack@) =~= before.drop_last());
                assert(before.last() == x@);
            }
            if !contains_label(&self.visited, &x) {
                proof {
                    assert(!v0.contains(x@));
                    assert(before =~= labels(self.stack@).push(x@));
                }
                cur = Some(x);
            } else {
                proof {
                    assert(labels(self.visited@).to_set().contains(x@));
                }
            }
        }
        let current = match cur {
            Some(c) => c,
            None => {
                self.initialized = false;
                proof {
                    assert(labels(self.stack@) =~= Seq::<Seq<char>>::empty());
                }
                return None;
            },
        };
        proof {
            assert(st.drop_last() =~= labels(self.stack@));
            assert(st.last() == current@);
            if old(self).reach_inv() {
                let f0 = old(self).frontier();
                lemma_skip_seen_prefix(f0, v0);
                assert(f0 == labels(old(self).stack@));
                assert forall|i: int| 0 <= i < st.len() implies reachable(self.graph, self.origin@, #[trigger] st[i]) by {
                    assert(st[i] == f0[i]);
                    assert(reachable(old(self).graph_view(), old(self).start_node(), f0[i]));
                }
                assert(reachable(self.graph, self.origin@, st[st.len() - 1]));
            }
        }
        let ghost vis0 = self.visited@;
        self.visited.push(current.clone());
        proof {
            assert(labels(self.visited@) =~= labels(vis0).push(current@));
            labels(vis0).lemma_push_to_set_commute(current@);
        }
        let ghost seen = labels(self.visited@).to_set();
        self.current_node = Some(current.clone());
        if current == target {
            self.initialized = false;
            assert(labels(self.visited@).to_set() =~= v0.insert(current@));
            proof {
                if old(self).reach_inv() {
                    assert forall|i: int| 0 <= i < labels(self.stack@).len() implies reachable(
                        self.graph,
                        self.origin@,
                        #[trigger] labels(self.stack@)[i],
                    ) by {
                        assert(labels(self.stack@)[i] == st[i]);
                    }
                }
            }
            return Some((current, true));
        }
        let ghost ns = self.graph.neighbors(current@);
        let ghost base = labels(self.stack@);
        match self.graph.entry_of(&current) {
            None => {},
            Some(e) => {
                let d = self.graph.degree(e);
                let mut k: usize = d;
                while k > 0
                    invariant
                        self.graph == old(self).graph,
                        self.origin == old(self).origin,
                        self.graph.wf(),
                        e < self.graph.key_labels().len(),
                        ns == self.graph.list_at(e as int),
                        d == ns.len(),
                        k <= d,
                        seen == labels(self.visited@).to_set(),
                        self.current_node == Some(current),
                        self.initialized == old(self).initialized,
                        labels(self.stack@) == base + push_order(ns.subrange(k as int, d as int), seen),
                    decreases k,
                {
                    k = k - 1;
                    let nb = self.graph.neighbor(e, k);
                    let ghost pre = push_order(ns.subrange(k + 1, d as int), seen);
                    let ghost st1 = labels(self.stack@);
                    proof {
                        assert(ns.subrange(k as int, d as int).drop_first() =~= ns.subrange(k + 1, d as int));
                        assert(ns.subrange(k as int, d as int)[0] == nb@);
                    }
                    if !contains_label(&self.visited, nb) {
                        self.stack.push(nb.clone());
                        proof {
                            assert(labels(self.stack@) =~= st1.push(nb@));
                            assert(pre + seq![nb@] =~= pre.push(nb@));
                        }
                    } else {
                        proof {
                            assert(labels(self.visited@).to_set().contains(nb@));
                            assert(pre + Seq::<Seq<char>>::empty() =~= pre);
                        }
                    }
                }
            },
        }
        proof {
            if ns.len() == 0 {
                assert(ns.subrange(0, 0) =~= ns);
            }
            assert(ns.subrange(0, ns.len() as int) =~= ns);
            assert(base + push_order(Seq::<Seq<char>>::empty(), seen) =~= base);
            assert(labels(self.visited@).to_set() =~= v0.insert(current@));
            if old(self).closure_inv() {
                let g = self.graph;
                let fr = labels(self.stack@);
                let po = push_order(ns, seen);
                let f0 = old(self).frontier();
                assert(f0 == labels(old(self).stack@));
                assert(fr == base + po);
                lemma_skip_seen_prefix(f0, v0);
                lemma_skip_seen_dropped(f0, v0);
                lemma_push_order_covers(ns, seen);
                // a node on the old stack is visited now or still on the stack
                assert forall|d: Seq<char>| f0.contains(d) implies seen.contains(d) || fr.contains(d) by {
                    let k = choose|k: int| 0 <= k < f0.len() && f0[k] == d;
                    if k >= st.len() {
                        assert(v0.contains(f0[k]));
                    } else if k == st.len() - 1 {
                        assert(st[k] == f0[k]);
                    } else {
                        assert(st[k] == f0[k]);
                        assert(base[k] == st[k]);
                        assert(fr[k] == d);
                    }
                }
                assert forall|u: Seq<char>, d: Seq<char>|
                    seen.contains(u) && #[trigger] g.neighbors(u).contains(d) implies seen.contains(d) || fr.contains(d) by {
                    if u == current@ {
                        let k = choose|k: int| 0 <= k < ns.len() && ns[k] == d;
                        if !seen.contains(d) {
                            assert(po.contains(ns[k]));
                            let j = choose|j: int| 0 <= j < po.len() && po[j] == d;
                            assert(fr[base.len() + j] == d);
                        }
                    } else {
                        assert(old(self).visited_set().contains(u));
                        assert(old(self).graph_view().neighbors(u).contains(d));
                        if !v0.contains(d) {
                            assert(f0.contains(d));
                        }
                    }
                }
                let s0 = self.origin@;
                if !v0.contains(s0) {
                    assert(f0.contains(s0));
                }
            }
            if old(self).reach_inv() {
                let fr = labels(self.stack@);
                let po = push_order(ns, seen);
                lemma_push_order_in(ns, seen);
                assert(fr == base + po);
                assert forall|i: int| 0 <= i < fr.len() implies reachable(self.graph, self.origin@, #[trigger] fr[i]) by {
                    if i < base.len() {
                        assert(fr[i] == base[i]);
                        assert(base[i] == st[i]);
                    } else {
                        assert(fr[i] == po[i - base.len()]);
                        lemma_reachable_edge(self.graph, self.origin@, current@, fr[i]);
                    }
                }
            }
        }
        Some((current, false))
    }

    /// An armed search that has never visited `target` and runs out of unvisited nodes
    /// does so only when `target` is unreachable from the start node.
    pub proof fn lemma_exhausted_unreachable(&self, next: &Self, r: Option<(String, bool)>, target: Seq<char>)
        requires
            self.wf(),
            self.armed(),
            self.closure_inv(),
            !self.visited_set().contains(target),
            self.step_spec(next, r, target),
            r is None,
        ensures
            !reachable(self.graph_view(), self.start_node(), target),
    {
        let v = self.visited_set();
        let g = self.graph_view();
        let f = self.frontier();
        assert(skip_seen(f, v).len() == 0);
        lemma_skip_seen_dropped(f, v);
        assert forall|d: Seq<char>| f.contains(d) implies v.contains(d) by {
            let k = choose|k: int| 0 <= k < f.len() && f[k] == d;
        }
        assert forall|u: Seq<char>, d: Seq<char>| v.contains(u) && #[trigger] g.neighbors(u).contains(d) implies v.contains(d) by {
            if !v.contains(d) {
                assert(f.contains(d));
            }
        }
        if !v.contains(self.start_node()) {
            assert(f.contains(self.start_node()));
        }
        if reachable(g, self.start_node(), target) {
            lemma_closed_holds_reachable(g, v, self.start_node(), target);
        }
    }

    pub fn is_complete(&self) -> (r: bool)
        ensures
            r == !self.armed(),
    {
        !self.initialized
    }

    /// The node most recently visited since the search was armed.
    pub fn get_current_node(&self) -> (r: Option<String>)
        ensures
            match r {
                Some(s) => self.current() == Some(s@),
                None => self.current() is None,
            },
    {
        match &self.current_node {
            Some(s) => Some(s.clone()),
            None => None,
        }
    }
}

} // verus!
