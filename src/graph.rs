use vstd::prelude::*;

verus! {

/// The labels held by a sequence of strings.
pub open spec fn labels(v: Seq<String>) -> Seq<Seq<char>> {
    v.map_values(|s: String| s@)
}

/// Whether `v` holds a string equal to `s`.
pub fn contains_label(v: &Vec<String>, s: &String) -> (r: bool)
    ensures
        r == labels(v@).contains(s@),
{
    let mut k: usize = 0;
    while k < v.len()
        invariant
            k <= v@.len(),
            forall|t: int| 0 <= t < k ==> v@[t]@ != s@,
        decreases v@.len() - k,
    {
        if v[k] == *s {
            assert(labels(v@)[k as int] == s@);
            return true;
        }
        k = k + 1;
    }
    proof {
        if labels(v@).contains(s@) {
            let t = choose|t: int| 0 <= t < labels(v@).len() && labels(v@)[t] == s@;
            assert(v@[t]@ == s@);
        }
    }
    false
}

/// A directed graph on string labels: each node with outgoing edges has one entry in
/// `keys`, and `lists` holds its neighbours in the order the edges were added.
///
/// The adjacency is two parallel vectors searched by string equality rather than a
/// hash map keyed by `String`: vstd specifies `==` on `String`, so lookups and
/// updates here are proved exactly, while for such a hash map Verus proves
/// next to nothing about what a lookup returns. Keys are kept unique by `wf`.
pub struct Graph {
    keys: Vec<String>,
    lists: Vec<Vec<String>>,
}

impl Graph {
    pub closed spec fn key_labels(&self) -> Seq<Seq<char>> {
        labels(self.keys@)
    }

    pub closed spec fn list_at(&self, i: int) -> Seq<Seq<char>> {
        labels(self.lists@[i]@)
    }

    /// The neighbours of `n`, in the order the edges were added; empty for a node
    /// without outgoing edges.
    pub open spec fn neighbors(&self, n: Seq<char>) -> Seq<Seq<char>> {
        if self.key_labels().contains(n) {
            self.list_at(choose|i: int| 0 <= i < self.key_labels().len() && self.key_labels()[i] == n)
        } else {
            Seq::empty()
        }
    }

    pub open spec fn wf(&self) -> bool {
        &&& self.key_labels().no_duplicates()
        &&& self.lists_len() == self.key_labels().len()
    }

    pub closed spec fn lists_len(&self) -> nat {
        self.lists@.len()
    }

    proof fn lemma_neighbors_at(&self, i: int)
        requires
            self.wf(),
            0 <= i < self.key_labels().len(),
        ensures
            self.neighbors(self.key_labels()[i]) == self.list_at(i),
    {
        let n = self.key_labels()[i];
        assert(self.key_labels().contains(n));
        let c = choose|c: int| 0 <= c < self.key_labels().len() && self.key_labels()[c] == n;
        assert(c == i);
    }

    pub fn new() -> (r: Graph)
        ensures
            r.wf(),
            forall|n: Seq<char>| r.neighbors(n) == Seq::<Seq<char>>::empty(),
    {
        Graph { keys: Vec::new(), lists: Vec::new() }
    }

    /// The entry index of `s`, if it has outgoing edges.
    fn find(&self, s: &String) -> (r: Option<usize>)
        requires
            self.wf(),
        ensures
            match r {
                Some(i) => i < self.key_labels().len() && self.key_labels()[i as int] == s@,
                None => !self.key_labels().contains(s@),
            },
    {
        let mut k: usize = 0;
        while k < self.keys.len()
            invariant
                k <= self.keys@.len(),
                forall|t: int| 0 <= t < k ==> self.keys@[t]@ != s@,
            decreases self.keys@.len() - k,
        {
            if self.keys[k] == *s {
                return Some(k);
            }
            k = k + 1;
        }
        proof {
            if self.key_labels().contains(s@) {
                let t = choose|t: int| 0 <= t < self.key_labels().len() && self.key_labels()[t] == s@;
                assert(self.keys@[t]@ == s@);
            }
        }
        None
    }

    /// Appends the edge `from -> to` after the existing edges out of `from`.
    pub fn add_edge(&mut self, from: String, to: String)
        requires
            old(self).wf(),
        ensures
            final(self).wf(),
            forall|n: Seq<char>| #[trigger]
                final(self).neighbors(n) == if n == from@ {
                    old(self).neighbors(n).push(to@)
                } else {
                    old(self).neighbors(n)
                },
    {
        let ghost g0 = *self;
        match self.find(&from) {
            Some(i) => {
                self.lists[i].push(to);
                proof {
                    assert(self.key_labels() == g0.key_labels());
                    assert(self.list_at(i as int) =~= g0.list_at(i as int).push(to@));
                    assert forall|n: Seq<char>| #[trigger]
                        self.neighbors(n) == if n == from@ {
                            g0.neighbors(n).push(to@)
                        } else {
                            g0.neighbors(n)
                        } by {
                        if self.key_labels().contains(n) {
                            let c = choose|c: int| 0 <= c < self.key_labels().len() && self.key_labels()[c] == n;
                            self.lemma_neighbors_at(c);
                            g0.lemma_neighbors_at(c);
                            if c != i {
                                assert(self.list_at(c) == g0.list_at(c));
                            }
                        }
                    }
                }
            },
            None => {
                let mut list: Vec<String> = Vec::new();
                list.push(to);
                self.keys.push(from);
                self.lists.push(list);
                proof {
                    let m = g0.key_labels().len() as int;
                    assert(self.key_labels() =~= g0.key_labels().push(from@));
                    assert(self.list_at(m) =~= seq![to@]);
                    assert forall|n: Seq<char>| #[trigger]
                        self.neighbors(n) == if n == from@ {
                            g0.neighbors(n).push(to@)
                        } else {
                            g0.neighbors(n)
                        } by {
                        if self.key_labels().contains(n) {
                            let c = choose|c: int| 0 <= c < self.key_labels().len() && self.key_labels()[c] == n;
                            self.lemma_neighbors_at(c);
                            if c < m {
                                assert(g0.key_labels()[c] == n);
                                g0.lemma_neighbors_at(c);
                                assert(self.list_at(c) == g0.list_at(c));
                            } else {
                                assert(g0.neighbors(n) == Seq::<Seq<char>>::empty());
                            }
                        } else {
                            assert(self.key_labels()[m] == from@);
                            assert(!g0.key_labels().contains(n)) by {
                                if g0.key_labels().contains(n) {
                                    let c = choose|c: int| 0 <= c < g0.key_labels().len() && g0.key_labels()[c] == n;
                                    assert(self.key_labels()[c] == n);
                                }
                            }
                        }
                    }
                }
            },
        }
    }

    /// The entry holding the edges out of `n`, if it has any.
    pub fn entry_of(&self, n: &String) -> (r: Option<usize>)
        requires
            self.wf(),
        ensures
            match r {
                Some(i) => i < self.key_labels().len() && self.neighbors(n@) == self.list_at(i as int),
                None => self.neighbors(n@) == Seq::<Seq<char>>::empty(),
            },
    {
        let r = self.find(n);
        proof {
            if let Some(i) = r {
                self.lemma_neighbors_at(i as int);
            }
        }
        r
    }

    pub fn degree(&self, i: usize) -> (r: usize)
        requires
            self.wf(),
            i < self.key_labels().len(),
        ensures
            r == self.list_at(i as int).len(),
    {
        self.lists[i].len()
    }

    /// The `k`-th neighbour of entry `i`.
    pub fn neighbor(&self, i: usize, k: usize) -> (r: &String)
        requires
            self.wf(),
            i < self.key_labels().len(),
            k < self.list_at(i as int).len(),
        ensures
            r@ == self.list_at(i as int)[k as int],
    {
        &self.lists[i][k]
    }
}

/// `p` is a non-empty walk along the edges of `g`.
pub open spec fn is_path(g: Graph, p: Seq<Seq<char>>) -> bool {
    &&& p.len() > 0
    &&& forall|i: int| 0 <= i < p.len() - 1 ==> #[trigger] g.neighbors(p[i]).contains(p[i + 1])
}

/// Some walk along the edges of `g` leads from `s` to `t`.
pub open spec fn reachable(g: Graph, s: Seq<char>, t: Seq<char>) -> bool {
    exists|p: Seq<Seq<char>>| is_path(g, p) && p[0] == s && p.last() == t
}

pub proof fn lemma_reachable_self(g: Graph, s: Seq<char>)
    ensures
        reachable(g, s, s),
{
    let p = seq![s];
    assert(is_path(g, p));
    assert(p[0] == s && p.last() == s);
}

pub proof fn lemma_reachable_edge(g: Graph, s: Seq<char>, c: Seq<char>, d: Seq<char>)
    requires
        reachable(g, s, c),
        g.neighbors(c).contains(d),
    ensures
        reachable(g, s, d),
{
    let p = choose|p: Seq<Seq<char>>| is_path(g, p) && p[0] == s && p.last() == c;
    let q = p.push(d);
    assert forall|i: int| 0 <= i < q.len() - 1 implies #[trigger] g.neighbors(q[i]).contains(q[i + 1]) by {
        if i < p.len() - 1 {
            assert(q[i] == p[i] && q[i + 1] == p[i + 1]);
        } else {
            assert(q[i] == c && q[i + 1] == d);
        }
    }
    assert(is_path(g, q));
    assert(q[0] == s && q.last() == d);
}

/// A set that holds `s` and, with each node, all its neighbours holds every node
/// reachable from `s`.
pub proof fn lemma_closed_holds_reachable(g: Graph, closed: Set<Seq<char>>, s: Seq<char>, t: Seq<char>)
    requires
        closed.contains(s),
        forall|u: Seq<char>, d: Seq<char>| closed.contains(u) && #[trigger] g.neighbors(u).contains(d) ==> closed.contains(d),
        reachable(g, s, t),
    ensures
        closed.contains(t),
{
    let p = choose|p: Seq<Seq<char>>| is_path(g, p) && p[0] == s && p.last() == t;
    lemma_path_prefix_in(g, closed, p, p.len() - 1);
}

proof fn lemma_path_prefix_in(g: Graph, closed: Set<Seq<char>>, p: Seq<Seq<char>>, i: int)
    requires
        is_path(g, p),
        closed.contains(p[0]),
        forall|u: Seq<char>, d: Seq<char>| closed.contains(u) && #[trigger] g.neighbors(u).contains(d) ==> closed.contains(d),
        0 <= i < p.len(),
    ensures
        closed.contains(p[i]),
    decreases i,
{
    if i > 0 {
        lemma_path_prefix_in(g, closed, p, i - 1);
        assert(g.neighbors(p[i - 1]).contains(p[(i - 1) + 1]));
    }
}

} // verus!
