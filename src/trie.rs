//! A prefix tree over path components, kept in an arena of nodes addressed
//! by index. Each node lists the routes whose leading static components end
//! there.

use vstd::prelude::*;
use crate::segment::{bytes_eq, copy_bytes, views};

verus! {

/// One node: its static children by component, and the routes listed here.
pub struct TrieNode {
    children: Vec<(Vec<u8>, usize)>,
    routes: Vec<usize>,
}

/// The value of a node.
pub struct NodeView {
    pub children: Seq<(Seq<u8>, int)>,
    pub routes: Seq<int>,
}

impl View for TrieNode {
    type V = NodeView;

    closed spec fn view(&self) -> NodeView {
        NodeView {
            children: self.children@.map_values(|e: (Vec<u8>, usize)| (e.0@, e.1 as int)),
            routes: self.routes@.map_values(|r: usize| r as int),
        }
    }
}

/// The arena; node 0 is the root.
pub struct Trie {
    nodes: Vec<TrieNode>,
}

impl View for Trie {
    type V = Seq<NodeView>;

    closed spec fn view(&self) -> Seq<NodeView> {
        self.nodes@.map_values(|n: TrieNode| n@)
    }
}

/// The first child of `n` under component `x`.
pub open spec fn child_from(n: NodeView, x: Seq<u8>, i: int) -> Option<int>
    decreases n.children.len() - i,
{
    if i < 0 || i >= n.children.len() {
        None
    } else if n.children[i].0 == x {
        Some(n.children[i].1)
    } else {
        child_from(n, x, i + 1)
    }
}

pub open spec fn child(n: NodeView, x: Seq<u8>) -> Option<int> {
    child_from(n, x, 0)
}

/// The node reached from `n` by following `keys`.
pub open spec fn walk(t: Seq<NodeView>, n: int, keys: Seq<Seq<u8>>) -> Option<int>
    decreases keys.len(),
{
    if keys.len() == 0 {
        Some(n)
    } else if 0 <= n < t.len() {
        match child(t[n], keys[0]) {
            Some(c) => walk(t, c, keys.drop_first()),
            None => None,
        }
    } else {
        None
    }
}

/// Whether route `k` is listed at the node reached by `keys`.
pub open spec fn holds(t: Seq<NodeView>, keys: Seq<Seq<u8>>, k: int) -> bool {
    match walk(t, 0, keys) {
        Some(m) => 0 <= m < t.len() && t[m].routes.contains(k),
        None => false,
    }
}

/// Nodes refer only to nodes of the arena, and there is a root.
pub open spec fn trie_wf(t: Seq<NodeView>) -> bool {
    &&& t.len() >= 1
    &&& forall|n: int, i: int|
        0 <= n < t.len() && 0 <= i < t[n].children.len() ==> 0 <= (#[trigger] t[n].children[i]).1
            < t.len()
}

/// Every route listed anywhere is below `bound`.
pub open spec fn listed_below(t: Seq<NodeView>, bound: int) -> bool {
    forall|n: int, i: int|
        0 <= n < t.len() && 0 <= i < t[n].routes.len() ==> 0 <= #[trigger] t[n].routes[i] < bound
}

proof fn lemma_child_in_range(n: NodeView, x: Seq<u8>, i: int, bound: int)
    requires
        forall|j: int| 0 <= j < n.children.len() ==> 0 <= (#[trigger] n.children[j]).1 < bound,
    ensures
        child_from(n, x, i) matches Some(c) ==> 0 <= c < bound,
    decreases n.children.len() - i,
{
    if 0 <= i < n.children.len() && n.children[i].0 != x {
        lemma_child_in_range(n, x, i + 1, bound);
    }
}

proof fn lemma_walk_in_range(t: Seq<NodeView>, n: int, keys: Seq<Seq<u8>>)
    requires
        trie_wf(t),
        0 <= n < t.len(),
    ensures
        walk(t, n, keys) matches Some(m) ==> 0 <= m < t.len(),
    decreases keys.len(),
{
    if keys.len() > 0 {
        lemma_child_in_range(t[n], keys[0], 0, t.len() as int);
        match child(t[n], keys[0]) {
            Some(c) => lemma_walk_in_range(t, c, keys.drop_first()),
            None => {},
        }
    }
}

/// Walking one more component takes one more step from where the walk was.
proof fn lemma_walk_push(t: Seq<NodeView>, n: int, keys: Seq<Seq<u8>>, x: Seq<u8>)
    requires
        trie_wf(t),
        0 <= n < t.len(),
    ensures
        walk(t, n, keys.push(x)) == match walk(t, n, keys) {
            Some(m) => child(t[m], x),
            None => None::<int>,
        },
    decreases keys.len(),
{
    lemma_child_in_range(t[n], x, 0, t.len() as int);
    lemma_walk_in_range(t, n, keys);
    if keys.len() == 0 {
        assert(keys.push(x)[0] == x);
        assert(keys.push(x).drop_first() =~= Seq::<Seq<u8>>::empty());
        assert(walk(t, n, keys) == Some(n));
        match child(t[n], x) {
            Some(c) => {
                assert(walk(t, c, keys.push(x).drop_first()) == Some(c));
            },
            None => {},
        }
    } else {
        assert(keys.push(x)[0] == keys[0]);
        assert(keys.push(x).drop_first() =~= keys.drop_first().push(x));
        lemma_child_in_range(t[n], keys[0], 0, t.len() as int);
        match child(t[n], keys[0]) {
            Some(c) => lemma_walk_push(t, c, keys.drop_first(), x),
            None => {},
        }
    }
}


/// Adding a child under a component the node lacks leaves other lookups as
/// they were and makes that component lead to the new child.
proof fn lemma_child_push(n: NodeView, x: Seq<u8>, c: int, y: Seq<u8>, i: int)
    requires
        0 <= i <= n.children.len(),
        child_from(n, x, i) is None,
    ensures
        ({
            let m = NodeView { children: n.children.push((x, c)), routes: n.routes };
            &&& child_from(n, y, i) is Some ==> child_from(m, y, i) == child_from(n, y, i)
            &&& y == x ==> child_from(m, y, i) == Some(c)
        }),
    decreases n.children.len() - i,
{
    let m = NodeView { children: n.children.push((x, c)), routes: n.routes };
    if i < n.children.len() {
        assert(m.children[i] == n.children[i]);
        lemma_child_push(n, x, c, y, i + 1);
    } else {
        assert(m.children[i] == (x, c));
    }
}

/// Walks that succeed keep their result when nodes only gain children that
/// no successful walk used.
proof fn lemma_walk_kept(t: Seq<NodeView>, u: Seq<NodeView>, n: int, keys: Seq<Seq<u8>>)
    requires
        trie_wf(t),
        0 <= n < t.len() <= u.len(),
        forall|m: int, y: Seq<u8>|
            0 <= m < t.len() && #[trigger] child(t[m], y) is Some ==> child(u[m], y) == child(
                t[m],
                y,
            ),
        walk(t, n, keys) is Some,
    ensures
        walk(u, n, keys) == walk(t, n, keys),
    decreases keys.len(),
{
    if keys.len() > 0 {
        lemma_child_in_range(t[n], keys[0], 0, t.len() as int);
        let c = child(t[n], keys[0])->0;
        assert(child(u[n], keys[0]) == Some(c));
        lemma_walk_kept(t, u, c, keys.drop_first());
    }
}

/// Walks look only at children.
proof fn lemma_walk_children(t: Seq<NodeView>, u: Seq<NodeView>, n: int, keys: Seq<Seq<u8>>)
    requires
        t.len() == u.len(),
        forall|m: int| 0 <= m < t.len() ==> (#[trigger] t[m]).children == u[m].children,
    ensures
        walk(u, n, keys) == walk(t, n, keys),
    decreases keys.len(),
{
    if keys.len() > 0 && 0 <= n < t.len() {
        assert(t[n].children == u[n].children);
        assert(child(t[n], keys[0]) == child(u[n], keys[0])) by {
            lemma_child_same(t[n], u[n], keys[0], 0);
        }
        match child(t[n], keys[0]) {
            Some(c) => lemma_walk_children(t, u, c, keys.drop_first()),
            None => {},
        }
    }
}

proof fn lemma_child_same(a: NodeView, b: NodeView, x: Seq<u8>, i: int)
    requires
        a.children == b.children,
    ensures
        child_from(a, x, i) == child_from(b, x, i),
    decreases a.children.len() - i,
{
    if 0 <= i < a.children.len() {
        lemma_child_same(a, b, x, i + 1);
    }
}

impl TrieNode {
    fn empty() -> (r: TrieNode)
        ensures
            r@.children.len() == 0,
            r@.routes.len() == 0,
    {
        TrieNode { children: Vec::new(), routes: Vec::new() }
    }
}

impl Trie {
    /// A tree holding only an empty root.
    pub fn new() -> (r: Trie)
        ensures
            trie_wf(r@),
            listed_below(r@, 0),
    {
        let mut nodes: Vec<TrieNode> = Vec::new();
        nodes.push(TrieNode::empty());
        let r = Trie { nodes };
        proof {
            assert(r@[0] == r.nodes@[0]@);
        }
        r
    }

    /// The child of node `n` under component `x`.
    fn find_child(&self, n: usize, x: &Vec<u8>) -> (r: Option<usize>)
        requires
            trie_wf(self@),
            n < self@.len(),
        ensures
            match r {
                Some(c) => child(self@[n as int], x@) == Some(c as int),
                None => child(self@[n as int], x@) is None,
            },
    {
        let node = &self.nodes[n];
        proof {
            assert(self@[n as int] == node@);
        }
        let mut i: usize = 0;
        while i < node.children.len()
            invariant
                i <= node.children@.len(),
                self@[n as int] == node@,
                child(node@, x@) == child_from(node@, x@, i as int),
            decreases node.children@.len() - i,
        {
            proof {
                assert(node@.children[i as int] == (node.children@[i as int].0@, node.children@[i as int].1 as int));
            }
            if bytes_eq(&node.children[i].0, x) {
                return Some(node.children[i].1);
            }
            i = i + 1;
        }
        None
    }
}


impl Trie {
    /// Lists route `k` at the node reached by `keys`, creating the nodes on
    /// the way that do not exist yet.
    pub fn add(&mut self, keys: &Vec<Vec<u8>>, k: usize)
        requires
            trie_wf(old(self)@),
        ensures
            trie_wf(final(self)@),
            holds(final(self)@, views(keys@), k as int),
            forall|key: Seq<Seq<u8>>, j: int|
                holds(old(self)@, key, j) ==> #[trigger] holds(final(self)@, key, j),
            forall|b: int| listed_below(old(self)@, b) && k < b ==> #[trigger] listed_below(final(self)@, b),
    {
        let ghost t0 = self@;
        let ghost kv = views(keys@);
        let mut cur: usize = 0;
        let mut d: usize = 0;
        while d < keys.len()
            invariant
                d <= keys@.len(),
                kv == views(keys@),
                trie_wf(self@),
                t0.len() <= self@.len(),
                cur < self@.len(),
                walk(self@, 0, kv.subrange(0, d as int)) == Some(cur as int),
                forall|key: Seq<Seq<u8>>, j: int| holds(t0, key, j) ==> #[trigger] holds(self@, key, j),
                forall|m: int| 0 <= m < t0.len() ==> (#[trigger] self@[m]).routes == t0[m].routes,
                forall|m: int| t0.len() <= m < self@.len() ==> (#[trigger] self@[m]).routes.len() == 0,
            decreases keys@.len() - d,
        {
            let ghost t = self@;
            proof {
                assert(kv.subrange(0, d + 1) =~= kv.subrange(0, d as int).push(kv[d as int]));
                assert(kv[d as int] == keys@[d as int]@);
                lemma_walk_push(t, 0, kv.subrange(0, d as int), kv[d as int]);
            }
            match self.find_child(cur, &keys[d]) {
                Some(c) => {
                    proof {
                        lemma_child_in_range(t[cur as int], kv[d as int], 0, t.len() as int);
                    }
                    cur = c;
                },
                None => {
                    let fresh = self.nodes.len();
                    let ghost nodes0 = self.nodes@;
                    self.nodes.push(TrieNode::empty());
                    let name = copy_bytes(&keys[d]);
                    let ghost ch0 = self.nodes@[cur as int].children@;
                    self.nodes[cur].children.push((name, fresh));
                    let ghost u = self@;
                    let ghost x = kv[d as int];
                    proof {
                        let nc = NodeView { children: t[cur as int].children.push((x, fresh as int)), routes: t[cur as int].routes };
                        assert(u.len() == t.len() + 1);
                        assert(self.nodes@[cur as int].children@ == ch0.push((name, fresh)));
                        assert(ch0 == nodes0[cur as int].children@);
                        assert(u[cur as int].children =~= nc.children);
                        assert(u[cur as int].routes =~= nc.routes);
                        assert(u[cur as int] == nc);
                        assert forall|m: int| 0 <= m < t.len() && m != cur implies #[trigger] u[m] == t[m] by {
                            assert(self.nodes@[m] == nodes0[m]);
                        }
                        assert(u[fresh as int] == self.nodes@[fresh as int]@);
                        assert forall|m: int, y: Seq<u8>|
                            0 <= m < t.len() && #[trigger] child(t[m], y) is Some implies child(u[m], y) == child(t[m], y) by {
                            if m == cur {
                                lemma_child_push(t[cur as int], x, fresh as int, y, 0);
                            }
                        }
                        lemma_child_push(t[cur as int], x, fresh as int, x, 0);
                        assert forall|key: Seq<Seq<u8>>, j: int| holds(t0, key, j) implies #[trigger] holds(u, key, j) by {
                            assert(holds(t, key, j));
                            lemma_walk_in_range(t, 0, key);
                            lemma_walk_kept(t, u, 0, key);
                        }
                        lemma_walk_kept(t, u, 0, kv.subrange(0, d as int));
                        lemma_walk_push(u, 0, kv.subrange(0, d as int), x);
                        assert forall|m: int, i: int|
                            0 <= m < u.len() && 0 <= i < u[m].children.len() implies 0 <= (#[trigger] u[m].children[i]).1 < u.len() by {
                            if m < t.len() && m != cur {
                                assert(t[m].children[i] == u[m].children[i]);
                            } else if m == cur && i < t[m].children.len() {
                                assert(t[m].children[i] == u[m].children[i]);
                            }
                        }
                    }
                    cur = fresh;
                },
            }
            d = d + 1;
        }
        proof {
            assert(kv.subrange(0, kv.len() as int) =~= kv);
        }
        let ghost t = self@;
        let ghost nodes0 = self.nodes@;
        let ghost rs0 = self.nodes@[cur as int].routes@;
        self.nodes[cur].routes.push(k);
        let ghost u = self@;
        proof {
            assert(self.nodes@[cur as int].routes@ == rs0.push(k));
            assert(u[cur as int].routes =~= t[cur as int].routes.push(k as int));
            assert(u[cur as int].children =~= t[cur as int].children);
            assert forall|m: int| 0 <= m < t.len() && m != cur implies #[trigger] u[m] == t[m] by {
                assert(self.nodes@[m] == nodes0[m]);
            }
            assert forall|m: int| 0 <= m < t.len() implies (#[trigger] t[m]).children == u[m].children by {}
            assert forall|key: Seq<Seq<u8>>| walk(u, 0, key) == walk(t, 0, key) by {
                lemma_walk_children(t, u, 0, key);
            }
            assert(u[cur as int].routes.last() == k as int);
            assert forall|key: Seq<Seq<u8>>, j: int| holds(t0, key, j) implies #[trigger] holds(u, key, j) by {
                assert(holds(t, key, j));
                let m = walk(t, 0, key)->0;
                if m == cur {
                    let i = choose|i: int| 0 <= i < t[m].routes.len() && t[m].routes[i] == j;
                    assert(u[m].routes[i] == j);
                }
            }
            assert forall|b: int| listed_below(t0, b) && k < b implies #[trigger] listed_below(u, b) by {
                assert forall|m: int, i: int| 0 <= m < u.len() && 0 <= i < u[m].routes.len() implies 0 <= #[trigger] u[m].routes[i] < b by {
                    if m < t0.len() {
                        if m == cur && i == t[m].routes.len() {
                        } else {
                            assert(u[m].routes[i] == t0[m].routes[i]);
                        }
                    }
                }
            }
            assert forall|m: int, i: int|
                0 <= m < u.len() && 0 <= i < u[m].children.len() implies 0 <= (#[trigger] u[m].children[i]).1 < u.len() by {
                assert(t[m].children[i] == u[m].children[i]);
            }
        }
    }
}


/// A walk that fails stays failed on longer prefixes.
proof fn lemma_walk_none_extends(t: Seq<NodeView>, kv: Seq<Seq<u8>>, d: int, e: int)
    requires
        trie_wf(t),
        0 <= d <= e <= kv.len(),
        walk(t, 0, kv.subrange(0, d)) is None,
    ensures
        walk(t, 0, kv.subrange(0, e)) is None,
    decreases e - d,
{
    if e > d {
        lemma_walk_none_extends(t, kv, d, e - 1);
        assert(kv.subrange(0, e) =~= kv.subrange(0, e - 1).push(kv[e - 1]));
        lemma_walk_push(t, 0, kv.subrange(0, e - 1), kv[e - 1]);
    }
}

impl Trie {
    /// The routes listed at the nodes that the leading components of
    /// `comps` reach, one node per component.
    pub fn collect(&self, comps: &Vec<Vec<u8>>) -> (r: Vec<usize>)
        requires
            trie_wf(self@),
        ensures
            forall|d: int, j: int|
                0 <= d <= comps@.len() && #[trigger] holds(self@, views(comps@).subrange(0, d), j)
                    ==> exists|i: int| 0 <= i < r@.len() && r@[i] as int == j,
            forall|b: int| #[trigger] listed_below(self@, b) ==> forall|i: int| 0 <= i < r@.len() ==> r@[i] < b,
    {
        let ghost t = self@;
        let ghost kv = views(comps@);
        let mut out: Vec<usize> = Vec::new();
        let mut cur: usize = 0;
        let mut d: usize = 0;
        let mut done = false;
        proof {
            assert(kv.subrange(0, 0) =~= Seq::<Seq<u8>>::empty());
        }
        while !done
            invariant
                t == self@,
                kv == views(comps@),
                trie_wf(t),
                d <= comps@.len(),
                cur < t.len(),
                !done ==> walk(t, 0, kv.subrange(0, d as int)) == Some(cur as int),
                done ==> forall|e: int| d < e <= kv.len() ==> walk(t, 0, kv.subrange(0, e)) is None,
                forall|e: int, j: int|
                    0 <= e < d + (if done { 1int } else { 0int }) && e <= comps@.len() && #[trigger] holds(t, kv.subrange(0, e), j)
                        ==> exists|i: int| 0 <= i < out@.len() && out@[i] as int == j,
                forall|b: int| #[trigger] listed_below(t, b) ==> forall|i: int| 0 <= i < out@.len() ==> out@[i] < b,
            decreases comps@.len() - d + (if done { 0int } else { 1int }),
        {
            let node = &self.nodes[cur];
            proof {
                assert(t[cur as int] == node@);
            }
            let ghost out0 = out@;
            let mut i: usize = 0;
            while i < node.routes.len()
                invariant
                    t == self@,
                    t[cur as int] == node@,
                    cur < t.len(),
                    i <= node.routes@.len(),
                    out@.len() == out0.len() + i,
                    forall|a: int| 0 <= a < out0.len() ==> out@[a] == out0[a],
                    forall|a: int| 0 <= a < i ==> out@[out0.len() + a] == node.routes@[a],
                    forall|b: int| #[trigger] listed_below(t, b) ==> forall|a: int| 0 <= a < out0.len() ==> out0[a] < b,
                decreases node.routes@.len() - i,
            {
                out.push(node.routes[i]);
                i = i + 1;
            }
            proof {
                assert forall|b: int| #[trigger] listed_below(t, b) implies forall|a: int| 0 <= a < out@.len() ==> out@[a] < b by {
                    assert forall|a: int| 0 <= a < out@.len() implies out@[a] < b by {
                        if a >= out0.len() {
                            let q = a - out0.len();
                            assert(t[cur as int].routes[q] == node.routes@[q] as int);
                            assert(0 <= t[cur as int].routes[q] < b);
                        } else {
                            assert(out0[a] < b);
                        }
                    }
                }
                assert forall|j: int| #[trigger] holds(t, kv.subrange(0, d as int), j) implies exists|a: int| 0 <= a < out@.len() && out@[a] as int == j by {
                    let q = choose|q: int| 0 <= q < t[cur as int].routes.len() && t[cur as int].routes[q] == j;
                    assert(t[cur as int].routes[q] == node.routes@[q] as int);
                    assert(out@[out0.len() + q] as int == j);
                }
                assert forall|e: int, j: int| 0 <= e < d && #[trigger] holds(t, kv.subrange(0, e), j) implies exists|a: int| 0 <= a < out@.len() && out@[a] as int == j by {
                    let a0 = choose|a: int| 0 <= a < out0.len() && out0[a] as int == j;
                    assert(out@[a0] == out0[a0]);
                }
            }
            if d == comps.len() {
                done = true;
            } else {
                proof {
                    assert(kv.subrange(0, d + 1) =~= kv.subrange(0, d as int).push(kv[d as int]));
                    assert(kv[d as int] == comps@[d as int]@);
                    lemma_walk_push(t, 0, kv.subrange(0, d as int), kv[d as int]);
                }
                match self.find_child(cur, &comps[d]) {
                    Some(c) => {
                        proof {
                            lemma_child_in_range(t[cur as int], kv[d as int], 0, t.len() as int);
                        }
                        cur = c;
                        d = d + 1;
                    },
                    None => {
                        proof {
                            assert forall|e: int| d < e <= kv.len() implies walk(t, 0, kv.subrange(0, e)) is None by {
                                lemma_walk_none_extends(t, kv, d + 1, e);
                            }
                        }
                        done = true;
                    },
                }
            }
        }
        proof {
            assert forall|e: int, j: int| 0 <= e <= comps@.len() && #[trigger] holds(t, kv.subrange(0, e), j) implies exists|a: int| 0 <= a < out@.len() && out@[a] as int == j by {
                if e > d {
                    assert(walk(t, 0, kv.subrange(0, e)) is None);
                }
            }
        }
        out
    }
}

} // verus!
