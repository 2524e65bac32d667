//! The scene graph as an arena: every shape is a node of one table, a
//! composite node lists the indices of its children, and each node may name
//! its parent by index. The parent link owns nothing; it serves the upward
//! walk that composes the transforms of all ancestors.
use vstd::prelude::*;
use crate::csg::{Operation, kept_positions, filter_intersections};

verus! {

/// What the traversal needs to know of a node: a primitive surface, a group
/// of children, or a boolean combination of a left and a right operand.
#[derive(Clone, Copy, Debug, PartialEq, Eq, Structural)]
pub enum NodeKind {
    Primitive,
    Group,
    Csg(Operation),
}

/// One entry of the arena. `payload` holds whatever the geometry attaches to
/// the node (its transform, material and shape parameters).
pub struct Node<P> {
    pub kind: NodeKind,
    pub parent: Option<usize>,
    pub children: Vec<usize>,
    pub payload: P,
}

/// The arena of all nodes of a scene.
pub struct Scene<P> {
    nodes: Vec<Node<P>>,
}

impl<P> View for Scene<P> {
    type V = Seq<Node<P>>;

    closed spec fn view(&self) -> Seq<Node<P>> {
        self.nodes@
    }
}

/// The links of node `i` agree with each other: a parent comes before its
/// child and lists it, each child comes after `i` and names `i` as parent, a
/// primitive has no child and a boolean combination at most two.
pub open spec fn node_wf<P>(ns: Seq<Node<P>>, i: int) -> bool {
    &&& match ns[i].parent {
        Some(p) => p < i && ns[p as int].children@.contains(i as usize),
        None => true,
    }
    &&& forall|j: int|
        0 <= j < ns[i].children@.len() ==> #[trigger] child_wf(ns, i, ns[i].children@[j])
    &&& (ns[i].kind == NodeKind::Primitive ==> ns[i].children@.len() == 0)
    &&& (ns[i].kind is Csg ==> ns[i].children@.len() <= 2)
}

/// Child `c` of node `i` lies after `i` in the arena and names `i` as parent.
pub open spec fn child_wf<P>(ns: Seq<Node<P>>, i: int, c: usize) -> bool {
    i < c < ns.len() && ns[c as int].parent == Some(i as usize)
}

/// Whether node `b` lies in the subtree rooted at node `a` (a node lies in
/// its own subtree).
pub open spec fn within<P>(ns: Seq<Node<P>>, a: int, b: int) -> bool
    decreases b,
{
    if b < 0 || b >= ns.len() {
        false
    } else if a == b {
        true
    } else {
        match ns[b].parent {
            Some(p) => if (p as int) < b {
                within(ns, a, p as int)
            } else {
                false
            },
            None => false,
        }
    }
}

/// Node `i` followed by its ancestors, up to the root of its tree.
pub open spec fn chain<P>(ns: Seq<Node<P>>, i: int) -> Seq<usize>
    decreases i,
{
    if i < 0 || i >= ns.len() {
        Seq::empty()
    } else {
        match ns[i].parent {
            Some(p) => if (p as int) < i {
                seq![i as usize] + chain(ns, p as int)
            } else {
                seq![i as usize]
            },
            None => seq![i as usize],
        }
    }
}

/// The nodes among the first `n` that have no parent, in order.
pub open spec fn roots_upto<P>(ns: Seq<Node<P>>, n: int) -> Seq<usize>
    decreases n,
{
    if n <= 0 {
        Seq::empty()
    } else if ns[n - 1].parent is None {
        roots_upto(ns, n - 1).push((n - 1) as usize)
    } else {
        roots_upto(ns, n - 1)
    }
}

/// For each hit shape, whether it belongs to the left operand of node `c`.
pub open spec fn left_hits<P>(ns: Seq<Node<P>>, c: int, shapes: Seq<usize>) -> Seq<bool> {
    shapes.map_values(
        |s: usize| ns[c].children@.len() > 0 && within(ns, ns[c].children@[0] as int, s as int),
    )
}

/// Whether node `b` is reached from node `a` down child links, through
/// nested groups and boolean nodes (a node reaches itself).
pub open spec fn reaches<P>(ns: Seq<Node<P>>, a: int, b: int) -> bool
    decreases ns.len() - a, ns[a].children@.len() + 1,
{
    if a < 0 || a >= ns.len() {
        false
    } else if a == b {
        true
    } else {
        reaches_through(ns, a, b, ns[a].children@.len() as int)
    }
}

/// Whether node `b` is reached through one of the first `j` children of `a`.
pub open spec fn reaches_through<P>(ns: Seq<Node<P>>, a: int, b: int, j: int) -> bool
    decreases ns.len() - a, j,
{
    if j <= 0 || a < 0 || a >= ns.len() || j > ns[a].children@.len() {
        false
    } else {
        let c = ns[a].children@[j - 1] as int;
        (a < c < ns.len() && reaches(ns, c, b)) || reaches_through(ns, a, b, j - 1)
    }
}

proof fn lemma_through_witness<P>(ns: Seq<Node<P>>, a: int, b: int, j: int)
    requires
        reaches_through(ns, a, b, j),
    ensures
        exists|k: int|
            0 <= k < j && k < ns[a].children@.len() && a < ns[a].children@[k] < ns.len() && reaches(
                ns,
                #[trigger] ns[a].children@[k] as int,
                b,
            ),
    decreases j,
{
    let c = ns[a].children@[j - 1] as int;
    if a < c < ns.len() && reaches(ns, c, b) {
        assert(reaches(ns, ns[a].children@[j - 1] as int, b));
    } else {
        lemma_through_witness(ns, a, b, j - 1);
    }
}

proof fn lemma_through_from_child<P>(ns: Seq<Node<P>>, a: int, b: int, k: int, j: int)
    requires
        0 <= a < ns.len(),
        0 <= k < j <= ns[a].children@.len(),
        a < ns[a].children@[k] < ns.len(),
        reaches(ns, ns[a].children@[k] as int, b),
    ensures
        reaches_through(ns, a, b, j),
    decreases j,
{
    if k < j - 1 {
        lemma_through_from_child(ns, a, b, k, j - 1);
    }
}

/// Going one child further down keeps a node reachable.
proof fn lemma_reaches_step<P>(ns: Seq<Node<P>>, a: int, p: int, b: int)
    requires
        ns.len() <= usize::MAX,
        forall|i: int| 0 <= i < ns.len() ==> #[trigger] node_wf(ns, i),
        reaches(ns, a, p),
        0 <= p < b < ns.len(),
        ns[b].parent == Some(p as usize),
    ensures
        reaches(ns, a, b),
    decreases ns.len() - a,
{
    assert(node_wf(ns, b));
    assert(ns[p].children@.contains(b as usize));
    let k = ns[p].children@.index_of(b as usize);
    assert(ns[p].children@[k] == b);
    assert(node_wf(ns, p));
    assert(child_wf(ns, p, ns[p].children@[k]));
    if a == p {
        assert(a != b);
        lemma_through_from_child(ns, a, b, k, ns[a].children@.len() as int);
    } else {
        lemma_reaches_after(ns, a, p);
        lemma_through_witness(ns, a, p, ns[a].children@.len() as int);
        let k2 = choose|k2: int|
            0 <= k2 < ns[a].children@.len() as int && k2 < ns[a].children@.len() && a < ns[a].children@[k2]
                < ns.len() && reaches(ns, #[trigger] ns[a].children@[k2] as int, p);
        let c = ns[a].children@[k2] as int;
        lemma_reaches_step(ns, c, p, b);
        lemma_through_from_child(ns, a, b, k2, ns[a].children@.len() as int);
    }
}

/// What a node reaches lies at or after it in the arena.
proof fn lemma_reaches_after<P>(ns: Seq<Node<P>>, a: int, b: int)
    requires
        reaches(ns, a, b),
    ensures
        a <= b,
    decreases ns.len() - a,
{
    if a != b {
        lemma_through_witness(ns, a, b, ns[a].children@.len() as int);
        let k = choose|k: int|
            0 <= k < ns[a].children@.len() as int && k < ns[a].children@.len() && a < ns[a].children@[k]
                < ns.len() && reaches(ns, #[trigger] ns[a].children@[k] as int, b);
        lemma_reaches_after(ns, ns[a].children@[k] as int, b);
    }
}

/// Going one parent further up keeps a node within the subtree.
proof fn lemma_within_up<P>(ns: Seq<Node<P>>, a: int, c: int, b: int)
    requires
        within(ns, c, b),
        0 <= a < c < ns.len(),
        ns.len() <= usize::MAX,
        ns[c].parent == Some(a as usize),
    ensures
        within(ns, a, b),
    decreases b,
{
    if b == c {
        assert(within(ns, a, a));
    } else if b != a {
        let p = ns[b].parent.unwrap() as int;
        lemma_within_up(ns, a, c, p);
    }
}

/// A node's subtree lies at or after it in the arena.
proof fn lemma_within_after<P>(ns: Seq<Node<P>>, a: int, b: int)
    requires
        within(ns, a, b),
    ensures
        a <= b < ns.len(),
    decreases b,
{
    if a != b {
        let p = ns[b].parent.unwrap() as int;
        lemma_within_after(ns, a, p);
    }
}

proof fn lemma_within_reaches<P>(ns: Seq<Node<P>>, a: int, b: int)
    requires
        ns.len() <= usize::MAX,
        forall|i: int| 0 <= i < ns.len() ==> #[trigger] node_wf(ns, i),
        0 <= a < ns.len(),
        within(ns, a, b),
    ensures
        reaches(ns, a, b),
    decreases b,
{
    if a != b {
        let p = ns[b].parent.unwrap() as int;
        lemma_within_reaches(ns, a, p);
        lemma_reaches_step(ns, a, p, b);
    }
}

proof fn lemma_reaches_within<P>(ns: Seq<Node<P>>, a: int, b: int)
    requires
        ns.len() <= usize::MAX,
        forall|i: int| 0 <= i < ns.len() ==> #[trigger] node_wf(ns, i),
        reaches(ns, a, b),
    ensures
        within(ns, a, b),
    decreases ns.len() - a,
{
    if a != b {
        lemma_through_witness(ns, a, b, ns[a].children@.len() as int);
        let k = choose|k: int|
            0 <= k < ns[a].children@.len() as int && k < ns[a].children@.len() && a < ns[a].children@[k]
                < ns.len() && reaches(ns, #[trigger] ns[a].children@[k] as int, b);
        let c = ns[a].children@[k] as int;
        assert(node_wf(ns, a));
        assert(child_wf(ns, a, ns[a].children@[k]));
        lemma_reaches_within(ns, c, b);
        lemma_within_up(ns, a, c, b);
    }
}

impl<P> Scene<P> {
    pub open spec fn wf(&self) -> bool {
        &&& self@.len() <= usize::MAX
        &&& forall|i: int| 0 <= i < self@.len() ==> #[trigger] node_wf(self@, i)
    }

    /// An empty scene.
    pub fn new() -> (s: Self)
        ensures
            s@.len() == 0,
            s.wf(),
    {
        Scene { nodes: Vec::new() }
    }

    pub fn len(&self) -> (r: usize)
        ensures
            r == self@.len(),
    {
        self.nodes.len()
    }

    /// Adds a node with no parent and no children; returns its index.
    pub fn add(&mut self, kind: NodeKind, payload: P) -> (r: usize)
        requires
            old(self).wf(),
            old(self)@.len() < usize::MAX,
        ensures
            final(self).wf(),
            r == old(self)@.len(),
            final(self)@.len() == old(self)@.len() + 1,
            final(self)@.subrange(0, r as int) == old(self)@,
            final(self)@[r as int].kind == kind,
            final(self)@[r as int].parent is None,
            final(self)@[r as int].children@.len() == 0,
            final(self)@[r as int].payload == payload,
    {
        let r = self.nodes.len();
        self.nodes.push(Node { kind, parent: None, children: Vec::new(), payload });
        proof {
            assert(self@.subrange(0, r as int) =~= old(self)@);
            assert forall|i: int| 0 <= i < self@.len() implies #[trigger] node_wf(self@, i) by {
                if i < r {
                    assert(node_wf(old(self)@, i));
                    assert forall|j: int| 0 <= j < self@[i].children@.len() implies
                        #[trigger] child_wf(self@, i, self@[i].children@[j]) by {
                        assert(child_wf(old(self)@, i, old(self)@[i].children@[j]));
                    }
                }
            }
        }
        r
    }
    /// Whether a new child may be attached under node `p`: a group takes any
    /// number of children, a boolean combination its left and then its right
    /// operand.
    pub open spec fn accepts_child(&self, p: int) -> bool {
        &&& 0 <= p < self@.len()
        &&& match self@[p].kind {
            NodeKind::Primitive => false,
            NodeKind::Group => true,
            NodeKind::Csg(_) => self@[p].children@.len() < 2,
        }
    }

    /// Adds a node as the last child of node `parent`; returns its index, or
    /// `None` (and changes nothing) where `parent` takes no further child.
    pub fn add_child(&mut self, parent: usize, kind: NodeKind, payload: P) -> (r: Option<usize>)
        requires
            old(self).wf(),
            old(self)@.len() < usize::MAX,
        ensures
            final(self).wf(),
            r is None <==> !old(self).accepts_child(parent as int),
            r is None ==> final(self)@ == old(self)@,
            r matches Some(n) ==> {
                &&& n == old(self)@.len()
                &&& final(self)@.len() == old(self)@.len() + 1
                &&& final(self)@[n as int].kind == kind
                &&& final(self)@[n as int].parent == Some(parent)
                &&& final(self)@[n as int].children@.len() == 0
                &&& final(self)@[n as int].payload == payload
                &&& final(self)@[parent as int].children@ == old(self)@[parent as int].children@.push(n)
                &&& final(self)@[parent as int].kind == old(self)@[parent as int].kind
                &&& final(self)@[parent as int].parent == old(self)@[parent as int].parent
                &&& final(self)@[parent as int].payload == old(self)@[parent as int].payload
                &&& forall|i: int| 0 <= i < n && i != parent ==> #[trigger] final(self)@[i] == old(self)@[i]
            },
    {
        if parent >= self.nodes.len() {
            return None;
        }
        let accepts = match self.nodes[parent].kind {
            NodeKind::Primitive => false,
            NodeKind::Group => true,
            NodeKind::Csg(_) => self.nodes[parent].children.len() < 2,
        };
        if !accepts {
            return None;
        }
        let n = self.nodes.len();
        self.nodes.push(Node { kind, parent: Some(parent), children: Vec::new(), payload });
        self.nodes[parent].children.push(n);
        proof {
            let ns = self@;
            let os = old(self)@;
            assert forall|i: int| 0 <= i < ns.len() implies #[trigger] node_wf(ns, i) by {
                if i < n {
                    assert(node_wf(os, i));
                    if i == parent {
                        assert forall|j: int| 0 <= j < ns[i].children@.len() implies
                            #[trigger] child_wf(ns, i, ns[i].children@[j]) by {
                            if j < os[i].children@.len() {
                                assert(child_wf(os, i, os[i].children@[j]));
                            }
                        }
                    } else {
                        assert forall|j: int| 0 <= j < ns[i].children@.len() implies
                            #[trigger] child_wf(ns, i, ns[i].children@[j]) by {
                            assert(child_wf(os, i, os[i].children@[j]));
                        }
                    }
                    match ns[i].parent {
                        Some(q) => {
                            if q == parent {
                                assert(ns[q as int].children@[os[q as int].children@.index_of(i as usize)] == i);
                            }
                        },
                        None => {},
                    }
                } else {
                    assert(ns[parent as int].children@[os[parent as int].children@.len() as int] == n);
                }
            }
        }
        Some(n)
    }

    pub fn kind(&self, i: usize) -> (r: NodeKind)
        requires
            i < self@.len(),
        ensures
            r == self@[i as int].kind,
    {
        self.nodes[i].kind
    }

    pub fn parent(&self, i: usize) -> (r: Option<usize>)
        requires
            i < self@.len(),
        ensures
            r == self@[i as int].parent,
    {
        self.nodes[i].parent
    }

    pub fn children(&self, i: usize) -> (r: &Vec<usize>)
        requires
            i < self@.len(),
        ensures
            r@ == self@[i as int].children@,
    {
        &self.nodes[i].children
    }

    pub fn payload(&self, i: usize) -> (r: &P)
        requires
            i < self@.len(),
        ensures
            *r == self@[i as int].payload,
    {
        &self.nodes[i].payload
    }
    /// Whether node `b` lies in the subtree of node `a`: the test that tells
    /// which operand of a boolean combination a hit shape belongs to.
    pub fn includes(&self, a: usize, b: usize) -> (r: bool)
        ensures
            r == within(self@, a as int, b as int),
    {
        if b >= self.nodes.len() {
            return false;
        }
        let mut cur = b;
        loop
            invariant
                cur < self@.len(),
                within(self@, a as int, b as int) == within(self@, a as int, cur as int),
            decreases cur,
        {
            if cur == a {
                return true;
            }
            match self.nodes[cur].parent {
                Some(p) => {
                    if p < cur {
                        cur = p;
                    } else {
                        return false;
                    }
                },
                None => {
                    return false;
                },
            }
        }
    }

    /// Node `i` followed by its ancestors up to its root: the nodes whose
    /// transforms compose, innermost first, into the one that maps the
    /// node's own space to world space.
    pub fn ancestry(&self, i: usize) -> (r: Vec<usize>)
        ensures
            r@ == chain(self@, i as int),
    {
        let mut r: Vec<usize> = Vec::new();
        if i >= self.nodes.len() {
            return r;
        }
        let mut cur = i;
        loop
            invariant
                cur < self@.len(),
                r@ + chain(self@, cur as int) == chain(self@, i as int),
            decreases cur,
        {
            let ghost before = r@;
            r.push(cur);
            match self.nodes[cur].parent {
                Some(p) => {
                    if p < cur {
                        proof {
                            assert(r@ + chain(self@, p as int) =~= before + (seq![cur] + chain(
                                self@,
                                p as int,
                            )));
                        }
                        cur = p;
                    } else {
                        proof {
                            assert(r@ =~= before + seq![cur]);
                        }
                        return r;
                    }
                },
                None => {
                    proof {
                        assert(r@ =~= before + seq![cur]);
                    }
                    return r;
                },
            }
        }
    }
    /// The nodes without a parent, in the order they were added: the
    /// top-level shapes of the scene.
    pub fn roots(&self) -> (r: Vec<usize>)
        ensures
            r@ == roots_upto(self@, self@.len() as int),
    {
        let mut r: Vec<usize> = Vec::new();
        let mut k: usize = 0;
        while k < self.nodes.len()
            invariant
                k <= self@.len(),
                r@ == roots_upto(self@, k as int),
            decreases self@.len() - k,
        {
            if self.nodes[k].parent.is_none() {
                r.push(k);
            }
            k = k + 1;
        }
        r
    }

    /// Filters the hits of the two operands of boolean node `c`, sorted by
    /// distance, where `shapes[k]` is the node that the `k`-th hit struck.
    /// Returns the positions of the hits that lie on the combined surface;
    /// for a node that is no boolean combination, none.
    pub fn csg_filter(&self, c: usize, shapes: &Vec<usize>) -> (r: Vec<usize>)
        ensures
            c < self@.len() ==> match self@[c as int].kind {
                NodeKind::Csg(op) => r@ == kept_positions(
                    op,
                    left_hits(self@, c as int, shapes@),
                    shapes@.len() as int,
                ),
                _ => r@.len() == 0,
            },
            c >= self@.len() ==> r@.len() == 0,
    {
        if c >= self.nodes.len() {
            return Vec::new();
        }
        let op = match self.nodes[c].kind {
            NodeKind::Csg(op) => op,
            _ => {
                return Vec::new();
            },
        };
        let mut lhits: Vec<bool> = Vec::new();
        let mut k: usize = 0;
        while k < shapes.len()
            invariant
                c < self@.len(),
                k <= shapes@.len(),
                lhits@ == left_hits(self@, c as int, shapes@).subrange(0, k as int),
            decreases shapes@.len() - k,
        {
            let lhit = if self.nodes[c].children.len() > 0 {
                self.includes(self.nodes[c].children[0], shapes[k])
            } else {
                false
            };
            lhits.push(lhit);
            proof {
                assert(lhits@ =~= left_hits(self@, c as int, shapes@).subrange(0, k + 1));
            }
            k = k + 1;
        }
        proof {
            assert(lhits@ =~= left_hits(self@, c as int, shapes@));
        }
        filter_intersections(op, &lhits)
    }
    /// A node includes exactly the nodes reached from it down child links,
    /// through any nesting of groups and boolean nodes: the upward walk that
    /// `includes` performs agrees with the subtree.
    pub proof fn lemma_includes_is_reachability(&self, a: usize, b: usize)
        requires
            self.wf(),
        ensures
            within(self@, a as int, b as int) == reaches(self@, a as int, b as int),
    {
        if within(self@, a as int, b as int) {
            lemma_within_after(self@, a as int, b as int);
            lemma_within_reaches(self@, a as int, b as int);
        }
        if reaches(self@, a as int, b as int) {
            lemma_reaches_within(self@, a as int, b as int);
        }
    }
}

} // verus!
