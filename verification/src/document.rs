//! The document: a forest of nodes held in an arena.
//!
//! A node is known to its users by its `Id` and to the layout by its index
//! in the arena. Each node lists its children in order and names its
//! parent. No node is its own ancestor: a ghost rank, larger at a parent
//! than at any of its children, is kept as the witness.

use vstd::prelude::*;
use crate::Id;

verus! {

/// The most nodes a document holds. No node has more children than the
/// document has nodes, so every container's items can be laid out.
pub const MAX_NODES: usize = crate::flex_lines::MAX_ITEMS;

/// A named value on a node.
pub struct Attribute {
    pub key: String,
    pub value: String,
}

/// A node of the document.
pub struct Node {
    pub id: Id,
    pub text: Option<String>,
    pub attributes: Vec<Attribute>,
    pub children: Vec<usize>,
    pub parent: Option<usize>,
}

/// Why a node could not be given a parent.
#[derive(Clone, Copy, Debug, PartialEq, Eq, Structural)]
pub enum DocumentError {
    /// The parent or the child is not a node of the document.
    UnknownNode,
    /// The child is the parent itself or one of its ancestors.
    Cycle,
}

/// A forest of nodes. The node at index 0 is the root, with `Id` 0.
pub struct Document {
    pub nodes: Vec<Node>,
    pub rank: Ghost<Seq<nat>>,
    pub ceiling: Ghost<nat>,
}

/// The sequence `s` without the value `v`, which it holds at most once.
pub open spec fn without(s: Seq<usize>, v: usize) -> Seq<usize> {
    if s.contains(v) {
        s.remove(s.index_of(v))
    } else {
        s
    }
}

/// Whether some attribute of the list has the given key.
pub open spec fn has_attribute(attributes: Seq<Attribute>, key: Seq<char>) -> bool {
    exists|i: int| 0 <= i < attributes.len() && (#[trigger] attributes[i]).key@ == key
}

/// Whether `at` is the place of the first attribute with the given key.
pub open spec fn is_first_attribute(attributes: Seq<Attribute>, key: Seq<char>, at: int) -> bool {
    &&& 0 <= at < attributes.len()
    &&& attributes[at].key@ == key
    &&& forall|j: int| 0 <= j < at ==> (#[trigger] attributes[j]).key@ != key
}

/// The value of the first attribute with the given key, if there is one.
pub open spec fn attribute_value(attributes: Seq<Attribute>, key: Seq<char>) -> Option<Seq<char>> {
    if has_attribute(attributes, key) {
        Some(attributes[choose|at: int| is_first_attribute(attributes, key, at)].value@)
    } else {
        None
    }
}

/// The place of the first attribute with the given key, if there is one.
pub fn find_attribute(attributes: &Vec<Attribute>, key: &str) -> (found: Option<usize>)
    ensures
        found is Some <==> has_attribute(attributes@, key@),
        found is Some ==> is_first_attribute(attributes@, key@, found->0 as int),
        found is Some ==> attribute_value(attributes@, key@) == Some(
            attributes@[found->0 as int].value@,
        ),
{
    let wanted = key.to_owned();
    let mut i: usize = 0;
    while i < attributes.len()
        invariant
            i <= attributes.len(),
            wanted@ == key@,
            forall|j: int| 0 <= j < i ==> (#[trigger] attributes@[j]).key@ != key@,
        decreases attributes.len() - i,
    {
        if attributes[i].key == wanted {
            proof {
                assert(is_first_attribute(attributes@, key@, i as int));
                let at = choose|at: int| is_first_attribute(attributes@, key@, at);
                assert(at == i) by {
                    if at < i {
                        assert(attributes@[at].key@ != key@);
                    }
                    if i < at {
                        assert(attributes@[i as int].key@ != key@);
                    }
                }
            }
            return Some(i);
        }
        i = i + 1;
    }
    None
}

impl Document {
    /// The number of nodes.
    pub open spec fn len(&self) -> int {
        self.nodes@.len() as int
    }

    /// Whether `c` is a node whose parent is `p` and whose rank is below
    /// that of `p`.
    pub open spec fn is_child_edge(&self, p: int, c: int) -> bool {
        &&& 0 <= c < self.len()
        &&& self.nodes@[c].parent == Some(p as usize)
        &&& self.rank@[c] < self.rank@[p]
    }

    /// The document is well formed: it has a root, no two nodes share an
    /// `Id`, no node is listed twice by its parent, each node listed as a
    /// child names the lister as its parent and each node that names a
    /// parent is listed by it, and ranks fall from parent to child.
    pub open spec fn wf(&self) -> bool {
        &&& 1 <= self.len() <= MAX_NODES
        &&& self.rank@.len() == self.len()
        &&& self.nodes@[0].id == Id(0)
        &&& forall|i: int, j: int|
            0 <= i < j < self.len() ==> (#[trigger] self.nodes@[i]).id != (
            #[trigger] self.nodes@[j]).id
        &&& forall|i: int|
            0 <= i < self.len() ==> (#[trigger] self.nodes@[i]).children@.no_duplicates()
        &&& forall|i: int, k: int|
            0 <= i < self.len() && 0 <= k < self.nodes@[i].children@.len() ==> self.is_child_edge(
                i,
                #[trigger] self.nodes@[i].children@[k] as int,
            )
        &&& forall|c: int|
            0 <= c < self.len() && (#[trigger] self.nodes@[c]).parent is Some ==> {
                let p = self.nodes@[c].parent->0 as int;
                p < self.len() && self.nodes@[p].children@.contains(c as usize)
            }
        &&& forall|i: int| 0 <= i < self.len() ==> #[trigger] self.rank@[i] <= self.ceiling@
    }

    /// Whether some node has the given `Id`.
    pub open spec fn knows(&self, id: Id) -> bool {
        exists|i: int| 0 <= i < self.len() && (#[trigger] self.nodes@[i]).id == id
    }

    /// The index of the node with the given `Id`.
    pub open spec fn index(&self, id: Id) -> int {
        choose|i: int| 0 <= i < self.len() && (#[trigger] self.nodes@[i]).id == id
    }

    /// Whether node `a` is node `n` or one of its ancestors.
    pub open spec fn is_ancestor_or_self(&self, a: int, n: int) -> bool
        decreases self.ceiling@ - self.rank@[n],
    {
        if a == n {
            true
        } else if 0 <= n < self.len() && self.nodes@[n].parent is Some {
            let p = self.nodes@[n].parent->0 as int;
            if 0 <= p < self.len() && self.rank@[n] < self.rank@[p] <= self.ceiling@ {
                self.is_ancestor_or_self(a, p)
            } else {
                false
            }
        } else {
            false
        }
    }

    /// Two documents hold the same nodes but for their child lists and
    /// parents: the same identities, texts and attributes, in the same
    /// places.
    pub open spec fn same_content(&self, other: &Document) -> bool {
        &&& self.len() == other.len()
        &&& forall|i: int|
            0 <= i < self.len() ==> {
                &&& (#[trigger] self.nodes@[i]).id == other.nodes@[i].id
                &&& self.nodes@[i].text == other.nodes@[i].text
                &&& self.nodes@[i].attributes == other.nodes@[i].attributes
            }
    }

    /// A parent has a larger rank than its child.
    pub proof fn lemma_parent_rank(&self, c: int)
        requires
            self.wf(),
            0 <= c < self.len(),
            self.nodes@[c].parent is Some,
        ensures
            0 <= (self.nodes@[c].parent->0) < self.len(),
            self.rank@[c] < self.rank@[self.nodes@[c].parent->0 as int] <= self.ceiling@,
    {
        let p = self.nodes@[c].parent->0 as int;
        let kids = self.nodes@[p].children@;
        assert(kids.contains(c as usize));
        let k = choose|k: int| 0 <= k < kids.len() && kids[k] == c as usize;
        assert(self.is_child_edge(p, kids[k] as int));
    }

    /// A node has no more children than the document has nodes.
    pub proof fn lemma_children_count(&self, i: int)
        requires
            self.wf(),
            0 <= i < self.len(),
        ensures
            self.nodes@[i].children@.len() <= self.len() <= MAX_NODES,
    {
        let kids = self.nodes@[i].children@;
        let as_ints = kids.map_values(|c: usize| c as int);
        assert(as_ints.no_duplicates()) by {
            assert forall|a: int, b: int|
                0 <= a < as_ints.len() && 0 <= b < as_ints.len() && a != b implies as_ints[a]
                != as_ints[b] by {
                assert(kids[a] != kids[b]);
            }
        }
        as_ints.unique_seq_to_set();
        let range = vstd::set_lib::set_int_range(0, self.len());
        vstd::set_lib::lemma_int_range(0, self.len());
        assert(as_ints.to_set().subset_of(range)) by {
            assert forall|v: int| as_ints.to_set().contains(v) implies range.contains(v) by {
                let k = choose|k: int| 0 <= k < as_ints.len() && as_ints[k] == v;
                assert(self.is_child_edge(i, kids[k] as int));
            }
        }
        vstd::set_lib::lemma_len_subset(as_ints.to_set(), range);
    }

    /// A document with a root and nothing else.
    pub fn new() -> (doc: Document)
        ensures
            doc.wf(),
            doc.len() == 1,
            doc.nodes@[0].text is None,
            doc.nodes@[0].attributes@.len() == 0,
            doc.nodes@[0].children@.len() == 0,
            doc.nodes@[0].parent is None,
    {
        let mut nodes: Vec<Node> = Vec::new();
        nodes.push(
            Node {
                id: Id(0),
                text: None,
                attributes: Vec::new(),
                children: Vec::new(),
                parent: None,
            },
        );
        let ghost rank: Seq<nat> = Seq::empty().push(0nat);
        let ghost ceiling: nat = 0;
        Document { nodes, rank: Ghost(rank), ceiling: Ghost(ceiling) }
    }

    /// The `Id` of the root.
    pub fn root_id(&self) -> (id: Id)
        requires
            self.wf(),
        ensures
            id == Id(0),
            self.knows(id),
            self.index(id) == 0,
    {
        assert(self.nodes@[0].id == Id(0));
        self.nodes[0].id
    }

    /// The index of the node with the given `Id`, if there is one.
    pub fn index_of(&self, id: Id) -> (found: Option<usize>)
        requires
            self.wf(),
        ensures
            found is Some <==> self.knows(id),
            found is Some ==> found->0 == self.index(id) && found->0 < self.len(),
    {
        let mut i: usize = 0;
        while i < self.nodes.len()
            invariant
                self.wf(),
                i <= self.nodes.len(),
                forall|k: int| 0 <= k < i ==> (#[trigger] self.nodes@[k]).id != id,
            decreases self.nodes.len() - i,
        {
            if self.nodes[i].id.0 == id.0 {
                assert(self.nodes@[i as int].id == id);
                return Some(i);
            }
            i = i + 1;
        }
        None
    }

    /// Adds a node with the given `Id` and text, detached and without
    /// attributes. Nothing is added if the `Id` is taken or the document
    /// is full.
    pub fn create_node(&mut self, id: Id, text: Option<String>) -> (created: Id)
        requires
            old(self).wf(),
        ensures
            created == id,
            final(self).wf(),
            old(self).knows(id) || old(self).len() == MAX_NODES ==> *final(self) == *old(self),
            !old(self).knows(id) && old(self).len() < MAX_NODES ==> {
                &&& final(self).len() == old(self).len() + 1
                &&& final(self).nodes@.take(old(self).len()) == old(self).nodes@
                &&& final(self).nodes@[old(self).len()].id == id
                &&& final(self).nodes@[old(self).len()].text == text
                &&& final(self).nodes@[old(self).len()].attributes@.len() == 0
                &&& final(self).nodes@[old(self).len()].children@.len() == 0
                &&& final(self).nodes@[old(self).len()].parent is None
                &&& final(self).knows(id)
                &&& final(self).index(id) == old(self).len()
            },
    {
        if self.index_of(id).is_some() || self.nodes.len() >= MAX_NODES {
            return id;
        }
        let ghost before = *self;
        self.nodes.push(
            Node { id, text, attributes: Vec::new(), children: Vec::new(), parent: None },
        );
        let ghost rank = self.rank@.push(0nat);
        self.rank = Ghost(rank);
        proof {
            let n = before.len();
            assert(self.nodes@.take(n) =~= before.nodes@);
            assert forall|i: int| 0 <= i < n implies self.nodes@[i] == before.nodes@[i] by {}
            assert(self.nodes@[n].id == id);
            assert forall|i: int, k: int|
                0 <= i < self.len() && 0 <= k < self.nodes@[i].children@.len()
                implies self.is_child_edge(i, #[trigger] self.nodes@[i].children@[k] as int) by {
                assert(before.is_child_edge(i, before.nodes@[i].children@[k] as int));
            }
            assert forall|c: int| 0 <= c < self.len() && (#[trigger] self.nodes@[c]).parent is Some
                implies {
                let p = self.nodes@[c].parent->0 as int;
                p < self.len() && self.nodes@[p].children@.contains(c as usize)
            } by {
                assert(before.nodes@[c].parent is Some);
            }
        }
        id
    }

    /// Whether node `pi` could not take node `ci` as a child, because `ci`
    /// is `pi` itself or one of its ancestors.
    pub fn would_cycle(&self, pi: usize, ci: usize) -> (cycle: bool)
        requires
            self.wf(),
            pi < self.len(),
        ensures
            cycle == self.is_ancestor_or_self(ci as int, pi as int),
    {
        let mut cur = pi;
        let mut at_top = false;
        while cur != ci && !at_top
            invariant
                self.wf(),
                cur < self.len(),
                self.is_ancestor_or_self(ci as int, pi as int) == self.is_ancestor_or_self(
                    ci as int,
                    cur as int,
                ),
                at_top ==> self.nodes@[cur as int].parent is None,
            decreases self.ceiling@ - self.rank@[cur as int], (if at_top { 0int } else { 1int }),
        {
            match self.nodes[cur].parent {
                None => {
                    at_top = true;
                },
                Some(p) => {
                    proof {
                        self.lemma_parent_rank(cur as int);
                    }
                    cur = p;
                },
            }
        }
        cur == ci
    }

    /// Takes node `ci` out of its parent's child list, if it has a parent.
    fn detach(&mut self, ci: usize)
        requires
            old(self).wf(),
            ci < old(self).len(),
        ensures
            final(self).wf(),
            final(self).same_content(old(self)),
            final(self).rank == old(self).rank,
            final(self).ceiling == old(self).ceiling,
            final(self).nodes@[ci as int].parent is None,
            forall|i: int|
                0 <= i < old(self).len() && i != ci ==> (#[trigger] final(self).nodes@[i]).parent
                    == old(self).nodes@[i].parent,
            forall|i: int|
                0 <= i < old(self).len() ==> (#[trigger] final(self).nodes@[i]).children@
                    == without(old(self).nodes@[i].children@, ci),
    {
        let ghost before = *self;
        match self.nodes[ci].parent {
            None => {
                proof {
                    assert forall|i: int| 0 <= i < before.len() implies !(
                    #[trigger] before.nodes@[i]).children@.contains(ci) by {
                        let kids = before.nodes@[i].children@;
                        if kids.contains(ci) {
                            let k = choose|k: int| 0 <= k < kids.len() && kids[k] == ci;
                            assert(before.is_child_edge(i, kids[k] as int));
                        }
                    }
                }
            },
            Some(q) => {
                proof {
                    before.lemma_parent_rank(ci as int);
                }
                let ghost kids = before.nodes@[q as int].children@;
                let count = self.nodes[q].children.len();
                let mut k: usize = 0;
                while self.nodes[q].children[k] != ci
                    invariant
                        *self == before,
                        kids.len() == count,
                        before.wf(),
                        q < before.len(),
                        kids == before.nodes@[q as int].children@,
                        kids.contains(ci),
                        k < kids.len(),
                        forall|j: int| 0 <= j < k ==> kids[j] != ci,
                    decreases kids.len() - k,
                {
                    proof {
                        let w = choose|w: int| 0 <= w < kids.len() && kids[w] == ci;
                        assert(w > k);
                    }
                    k = k + 1;
                }
                self.nodes[q].children.remove(k);
                self.nodes[ci].parent = None;
                proof {
                    assert(kids.index_of(ci) == k);
                    let left = kids.remove(k as int);
                    assert(self.nodes@[q as int].children@ == left);
                    assert(left == without(kids, ci));
                    assert forall|i: int| 0 <= i < before.len() && i != q implies !(
                    #[trigger] before.nodes@[i]).children@.contains(ci) by {
                        let other = before.nodes@[i].children@;
                        if other.contains(ci) {
                            let w = choose|w: int| 0 <= w < other.len() && other[w] == ci;
                            assert(before.is_child_edge(i, other[w] as int));
                        }
                    }
                    assert forall|j: int| 0 <= j < left.len() implies #[trigger] left[j] == kids[if j
                        < k {
                        j
                    } else {
                        j + 1
                    }] by {}
                    assert(left.no_duplicates()) by {
                        assert forall|a: int, b: int|
                            0 <= a < left.len() && 0 <= b < left.len() && a != b implies left[a]
                            != left[b] by {
                            let a0 = if a < k {
                                a
                            } else {
                                a + 1
                            };
                            let b0 = if b < k {
                                b
                            } else {
                                b + 1
                            };
                            assert(kids[a0] != kids[b0]);
                        }
                    }
                    assert forall|i: int, j: int|
                        0 <= i < self.len() && 0 <= j < self.nodes@[i].children@.len()
                        implies self.is_child_edge(i, #[trigger] self.nodes@[i].children@[j] as int) by {
                        if i == q {
                            let j0 = if j < k {
                                j
                            } else {
                                j + 1
                            };
                            assert(left[j] == kids[j0]);
                            assert(before.is_child_edge(i, kids[j0] as int));
                            assert(kids[j0] != kids[k as int]);
                        } else {
                            let c = before.nodes@[i].children@[j];
                            assert(before.is_child_edge(i, c as int));
                            assert(before.nodes@[i].children@.contains(c));
                        }
                    }
                    assert forall|c: int|
                        0 <= c < self.len() && (#[trigger] self.nodes@[c]).parent is Some implies {
                        let p = self.nodes@[c].parent->0 as int;
                        p < self.len() && self.nodes@[p].children@.contains(c as usize)
                    } by {
                        assert(before.nodes@[c].parent is Some);
                        let p = before.nodes@[c].parent->0 as int;
                        let sibs = before.nodes@[p].children@;
                        assert(sibs.contains(c as usize));
                        if p == q {
                            let w = choose|w: int| 0 <= w < kids.len() && kids[w] == c as usize;
                            let w0 = if w < k {
                                w
                            } else {
                                w - 1
                            };
                            assert(left[w0] == c as usize);
                        }
                    }
                }
            },
        }
    }

    /// Appends the detached node `ci` to the children of node `pi`.
    fn attach(&mut self, pi: usize, ci: usize)
        requires
            old(self).wf(),
            pi < old(self).len(),
            ci < old(self).len(),
            old(self).nodes@[ci as int].parent is None,
            !old(self).is_ancestor_or_self(ci as int, pi as int),
        ensures
            final(self).wf(),
            final(self).same_content(old(self)),
            final(self).nodes@[ci as int].parent == Some(pi),
            forall|i: int|
                0 <= i < old(self).len() && i != ci ==> (#[trigger] final(self).nodes@[i]).parent
                    == old(self).nodes@[i].parent,
            forall|i: int|
                0 <= i < old(self).len() && i != pi ==> (#[trigger] final(self).nodes@[i]).children@
                    == old(self).nodes@[i].children@,
            final(self).nodes@[pi as int].children@ == old(self).nodes@[pi as int].children@.push(ci),
    {
        let ghost before = *self;
        proof {
            before.lemma_children_count(pi as int);
        }
        self.nodes[ci].parent = Some(pi);
        self.nodes[pi].children.push(ci);
        let ghost lift: nat = (before.rank@[ci as int] + 1) as nat;
        let ghost rank = Seq::new(
            before.rank@.len(),
            |i: int|
                if before.is_ancestor_or_self(i, pi as int) {
                    (before.rank@[i] + lift) as nat
                } else {
                    before.rank@[i]
                },
        );
        let ghost ceiling: nat = (before.ceiling@ + lift) as nat;
        self.rank = Ghost(rank);
        self.ceiling = Ghost(ceiling);
        proof {
            let kids = before.nodes@[pi as int].children@;
            assert(!kids.contains(ci)) by {
                if kids.contains(ci) {
                    let w = choose|w: int| 0 <= w < kids.len() && kids[w] == ci;
                    assert(before.is_child_edge(pi as int, kids[w] as int));
                }
            }
            assert(kids.push(ci).no_duplicates()) by {
                assert forall|a: int, b: int|
                    0 <= a < kids.len() + 1 && 0 <= b < kids.len() + 1 && a != b implies kids.push(
                    ci,
                )[a] != kids.push(ci)[b] by {
                    if a < kids.len() && b < kids.len() {
                        assert(kids[a] != kids[b]);
                    } else if a < kids.len() {
                        assert(kids.contains(kids[a]));
                    } else {
                        assert(kids.contains(kids[b]));
                    }
                }
            }
            assert forall|i: int, j: int|
                0 <= i < self.len() && 0 <= j < self.nodes@[i].children@.len()
                implies self.is_child_edge(i, #[trigger] self.nodes@[i].children@[j] as int) by {
                if i == pi && j == kids.len() {
                    assert(before.is_ancestor_or_self(pi as int, pi as int));
                } else {
                    let c = before.nodes@[i].children@[j];
                    assert(before.is_child_edge(i, c as int));
                    assert(c != ci);
                    if before.is_ancestor_or_self(c as int, pi as int) {
                        before.lemma_ancestor_of_ancestor(c as int, pi as int);
                    }
                }
            }
            assert forall|c: int|
                0 <= c < self.len() && (#[trigger] self.nodes@[c]).parent is Some implies {
                let p = self.nodes@[c].parent->0 as int;
                p < self.len() && self.nodes@[p].children@.contains(c as usize)
            } by {
                if c == ci {
                    assert(kids.push(ci)[kids.len() as int] == ci);
                } else {
                    assert(before.nodes@[c].parent is Some);
                    let p = before.nodes@[c].parent->0 as int;
                    let sibs = before.nodes@[p].children@;
                    assert(sibs.contains(c as usize));
                    if p == pi {
                        let w = choose|w: int| 0 <= w < sibs.len() && sibs[w] == c as usize;
                        assert(kids.push(ci)[w] == c as usize);
                    }
                }
            }
        }
    }

    /// The parent of an ancestor of `n` is an ancestor of `n` too.
    pub proof fn lemma_ancestor_of_ancestor(&self, a: int, n: int)
        requires
            self.wf(),
            0 <= a < self.len(),
            0 <= n < self.len(),
            self.is_ancestor_or_self(a, n),
            self.nodes@[a].parent is Some,
        ensures
            self.is_ancestor_or_self(self.nodes@[a].parent->0 as int, n),
        decreases self.ceiling@ - self.rank@[n],
    {
        let up = self.nodes@[a].parent->0 as int;
        self.lemma_parent_rank(a);
        if a == n {
            assert(self.is_ancestor_or_self(up, up));
        } else {
            self.lemma_parent_rank(n);
            let p = self.nodes@[n].parent->0 as int;
            self.lemma_ancestor_of_ancestor(a, p);
        }
    }

    /// A node's rank is at most the rank of each of its ancestors.
    pub proof fn lemma_ancestor_rank(&self, a: int, n: int)
        requires
            self.wf(),
            0 <= n < self.len(),
            self.is_ancestor_or_self(a, n),
        ensures
            0 <= a < self.len(),
            self.rank@[n] <= self.rank@[a],
        decreases self.ceiling@ - self.rank@[n],
    {
        if a != n {
            self.lemma_parent_rank(n);
            self.lemma_ancestor_rank(a, self.nodes@[n].parent->0 as int);
        }
    }

    /// What is below a child of a node is below the node, and is not the
    /// node itself.
    pub proof fn lemma_below_child(&self, parent: int, child: usize, n: int)
        requires
            self.wf(),
            0 <= parent < self.len(),
            0 <= n < self.len(),
            self.nodes@[parent].children@.contains(child),
            self.is_ancestor_or_self(child as int, n),
        ensures
            self.is_ancestor_or_self(parent, n),
            n != parent,
    {
        let kids = self.nodes@[parent].children@;
        let k = choose|k: int| 0 <= k < kids.len() && kids[k] == child;
        assert(self.is_child_edge(parent, kids[k] as int));
        self.lemma_ancestor_of_ancestor(child as int, n);
        self.lemma_ancestor_rank(child as int, n);
    }

    /// The ancestors of a node lie on one line: of two of them, one is an
    /// ancestor of the other.
    pub proof fn lemma_ancestors_in_line(&self, a: int, b: int, n: int)
        requires
            self.wf(),
            0 <= n < self.len(),
            self.is_ancestor_or_self(a, n),
            self.is_ancestor_or_self(b, n),
        ensures
            self.is_ancestor_or_self(a, b) || self.is_ancestor_or_self(b, a),
        decreases self.ceiling@ - self.rank@[n],
    {
        if a != n && b != n {
            self.lemma_parent_rank(n);
            self.lemma_ancestors_in_line(a, b, self.nodes@[n].parent->0 as int);
        }
    }

    /// No node is below two children of one node.
    pub proof fn lemma_siblings_apart(&self, parent: int, one: usize, other: usize, n: int)
        requires
            self.wf(),
            0 <= parent < self.len(),
            0 <= n < self.len(),
            self.nodes@[parent].children@.contains(one),
            self.nodes@[parent].children@.contains(other),
            one != other,
            self.is_ancestor_or_self(one as int, n),
        ensures
            !self.is_ancestor_or_self(other as int, n),
    {
        if self.is_ancestor_or_self(other as int, n) {
            self.lemma_ancestors_in_line(one as int, other as int, n);
            let kids = self.nodes@[parent].children@;
            let i = choose|i: int| 0 <= i < kids.len() && kids[i] == one;
            let j = choose|j: int| 0 <= j < kids.len() && kids[j] == other;
            assert(self.is_child_edge(parent, kids[i] as int));
            assert(self.is_child_edge(parent, kids[j] as int));
            if self.is_ancestor_or_self(one as int, other as int) {
                self.lemma_ancestor_rank(one as int, parent);
            } else {
                self.lemma_ancestor_rank(other as int, parent);
            }
        }
    }

    /// What is below a node is one of its children or below one.
    pub proof fn lemma_below_some_child(&self, a: int, n: int) -> (child: usize)
        requires
            self.wf(),
            0 <= n < self.len(),
            self.is_ancestor_or_self(a, n),
            a != n,
        ensures
            0 <= a < self.len(),
            self.nodes@[a].children@.contains(child),
            self.is_ancestor_or_self(child as int, n),
        decreases self.ceiling@ - self.rank@[n],
    {
        self.lemma_parent_rank(n);
        self.lemma_ancestor_rank(a, n);
        let p = self.nodes@[n].parent->0 as int;
        if p == a {
            n as usize
        } else {
            self.lemma_below_some_child(a, p)
        }
    }

    /// A child of a node is below that node.
    pub proof fn lemma_child_is_below(&self, parent: int, k: int)
        requires
            self.wf(),
            0 <= parent < self.len(),
            0 <= k < self.nodes@[parent].children@.len(),
        ensures
            0 <= self.nodes@[parent].children@[k] < self.len(),
            self.nodes@[parent].children@[k] != parent,
            self.nodes@[parent].children@.contains(self.nodes@[parent].children@[k]),
            self.nodes@[self.nodes@[parent].children@[k] as int].parent == Some(parent as usize),
            self.rank@[self.nodes@[parent].children@[k] as int] < self.rank@[parent],
            self.is_ancestor_or_self(parent, self.nodes@[parent].children@[k] as int),
    {
        let child = self.nodes@[parent].children@[k];
        assert(self.is_child_edge(parent, child as int));
        assert(self.is_ancestor_or_self(parent, parent));
    }

    /// Detaching a node leaves the ancestors of every node that is not
    /// below it as they were.
    proof fn lemma_detached_ancestors(&self, before: &Document, ci: int, a: int, n: int)
        requires
            self.wf(),
            before.wf(),
            self.len() == before.len(),
            self.rank == before.rank,
            self.ceiling == before.ceiling,
            0 <= ci < self.len(),
            0 <= n < self.len(),
            forall|i: int|
                0 <= i < before.len() && i != ci ==> (#[trigger] self.nodes@[i]).parent
                    == before.nodes@[i].parent,
            !before.is_ancestor_or_self(ci, n),
        ensures
            self.is_ancestor_or_self(a, n) == before.is_ancestor_or_self(a, n),
        decreases self.ceiling@ - self.rank@[n],
    {
        if a != n && before.nodes@[n].parent is Some {
            before.lemma_parent_rank(n);
            let p = before.nodes@[n].parent->0 as int;
            self.lemma_detached_ancestors(before, ci, a, p);
        }
    }

    /// Makes `child` the last child of `parent`, taking it from the parent
    /// it had. Fails, and changes nothing, if either is unknown or if
    /// `child` is `parent` or one of its ancestors.
    pub fn set_parent(&mut self, parent: Id, child: Id) -> (done: Result<(), DocumentError>)
        requires
            old(self).wf(),
        ensures
            final(self).wf(),
            final(self).same_content(old(self)),
            done == Err::<(), DocumentError>(DocumentError::UnknownNode) <==> !(old(self).knows(
                parent,
            ) && old(self).knows(child)),
            done == Err::<(), DocumentError>(DocumentError::Cycle) <==> old(self).knows(parent)
                && old(self).knows(child) && old(self).is_ancestor_or_self(
                old(self).index(child),
                old(self).index(parent),
            ),
            done is Err ==> *final(self) == *old(self),
            done is Ok ==> {
                let pi = old(self).index(parent);
                let ci = old(self).index(child);
                &&& final(self).nodes@[ci].parent == Some(pi as usize)
                &&& forall|i: int|
                    0 <= i < old(self).len() && i != ci ==> (#[trigger] final(self).nodes@[i]).parent
                        == old(self).nodes@[i].parent
                &&& forall|i: int|
                    0 <= i < old(self).len() && i != pi ==> (#[trigger] final(self).nodes@[i]).children@ == without(old(self).nodes@[i].children@, ci as usize)
                &&& final(self).nodes@[pi].children@ == without(
                    old(self).nodes@[pi].children@,
                    ci as usize,
                ).push(ci as usize)
            },
    {
        let pi = match self.index_of(parent) {
            Some(i) => i,
            None => {
                return Err(DocumentError::UnknownNode);
            },
        };
        let ci = match self.index_of(child) {
            Some(i) => i,
            None => {
                return Err(DocumentError::UnknownNode);
            },
        };
        if self.would_cycle(pi, ci) {
            return Err(DocumentError::Cycle);
        }
        let ghost before = *self;
        self.detach(ci);
        proof {
            self.lemma_detached_ancestors(&before, ci as int, ci as int, pi as int);
        }
        self.attach(pi, ci);
        Ok(())
    }

    /// Sets an attribute of a node: the first attribute with that key takes
    /// the value, or a new attribute is added after the others. Nothing
    /// changes if the node is unknown.
    pub fn set_attribute(&mut self, node: Id, key: String, value: String)
        requires
            old(self).wf(),
        ensures
            final(self).wf(),
            final(self).len() == old(self).len(),
            final(self).rank == old(self).rank,
            !old(self).knows(node) ==> *final(self) == *old(self),
            forall|i: int|
                0 <= i < old(self).len() ==> {
                    &&& (#[trigger] final(self).nodes@[i]).id == old(self).nodes@[i].id
                    &&& final(self).nodes@[i].text == old(self).nodes@[i].text
                    &&& final(self).nodes@[i].children == old(self).nodes@[i].children
                    &&& final(self).nodes@[i].parent == old(self).nodes@[i].parent
                },
            forall|i: int|
                0 <= i < old(self).len() && !(old(self).knows(node) && i == old(self).index(node))
                    ==> (#[trigger] final(self).nodes@[i]).attributes == old(
                    self,
                ).nodes@[i].attributes,
            old(self).knows(node) ==> {
                let before = old(self).nodes@[old(self).index(node)].attributes@;
                let after = final(self).nodes@[old(self).index(node)].attributes@;
                &&& attribute_value(after, key@) == Some(value@)
                &&& has_attribute(before, key@) ==> after.len() == before.len() && forall|j: int|
                    0 <= j < before.len() && !is_first_attribute(before, key@, j) ==> after[j]
                        == before[j]
                &&& !has_attribute(before, key@) ==> after.len() == before.len() + 1
                    && after.take(before.len() as int) == before
            },
    {
        let i = match self.index_of(node) {
            Some(i) => i,
            None => {
                return ;
            },
        };
        let ghost before = *self;
        let ghost attrs = before.nodes@[i as int].attributes@;
        match find_attribute(&self.nodes[i].attributes, key.as_str()) {
            Some(at) => {
                self.nodes[i].attributes[at].value = value;
                proof {
                    let after = self.nodes@[i as int].attributes@;
                    assert(after[at as int].key@ == key@);
                    assert forall|j: int| 0 <= j < at implies (#[trigger] after[j]).key@ != key@ by {
                        assert(after[j] == attrs[j]);
                    }
                    assert(is_first_attribute(after, key@, at as int));
                    let pick = choose|pick: int| is_first_attribute(after, key@, pick);
                    assert(pick == at) by {
                        if pick < at {
                            assert(after[pick].key@ != key@);
                        }
                        if at < pick {
                            assert(after[at as int].key@ != key@);
                        }
                    }
                }
            },
            None => {
                self.nodes[i].attributes.push(Attribute { key, value });
                proof {
                    let after = self.nodes@[i as int].attributes@;
                    let at = attrs.len() as int;
                    assert(after.take(at) =~= attrs);
                    assert(after[at].key@ == key@);
                    assert forall|j: int| 0 <= j < at implies (#[trigger] after[j]).key@ != key@ by {
                        assert(after[j] == attrs[j]);
                    }
                    assert(is_first_attribute(after, key@, at));
                    let pick = choose|pick: int| is_first_attribute(after, key@, pick);
                    assert(pick == at) by {
                        if pick < at {
                            assert(after[pick].key@ != key@);
                        }
                    }
                }
            },
        }
        proof {
            assert forall|n: int, k: int|
                0 <= n < self.len() && 0 <= k < self.nodes@[n].children@.len()
                implies self.is_child_edge(n, #[trigger] self.nodes@[n].children@[k] as int) by {
                assert(before.is_child_edge(n, before.nodes@[n].children@[k] as int));
            }
            assert forall|c: int|
                0 <= c < self.len() && (#[trigger] self.nodes@[c]).parent is Some implies {
                let p = self.nodes@[c].parent->0 as int;
                p < self.len() && self.nodes@[p].children@.contains(c as usize)
            } by {
                assert(before.nodes@[c].parent is Some);
            }
        }
    }
}

} // verus!
