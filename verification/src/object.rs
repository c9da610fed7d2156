//! A forest of positioned nodes with verified structural invariants.
//!
//! Every node ([`Object`]) carries a local 2-D offset, an ordered list of
//! children and at most one parent. All nodes are owned by a single arena
//! ([`Hierarchy`]) and refer to each other through [`NodeId`] indices, so the
//! bidirectional parent/child links never form ownership cycles. The
//! well-formedness predicate [`wf_view`] states the structural invariants:
//! parent and child links agree, children lists are duplicate-free, and every
//! ancestor chain reaches a root. A node's world position is the sum of the
//! offsets along its ancestor chain, captured by [`world_of`].
//!
//! Nodes are never destroyed individually: an identifier stays valid for the
//! lifetime of the `Hierarchy` that issued it, and is never reused. Releasing
//! the whole hierarchy releases every node at once.

use vstd::prelude::*;

verus! {

/// Identifier of a node inside a [`Hierarchy`]: the index of its arena slot.
pub type NodeId = usize;

/// Errors returned by the structural operations of a [`Hierarchy`]. All
/// errors are explicit result values; the only silent no-ops are the
/// documented ones (detaching an unparented node, detaching through the
/// wrong parent, re-attaching to the same parent). There is no variant for a
/// parent/children link mismatch: the invariants proved here make such a
/// state unreachable.
#[derive(Clone, Copy, Debug, PartialEq, Eq, Structural)]
pub enum HierarchyError {
    /// An operation referenced an identifier this hierarchy never issued.
    NotFound,
    /// An attach would have made a node its own ancestor.
    CycleDetected,
}

/// Mathematical image of one node: its offset and its links.
#[verifier::ext_equal]
pub struct NodeView {
    pub x: u32,
    pub y: u32,
    pub children: Seq<usize>,
    pub parent: Option<usize>,
}

/// A positioned node: a local offset, the children attached to it, and an
/// optional back-reference to its parent.
pub struct Object {
    x: u32,
    y: u32,
    children: Vec<NodeId>,
    parent: Option<NodeId>,
}

impl View for Object {
    type V = NodeView;

    closed spec fn view(&self) -> NodeView {
        NodeView { x: self.x, y: self.y, children: self.children@, parent: self.parent }
    }
}

impl Object {
    /// Creates a detached node with the given offset: no parent, no children.
    pub fn new(x: u32, y: u32) -> (obj: Object)
        ensures
            obj@ == (NodeView { x, y, children: Seq::<usize>::empty(), parent: None::<usize> }),
    {
        Object { x, y, children: Vec::new(), parent: None }
    }

    /// The translation of the node relative to its parent (or to the origin).
    pub fn translation(&self) -> (t: (u32, u32))
        ensures
            t.0 == self@.x,
            t.1 == self@.y,
    {
        (self.x, self.y)
    }

    /// The number of children attached to this node.
    pub fn number_of_children(&self) -> (n: usize)
        ensures
            n == self@.children.len(),
    {
        self.children.len()
    }

    /// Whether this node is attached to a parent.
    pub fn has_parent(&self) -> (b: bool)
        ensures
            b == (self@.parent is Some),
    {
        self.parent.is_some()
    }
}

/// The ancestor chain of `i` hits a root (a node without a parent) within
/// `fuel` upward steps.
pub open spec fn reaches_root(s: Seq<NodeView>, i: usize, fuel: nat) -> bool
    decreases fuel,
{
    i < s.len() && match s[i as int].parent {
        None => true,
        Some(p) => fuel > 0 && reaches_root(s, p, (fuel - 1) as nat),
    }
}

/// The ancestor chain of `i` is finite: walking parent links ends at a root.
pub open spec fn terminates(s: Seq<NodeView>, i: usize) -> bool {
    exists|fuel: nat| reaches_root(s, i, fuel)
}

/// The world position of `i`, summing offsets along at most `fuel` ancestors.
pub open spec fn world_upto(s: Seq<NodeView>, i: usize, fuel: nat) -> (int, int)
    decreases fuel,
{
    if i >= s.len() {
        (0, 0)
    } else {
        match s[i as int].parent {
            None => (s[i as int].x as int, s[i as int].y as int),
            Some(p) => if fuel > 0 {
                (s[i as int].x + world_upto(s, p, (fuel - 1) as nat).0,
                 s[i as int].y + world_upto(s, p, (fuel - 1) as nat).1)
            } else {
                (s[i as int].x as int, s[i as int].y as int)
            },
        }
    }
}

/// The world position of `i`: its offset composed with all ancestor offsets.
/// Well-defined whenever the ancestor chain of `i` terminates.
pub open spec fn world_of(s: Seq<NodeView>, i: usize) -> (int, int) {
    world_upto(s, i, choose|fuel: nat| reaches_root(s, i, fuel))
}

/// `target` occurs on the ancestor chain of `i` (including `i` itself) within
/// `fuel` upward steps.
pub open spec fn in_chain(s: Seq<NodeView>, i: usize, target: usize, fuel: nat) -> bool
    decreases fuel,
{
    i < s.len() && (i == target || match s[i as int].parent {
        None => false,
        Some(p) => fuel > 0 && in_chain(s, p, target, (fuel - 1) as nat),
    })
}

/// `target` occurs somewhere on the ancestor chain of `i`, itself included.
pub open spec fn chain_has(s: Seq<NodeView>, i: usize, target: usize) -> bool {
    exists|fuel: nat| in_chain(s, i, target, fuel)
}

/// The parent link of `i` is mirrored by an entry in the parent's children.
pub open spec fn parent_ok(s: Seq<NodeView>, i: usize) -> bool {
    match s[i as int].parent {
        None => true,
        Some(p) => p < s.len() && p != i && s[p as int].children.contains(i),
    }
}

/// Every child of `i` is a valid node whose parent link points back at `i`,
/// and no child is listed twice.
pub open spec fn children_ok(s: Seq<NodeView>, i: usize) -> bool {
    &&& forall|k: int| 0 <= k < s[i as int].children.len()
        ==> (#[trigger] s[i as int].children[k]) < s.len()
            && s[s[i as int].children[k] as int].parent == Some(i)
    &&& s[i as int].children.no_duplicates()
}

/// Node `i` is well-formed inside `s`.
pub open spec fn wf_at(s: Seq<NodeView>, i: usize) -> bool {
    parent_ok(s, i) && children_ok(s, i) && terminates(s, i)
}

/// The structural invariants of the whole forest: bidirectional agreement of
/// parent and child links, duplicate-free children, and cycle-free chains.
pub open spec fn wf_view(s: Seq<NodeView>) -> bool {
    forall|i: usize| i < s.len() ==> #[trigger] wf_at(s, i)
}

/// The owning arena: all nodes live here, and parent/child relations are
/// expressed as indices resolved through it.
pub struct Hierarchy {
    nodes: Vec<Object>,
}

impl View for Hierarchy {
    type V = Seq<NodeView>;

    closed spec fn view(&self) -> Seq<NodeView> {
        self.nodes@.map_values(|o: Object| o@)
    }
}

/// A chain that exists in a prefix of the arena also exists after the arena
/// has grown, with the same world position.
proof fn lemma_reaches_prefix(s: Seq<NodeView>, t: Seq<NodeView>, i: usize, fuel: nat)
    requires
        s.len() <= t.len(),
        forall|j: int| 0 <= j < s.len() ==> t[j] == s[j],
        reaches_root(s, i, fuel),
    ensures
        reaches_root(t, i, fuel),
        world_upto(t, i, fuel) == world_upto(s, i, fuel),
    decreases fuel,
{
    match s[i as int].parent {
        None => {}
        Some(p) => {
            lemma_reaches_prefix(s, t, p, (fuel - 1) as nat);
        }
    }
}

/// `children` with every occurrence of `id` removed; the order of the other
/// entries is kept. Removal matches identifiers, never offsets: two nodes
/// with identical offsets are distinct entities.
pub open spec fn remove_id(children: Seq<usize>, id: usize) -> Seq<usize>
    decreases children.len(),
{
    if children.len() == 0 {
        Seq::empty()
    } else if children.first() == id {
        remove_id(children.drop_first(), id)
    } else {
        seq![children.first()] + remove_id(children.drop_first(), id)
    }
}

/// What [`remove_id`] does to membership, duplicates and length.
proof fn lemma_remove_id_props(children: Seq<usize>, id: usize)
    ensures
        !remove_id(children, id).contains(id),
        forall|x: usize| x != id ==> (remove_id(children, id).contains(x) <==> children.contains(
            x,
        )),
        children.no_duplicates() ==> remove_id(children, id).no_duplicates(),
        children.no_duplicates() && children.contains(id) ==> remove_id(children, id).len()
            == children.len() - 1,
        !children.contains(id) ==> remove_id(children, id) =~= children,
    decreases children.len(),
{
    if children.len() == 0 {
    } else {
        let rest = children.drop_first();
        let hd = children.first();
        lemma_remove_id_props(rest, id);
        assert forall|x: usize| children.contains(x) implies hd == x || rest.contains(x) by {
            let idx = choose|idx: int| 0 <= idx < children.len() && children[idx] == x;
            if idx > 0 {
                assert(rest[idx - 1] == x);
            }
        }
        assert forall|x: usize| rest.contains(x) implies children.contains(x) by {
            let idx = choose|idx: int| 0 <= idx < rest.len() && rest[idx] == x;
            assert(children[idx + 1] == x);
        }
        assert(children[0] == hd);
        assert(children.contains(hd));
        if children.no_duplicates() {
            assert(!rest.contains(hd)) by {
                if rest.contains(hd) {
                    let j = choose|j: int| 0 <= j < rest.len() && rest[j] == hd;
                    assert(children[j + 1] == children[0]);
                }
            }
        }
        if hd == id {
        } else {
            let out = seq![hd] + remove_id(rest, id);
            assert(out == remove_id(children, id));
            assert forall|x: usize| out.contains(x) implies hd == x || remove_id(rest,
                id,
            ).contains(x) by {
                let idx = choose|idx: int| 0 <= idx < out.len() && out[idx] == x;
                if idx > 0 {
                    assert(remove_id(rest, id)[idx - 1] == x);
                }
            }
            assert forall|x: usize| hd == x || remove_id(rest, id).contains(x) implies out.contains(
                x,
            ) by {
                if hd == x {
                    assert(out[0] == x);
                } else {
                    let idx = choose|idx: int|
                        0 <= idx < remove_id(rest, id).len() && remove_id(rest, id)[idx] == x;
                    assert(out[idx + 1] == x);
                }
            }
            assert(out.contains(hd));
            if children.no_duplicates() {
                assert(!remove_id(rest, id).contains(hd));
                assert forall|a: int, b: int|
                    0 <= a < out.len() && 0 <= b < out.len() && a != b implies out[a] != out[b] by {
                    if a > 0 && b > 0 {
                        assert(out[a] == remove_id(rest, id)[a - 1]);
                        assert(out[b] == remove_id(rest, id)[b - 1]);
                    } else if a == 0 && b > 0 {
                        assert(remove_id(rest, id).contains(remove_id(rest, id)[b - 1]));
                    } else if b == 0 && a > 0 {
                        assert(remove_id(rest, id).contains(remove_id(rest, id)[a - 1]));
                    }
                }
            }
            if !children.contains(id) {
                assert(remove_id(rest, id) =~= rest);
                assert(out =~= children);
            }
        }
    }
}

/// Removing the (unique) index holding `id` is the same as [`remove_id`].
proof fn lemma_remove_at_is_remove_id(children: Seq<usize>, id: usize, k: int)
    requires
        children.no_duplicates(),
        0 <= k < children.len(),
        children[k] == id,
    ensures
        children.remove(k) =~= remove_id(children, id),
    decreases children.len(),
{
    lemma_remove_id_props(children, id);
    if k == 0 {
        lemma_remove_id_props(children.drop_first(), id);
        assert(!children.drop_first().contains(id));
        assert(children.remove(0) =~= children.drop_first());
    } else {
        let rest = children.drop_first();
        assert(rest[k - 1] == id);
        lemma_remove_at_is_remove_id(rest, id, k - 1);
        assert(children.remove(k) =~= seq![children.first()] + rest.remove(k - 1));
    }
}

/// The hierarchy after clearing `child`'s parent link: `child` leaves its
/// parent's children list and becomes a root. A node with no parent is left
/// as it is.
pub open spec fn detached(s: Seq<NodeView>, child: usize) -> Seq<NodeView> {
    match s[child as int].parent {
        None => s,
        Some(q) => s.update(
            q as int,
            NodeView { children: remove_id(s[q as int].children, child), ..s[q as int] },
        ).update(child as int, NodeView { parent: None, ..s[child as int] }),
    }
}

/// The hierarchy after attaching `child` under `parent`: `child` is first
/// detached from its current parent (if any), then appended to `parent`'s
/// children, and its parent link is set.
pub open spec fn attach_spec(s: Seq<NodeView>, parent: usize, child: usize) -> Seq<NodeView> {
    let d = detached(s, child);
    d.update(
        parent as int,
        NodeView { children: d[parent as int].children.push(child), ..d[parent as int] },
    ).update(child as int, NodeView { parent: Some(parent), ..d[child as int] })
}

/// Nodes other than `c` keep their offset and parent link between `s` and
/// `t`; children lists are free to differ. Ancestor chains avoiding `c` are
/// therefore shared by the two.
pub open spec fn same_spine_except(s: Seq<NodeView>, t: Seq<NodeView>, c: usize) -> bool {
    &&& s.len() == t.len()
    &&& forall|j: int|
        0 <= j < s.len() && j != c ==> (#[trigger] t[j]).parent == s[j].parent && t[j].x == s[j].x
            && t[j].y == s[j].y
}

/// A chain that avoids `c` is untouched by a change at `c`.
proof fn lemma_frame_reaches(s: Seq<NodeView>, t: Seq<NodeView>, c: usize, i: usize, f: nat)
    requires
        same_spine_except(s, t, c),
        reaches_root(s, i, f),
        !in_chain(s, i, c, f),
    ensures
        reaches_root(t, i, f),
        world_upto(t, i, f) == world_upto(s, i, f),
    decreases f,
{
    match s[i as int].parent {
        None => {}
        Some(p) => {
            lemma_frame_reaches(s, t, c, p, (f - 1) as nat);
        }
    }
}

/// Reaching `c` along parent links is preserved by a change at `c`.
proof fn lemma_frame_in_chain(s: Seq<NodeView>, t: Seq<NodeView>, c: usize, i: usize, g: nat)
    requires
        same_spine_except(s, t, c),
        in_chain(s, i, c, g),
    ensures
        in_chain(t, i, c, g),
    decreases g,
{
    if i != c {
        match s[i as int].parent {
            None => {}
            Some(p) => {
                lemma_frame_in_chain(s, t, c, p, (g - 1) as nat);
            }
        }
    }
}

/// A node whose chain passes through a terminating node terminates as well.
proof fn lemma_chain_concat(t: Seq<NodeView>, i: usize, c: usize, g: nat)
    requires
        in_chain(t, i, c, g),
        terminates(t, c),
    ensures
        terminates(t, i),
    decreases g,
{
    if i != c {
        match t[i as int].parent {
            None => {}
            Some(p) => {
                lemma_chain_concat(t, p, c, (g - 1) as nat);
                let fp = choose|f: nat| reaches_root(t, p, f);
                assert(reaches_root(t, i, fp + 1));
            }
        }
    }
}

/// One step along the chain preserves what the chain can reach: if `i` is not
/// `target` itself, the chains of `i` and of its parent see `target` alike.
proof fn lemma_chain_has_step(s: Seq<NodeView>, i: usize, p: usize, target: usize)
    requires
        i < s.len(),
        i != target,
        s[i as int].parent == Some(p),
    ensures
        chain_has(s, i, target) <==> chain_has(s, p, target),
{
    if chain_has(s, i, target) {
        let g = choose|g: nat| in_chain(s, i, target, g);
        assert(in_chain(s, i, target, g));
        assert(in_chain(s, p, target, (g - 1) as nat));
    }
    if chain_has(s, p, target) {
        let g = choose|g: nat| in_chain(s, p, target, g);
        assert(in_chain(s, i, target, g + 1));
    }
}

/// After the two updates of a detach, the invariants hold again and the
/// result is exactly [`detached`]`(s, child)`.
proof fn lemma_detach_restores(s: Seq<NodeView>, t: Seq<NodeView>, child: usize, q: usize, k: int)
    requires
        wf_view(s),
        child < s.len(),
        s[child as int].parent == Some(q),
        q < s.len(),
        0 <= k < s[q as int].children.len(),
        s[q as int].children[k] == child,
        t == s.update(
            q as int,
            NodeView { children: s[q as int].children.remove(k), ..s[q as int] },
        ).update(child as int, NodeView { parent: None, ..s[child as int] }),
    ensures
        t == detached(s, child),
        wf_view(t),
        same_spine_except(s, t, child),
{
    assert(wf_at(s, child));
    assert(wf_at(s, q));
    let cs = s[q as int].children;
    lemma_remove_id_props(cs, child);
    lemma_remove_at_is_remove_id(cs, child, k);
    assert(t == detached(s, child));
    assert(same_spine_except(s, t, child));
    assert forall|i: usize| i < t.len() implies #[trigger] wf_at(t, i) by {
        assert(wf_at(s, i));
        // The parent link of `i` is still mirrored in its parent's children.
        match t[i as int].parent {
            None => {}
            Some(r) => {
                assert(i != child);
                assert(t[i as int].parent == s[i as int].parent);
                assert(r < s.len() && r != i && s[r as int].children.contains(i));
                if r == q {
                    assert(t[q as int].children.contains(i));
                } else {
                    assert(t[r as int].children == s[r as int].children);
                }
                assert(parent_ok(t, i));
            }
        }
        // Every child of `i` still points back at `i`, without duplicates.
        let tc = t[i as int].children;
        if i == q {
            assert(tc == remove_id(cs, child));
            assert forall|kk: int| 0 <= kk < tc.len() implies (#[trigger] tc[kk]) < t.len()
                && t[tc[kk] as int].parent == Some(i) by {
                let x = tc[kk];
                assert(tc.contains(x));
                assert(x != child && cs.contains(x));
                let j = choose|j: int| 0 <= j < cs.len() && cs[j] == x;
                assert(cs[j] == x);
                assert(x < s.len() && s[x as int].parent == Some(q));
                assert(t[x as int].parent == s[x as int].parent);
            }
            assert(children_ok(t, i));
        } else {
            assert(tc == s[i as int].children);
            assert forall|kk: int| 0 <= kk < tc.len() implies (#[trigger] tc[kk]) < t.len()
                && t[tc[kk] as int].parent == Some(i) by {
                let x = tc[kk];
                assert(x < s.len() && s[x as int].parent == Some(i));
                assert(x != child) by {
                    if x == child {
                        assert(s[child as int].parent == Some(i));
                    }
                }
                assert(t[x as int].parent == s[x as int].parent);
            }
            assert(children_ok(t, i));
        }
        // The ancestor chain of `i` still reaches a root.
        if chain_has(s, i, child) {
            let g = choose|g: nat| in_chain(s, i, child, g);
            assert(in_chain(s, i, child, g));
            lemma_frame_in_chain(s, t, child, i, g);
            assert(reaches_root(t, child, 0));
            assert(terminates(t, child));
            lemma_chain_concat(t, i, child, g);
        } else {
            let f = choose|f: nat| reaches_root(s, i, f);
            assert(reaches_root(s, i, f));
            assert forall|ff: nat| !in_chain(s, i, child, ff) by {
                if in_chain(s, i, child, ff) {
                    assert(chain_has(s, i, child));
                }
            }
            lemma_frame_reaches(s, t, child, i, f);
            assert(terminates(t, i));
        }
    }
}

/// After the two updates of an attach on a detached child, the invariants
/// hold again.
proof fn lemma_attach_restores(d: Seq<NodeView>, t: Seq<NodeView>, parent: usize, child: usize)
    requires
        wf_view(d),
        parent < d.len(),
        child < d.len(),
        parent != child,
        d[child as int].parent is None,
        !chain_has(d, parent, child),
        !d[parent as int].children.contains(child),
        t == d.update(
            parent as int,
            NodeView { children: d[parent as int].children.push(child), ..d[parent as int] },
        ).update(child as int, NodeView { parent: Some(parent), ..d[child as int] }),
    ensures
        wf_view(t),
{
    assert(wf_at(d, parent));
    assert(wf_at(d, child));
    let pc = d[parent as int].children;
    let pc2 = pc.push(child);
    assert(same_spine_except(d, t, child));
    // The new parent still reaches a root, and so does the child through it.
    let fpar = choose|f: nat| reaches_root(d, parent, f);
    assert(reaches_root(d, parent, fpar));
    assert forall|ff: nat| !in_chain(d, parent, child, ff) by {
        if in_chain(d, parent, child, ff) {
            assert(chain_has(d, parent, child));
        }
    }
    lemma_frame_reaches(d, t, child, parent, fpar);
    assert(reaches_root(t, child, fpar + 1));
    assert(terminates(t, child));
    assert(terminates(t, parent));
    assert forall|i: usize| i < t.len() implies #[trigger] wf_at(t, i) by {
        assert(wf_at(d, i));
        // The parent link of `i` is mirrored in its parent's children list.
        if i == child {
            assert(pc2[pc.len() as int] == child);
            assert(pc2.contains(child));
            assert(parent_ok(t, i));
        } else {
            assert(t[i as int].parent == d[i as int].parent);
            match d[i as int].parent {
                None => {}
                Some(r) => {
                    assert(r < d.len() && r != i && d[r as int].children.contains(i));
                    if r == parent {
                        let j = choose|j: int| 0 <= j < pc.len() && pc[j] == i;
                        assert(pc2[j] == i);
                        assert(pc2.contains(i));
                    } else {
                        assert(t[r as int].children == d[r as int].children);
                    }
                    assert(parent_ok(t, i));
                }
            }
        }
        // Every child of `i` points back at `i`, without duplicates.
        if i == parent {
            assert(t[i as int].children == pc2);
            assert forall|a: int, b: int|
                0 <= a < pc2.len() && 0 <= b < pc2.len() && a != b implies pc2[a] != pc2[b] by {
                if a < pc.len() && b < pc.len() {
                } else if a == pc.len() && b < pc.len() {
                    assert(pc2[b] == pc[b]);
                    assert(pc.contains(pc[b]));
                } else if b == pc.len() && a < pc.len() {
                    assert(pc2[a] == pc[a]);
                    assert(pc.contains(pc[a]));
                }
            }
            assert(pc2.no_duplicates());
            assert forall|kk: int| 0 <= kk < pc2.len() implies (#[trigger] pc2[kk]) < t.len()
                && t[pc2[kk] as int].parent == Some(i) by {
                if kk < pc.len() {
                    assert(pc2[kk] == pc[kk]);
                    assert(pc.contains(pc[kk]));
                    assert(pc[kk] != child);
                    assert(pc[kk] < d.len() && d[pc[kk] as int].parent == Some(parent));
                    assert(t[pc[kk] as int].parent == d[pc[kk] as int].parent);
                } else {
                    assert(pc2[kk] == child);
                }
            }
            assert(children_ok(t, i));
        } else if i == child {
            let tc = d[child as int].children;
            assert(t[i as int].children == tc);
            assert forall|kk: int| 0 <= kk < tc.len() implies (#[trigger] tc[kk]) < t.len()
                && t[tc[kk] as int].parent == Some(i) by {
                let x = tc[kk];
                assert(tc.contains(x));
                assert(x < d.len() && d[x as int].parent == Some(child));
                assert(x != child);
                assert(t[x as int].parent == d[x as int].parent);
            }
            assert(children_ok(t, i));
        } else {
            let tc = d[i as int].children;
            assert(t[i as int].children == tc);
            assert forall|kk: int| 0 <= kk < tc.len() implies (#[trigger] tc[kk]) < t.len()
                && t[tc[kk] as int].parent == Some(i) by {
                let x = tc[kk];
                assert(tc.contains(x));
                assert(x < d.len() && d[x as int].parent == Some(i));
                assert(x != child) by {
                    if x == child {
                        assert(d[child as int].parent == Some(i));
                    }
                }
                assert(t[x as int].parent == d[x as int].parent);
            }
            assert(children_ok(t, i));
        }
        // The ancestor chain of `i` still reaches a root.
        if chain_has(d, i, child) {
            let g = choose|g: nat| in_chain(d, i, child, g);
            assert(in_chain(d, i, child, g));
            lemma_frame_in_chain(d, t, child, i, g);
            lemma_chain_concat(t, i, child, g);
        } else {
            let f = choose|f: nat| reaches_root(d, i, f);
            assert(reaches_root(d, i, f));
            assert forall|ff: nat| !in_chain(d, i, child, ff) by {
                if in_chain(d, i, child, ff) {
                    assert(chain_has(d, i, child));
                }
            }
            lemma_frame_reaches(d, t, child, i, f);
            assert(terminates(t, i));
        }
    }
}

/// Any two fuels that let the chain finish yield the same world position.
proof fn lemma_world_fuel_agree(s: Seq<NodeView>, i: usize, f: nat, g: nat)
    requires
        reaches_root(s, i, f),
        reaches_root(s, i, g),
    ensures
        world_upto(s, i, f) == world_upto(s, i, g),
    decreases f,
{
    match s[i as int].parent {
        None => {}
        Some(p) => {
            lemma_world_fuel_agree(s, p, (f - 1) as nat, (g - 1) as nat);
        }
    }
}

/// How the world position unfolds one step: a root resolves to its own
/// offset, and any other node to its parent's world position plus its own
/// offset (componentwise).
pub proof fn lemma_world_step(s: Seq<NodeView>, i: usize)
    requires
        i < s.len(),
        terminates(s, i),
    ensures
        match s[i as int].parent {
            None => world_of(s, i) == (s[i as int].x as int, s[i as int].y as int),
            Some(p) => terminates(s, p)
                && world_of(s, i).0 == s[i as int].x + world_of(s, p).0
                && world_of(s, i).1 == s[i as int].y + world_of(s, p).1,
        },
{
    let f = choose|fuel: nat| reaches_root(s, i, fuel);
    assert(reaches_root(s, i, f));
    match s[i as int].parent {
        None => {}
        Some(p) => {
            assert(reaches_root(s, p, (f - 1) as nat));
            let g = choose|fuel: nat| reaches_root(s, p, fuel);
            assert(reaches_root(s, p, g));
            lemma_world_fuel_agree(s, p, (f - 1) as nat, g);
        }
    }
}

/// With a given fuel, a node's world position dominates its own offset.
proof fn lemma_world_fuel_bounds(s: Seq<NodeView>, i: usize, f: nat)
    requires
        reaches_root(s, i, f),
    ensures
        world_upto(s, i, f).0 >= s[i as int].x,
        world_upto(s, i, f).1 >= s[i as int].y,
    decreases f,
{
    match s[i as int].parent {
        None => {}
        Some(p) => {
            lemma_world_fuel_bounds(s, p, (f - 1) as nat);
        }
    }
}

/// A node's world position dominates its own offset, and is non-negative.
pub proof fn lemma_world_bounds(s: Seq<NodeView>, i: usize)
    requires
        i < s.len(),
        terminates(s, i),
    ensures
        world_of(s, i).0 >= s[i as int].x,
        world_of(s, i).1 >= s[i as int].y,
        world_of(s, i).0 >= 0,
        world_of(s, i).1 >= 0,
{
    let f = choose|fuel: nat| reaches_root(s, i, fuel);
    assert(reaches_root(s, i, f));
    lemma_world_fuel_bounds(s, i, f);
}

/// A node with no ancestors resolves to its own offset: the world position
/// of a root equals its local translation.
pub proof fn lemma_world_position_of_root(s: Seq<NodeView>, i: usize)
    requires
        wf_view(s),
        i < s.len(),
        s[i as int].parent is None,
    ensures
        world_of(s, i).0 == s[i as int].x,
        world_of(s, i).1 == s[i as int].y,
{
    assert(wf_at(s, i));
    lemma_world_step(s, i);
}

/// Attached directly under a root, a child's world position is the
/// componentwise sum of the parent's offset and its own.
pub proof fn lemma_world_position_under_root(s: Seq<NodeView>, p: usize, c: usize)
    requires
        wf_view(s),
        c < s.len(),
        s[c as int].parent == Some(p),
        s[p as int].parent is None,
    ensures
        world_of(s, c).0 == s[p as int].x + s[c as int].x,
        world_of(s, c).1 == s[p as int].y + s[c as int].y,
{
    assert(wf_at(s, c));
    assert(p < s.len());
    lemma_world_step(s, c);
    lemma_world_position_of_root(s, p);
}

/// Along a chain grandparent -> parent -> child, the child's world position
/// is the componentwise sum of all three offsets, with no special-casing
/// beyond the root.
pub proof fn lemma_world_position_of_chain(s: Seq<NodeView>, g: usize, p: usize, c: usize)
    requires
        wf_view(s),
        c < s.len(),
        s[c as int].parent == Some(p),
        s[p as int].parent == Some(g),
        s[g as int].parent is None,
    ensures
        world_of(s, c).0 == s[g as int].x + s[p as int].x + s[c as int].x,
        world_of(s, c).1 == s[g as int].y + s[p as int].y + s[c as int].y,
{
    assert(wf_at(s, c));
    assert(p < s.len());
    lemma_world_step(s, c);
    lemma_world_position_under_root(s, g, p);
}

/// A child is listed by its parent exactly once: removing every occurrence
/// of the child from the parent's children shortens the list by exactly one
/// entry. Attaching the same child twice therefore never duplicates it.
pub proof fn lemma_child_listed_once(s: Seq<NodeView>, p: usize, c: usize)
    requires
        wf_view(s),
        p < s.len(),
        s[p as int].children.contains(c),
    ensures
        remove_id(s[p as int].children, c).len() == s[p as int].children.len() - 1,
        !remove_id(s[p as int].children, c).contains(c),
{
    assert(wf_at(s, p));
    lemma_remove_id_props(s[p as int].children, c);
}

/// Detaching restores a node: afterwards it has no parent, it is gone from
/// its old parent's children, and its world position is its own offset again.
pub proof fn lemma_detach_restores_world(s: Seq<NodeView>, c: usize)
    requires
        wf_view(s),
        c < s.len(),
    ensures
        wf_view(detached(s, c)),
        detached(s, c)[c as int].parent is None,
        world_of(detached(s, c), c).0 == s[c as int].x,
        world_of(detached(s, c), c).1 == s[c as int].y,
        s[c as int].parent matches Some(q) ==> !detached(s, c)[q as int].children.contains(c),
{
    assert(wf_at(s, c));
    match s[c as int].parent {
        None => {
            lemma_world_position_of_root(s, c);
        }
        Some(q) => {
            assert(wf_at(s, q));
            let cs = s[q as int].children;
            assert(cs.contains(c));
            let k = choose|k: int| 0 <= k < cs.len() && cs[k] == c;
            assert(cs[k] == c);
            lemma_remove_at_is_remove_id(cs, c, k);
            let t = detached(s, c);
            assert(t == s.update(
                q as int,
                NodeView { children: cs.remove(k), ..s[q as int] },
            ).update(c as int, NodeView { parent: None, ..s[c as int] }));
            lemma_detach_restores(s, t, c, q, k);
            lemma_world_position_of_root(t, c);
            lemma_remove_id_props(cs, c);
        }
    }
}

/// Re-attaching a child that is attached to parent `a` onto another parent
/// `b` removes it from `a`'s children (shrinking them by exactly one entry),
/// appends it to `b`'s children, and moves its parent link to `b`.
pub proof fn lemma_reattach_moves(s: Seq<NodeView>, a: usize, b: usize, c: usize)
    requires
        wf_view(s),
        c < s.len(),
        b < s.len(),
        s[c as int].parent == Some(a),
        a != b,
        c != b,
    ensures
        attach_spec(s, b, c)[c as int].parent == Some(b),
        !attach_spec(s, b, c)[a as int].children.contains(c),
        attach_spec(s, b, c)[a as int].children.len() == s[a as int].children.len() - 1,
        attach_spec(s, b, c)[b as int].children == s[b as int].children.push(c),
        attach_spec(s, b, c)[b as int].children.last() == c,
{
    assert(wf_at(s, c));
    assert(wf_at(s, a));
    let cs = s[a as int].children;
    assert(cs.contains(c));
    lemma_remove_id_props(cs, c);
    let d = detached(s, c);
    let t = attach_spec(s, b, c);
    assert(d[a as int].children == remove_id(cs, c));
    assert(d[b as int].children == s[b as int].children);
    assert(t[a as int].children == d[a as int].children);
    assert(t[b as int].children == d[b as int].children.push(c));
}

impl Hierarchy {
    /// The structural invariants, stated over the arena's view.
    pub open spec fn wf(&self) -> bool {
        wf_view(self@)
    }

    /// An empty hierarchy owning no nodes.
    pub fn new() -> (h: Hierarchy)
        ensures
            h.wf(),
            h@.len() == 0,
    {
        Hierarchy { nodes: Vec::new() }
    }

    /// Allocates a new node with the given offset, no parent and no children,
    /// and returns its identifier. Never fails; identifiers are issued in
    /// creation order and stay valid for the hierarchy's lifetime.
    pub fn create(&mut self, x: u32, y: u32) -> (id: NodeId)
        requires
            old(self).wf(),
        ensures
            final(self).wf(),
            id == old(self)@.len(),
            final(self)@ == old(self)@.push(
                NodeView { x, y, children: Seq::<usize>::empty(), parent: None::<usize> },
            ),
    {
        let id = self.nodes.len();
        self.nodes.push(Object::new(x, y));
        proof {
            let s = old(self)@;
            let t = self@;
            let nv = NodeView {
                x,
                y,
                children: Seq::<usize>::empty(),
                parent: None::<usize>,
            };
            assert(t =~= s.push(nv));
            assert(reaches_root(t, id, 0));
            assert forall|i: usize| i < t.len() implies #[trigger] wf_at(t, i) by {
                if i < s.len() {
                    assert(wf_at(s, i));
                    let f = choose|fuel: nat| reaches_root(s, i, fuel);
                    lemma_reaches_prefix(s, t, i, f);
                }
            }
        }
        id
    }

    /// The local translation of the node, relative to its parent.
    pub fn translation(&self, id: NodeId) -> (r: Result<(u32, u32), HierarchyError>)
        ensures
            r is Ok <==> id < self@.len(),
            r matches Ok(t) ==> t.0 == self@[id as int].x && t.1 == self@[id as int].y,
            r matches Err(e) ==> e == HierarchyError::NotFound,
    {
        if id < self.nodes.len() {
            Ok(self.nodes[id].translation())
        } else {
            Err(HierarchyError::NotFound)
        }
    }

    /// The number of children currently attached to the node.
    pub fn number_of_children(&self, id: NodeId) -> (r: Result<usize, HierarchyError>)
        ensures
            r is Ok <==> id < self@.len(),
            r matches Ok(n) ==> n == self@[id as int].children.len(),
            r matches Err(e) ==> e == HierarchyError::NotFound,
    {
        if id < self.nodes.len() {
            Ok(self.nodes[id].number_of_children())
        } else {
            Err(HierarchyError::NotFound)
        }
    }

    /// Whether the node is currently attached to a parent.
    pub fn has_parent(&self, id: NodeId) -> (r: Result<bool, HierarchyError>)
        ensures
            r is Ok <==> id < self@.len(),
            r matches Ok(b) ==> b == (self@[id as int].parent is Some),
            r matches Err(e) ==> e == HierarchyError::NotFound,
    {
        if id < self.nodes.len() {
            Ok(self.nodes[id].has_parent())
        } else {
            Err(HierarchyError::NotFound)
        }
    }

    /// The node's parent, if it has one.
    pub fn parent(&self, id: NodeId) -> (r: Result<Option<NodeId>, HierarchyError>)
        ensures
            r is Ok <==> id < self@.len(),
            r matches Ok(p) ==> p == self@[id as int].parent,
            r matches Err(e) ==> e == HierarchyError::NotFound,
    {
        if id < self.nodes.len() {
            match self.nodes[id].parent {
                Some(p) => Ok(Some(p)),
                None => Ok(None),
            }
        } else {
            Err(HierarchyError::NotFound)
        }
    }

    /// A read-only snapshot of the node's children, in attach order.
    pub fn children(&self, id: NodeId) -> (r: Result<Vec<NodeId>, HierarchyError>)
        ensures
            r is Ok <==> id < self@.len(),
            r matches Ok(v) ==> v@ == self@[id as int].children,
            r matches Err(e) ==> e == HierarchyError::NotFound,
    {
        if id < self.nodes.len() {
            let n = self.nodes[id].children.len();
            let mut out: Vec<NodeId> = Vec::new();
            let mut k: usize = 0;
            while k < n
                invariant
                    id < self@.len(),
                    n == self@[id as int].children.len(),
                    k <= n,
                    out@ == self@[id as int].children.take(k as int),
                decreases n - k,
            {
                out.push(self.nodes[id].children[k]);
                k = k + 1;
                proof {
                    assert(self@[id as int].children.take(k as int)
                        =~= self@[id as int].children.take(k as int - 1).push(
                            self@[id as int].children[k as int - 1],
                        ));
                }
            }
            proof {
                assert(self@[id as int].children.take(n as int) =~= self@[id as int].children);
            }
            Ok(out)
        } else {
            Err(HierarchyError::NotFound)
        }
    }

    /// Clears `child`'s parent link and removes `child` from that parent's
    /// children list; a node without a parent is left untouched.
    fn detach_inner(&mut self, child: NodeId)
        requires
            old(self).wf(),
            child < old(self)@.len(),
        ensures
            final(self).wf(),
            final(self)@ == detached(old(self)@, child),
            final(self)@.len() == old(self)@.len(),
            same_spine_except(old(self)@, final(self)@, child),
            final(self)@[child as int].parent is None,
            final(self)@[child as int].x == old(self)@[child as int].x,
            final(self)@[child as int].y == old(self)@[child as int].y,
            final(self)@[child as int].children == old(self)@[child as int].children,
    {
        let ghost s = self@;
        proof {
            assert(wf_at(s, child));
        }
        let qopt = self.nodes[child].parent;
        match qopt {
            None => {
                proof {
                    assert(self@ =~= detached(s, child));
                }
            }
            Some(q) => {
                let n = self.nodes[q].children.len();
                let mut k: usize = 0;
                while k < n && self.nodes[q].children[k] != child
                    invariant
                        self@ == s,
                        wf_view(s),
                        child < s.len(),
                        s[child as int].parent == Some(q),
                        q < s.len(),
                        n == s[q as int].children.len(),
                        k <= n,
                        forall|j: int| 0 <= j < k ==> s[q as int].children[j] != child,
                    decreases n - k,
                {
                    k = k + 1;
                }
                proof {
                    assert(s[q as int].children.contains(child));
                    if k == n {
                        let idx = choose|idx: int|
                            0 <= idx < s[q as int].children.len() && s[q as int].children[idx]
                                == child;
                        assert(s[q as int].children[idx] == child);
                        assert(false);
                    }
                }
                let _ = self.nodes[q].children.remove(k);
                self.nodes[child].parent = None;
                proof {
                    assert(self@ =~~= s.update(
                        q as int,
                        NodeView { children: s[q as int].children.remove(k as int), ..s[q as int] },
                    ).update(child as int, NodeView { parent: None, ..s[child as int] }));
                    lemma_detach_restores(s, self@, child, q, k as int);
                }
            }
        }
    }

    /// Whether `target` lies on the ancestor chain of `start`, `start` itself
    /// included: the check an attach runs before committing.
    fn chain_contains(&self, start: NodeId, target: NodeId) -> (b: bool)
        requires
            self.wf(),
            start < self@.len(),
        ensures
            b == chain_has(self@, start, target),
    {
        let mut cur: NodeId = start;
        proof {
            assert(wf_at(self@, start));
        }
        let ghost mut fuel: nat = choose|f: nat| reaches_root(self@, start, f);
        loop
            invariant
                self.wf(),
                cur < self@.len(),
                reaches_root(self@, cur, fuel),
                chain_has(self@, start, target) <==> chain_has(self@, cur, target),
            decreases fuel,
        {
            if cur == target {
                proof {
                    assert(in_chain(self@, cur, target, 0));
                }
                return true;
            }
            match self.nodes[cur].parent {
                None => {
                    proof {
                        assert forall|f: nat| !in_chain(self@, cur, target, f) by {
                            assert(cur != target);
                        }
                    }
                    return false;
                }
                Some(p) => {
                    proof {
                        assert(wf_at(self@, cur));
                        lemma_chain_has_step(self@, cur, p, target);
                        fuel = (fuel - 1) as nat;
                    }
                    cur = p;
                }
            }
        }
    }

    /// Attaches `child` under `parent`: the attach operation. If `child` is
    /// already attached somewhere (possibly to `parent` itself) it is first
    /// detached, so attaching is always a move and never duplicates an entry;
    /// the child then goes to the end of `parent`'s children. An attach that
    /// would make a node its own ancestor is rejected with `CycleDetected`
    /// and changes nothing.
    pub fn add_child(&mut self, parent: NodeId, child: NodeId) -> (r: Result<(), HierarchyError>)
        requires
            old(self).wf(),
        ensures
            final(self).wf(),
            r is Ok <==> (parent < old(self)@.len() && child < old(self)@.len() && !chain_has(
                old(self)@,
                parent,
                child,
            )),
            r == Err::<(), HierarchyError>(HierarchyError::NotFound) <==> !(parent < old(
                self,
            )@.len() && child < old(self)@.len()),
            r == Err::<(), HierarchyError>(HierarchyError::CycleDetected) <==> (parent < old(
                self,
            )@.len() && child < old(self)@.len() && chain_has(old(self)@, parent, child)),
            r is Err ==> final(self)@ == old(self)@,
            r is Ok ==> final(self)@ == attach_spec(old(self)@, parent, child),
            r is Ok ==> final(self)@[child as int].parent == Some(parent),
            r is Ok ==> world_of(final(self)@, child).0 == world_of(final(self)@, parent).0 + old(
                self,
            )@[child as int].x && world_of(final(self)@, child).1 == world_of(
                final(self)@,
                parent,
            ).1 + old(self)@[child as int].y,
    {
        if parent >= self.nodes.len() || child >= self.nodes.len() {
            return Err(HierarchyError::NotFound);
        }
        if self.chain_contains(parent, child) {
            return Err(HierarchyError::CycleDetected);
        }
        let ghost s0 = self@;
        proof {
            assert(parent != child) by {
                if parent == child {
                    assert(in_chain(s0, parent, child, 0));
                }
            }
        }
        self.detach_inner(child);
        let ghost d = self@;
        self.nodes[parent].children.push(child);
        self.nodes[child].parent = Some(parent);
        proof {
            let t = self@;
            assert(t =~~= d.update(
                parent as int,
                NodeView { children: d[parent as int].children.push(child), ..d[parent as int] },
            ).update(child as int, NodeView { parent: Some(parent), ..d[child as int] }));
            assert(same_spine_except(d, s0, child));
            assert(!chain_has(d, parent, child)) by {
                if chain_has(d, parent, child) {
                    let g = choose|g: nat| in_chain(d, parent, child, g);
                    assert(in_chain(d, parent, child, g));
                    lemma_frame_in_chain(d, s0, child, parent, g);
                    assert(chain_has(s0, parent, child));
                }
            }
            assert(d[child as int].parent is None);
            assert(!d[parent as int].children.contains(child)) by {
                match s0[child as int].parent {
                    None => {
                        if d[parent as int].children.contains(child) {
                            assert(wf_at(s0, parent));
                            let j = choose|j: int|
                                0 <= j < s0[parent as int].children.len() && s0[parent as int]
                                    .children[j] == child;
                            assert(s0[parent as int].children[j] == child);
                            assert(s0[child as int].parent == Some(parent));
                        }
                    }
                    Some(q) => {
                        assert(wf_at(s0, child));
                        lemma_remove_id_props(s0[q as int].children, child);
                        if q != parent {
                            if d[parent as int].children.contains(child) {
                                assert(wf_at(s0, parent));
                                assert(d[parent as int].children == s0[parent as int].children);
                                let j = choose|j: int|
                                    0 <= j < s0[parent as int].children.len() && s0[parent as int]
                                        .children[j] == child;
                                assert(s0[parent as int].children[j] == child);
                                assert(s0[child as int].parent == Some(parent));
                            }
                        }
                    }
                }
            }
            lemma_attach_restores(d, t, parent, child);
            assert(t == attach_spec(s0, parent, child));
            assert(wf_at(t, child));
            lemma_world_step(t, child);
        }
        Ok(())
    }

    /// Detaches the node from its parent, if it has one: the node leaves its
    /// parent's children list and becomes a root. Detaching a node that has
    /// no parent changes nothing (it is not an error).
    pub fn detach(&mut self, child: NodeId) -> (r: Result<(), HierarchyError>)
        requires
            old(self).wf(),
        ensures
            final(self).wf(),
            r is Ok <==> child < old(self)@.len(),
            r matches Err(e) ==> e == HierarchyError::NotFound && final(self)@ == old(self)@,
            r is Ok ==> final(self)@ == detached(old(self)@, child),
    {
        if child < self.nodes.len() {
            self.detach_inner(child);
            Ok(())
        } else {
            Err(HierarchyError::NotFound)
        }
    }

    /// Removes `child` from this node's children, exactly as the original
    /// detach-through-parent: when `child` is currently attached to `parent`
    /// it is detached; when it is not a child of `parent` (it is a root, or
    /// belongs to another parent), the whole hierarchy is left unchanged.
    pub fn remove_child(&mut self, parent: NodeId, child: NodeId) -> (r: Result<
        (),
        HierarchyError,
    >)
        requires
            old(self).wf(),
        ensures
            final(self).wf(),
            r is Ok <==> parent < old(self)@.len() && child < old(self)@.len(),
            r matches Err(e) ==> e == HierarchyError::NotFound && final(self)@ == old(self)@,
            r is Ok ==> final(self)@ == (if old(self)@[child as int].parent == Some(parent) {
                detached(old(self)@, child)
            } else {
                old(self)@
            }),
    {
        if parent >= self.nodes.len() || child >= self.nodes.len() {
            return Err(HierarchyError::NotFound);
        }
        let is_attached_here = match self.nodes[child].parent {
            Some(q) => q == parent,
            None => false,
        };
        if is_attached_here {
            self.detach_inner(child);
        }
        Ok(())
    }

    /// The node's translation in the shared coordinate space: its own offset
    /// summed with the offsets of all its ancestors, re-walked on every query.
    ///
    /// The sum along the chain must fit in `u32` componentwise; this is the
    /// only limit the machine representation imposes.
    pub fn world_translation(&self, id: NodeId) -> (r: Result<(u32, u32), HierarchyError>)
        requires
            self.wf(),
            id < self@.len() ==> world_of(self@, id).0 <= u32::MAX && world_of(self@, id).1
                <= u32::MAX,
        ensures
            r is Ok <==> id < self@.len(),
            r matches Ok(t) ==> t.0 == world_of(self@, id).0 && t.1 == world_of(self@, id).1,
            r matches Err(e) ==> e == HierarchyError::NotFound,
    {
        if id >= self.nodes.len() {
            return Err(HierarchyError::NotFound);
        }
        let mut cur: NodeId = id;
        let mut ax: u32 = 0;
        let mut ay: u32 = 0;
        proof {
            assert(wf_at(self@, id));
        }
        let ghost mut fuel: nat = choose|f: nat| reaches_root(self@, id, f);
        loop
            invariant
                self.wf(),
                id < self@.len(),
                cur < self@.len(),
                reaches_root(self@, cur, fuel),
                ax + world_of(self@, cur).0 == world_of(self@, id).0,
                ay + world_of(self@, cur).1 == world_of(self@, id).1,
                world_of(self@, id).0 <= u32::MAX,
                world_of(self@, id).1 <= u32::MAX,
            decreases fuel,
        {
            proof {
                assert(wf_at(self@, cur));
                lemma_world_step(self@, cur);
                lemma_world_bounds(self@, cur);
                match self@[cur as int].parent {
                    None => {}
                    Some(p) => {
                        lemma_world_bounds(self@, p);
                    }
                }
            }
            let node = &self.nodes[cur];
            ax = ax + node.x;
            ay = ay + node.y;
            match node.parent {
                None => {
                    return Ok((ax, ay));
                }
                Some(p) => {
                    proof {
                        fuel = (fuel - 1) as nat;
                    }
                    cur = p;
                }
            }
        }
    }
}


} // verus!
