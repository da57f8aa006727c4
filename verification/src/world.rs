use vstd::prelude::*;
use std::any::TypeId;
use crate::containers::{GenerationalIndex, MAX_INDEX};
use crate::containers::sparse_set::{SparseSet, is_null_entry, lookup, entities_of, lemma_lookup_after_insert, lemma_lookup_after_write, slot_position};
use crate::ecs::{Entity, IdCounter, TreeOrder};
use crate::foreign::{TypeMap, type_map_new, type_map_get, type_map_get_mut, type_map_insert};

verus! {

/// The place of an entity in the hierarchy: its parent, its neighbours among its parent's
/// children, and the ends of its own list of children.
#[derive(Clone, Copy)]
pub struct Relation {
    pub(crate) first_child: Option<Entity>,
    pub(crate) last_child: Option<Entity>,
    pub(crate) prev_sibling: Option<Entity>,
    pub(crate) next_sibling: Option<Entity>,
    pub(crate) parent: Option<Entity>,
}

impl Relation {
    pub closed spec fn spec_first_child(self) -> Option<Entity> {
        self.first_child
    }

    pub closed spec fn spec_last_child(self) -> Option<Entity> {
        self.last_child
    }

    pub closed spec fn spec_prev_sibling(self) -> Option<Entity> {
        self.prev_sibling
    }

    pub closed spec fn spec_next_sibling(self) -> Option<Entity> {
        self.next_sibling
    }

    pub closed spec fn spec_parent(self) -> Option<Entity> {
        self.parent
    }

    /// A relation with no links at all.
    pub open spec fn is_detached(self) -> bool {
        &&& self.spec_first_child() is None
        &&& self.spec_last_child() is None
        &&& self.spec_prev_sibling() is None
        &&& self.spec_next_sibling() is None
        &&& self.spec_parent() is None
    }

    pub fn new() -> (r: Self)
        ensures
            r.is_detached(),
    {
        Self { first_child: None, last_child: None, prev_sibling: None, next_sibling: None, parent: None }
    }

    /// The last child this relation names.
    pub fn last_child(&self) -> (r: Option<Entity>)
        ensures
            r == self.spec_last_child(),
    {
        self.last_child
    }

    /// Whether the relation has no links at all.
    pub fn is_unlinked(&self) -> (r: bool)
        ensures
            r == self.is_detached(),
    {
        self.first_child.is_none() && self.last_child.is_none() && self.prev_sibling.is_none()
            && self.next_sibling.is_none() && self.parent.is_none()
    }

    pub fn has_children(&self) -> (r: bool)
        ensures
            r == self.spec_first_child() is Some,
    {
        self.first_child.is_some()
    }
}

/// A hierarchy seen as lists of children, with a rank per node that grows from parent to child.
pub struct Forest {
    pub children: Map<Entity, Seq<Entity>>,
    pub rank: Map<Entity, nat>,
    pub bound: nat,
}

impl Forest {
    /// Every node has a rank below the bound.
    pub open spec fn ranks_ok(self) -> bool {
        forall|p: Entity| #[trigger] self.children.contains_key(p) ==> self.rank.contains_key(p) && self.rank[p] < self.bound
    }

    /// Every child is a node, with a greater rank than its parent unless it is its parent.
    pub open spec fn children_ok(self) -> bool {
        forall|p: Entity, k: int| #![trigger self.children[p][k]]
            self.children.contains_key(p) && 0 <= k < self.children[p].len() ==> {
                let c = self.children[p][k];
                &&& self.children.contains_key(c)
                &&& (c == p || self.rank[p] < self.rank[c])
            }
    }

    /// No node is the child of two nodes.
    pub open spec fn parents_unique(self) -> bool {
        forall|p: Entity, q: Entity, i: int, j: int| #![trigger self.children[p][i], self.children[q][j]]
            self.children.contains_key(p) && self.children.contains_key(q)
                && 0 <= i < self.children[p].len() && 0 <= j < self.children[q].len()
                && self.children[p][i] == self.children[q][j] ==> p == q
    }

    /// Every child is a node, ranks grow from parent to child (but for a node that is its
    /// own child), and no node is the child of two nodes.
    pub open spec fn ok(self) -> bool {
        &&& self.ranks_ok()
        &&& self.children_ok()
        &&& self.parents_unique()
    }

    /// The forest with `e` added as a node without children.
    pub open spec fn with_root(self, e: Entity) -> Forest {
        Forest {
            children: self.children.insert(e, seq![]),
            rank: self.rank.insert(e, self.bound),
            bound: self.bound + 1,
        }
    }

    /// The forest with `child` added as a node without children and appended to the
    /// children of `parent`.
    pub open spec fn with_child(self, parent: Entity, child: Entity) -> Forest {
        let k1 = self.children.insert(child, seq![]);
        Forest {
            children: k1.insert(parent, k1[parent].push(child)),
            rank: self.rank.insert(child, self.bound),
            bound: self.bound + 1,
        }
    }

    /// `e` has no children and is the child of no node.
    pub open spec fn lone(self, e: Entity) -> bool {
        &&& self.children[e].len() == 0
        &&& forall|p: Entity| #[trigger] self.children.contains_key(p) ==> !self.children[p].contains(e)
    }

    /// No list of children names a node twice.
    pub open spec fn lists_distinct(self) -> bool {
        forall|p: Entity| #[trigger] self.children.contains_key(p) ==> self.children[p].no_duplicates()
    }

    /// `r` is a node that is not its own child, so a walk from it ends.
    pub open spec fn walkable(self, r: Entity) -> bool {
        &&& self.ok()
        &&& self.children.contains_key(r)
        &&& !self.children[r].contains(r)
    }

    /// Every node of `s` is walkable with a measure below `m`.
    pub open spec fn walkable_below(self, s: Seq<Entity>, m: int) -> bool {
        &&& self.ok()
        &&& forall|k: int| 0 <= k < s.len() ==> self.walkable(#[trigger] s[k]) && self.bound - self.rank[s[k]] < m
    }

    /// The nodes under `r` in pre-order: `r`, then each child's walk in order.
    pub open spec fn pre_order(self, r: Entity) -> Seq<Entity>
        decreases self.bound - self.rank[r] + 1, 0int,
        when self.walkable(r)
    {
        seq![r] + self.pre_order_list(self.children[r], self.bound - self.rank[r])
    }

    /// The pre-order walks of the nodes of `s`, one after another.
    pub open spec fn pre_order_list(self, s: Seq<Entity>, m: int) -> Seq<Entity>
        decreases m, s.len() + 1,
        when self.walkable_below(s, m)
    {
        if s.len() == 0 {
            seq![]
        } else {
            self.pre_order_list(s.drop_last(), m) + self.pre_order(s.last())
        }
    }

    /// The nodes under `r` in post-order: the children's walks from the last child to the
    /// first, then `r`.
    pub open spec fn post_order(self, r: Entity) -> Seq<Entity>
        decreases self.bound - self.rank[r] + 1, 0int,
        when self.walkable(r)
    {
        self.post_order_list(self.children[r], self.bound - self.rank[r]) + seq![r]
    }

    /// The post-order walks of the nodes of `s`, from the last node to the first.
    pub open spec fn post_order_list(self, s: Seq<Entity>, m: int) -> Seq<Entity>
        decreases m, s.len() + 1,
        when self.walkable_below(s, m)
    {
        if s.len() == 0 {
            seq![]
        } else {
            self.post_order_list(s.drop_first(), m) + self.post_order(s[0])
        }
    }

    /// Every (parent, child) edge under `r`: for each child in order, its edge from `r`,
    /// then the edges under it.
    pub open spec fn edges(self, r: Entity) -> Seq<(Entity, Entity)>
        decreases self.bound - self.rank[r] + 1, 0int,
        when self.walkable(r)
    {
        self.edges_list(r, self.children[r], self.bound - self.rank[r])
    }

    /// The edges from `p` to each node of `s`, each followed by the edges under that node.
    pub open spec fn edges_list(self, p: Entity, s: Seq<Entity>, m: int) -> Seq<(Entity, Entity)>
        decreases m, s.len() + 1,
        when self.walkable_below(s, m)
    {
        if s.len() == 0 {
            seq![]
        } else {
            self.edges_list(p, s.drop_last(), m) + seq![(p, s.last())] + self.edges(s.last())
        }
    }
}

/// The children of a walkable node are walkable, with a smaller measure.
pub proof fn lemma_children_walkable(f: Forest, r: Entity)
    requires
        f.walkable(r),
    ensures
        f.walkable_below(f.children[r], f.bound - f.rank[r]),
{
    assert forall|k: int| 0 <= k < f.children[r].len() implies f.walkable(#[trigger] f.children[r][k])
        && f.bound - f.rank[f.children[r][k]] < f.bound - f.rank[r] by {
        let c = f.children[r][k];
        if c == r {
            assert(f.children[r].contains(r));
        }
        if f.children[c].contains(c) {
            let j = choose|j: int| 0 <= j < f.children[c].len() && f.children[c][j] == c;
            assert(f.children[c][j] == f.children[r][k]);
        }
    }
}

/// A node is in a list of walks exactly when it is in the walk of one of the list's nodes.
proof fn lemma_pre_order_list_contains(f: Forest, s: Seq<Entity>, m: int, x: Entity)
    requires
        f.walkable_below(s, m),
    ensures
        f.pre_order_list(s, m).contains(x) <==> exists|k: int| 0 <= k < s.len() && (#[trigger] f.pre_order(s[k])).contains(x),
    decreases s.len(),
{
    if s.len() > 0 {
        let d = s.drop_last();
        assert(f.walkable_below(d, m));
        lemma_pre_order_list_contains(f, d, m, x);
        let a = f.pre_order_list(d, m);
        let b = f.pre_order(s.last());
        assert(f.pre_order_list(s, m) == a + b);
        if (a + b).contains(x) {
            let i = choose|i: int| 0 <= i < (a + b).len() && (a + b)[i] == x;
            if i < a.len() {
                assert(a[i] == x);
                assert(a.contains(x));
                let k = choose|k: int| 0 <= k < d.len() && (#[trigger] f.pre_order(d[k])).contains(x);
                assert(d[k] == s[k]);
            } else {
                assert(b[i - a.len()] == x);
                assert(b.contains(x));
                assert(s[s.len() - 1] == s.last());
            }
        }
        if exists|k: int| 0 <= k < s.len() && (#[trigger] f.pre_order(s[k])).contains(x) {
            let k = choose|k: int| 0 <= k < s.len() && (#[trigger] f.pre_order(s[k])).contains(x);
            if k < s.len() - 1 {
                assert(d[k] == s[k]);
                assert(a.contains(x));
                let i = choose|i: int| 0 <= i < a.len() && a[i] == x;
                assert((a + b)[i] == x);
            } else {
                assert(s[k] == s.last());
                let i = choose|i: int| 0 <= i < b.len() && b[i] == x;
                assert((a + b)[i + a.len()] == x);
            }
        }
    }
}

/// Every node of a walk is walkable, and it is the root or ranks above it.
proof fn lemma_pre_order_ranks(f: Forest, r: Entity, x: Entity)
    requires
        f.walkable(r),
        f.pre_order(r).contains(x),
    ensures
        f.walkable(x),
        x == r || f.rank[r] < f.rank[x],
    decreases f.bound - f.rank[r],
{
    let m = f.bound - f.rank[r];
    let cs = f.children[r];
    lemma_children_walkable(f, r);
    assert(f.pre_order(r) == seq![r] + f.pre_order_list(cs, m));
    if x != r {
        let i = choose|i: int| 0 <= i < f.pre_order(r).len() && f.pre_order(r)[i] == x;
        assert(i > 0);
        assert(f.pre_order_list(cs, m)[i - 1] == x);
        assert(f.pre_order_list(cs, m).contains(x));
        lemma_pre_order_list_contains(f, cs, m, x);
        let k = choose|k: int| 0 <= k < cs.len() && (#[trigger] f.pre_order(cs[k])).contains(x);
        let c = cs[k];
        assert(f.walkable(c));
        lemma_pre_order_ranks(f, c, x);
        assert(c != r) by {
            if c == r {
                assert(cs.contains(r));
            }
        }
        assert(f.rank[r] < f.rank[c]);
    }
}

/// A node of a walk other than its root is the child of some node of the walk.
proof fn lemma_pre_order_parent(f: Forest, r: Entity, x: Entity) -> (y: Entity)
    requires
        f.walkable(r),
        f.pre_order(r).contains(x),
        x != r,
    ensures
        f.pre_order(r).contains(y),
        f.children.contains_key(y),
        f.children[y].contains(x),
    decreases f.bound - f.rank[r],
{
    let m = f.bound - f.rank[r];
    let cs = f.children[r];
    lemma_children_walkable(f, r);
    assert(f.pre_order(r) == seq![r] + f.pre_order_list(cs, m));
    let i = choose|i: int| 0 <= i < f.pre_order(r).len() && f.pre_order(r)[i] == x;
    assert(i > 0);
    assert(f.pre_order_list(cs, m)[i - 1] == x);
    assert(f.pre_order_list(cs, m).contains(x));
    lemma_pre_order_list_contains(f, cs, m, x);
    let k = choose|k: int| 0 <= k < cs.len() && (#[trigger] f.pre_order(cs[k])).contains(x);
    let c = cs[k];
    assert(f.pre_order(r)[0] == r);
    if x == c {
        assert(cs.contains(x));
        r
    } else {
        let y = lemma_pre_order_parent(f, c, x);
        lemma_pre_order_list_contains(f, cs, m, y);
        assert(f.pre_order_list(cs, m).contains(y));
        let j = choose|j: int| 0 <= j < f.pre_order_list(cs, m).len() && f.pre_order_list(cs, m)[j] == y;
        assert(f.pre_order(r)[j + 1] == y);
        y
    }
}

/// Two walks that share a node are nested: one root lies in the other's walk.
proof fn lemma_pre_orders_nest(f: Forest, a: Entity, b: Entity, x: Entity)
    requires
        f.walkable(a),
        f.walkable(b),
        f.pre_order(a).contains(x),
        f.pre_order(b).contains(x),
    ensures
        f.pre_order(b).contains(a) || f.pre_order(a).contains(b),
    decreases f.rank[x],
{
    if x != a && x != b {
        let y1 = lemma_pre_order_parent(f, a, x);
        let y2 = lemma_pre_order_parent(f, b, x);
        let i = choose|i: int| 0 <= i < f.children[y1].len() && f.children[y1][i] == x;
        let j = choose|j: int| 0 <= j < f.children[y2].len() && f.children[y2][j] == x;
        assert(f.children[y1][i] == f.children[y2][j]);
        assert(y1 == y2);
        lemma_pre_order_ranks(f, a, x);
        lemma_pre_order_ranks(f, a, y1);
        lemma_pre_order_ranks(f, b, y1);
        assert(x != y1) by {
            if x == y1 {
                assert(f.children[x].contains(x));
            }
        }
        assert(f.rank[y1] < f.rank[x]);
        lemma_pre_orders_nest(f, a, b, y1);
    }
}

/// The walks of two different children of a walkable node share no node.
proof fn lemma_sibling_walks_disjoint(f: Forest, r: Entity, c1: Entity, c2: Entity, x: Entity)
    requires
        f.walkable(r),
        f.children[r].contains(c1),
        f.children[r].contains(c2),
        c1 != c2,
    ensures
        !(f.pre_order(c1).contains(x) && f.pre_order(c2).contains(x)),
{
    lemma_children_walkable(f, r);
    if f.pre_order(c1).contains(x) && f.pre_order(c2).contains(x) {
        let k1 = choose|k: int| 0 <= k < f.children[r].len() && f.children[r][k] == c1;
        let k2 = choose|k: int| 0 <= k < f.children[r].len() && f.children[r][k] == c2;
        assert(f.walkable(f.children[r][k1]));
        assert(f.walkable(f.children[r][k2]));
        lemma_pre_orders_nest(f, c1, c2, x);
        lemma_sibling_inside(f, r, c2, c1, k2, k1);
        lemma_sibling_inside(f, r, c1, c2, k1, k2);
    }
}

/// A child of `r` cannot lie in the walk of another child of `r`.
proof fn lemma_sibling_inside(f: Forest, r: Entity, outer: Entity, inner: Entity, ko: int, ki: int)
    requires
        f.walkable(r),
        0 <= ko < f.children[r].len(),
        0 <= ki < f.children[r].len(),
        f.children[r][ko] == outer,
        f.children[r][ki] == inner,
        outer != inner,
        f.walkable(outer),
    ensures
        !f.pre_order(outer).contains(inner),
{
    if f.pre_order(outer).contains(inner) {
        let y = lemma_pre_order_parent(f, outer, inner);
        let j = choose|j: int| 0 <= j < f.children[y].len() && f.children[y][j] == inner;
        assert(f.children[y][j] == f.children[r][ki]);
        assert(y == r);
        lemma_pre_order_ranks(f, outer, r);
        assert(outer != r) by {
            if outer == r {
                assert(f.children[r].contains(r));
            }
        }
        assert(f.rank[r] < f.rank[outer]);
    }
}

proof fn lemma_no_duplicates_concat<A>(a: Seq<A>, b: Seq<A>)
    requires
        a.no_duplicates(),
        b.no_duplicates(),
        forall|x: A| a.contains(x) ==> !b.contains(x),
    ensures
        (a + b).no_duplicates(),
{
    let c = a + b;
    assert forall|i: int, j: int| 0 <= i < c.len() && 0 <= j < c.len() && i != j implies c[i] != c[j] by {
        if i < a.len() && j >= a.len() {
            assert(a.contains(c[i]));
            assert(b[j - a.len()] == c[j]);
        } else if j < a.len() && i >= a.len() {
            assert(a.contains(c[j]));
            assert(b[i - a.len()] == c[i]);
        } else if i >= a.len() && j >= a.len() {
            assert(b[i - a.len()] == c[i]);
            assert(b[j - a.len()] == c[j]);
        }
    }
}

/// A walk names no node twice.
pub proof fn lemma_pre_order_no_duplicates(f: Forest, r: Entity)
    requires
        f.walkable(r),
        f.lists_distinct(),
    ensures
        f.pre_order(r).no_duplicates(),
    decreases f.bound - f.rank[r] + 1, 0int,
{
    let m = f.bound - f.rank[r];
    let cs = f.children[r];
    lemma_children_walkable(f, r);
    assert forall|k: int| 0 <= k < cs.len() implies cs.contains(#[trigger] cs[k]) by {}
    lemma_pre_order_list_no_duplicates(f, r, cs, m);
    assert forall|x: Entity| seq![r].contains(x) implies !f.pre_order_list(cs, m).contains(x) by {
        assert(seq![r][0] == r);
        assert(x == r);
        if f.pre_order_list(cs, m).contains(r) {
            lemma_pre_order_list_contains(f, cs, m, r);
            let k = choose|k: int| 0 <= k < cs.len() && (#[trigger] f.pre_order(cs[k])).contains(r);
            lemma_pre_order_ranks(f, cs[k], r);
            assert(cs[k] != r) by {
                if cs[k] == r {
                    assert(cs.contains(r));
                }
            }
        }
    }
    assert(seq![r].no_duplicates());
    lemma_no_duplicates_concat(seq![r], f.pre_order_list(cs, m));
}

proof fn lemma_pre_order_list_no_duplicates(f: Forest, p: Entity, s: Seq<Entity>, m: int)
    requires
        f.walkable(p),
        f.lists_distinct(),
        f.walkable_below(s, m),
        s.no_duplicates(),
        forall|k: int| 0 <= k < s.len() ==> f.children[p].contains(#[trigger] s[k]),
    ensures
        f.pre_order_list(s, m).no_duplicates(),
    decreases m, s.len() + 1,
{
    if s.len() > 0 {
        let d = s.drop_last();
        let c = s.last();
        assert(f.walkable_below(d, m));
        assert(s[s.len() - 1] == c);
        assert forall|k: int| 0 <= k < d.len() implies f.children[p].contains(#[trigger] d[k]) by {
            assert(d[k] == s[k]);
        }
        lemma_pre_order_list_no_duplicates(f, p, d, m);
        lemma_pre_order_no_duplicates(f, c);
        assert forall|x: Entity| f.pre_order_list(d, m).contains(x) implies !f.pre_order(c).contains(x) by {
            lemma_pre_order_list_contains(f, d, m, x);
            let k = choose|k: int| 0 <= k < d.len() && (#[trigger] f.pre_order(d[k])).contains(x);
            assert(d[k] == s[k]);
            assert(s[k] != c);
            lemma_sibling_walks_disjoint(f, p, s[k], c, x);
        }
        lemma_no_duplicates_concat(f.pre_order_list(d, m), f.pre_order(c));
    }
}

/// A post-order walk names no node twice.
pub proof fn lemma_post_order_no_duplicates(f: Forest, r: Entity)
    requires
        f.walkable(r),
        f.lists_distinct(),
    ensures
        f.post_order(r).no_duplicates(),
{
    lemma_pre_order_no_duplicates(f, r);
    lemma_post_order_is_reversed_pre_order(f, r);
    let a = f.pre_order(r);
    let b = a.reverse();
    assert forall|i: int, j: int| 0 <= i < b.len() && 0 <= j < b.len() && i != j implies b[i] != b[j] by {
        assert(b[i] == a[a.len() - 1 - i]);
        assert(b[j] == a[a.len() - 1 - j]);
    }
}

/// Adding `child` under `parent` appends it to the children of `parent`, gives it no children
/// of its own (unless it is `parent`), and leaves every other list of children alone.
pub proof fn lemma_with_child_appends(f: Forest, parent: Entity, child: Entity)
    requires
        !f.children.contains_key(child),
        f.children.contains_key(parent) || parent == child,
    ensures
        f.with_child(parent, child).children[parent]
            == (if parent == child { seq![] } else { f.children[parent] }).push(child),
        parent != child ==> f.with_child(parent, child).children[child] == Seq::<Entity>::empty(),
        forall|e: Entity| e != parent && e != child ==> (#[trigger] f.with_child(parent, child).children.contains_key(e))
            == f.children.contains_key(e) && f.with_child(parent, child).children[e] == f.children[e],
{
}

/// A node without children is walked as itself alone, in either order.
pub proof fn lemma_leaf_walk(f: Forest, r: Entity)
    requires
        f.walkable(r),
        f.children[r].len() == 0,
    ensures
        f.pre_order(r) == seq![r],
        f.post_order(r) == seq![r],
        f.edges(r) == Seq::<(Entity, Entity)>::empty(),
{
    let m = f.bound - f.rank[r];
    lemma_children_walkable(f, r);
    assert(f.pre_order_list(f.children[r], m) == Seq::<Entity>::empty());
    assert(f.post_order_list(f.children[r], m) == Seq::<Entity>::empty());
    assert(seq![r] + Seq::<Entity>::empty() =~= seq![r]);
    assert(Seq::<Entity>::empty() + seq![r] =~= seq![r]);
}

/// Every pair yielded by an edge walk is a parent and one of its children.
pub proof fn lemma_edges_are_links(f: Forest, r: Entity)
    requires
        f.walkable(r),
    ensures
        forall|i: int| 0 <= i < f.edges(r).len() ==> {
            let e = #[trigger] f.edges(r)[i];
            f.children.contains_key(e.0) && f.children[e.0].contains(e.1)
        },
    decreases f.bound - f.rank[r] + 1, 0int,
{
    lemma_children_walkable(f, r);
    let cs = f.children[r];
    assert forall|k: int| 0 <= k < cs.len() implies cs.contains(#[trigger] cs[k]) by {}
    lemma_edges_list_are_links(f, r, cs, f.bound - f.rank[r]);
    assert(f.edges(r) == f.edges_list(r, cs, f.bound - f.rank[r]));
}

proof fn lemma_edges_list_are_links(f: Forest, p: Entity, s: Seq<Entity>, m: int)
    requires
        f.walkable_below(s, m),
        f.children.contains_key(p),
        forall|k: int| 0 <= k < s.len() ==> f.children[p].contains(#[trigger] s[k]),
    ensures
        forall|i: int| 0 <= i < f.edges_list(p, s, m).len() ==> {
            let e = #[trigger] f.edges_list(p, s, m)[i];
            f.children.contains_key(e.0) && f.children[e.0].contains(e.1)
        },
    decreases m, s.len() + 1,
{
    if s.len() > 0 {
        let c = s.last();
        assert(f.walkable_below(s.drop_last(), m));
        assert(f.children[p].contains(s[s.len() - 1]));
        lemma_edges_list_are_links(f, p, s.drop_last(), m);
        lemma_edges_are_links(f, c);
        let a = f.edges_list(p, s.drop_last(), m);
        let b = seq![(p, c)];
        let d = f.edges(c);
        assert(f.edges_list(p, s, m) == a + b + d);
        assert forall|i: int| 0 <= i < (a + b + d).len() implies {
            let e = #[trigger] (a + b + d)[i];
            f.children.contains_key(e.0) && f.children[e.0].contains(e.1)
        } by {
            if i < a.len() {
                assert((a + b + d)[i] == a[i]);
            } else if i < a.len() + 1 {
                assert((a + b + d)[i] == (p, c));
            } else {
                assert((a + b + d)[i] == d[i - a.len() - 1]);
            }
        }
    }
}

/// One step of a forward loop over `s`: the lists up to position `i + 1` are those up to `i`
/// followed by the walk of `s[i]`.
proof fn lemma_take_step(f: Forest, s: Seq<Entity>, i: int, m: int)
    requires
        f.walkable_below(s, m),
        0 <= i < s.len(),
    ensures
        f.walkable(s[i]),
        f.bound - f.rank[s[i]] < m,
        f.walkable_below(s.take(i), m),
        f.walkable_below(s.take(i + 1), m),
        s.take(i + 1).drop_last() == s.take(i),
        s.take(i + 1).last() == s[i],
        f.pre_order_list(s.take(i + 1), m) == f.pre_order_list(s.take(i), m) + f.pre_order(s[i]),
{
    let t = s.take(i + 1);
    assert(f.walkable_below(t, m));
    assert(t.drop_last() =~= s.take(i));
    assert(t.last() == s[i]);
    assert(f.walkable_below(s.take(i), m));
}

/// One step of a backward loop over `s`: the post-order walks from position `i` on are those
/// from `i + 1` on followed by the walk of `s[i]`.
proof fn lemma_post_order_list_step(f: Forest, s: Seq<Entity>, i: int, m: int)
    requires
        f.walkable_below(s, m),
        0 <= i < s.len(),
    ensures
        f.walkable(s[i]),
        f.bound - f.rank[s[i]] < m,
        f.post_order_list(s.skip(i), m) == f.post_order_list(s.skip(i + 1), m) + f.post_order(s[i]),
{
    let t = s.skip(i);
    assert(f.walkable_below(t, m));
    assert(t.drop_first() =~= s.skip(i + 1));
    assert(t[0] == s[i]);
    assert(f.walkable_below(s.skip(i + 1), m));
}

/// A post-order walk is a pre-order walk read backwards.
pub proof fn lemma_post_order_is_reversed_pre_order(f: Forest, r: Entity)
    requires
        f.walkable(r),
    ensures
        f.post_order(r) == f.pre_order(r).reverse(),
    decreases f.bound - f.rank[r],
{
    let m = f.bound - f.rank[r];
    lemma_children_walkable(f, r);
    lemma_post_order_list_reversed(f, f.children[r], m);
    assert(f.post_order(r) == f.post_order_list(f.children[r], m) + seq![r]);
    assert(f.pre_order(r) == seq![r] + f.pre_order_list(f.children[r], m));
    lemma_reverse_concat(seq![r], f.pre_order_list(f.children[r], m));
    assert(seq![r].reverse() =~= seq![r]);
}

proof fn lemma_post_order_list_reversed(f: Forest, s: Seq<Entity>, m: int)
    requires
        f.walkable_below(s, m),
    ensures
        f.post_order_list(s, m) == f.pre_order_list(s, m).reverse(),
    decreases m, s.len(),
{
    if s.len() > 0 {
        assert(f.walkable_below(s.drop_last(), m));
        assert(f.walkable_below(s.drop_first(), m));
        // post_order_list peels the first node, pre_order_list the last one; meet in the middle.
        lemma_post_order_list_last(f, s, m);
        lemma_post_order_list_reversed(f, s.drop_last(), m);
        lemma_post_order_is_reversed_pre_order(f, s.last());
        lemma_reverse_concat(f.pre_order_list(s.drop_last(), m), f.pre_order(s.last()));
    }
}

/// Peeling the last node off a post-order list: its walk comes first.
proof fn lemma_post_order_list_last(f: Forest, s: Seq<Entity>, m: int)
    requires
        f.walkable_below(s, m),
        s.len() > 0,
    ensures
        f.post_order_list(s, m) == f.post_order(s.last()) + f.post_order_list(s.drop_last(), m),
    decreases s.len(),
{
    assert(f.walkable_below(s.drop_first(), m));
    assert(f.walkable_below(s.drop_last(), m));
    if s.len() == 1 {
        assert(s.drop_first().len() == 0);
        assert(s.drop_last().len() == 0);
        assert(s[0] == s.last());
        let a = f.post_order(s[0]);
        assert(f.post_order_list(s.drop_first(), m) == Seq::<Entity>::empty());
        assert(f.post_order_list(s.drop_last(), m) == Seq::<Entity>::empty());
        assert(Seq::<Entity>::empty() + a =~= a + Seq::<Entity>::empty());
    } else {
        let s1 = s.drop_first();
        lemma_post_order_list_last(f, s1, m);
        assert(s1.last() == s.last());
        assert(s1.drop_last() =~= s.drop_last().drop_first());
        assert(s.drop_last()[0] == s[0]);
        assert(f.walkable_below(s.drop_last().drop_first(), m));
        let a = f.post_order(s.last());
        let b = f.post_order_list(s1.drop_last(), m);
        let c = f.post_order(s[0]);
        assert(f.post_order_list(s, m) == f.post_order_list(s1, m) + c);
        assert(f.post_order_list(s1, m) == a + b);
        assert(f.post_order_list(s.drop_last(), m) == b + c);
        assert((a + b) + c =~= a + (b + c));
    }
}

pub proof fn lemma_reverse_concat<A>(a: Seq<A>, b: Seq<A>)
    ensures
        (a + b).reverse() == b.reverse() + a.reverse(),
{
    assert((a + b).reverse() =~= b.reverse() + a.reverse());
}

/// Reading a sequence backwards and then keeping the elements that satisfy `pred` gives what
/// keeping them first and then reading backwards gives.
pub proof fn lemma_filter_reverse<A>(s: Seq<A>, pred: spec_fn(A) -> bool)
    ensures
        s.reverse().filter(pred) == s.filter(pred).reverse(),
    decreases s.len(),
{
    reveal(Seq::filter);
    if s.len() > 0 {
        let d = s.drop_last();
        lemma_filter_reverse(d, pred);
        assert(s.reverse() =~= seq![s.last()] + d.reverse());
        Seq::filter_distributes_over_add(seq![s.last()], d.reverse(), pred);
        assert(seq![s.last()].drop_last() =~= Seq::<A>::empty());
        assert(Seq::<A>::empty().filter(pred) =~= Seq::<A>::empty());
        if pred(s.last()) {
            assert(seq![s.last()].filter(pred) =~= seq![s.last()]);
            assert(s.filter(pred) == d.filter(pred).push(s.last()));
            assert(s.filter(pred).reverse() =~= seq![s.last()] + d.filter(pred).reverse());
        } else {
            assert(seq![s.last()].filter(pred) =~= Seq::<A>::empty());
            assert(s.filter(pred) == d.filter(pred));
            assert(s.reverse().filter(pred) =~= d.reverse().filter(pred));
        }
    }
}

/// Keeping some elements of a sequence without repeats gives a sequence without repeats.
pub proof fn lemma_filter_no_duplicates<A>(s: Seq<A>, pred: spec_fn(A) -> bool)
    requires
        s.no_duplicates(),
    ensures
        s.filter(pred).no_duplicates(),
    decreases s.len(),
{
    reveal(Seq::filter);
    if s.len() > 0 {
        let d = s.drop_last();
        assert(d.no_duplicates()) by {
            assert forall|i: int, j: int| 0 <= i < d.len() && 0 <= j < d.len() && i != j implies d[i] != d[j] by {
                assert(d[i] == s[i] && d[j] == s[j]);
            }
        }
        lemma_filter_no_duplicates(d, pred);
        if pred(s.last()) {
            assert(!d.filter(pred).contains(s.last())) by {
                if d.filter(pred).contains(s.last()) {
                    d.lemma_filter_contains_rev(pred, s.last());
                    let i = choose|i: int| 0 <= i < d.len() && d[i] == s.last();
                    assert(s[i] == s[s.len() - 1]);
                }
            }
            let t = d.filter(pred).push(s.last());
            assert forall|i: int, j: int| 0 <= i < t.len() && 0 <= j < t.len() && i != j implies t[i] != t[j] by {
                if i < t.len() - 1 && j < t.len() - 1 {
                } else if i == t.len() - 1 {
                    assert(t[i] == s.last());
                    if t[j] == s.last() {
                        assert(d.filter(pred)[j] == s.last());
                    }
                } else {
                    assert(t[j] == s.last());
                    if t[i] == s.last() {
                        assert(d.filter(pred)[i] == s.last());
                    }
                }
            }
        }
    }
}

/// The edges under a walkable `r` name as their children the nodes of the pre-order walk
/// from `r` after `r` itself, in the same order.
pub proof fn lemma_edges_follow_pre_order(f: Forest, r: Entity)
    requires
        f.walkable(r),
    ensures
        f.edges(r).map_values(|e: (Entity, Entity)| e.1) == f.pre_order(r).drop_first(),
    decreases f.bound - f.rank[r] + 1, 0int,
{
    let m = f.bound - f.rank[r];
    let cs = f.children[r];
    lemma_children_walkable(f, r);
    lemma_edges_list_follow_pre_order(f, r, cs, m);
    assert(f.pre_order(r) == seq![r] + f.pre_order_list(cs, m));
    assert(f.pre_order(r).drop_first() =~= f.pre_order_list(cs, m));
}

proof fn lemma_edges_list_follow_pre_order(f: Forest, p: Entity, s: Seq<Entity>, m: int)
    requires
        f.walkable_below(s, m),
    ensures
        f.edges_list(p, s, m).map_values(|e: (Entity, Entity)| e.1) == f.pre_order_list(s, m),
    decreases m, s.len() + 1,
{
    let snd = |e: (Entity, Entity)| e.1;
    if s.len() == 0 {
        assert(f.edges_list(p, s, m).map_values(snd) =~= Seq::<Entity>::empty());
    } else {
        let d = s.drop_last();
        let c = s.last();
        assert(f.walkable_below(d, m));
        assert(s[s.len() - 1] == c);
        assert(f.walkable(c));
        lemma_edges_list_follow_pre_order(f, p, d, m);
        lemma_edges_follow_pre_order(f, c);
        let a = f.edges_list(p, d, m);
        let b = f.edges(c);
        assert(f.edges_list(p, s, m) == a + seq![(p, c)] + b);
        assert(f.pre_order_list(s, m) == f.pre_order_list(d, m) + f.pre_order(c));
        assert(f.pre_order(c)[0] == c) by {
            assert(f.pre_order(c) == seq![c] + f.pre_order_list(f.children[c], f.bound - f.rank[c]));
        }
        assert(f.pre_order(c) =~= seq![c] + f.pre_order(c).drop_first());
        assert((a + seq![(p, c)] + b).map_values(snd) =~= a.map_values(snd) + seq![c] + b.map_values(snd));
        assert(f.edges_list(p, s, m).map_values(snd) =~= f.pre_order_list(s, m));
    }
}

/// Keeping the nodes of a walk that satisfy `pred`: in post-order they come as in pre-order
/// read backwards, and each at most once.
pub proof fn lemma_forest_orders_filtered(f: Forest, r: Entity, pred: spec_fn(Entity) -> bool)
    requires
        f.walkable(r),
        f.lists_distinct(),
    ensures
        f.post_order(r).filter(pred) == f.pre_order(r).filter(pred).reverse(),
        f.pre_order(r).filter(pred).no_duplicates(),
        f.post_order(r).filter(pred).no_duplicates(),
{
    lemma_pre_order_no_duplicates(f, r);
    lemma_post_order_is_reversed_pre_order(f, r);
    lemma_filter_reverse(f.pre_order(r), pred);
    lemma_filter_no_duplicates(f.pre_order(r), pred);
    let pf = f.pre_order(r).filter(pred);
    assert forall|a: int, b: int| 0 <= a < pf.len() && 0 <= b < pf.len() && a != b
        implies pf.reverse()[a] != pf.reverse()[b] by {
        assert(pf.reverse()[a] == pf[pf.len() - 1 - a]);
        assert(pf.reverse()[b] == pf[pf.len() - 1 - b]);
    }
}

/// What the world knows of its entities: which exist, which component types each has, and
/// how they are arranged in the hierarchy.
pub struct Registry {
    entities: Vec<Entity>,
    silos: TypeMap<SparseSet<()>>,
    relations: SparseSet<Relation>,
    links: Ghost<Map<Entity, Relation>>,
    kids: Ghost<Map<Entity, Seq<Entity>>>,
    rank: Ghost<Map<Entity, nat>>,
    hidden: Ghost<Set<Entity>>,
}

/// Each node's list of children has no repeats, and its relation names the list's ends.
spec fn lists_ok(links: Map<Entity, Relation>, kids: Map<Entity, Seq<Entity>>) -> bool {
    forall|p: Entity| #[trigger] kids.contains_key(p) ==> {
        let cs = kids[p];
        let r = links[p];
        &&& cs.no_duplicates()
        &&& r.first_child == (if cs.len() == 0 { None } else { Some(cs[0]) })
        &&& r.last_child == (if cs.len() == 0 { None } else { Some(cs.last()) })
    }
}

/// Each child's relation names its parent and its neighbours in the parent's list.
spec fn links_ok(links: Map<Entity, Relation>, kids: Map<Entity, Seq<Entity>>) -> bool {
    forall|p: Entity, k: int| #![trigger kids[p][k]]
        kids.contains_key(p) && 0 <= k < kids[p].len() ==> {
            let cs = kids[p];
            let c = cs[k];
            &&& links.contains_key(c)
            &&& links[c].parent == Some(p)
            &&& links[c].prev_sibling == (if k == 0 { None } else { Some(cs[k - 1]) })
            &&& links[c].next_sibling == (if k + 1 < cs.len() { Some(cs[k + 1]) } else { None })
        }
}

impl Registry {
    /// The entities, in creation order.
    pub closed spec fn spec_entities(&self) -> Seq<Entity> {
        self.entities@
    }

    /// Whether a container for component type `key` exists.
    pub closed spec fn has_silo(&self, key: TypeId) -> bool {
        self.silos@.contains_key(key)
    }

    /// The entries of the container for component type `key`.
    pub closed spec fn silo_entries(&self, key: TypeId) -> Seq<(GenerationalIndex, ())> {
        self.silos@[key]@
    }

    /// Whether `e` has a component of type `key`.
    pub open spec fn has(&self, key: TypeId, e: Entity) -> bool {
        self.has_silo(key) && lookup(self.silo_entries(key), e.key()) is Some
    }

    /// Whether `e` has a component of every type in `keys`.
    pub open spec fn has_all(&self, keys: Seq<TypeId>, e: Entity) -> bool {
        forall|j: int| 0 <= j < keys.len() ==> self.has(#[trigger] keys[j], e)
    }

    /// Whether every type in `keys` has a container.
    pub open spec fn all_silos(&self, keys: Seq<TypeId>) -> bool {
        forall|j: int| 0 <= j < keys.len() ==> self.has_silo(#[trigger] keys[j])
    }

    /// The hierarchy as lists of children, with ranks that grow from parent to child.
    pub closed spec fn forest(&self) -> Forest {
        Forest { children: self.kids@, rank: self.rank@, bound: self.relations@.len() }
    }

    /// The relation the relation set answers for `e`: the one recorded for `e`, if `e` is in
    /// the hierarchy and no later entry of another generation in its slot hides it.
    pub closed spec fn relation_of(&self, e: Entity) -> Option<Relation> {
        if self.links@.contains_key(e) && !self.hidden@.contains(e) {
            Some(self.links@[e])
        } else {
            None
        }
    }

    /// Whether `e` has a relation that can be read.
    pub open spec fn has_relation(&self, e: Entity) -> bool {
        self.relation_of(e) is Some
    }

    /// Whether `e` is a node of the hierarchy: it was added, and stays in the lists of children
    /// even where its relation is hidden.
    pub open spec fn in_hierarchy(&self, e: Entity) -> bool {
        self.forest().children.contains_key(e)
    }

    /// The relation set answers exactly the recorded relations of the nodes it does not hide.
    closed spec fn links_agree(&self) -> bool {
        &&& self.relations.wf()
        &&& self.relations@.len() <= MAX_INDEX + 1
        &&& forall|e: Entity| #[trigger] lookup(self.relations@, e.key()) == self.relation_of(e)
        &&& forall|e: Entity| #[trigger] self.hidden@.contains(e) ==> self.links@.contains_key(e)
        &&& forall|e: Entity| #[trigger] self.links@.contains_key(e) <==> entities_of(self.relations@).contains(e)
    }

    /// The relations spell out the lists of children, and the lists form a forest.
    closed spec fn tree_ok(&self) -> bool {
        &&& self.forest().ok()
        &&& self.kids@.dom() == self.links@.dom()
        &&& self.rank@.dom() == self.links@.dom()
        &&& lists_ok(self.links@, self.kids@)
        &&& links_ok(self.links@, self.kids@)
    }

    pub closed spec fn wf(&self) -> bool {
        &&& forall|k: TypeId| #[trigger] self.silos@.contains_key(k) ==> self.silos@[k].wf()
        &&& self.links_agree()
        &&& self.tree_ok()
    }

    pub fn new() -> (r: Self)
        ensures
            r.wf(),
            r.spec_entities() == Seq::<Entity>::empty(),
            forall|k: TypeId| !r.has_silo(k),
            r.forest().children.dom() == Set::<Entity>::empty(),
            r.forest().rank.dom() == Set::<Entity>::empty(),
            r.forest().bound == 0,
    {
        let r = Registry {
            entities: Vec::new(),
            silos: type_map_new(),
            relations: SparseSet::new(),
            links: Ghost(Map::empty()),
            kids: Ghost(Map::empty()),
            rank: Ghost(Map::empty()),
            hidden: Ghost(Set::empty()),
        };
        proof {
            assert forall|e: Entity| #[trigger] lookup(r.relations@, e.key()) == r.relation_of(e) by {
                crate::containers::sparse_set::lemma_empty_lookup::<Relation>(e.key());
            }
            assert(r.kids@.dom() =~= r.links@.dom());
            assert(r.rank@.dom() =~= r.links@.dom());
            assert(entities_of(r.relations@) =~= Seq::<Entity>::empty());
        }
        r
    }

    /// Every entity of the registry is an id that `counter` has handed out.
    pub open spec fn drawn_from(&self, counter: &IdCounter) -> bool {
        forall|i: int| 0 <= i < self.spec_entities().len()
            ==> counter.issued().contains(#[trigger] self.spec_entities()[i].key())
    }

    /// A new entity with a fresh id from `counter`, appended to the entities. The id is one
    /// the counter never handed out before, so it differs from every entity and every handle
    /// made from the same counter.
    pub fn new_entity(&mut self, counter: &mut IdCounter) -> (r: Entity)
        requires
            old(self).wf(),
            old(counter).value() <= MAX_INDEX,
        ensures
            final(self).wf(),
            r.key() == GenerationalIndex::spec_new(old(counter).value() as nat, 0),
            final(counter).value() == old(counter).value() + 1,
            !old(counter).issued().contains(r.key()),
            final(counter).issued() == old(counter).issued().insert(r.key()),
            old(self).drawn_from(old(counter)) ==> !old(self).spec_entities().contains(r),
            old(self).drawn_from(old(counter)) ==> final(self).drawn_from(final(counter)),
            final(self).spec_entities() == old(self).spec_entities().push(r),
            (forall|k: TypeId, e: Entity| old(self).has(k, e) ==> old(counter).issued().contains(e.key()))
                ==> forall|k: TypeId| !final(self).has(k, r),
            final(self).forest() == old(self).forest(),
            forall|k: TypeId, e: Entity| final(self).has(k, e) == old(self).has(k, e),
            forall|k: TypeId| final(self).has_silo(k) == old(self).has_silo(k),
            forall|e: Entity| final(self).relation_of(e) == old(self).relation_of(e),
    {
        let ett = Entity::from(counter.draw());
        proof {
            if old(self).drawn_from(old(counter)) {
                assert forall|i: int| 0 <= i < self.entities@.len() implies self.entities@[i] != ett by {
                    assert(old(counter).issued().contains(self.spec_entities()[i].key()));
                }
            }
        }
        self.entities.push(ett);
        proof {
            if old(self).drawn_from(old(counter)) {
                assert forall|i: int| 0 <= i < self.spec_entities().len()
                    implies counter.issued().contains(#[trigger] self.spec_entities()[i].key()) by {
                    if i < old(self).spec_entities().len() {
                        assert(old(self).spec_entities()[i] == self.spec_entities()[i]);
                        assert(old(counter).issued().contains(old(self).spec_entities()[i].key()));
                    }
                }
            }
            if forall|k: TypeId, e: Entity| old(self).has(k, e) ==> old(counter).issued().contains(e.key()) {
                assert forall|k: TypeId| !self.has(k, ett) by {
                    if self.has(k, ett) {
                        assert(old(self).has(k, ett));
                    }
                }
            }
        }
        ett
    }

    /// The entities, in creation order.
    pub fn entities(&self) -> (r: &Vec<Entity>)
        ensures
            r@ == self.spec_entities(),
    {
        &self.entities
    }

    /// Records that `entity` has a component of type `key`, creating the container if needed.
    pub fn add_component(&mut self, key: TypeId, entity: Entity)
        requires
            old(self).wf(),
            old(self).has_silo(key) ==> old(self).silo_entries(key).len() < 0x100000,
        ensures
            final(self).wf(),
            final(self).has_silo(key),
            final(self).silo_entries(key) == (if old(self).has_silo(key) {
                old(self).silo_entries(key)
            } else {
                Seq::empty()
            }).push((entity.key(), ())),
            forall|k: TypeId| k != key ==> final(self).has_silo(k) == old(self).has_silo(k)
                && final(self).silo_entries(k) == old(self).silo_entries(k),
            final(self).spec_entities() == old(self).spec_entities(),
            final(self).forest() == old(self).forest(),
            forall|e: Entity| final(self).relation_of(e) == old(self).relation_of(e),
    {
        let got = type_map_get_mut(&mut self.silos, &key);
        match got {
            Some(silo) => {
                silo.insert(entity.index(), ());
            },
            None => {
                let mut silo = SparseSet::new();
                silo.insert(entity.index(), ());
                type_map_insert(&mut self.silos, key, silo);
            },
        }
    }

    /// Whether `entity` has a component of type `key`.
    pub fn has_component(&self, key: TypeId, entity: Entity) -> (r: bool)
        requires
            self.wf(),
        ensures
            r == self.has(key, entity),
    {
        match type_map_get(&self.silos, &key) {
            Some(silo) => silo.contains(entity.index()),
            None => false,
        }
    }

    /// The number of entries in the container for `key`, if it exists.
    pub fn component_count(&self, key: TypeId) -> (r: Option<usize>)
        requires
            self.wf(),
        ensures
            r is Some <==> self.has_silo(key),
            r is Some ==> r->0 == self.silo_entries(key).len(),
    {
        match type_map_get(&self.silos, &key) {
            Some(silo) => Some(silo.len()),
            None => None,
        }
    }

    /// The entities of the entries in the container for `key`, in insertion order.
    pub fn component_entities(&self, key: TypeId) -> (r: Option<Vec<Entity>>)
        requires
            self.wf(),
        ensures
            r is Some <==> self.has_silo(key),
            r is Some ==> (r->0)@ == entities_of(self.silo_entries(key)),
    {
        match type_map_get(&self.silos, &key) {
            Some(silo) => Some(silo.entities_vec()),
            None => None,
        }
    }

    /// Whether `entity` has a component of every type in `keys`.
    pub fn has_components(&self, keys: &[TypeId], entity: Entity) -> (r: bool)
        requires
            self.wf(),
        ensures
            r == self.has_all(keys@, entity),
    {
        let mut j: usize = 0;
        while j < keys.len()
            invariant
                self.wf(),
                j <= keys@.len(),
                forall|i: int| 0 <= i < j ==> self.has(#[trigger] keys@[i], entity),
            decreases keys@.len() - j,
        {
            if !self.has_component(keys[j], entity) {
                return false;
            }
            j = j + 1;
        }
        true
    }

    /// The entities, in creation order, that have a component of every type in `keys`.
    pub fn query(&self, keys: &[TypeId]) -> (r: Vec<Entity>)
        requires
            self.wf(),
        ensures
            r@ == self.spec_entities().filter(|e: Entity| self.has_all(keys@, e)),
    {
        let mut ret: Vec<Entity> = Vec::new();
        let mut i: usize = 0;
        let ghost pred = |e: Entity| self.has_all(keys@, e);
        while i < self.entities.len()
            invariant
                self.wf(),
                i <= self.entities@.len(),
                pred == (|e: Entity| self.has_all(keys@, e)),
                ret@ == self.entities@.take(i as int).filter(pred),
            decreases self.entities@.len() - i,
        {
            let e = self.entities[i];
            let keep = self.has_components(keys, e);
            proof {
                let t = self.entities@.take(i + 1);
                assert(t.drop_last() =~= self.entities@.take(i as int));
                assert(t.last() == e);
                reveal(Seq::filter);
            }
            if keep {
                ret.push(e);
            }
            i = i + 1;
        }
        proof {
            assert(self.entities@.take(i as int) =~= self.entities@);
        }
        ret
    }

    /// What `has` answers after `entity` was given a component of type `key` (the state
    /// `after` as `add_component` leaves it): `entity` now has it unless its dense position
    /// and generation coincide with the empty-slot marker, other entities of the same slot
    /// no longer do, and everything else is unchanged.
    pub proof fn lemma_has_after_add_component(before: &Self, after: &Self, key: TypeId, entity: Entity, k: TypeId, x: Entity)
        requires
            after.has_silo(key),
            after.silo_entries(key) == (if before.has_silo(key) {
                before.silo_entries(key)
            } else {
                Seq::empty()
            }).push((entity.key(), ())),
            forall|k2: TypeId| k2 != key ==> after.has_silo(k2) == before.has_silo(k2)
                && after.silo_entries(k2) == before.silo_entries(k2),
        ensures
            after.has(k, x) == if k != key {
                before.has(k, x)
            } else if x.key().slot() != entity.key().slot() {
                before.has(key, x)
            } else {
                x == entity && !crate::containers::sparse_set::is_null_entry(
                    (if before.has_silo(key) { before.silo_entries(key).len() } else { 0 }) as int,
                    entity.key().gen(),
                )
            },
    {
        let old_entries = if before.has_silo(key) { before.silo_entries(key) } else { Seq::empty() };
        lemma_lookup_after_insert(old_entries, entity.key(), (), x.key());
        if k == key && x.key().slot() != entity.key().slot() && !before.has_silo(key) {
            crate::containers::sparse_set::lemma_empty_lookup::<()>(x.key());
        }
        if x.key() == entity.key() {
            Entity::lemma_key_determines(x, entity);
        }
    }

    fn rel_get(&self, e: Entity) -> (r: Option<Relation>)
        requires
            self.links_agree(),
        ensures
            r == self.relation_of(e),
    {
        match self.relations.get(e.index()) {
            Some(r) => Some(*r),
            None => None,
        }
    }

    fn rel_set(&mut self, e: Entity, rel: Relation)
        requires
            old(self).links_agree(),
            old(self).relation_of(e) is Some,
        ensures
            final(self).links_agree(),
            final(self).links@ == old(self).links@.insert(e, rel),
            final(self).hidden == old(self).hidden,
            final(self).relations@.len() == old(self).relations@.len(),
            final(self).entities == old(self).entities,
            final(self).silos == old(self).silos,
            final(self).kids == old(self).kids,
            final(self).rank == old(self).rank,
    {
        let ghost old_entries = self.relations@;
        proof {
            assert(lookup(old_entries, e.key()) == self.relation_of(e));
            self.relations.lemma_wf_len();
            crate::containers::sparse_set::lemma_lookup_position(old_entries, e.key());
        }
        match self.relations.get_mut(e.index()) {
            Some(slot) => {
                *slot = rel;
            },
            None => {},
        }
        self.links = Ghost(self.links@.insert(e, rel));
        proof {
            assert(self.relations@ == old_entries.update(slot_position(old_entries, e.key().slot()), (e.key(), rel)));
            assert(entities_of(self.relations@) =~= entities_of(old_entries));
            assert forall|x: Entity| #[trigger] lookup(self.relations@, x.key()) == self.relation_of(x) by {
                lemma_lookup_after_write(old_entries, e.key(), rel, x.key());
                assert(lookup(old_entries, x.key()) == old(self).relation_of(x));
                if x.key() == e.key() {
                    Entity::lemma_key_determines(x, e);
                }
            }
        }
    }

    /// Adds the entry `(e, rel)`: it answers for `e` unless it reads as an empty slot, and it
    /// hides every other node of the same slot.
    fn rel_insert(&mut self, e: Entity, rel: Relation)
        requires
            old(self).links_agree(),
            old(self).relations@.len() <= MAX_INDEX,
        ensures
            final(self).links_agree(),
            final(self).links@ == old(self).links@.insert(e, rel),
            final(self).hidden@ == Set::new(|x: Entity| final(self).links@.contains_key(x) && if x == e {
                is_null_entry(old(self).relations@.len() as int, e.key().gen())
            } else {
                old(self).hidden@.contains(x) || x.key().slot() == e.key().slot()
            }),
            final(self).relations@.len() == old(self).relations@.len() + 1,
            final(self).entities == old(self).entities,
            final(self).silos == old(self).silos,
            final(self).kids == old(self).kids,
            final(self).rank == old(self).rank,
    {
        let ghost old_entries = self.relations@;
        let ghost null = is_null_entry(old_entries.len() as int, e.key().gen());
        self.relations.insert(e.index(), rel);
        let ghost links2 = self.links@.insert(e, rel);
        let ghost hidden2 = Set::new(|x: Entity| links2.contains_key(x) && if x == e {
            null
        } else {
            self.hidden@.contains(x) || x.key().slot() == e.key().slot()
        });
        self.links = Ghost(links2);
        self.hidden = Ghost(hidden2);
        proof {
            GenerationalIndex::lemma_parts(e.key());
            Entity::lemma_from_key(e.key());
            Entity::lemma_key_determines(Entity::from_key(e.key()), e);
            assert(entities_of(self.relations@) =~= entities_of(old_entries).push(e));
            assert forall|x: Entity| #[trigger] self.links@.contains_key(x) <==> entities_of(self.relations@).contains(x) by {
                assert(old(self).links@.contains_key(x) <==> entities_of(old_entries).contains(x));
                if entities_of(old_entries).contains(x) {
                    let i = choose|i: int| 0 <= i < entities_of(old_entries).len() && entities_of(old_entries)[i] == x;
                    assert(entities_of(self.relations@)[i] == x);
                }
                if x == e {
                    assert(entities_of(self.relations@)[old_entries.len() as int] == e);
                }
                if entities_of(self.relations@).contains(x) && x != e {
                    let i = choose|i: int| 0 <= i < entities_of(self.relations@).len() && entities_of(self.relations@)[i] == x;
                    assert(i < old_entries.len());
                    assert(entities_of(old_entries)[i] == x);
                }
            }
            assert forall|x: Entity| #[trigger] lookup(self.relations@, x.key()) == self.relation_of(x) by {
                lemma_lookup_after_insert(old_entries, e.key(), rel, x.key());
                assert(lookup(old_entries, x.key()) == old(self).relation_of(x));
                if x.key() == e.key() {
                    Entity::lemma_key_determines(x, e);
                } else if x == e {
                    assert(x.key() == e.key());
                }
            }
        }
    }

    /// The relation of `entity`, if it has one that can be read.
    pub fn relation(&self, entity: Entity) -> (r: Option<Relation>)
        requires
            self.wf(),
        ensures
            r == self.relation_of(entity),
            r is Some ==> self.in_hierarchy(entity),
    {
        self.rel_get(entity)
    }

    /// The relations spell out the lists of children: only a node of the hierarchy has a
    /// relation; the first and last child of a relation are the ends of the node's list, so it
    /// has children exactly when the list is not empty; and each child in the list that has a
    /// relation names the node as its parent and its neighbours in the list as its siblings.
    pub proof fn lemma_relations_match_children(&self, e: Entity)
        requires
            self.wf(),
        ensures
            self.has_relation(e) ==> self.in_hierarchy(e),
            self.has_relation(e) ==> self.relation_of(e)->0.spec_first_child() == (if self.forest().children[e].len() == 0 {
                None
            } else {
                Some(self.forest().children[e][0])
            }),
            self.has_relation(e) ==> self.relation_of(e)->0.spec_last_child() == (if self.forest().children[e].len() == 0 {
                None
            } else {
                Some(self.forest().children[e].last())
            }),
            self.has_relation(e) ==> (self.relation_of(e)->0.spec_first_child() is Some <==> self.forest().children[e].len() > 0),
            self.in_hierarchy(e) ==> forall|k: int| 0 <= k < self.forest().children[e].len()
                && self.has_relation(#[trigger] self.forest().children[e][k]) ==> {
                &&& self.relation_of(self.forest().children[e][k])->0.spec_parent() == Some(e)
                &&& self.relation_of(self.forest().children[e][k])->0.spec_prev_sibling() == (if k == 0 {
                    None
                } else {
                    Some(self.forest().children[e][k - 1])
                })
                &&& self.relation_of(self.forest().children[e][k])->0.spec_next_sibling() == (if k + 1 < self.forest().children[e].len() {
                    Some(self.forest().children[e][k + 1])
                } else {
                    None
                })
            },
    {
        assert(lists_ok(self.links@, self.kids@));
        assert(links_ok(self.links@, self.kids@));
        if self.in_hierarchy(e) {
            assert(self.kids@.contains_key(e));
            assert forall|k: int| 0 <= k < self.forest().children[e].len()
                && self.has_relation(#[trigger] self.forest().children[e][k]) implies {
                &&& self.relation_of(self.forest().children[e][k])->0.spec_parent() == Some(e)
                &&& self.relation_of(self.forest().children[e][k])->0.spec_prev_sibling() == (if k == 0 {
                    None
                } else {
                    Some(self.forest().children[e][k - 1])
                })
                &&& self.relation_of(self.forest().children[e][k])->0.spec_next_sibling() == (if k + 1 < self.forest().children[e].len() {
                    Some(self.forest().children[e][k + 1])
                } else {
                    None
                })
            } by {
                assert(self.kids@[e][k] == self.forest().children[e][k]);
            }
        }
    }

    /// Every node of the walk from `root` has a relation, so the walk reads no hidden relation.
    pub open spec fn clear_walk(&self, root: Entity) -> bool {
        forall|x: Entity| #[trigger] self.forest().pre_order(root).contains(x) ==> self.has_relation(x)
    }

    /// A walk from a walkable root is clear exactly when the root has a relation and the walk
    /// from each of its children is clear.
    pub proof fn lemma_clear_walk_unfold(&self, root: Entity)
        requires
            self.wf(),
            self.forest().walkable(root),
        ensures
            self.clear_walk(root) <==> (self.has_relation(root) && forall|k: int|
                0 <= k < self.forest().children[root].len() ==> self.clear_walk(#[trigger] self.forest().children[root][k])),
            self.clear_walk(root) ==> forall|k: int|
                0 <= k < self.forest().children[root].len() ==> self.has_relation(#[trigger] self.forest().children[root][k]),
    {
        let f = self.forest();
        let cs = f.children[root];
        let m = f.bound - f.rank[root];
        lemma_children_walkable(f, root);
        assert(f.pre_order(root) == seq![root] + f.pre_order_list(cs, m));
        assert(f.pre_order(root)[0] == root);
        assert(f.pre_order(root).contains(root));
        if self.clear_walk(root) {
            assert forall|k: int| 0 <= k < cs.len() implies self.clear_walk(#[trigger] cs[k]) by {
                assert forall|x: Entity| #[trigger] f.pre_order(cs[k]).contains(x) implies self.has_relation(x) by {
                    lemma_pre_order_list_contains(f, cs, m, x);
                    let i = choose|i: int| 0 <= i < f.pre_order_list(cs, m).len() && f.pre_order_list(cs, m)[i] == x;
                    assert(f.pre_order(root)[i + 1] == x);
                    assert(f.pre_order(root).contains(x));
                }
            }
            assert forall|k: int| 0 <= k < cs.len() implies self.has_relation(#[trigger] cs[k]) by {
                assert(f.walkable(cs[k]));
                assert(f.pre_order(cs[k]) == seq![cs[k]] + f.pre_order_list(f.children[cs[k]], f.bound - f.rank[cs[k]]));
                assert(f.pre_order(cs[k])[0] == cs[k]);
                assert(f.pre_order(cs[k]).contains(cs[k]));
                assert(self.clear_walk(cs[k]));
            }
        }
        if self.has_relation(root) && forall|k: int| 0 <= k < cs.len() ==> self.clear_walk(#[trigger] cs[k]) {
            assert forall|x: Entity| #[trigger] f.pre_order(root).contains(x) implies self.has_relation(x) by {
                if x != root {
                    let i = choose|i: int| 0 <= i < f.pre_order(root).len() && f.pre_order(root)[i] == x;
                    assert(i > 0);
                    assert(f.pre_order_list(cs, m)[i - 1] == x);
                    assert(f.pre_order_list(cs, m).contains(x));
                    lemma_pre_order_list_contains(f, cs, m, x);
                    let k = choose|k: int| 0 <= k < cs.len() && (#[trigger] f.pre_order(cs[k])).contains(x);
                    assert(self.clear_walk(cs[k]));
                }
            }
        }
    }

    /// The hierarchy of a well-formed registry is a forest whose lists of children have no
    /// repeats.
    pub proof fn lemma_forest_valid(&self)
        requires
            self.wf(),
        ensures
            self.forest().ok(),
            self.forest().lists_distinct(),
    {
        assert(lists_ok(self.links@, self.kids@));
    }

    /// A reference to the relation of `entity`, if it has one that can be read.
    pub fn relation_ref(&self, entity: Entity) -> (r: Option<&Relation>)
        requires
            self.wf(),
        ensures
            r is Some <==> self.has_relation(entity),
            r is Some ==> self.relation_of(entity) == Some(*r->0),
    {
        self.relations.get(entity.index())
    }

    /// Whether `entity` is a node of the hierarchy, with a relation or with one that is hidden.
    pub fn is_in_hierarchy(&self, entity: Entity) -> (r: bool)
        requires
            self.wf(),
        ensures
            r == self.in_hierarchy(entity),
    {
        let members = self.relations.entities_vec();
        let mut i: usize = 0;
        while i < members.len()
            invariant
                self.wf(),
                members@ == entities_of(self.relations@),
                i <= members@.len(),
                forall|k: int| 0 <= k < i ==> members@[k] != entity,
            decreases members@.len() - i,
        {
            if members[i] == entity {
                proof {
                    assert(members@[i as int] == entity);
                    assert(entities_of(self.relations@).contains(entity));
                    assert(self.tree_ok());
                }
                return true;
            }
            i = i + 1;
        }
        proof {
            assert(!entities_of(self.relations@).contains(entity)) by {
                if entities_of(self.relations@).contains(entity) {
                    let k = choose|k: int| 0 <= k < members@.len() && members@[k] == entity;
                    assert(members@[k] != entity);
                }
            }
            assert(self.tree_ok());
        }
        false
    }

    /// How many relations have been stored: one for each call that gave an entity a relation.
    pub fn hierarchy_size(&self) -> (r: usize)
        requires
            self.wf(),
        ensures
            r == self.forest().bound,
    {
        self.relations.len()
    }

    /// Whether a walk from `root` ends and reads only relations it can find: `root` is a
    /// node that is not its own child, and every node under it has a relation.
    #[verifier::spinoff_prover]
    #[verifier::rlimit(40)]
    pub fn is_walkable(&self, root: Entity) -> (r: bool)
        requires
            self.wf(),
        ensures
            r == (self.forest().walkable(root) && self.clear_walk(root)),
        decreases (if self.in_hierarchy(root) { self.forest().bound - self.forest().rank[root] } else { 0 }),
    {
        let ghost f = self.forest();
        proof {
            assert(self.tree_ok());
            assert(lists_ok(self.links@, self.kids@));
            assert(links_ok(self.links@, self.kids@));
        }
        let rel = self.rel_get(root);
        if rel.is_none() {
            proof {
                if f.walkable(root) {
                    self.lemma_clear_walk_unfold(root);
                }
            }
            return false;
        }
        let ghost cs = self.kids@[root];
        proof {
            assert(self.kids@.contains_key(root));
            assert(f.children[root] == cs);
            if cs.len() > 0 {
                assert(cs.take(0) =~= Seq::<Entity>::empty());
            }
        }
        let mut iter = rel.unwrap().first_child;
        let mut children: Vec<Entity> = Vec::new();
        while iter.is_some()
            invariant
                self.wf(),
                f == self.forest(),
                cs == self.kids@[root],
                self.kids@.contains_key(root),
                children@.len() <= cs.len(),
                children@ == cs.take(children@.len() as int),
                forall|k: int| 0 <= k < children@.len() ==> self.has_relation(#[trigger] cs[k]) && cs[k] != root,
                iter == (if children@.len() < cs.len() { Some(cs[children@.len() as int]) } else { None::<Entity> }),
            decreases cs.len() - children@.len(),
        {
            let child = iter.unwrap();
            let ghost k = children@.len() as int;
            proof {
                assert(links_ok(self.links@, self.kids@));
                assert(self.kids@[root][k] == child);
            }
            if child == root {
                proof {
                    assert(cs.contains(root));
                }
                return false;
            }
            match self.rel_get(child) {
                None => {
                    proof {
                        if f.walkable(root) {
                            self.lemma_clear_walk_unfold(root);
                        }
                    }
                    return false;
                },
                Some(c) => {
                    children.push(child);
                    iter = c.next_sibling;
                    proof {
                        assert(cs.take(k + 1) =~= cs.take(k).push(child));
                    }
                },
            }
        }
        proof {
            assert(children@.len() == cs.len());
            assert(children@ =~= cs);
            assert(!cs.contains(root)) by {
                if cs.contains(root) {
                    let j = choose|j: int| 0 <= j < cs.len() && cs[j] == root;
                    assert(cs[j] != root);
                }
            }
            assert(f.walkable(root));
            lemma_children_walkable(f, root);
        }
        let mut i: usize = 0;
        while i < children.len()
            invariant
                self.wf(),
                f == self.forest(),
                f.walkable(root),
                children@ == f.children[root],
                f.walkable_below(children@, f.bound - f.rank[root]),
                i <= children@.len(),
                forall|k: int| 0 <= k < i ==> self.clear_walk(#[trigger] children@[k]),
            decreases children@.len() - i,
        {
            let c = children[i];
            proof {
                assert(f.walkable(children@[i as int]));
                assert(self.in_hierarchy(c));
            }
            if !self.is_walkable(c) {
                proof {
                    self.lemma_clear_walk_unfold(root);
                }
                return false;
            }
            i = i + 1;
        }
        proof {
            self.lemma_clear_walk_unfold(root);
        }
        true
    }

    /// Gives `entity` a new relation with no links, making it a root of the hierarchy. The new
    /// entry hides every other generation of the entity's slot; it is itself hidden where it
    /// reads as an empty slot. An entity already in the hierarchy must have a relation with no
    /// links: a new relation for a linked node would cut the lists through it, and one for a
    /// node whose relation is hidden would leave it in its parent's list as well.
    pub fn add_root(&mut self, entity: Entity)
        requires
            old(self).wf(),
            old(self).forest().bound <= MAX_INDEX,
            old(self).in_hierarchy(entity) ==> (old(self).relation_of(entity) matches Some(r) && r.is_detached()),
        ensures
            final(self).wf(),
            final(self).forest() == old(self).forest().with_root(entity),
            !is_null_entry(old(self).forest().bound as int, entity.key().gen())
                ==> (final(self).relation_of(entity) matches Some(r) && r.is_detached()),
            is_null_entry(old(self).forest().bound as int, entity.key().gen()) ==> final(self).relation_of(entity) is None,
            forall|e: Entity| e != entity ==> final(self).relation_of(e) == (if e.key().slot() == entity.key().slot() {
                None
            } else {
                old(self).relation_of(e)
            }),
            final(self).spec_entities() == old(self).spec_entities(),
            forall|k: TypeId| final(self).has_silo(k) == old(self).has_silo(k)
                && final(self).silo_entries(k) == old(self).silo_entries(k),
    {
        let ghost bound = self.relations@.len();
        proof {
            if self.in_hierarchy(entity) {
                assert(lists_ok(self.links@, self.kids@));
                assert(links_ok(self.links@, self.kids@));
                assert(self.kids@.contains_key(entity));
                assert forall|p: Entity| #[trigger] self.forest().children.contains_key(p)
                    implies !self.forest().children[p].contains(entity) by {
                    if self.forest().children[p].contains(entity) {
                        let k = choose|k: int| 0 <= k < self.kids@[p].len() && self.kids@[p][k] == entity;
                        assert(self.links@[self.kids@[p][k]].parent == Some(p));
                    }
                }
                assert(self.forest().lone(entity));
            }
        }
        self.rel_insert(entity, Relation::new());
        self.kids = Ghost(self.kids@.insert(entity, seq![]));
        self.rank = Ghost(self.rank@.insert(entity, bound));
        proof {
            self.lemma_tree_ok_after_root(*old(self), entity);
        }
    }

    proof fn lemma_tree_ok_after_root(&self, old_self: Self, entity: Entity)
        requires
            old_self.tree_ok(),
            old_self.links@.contains_key(entity) ==> old_self.forest().lone(entity),
            self.links@ == old_self.links@.insert(entity, self.links@[entity]),
            self.links@[entity].is_detached(),
            self.kids@ == old_self.kids@.insert(entity, seq![]),
            self.rank@ == old_self.rank@.insert(entity, old_self.relations@.len()),
            self.relations@.len() == old_self.relations@.len() + 1,
        ensures
            self.tree_ok(),
    {
        let f0 = old_self.forest();
        let f = self.forest();
        assert(self.kids@.dom() =~= self.links@.dom());
        assert forall|p: Entity| #[trigger] f.children.contains_key(p) implies f.rank.contains_key(p) && f.rank[p] < f.bound by {
            if p != entity {
                assert(f0.children.contains_key(p));
            }
        }
        assert forall|p: Entity| #[trigger] self.kids@.contains_key(p) implies {
            let cs = self.kids@[p];
            let r = self.links@[p];
            &&& cs.no_duplicates()
            &&& r.first_child == (if cs.len() == 0 { None } else { Some(cs[0]) })
            &&& r.last_child == (if cs.len() == 0 { None } else { Some(cs.last()) })
        } by {
            if p != entity {
                assert(old_self.kids@.contains_key(p));
            }
        }
        assert(self.rank@.dom() =~= self.links@.dom());
        assert forall|p: Entity, k: int| #![trigger f.children[p][k]]
            f.children.contains_key(p) && 0 <= k < f.children[p].len() implies {
                let c = f.children[p][k];
                &&& f.children.contains_key(c)
                &&& (c == p || f.rank[p] < f.rank[c])
            } by {
            assert(p != entity);
            assert(f0.children[p][k] == f.children[p][k]);
            if f.children[p][k] == entity {
                assert(f0.children[p].contains(entity));
            }
        }
        assert forall|p: Entity, q: Entity, i: int, j: int| #![trigger f.children[p][i], f.children[q][j]]
            f.children.contains_key(p) && f.children.contains_key(q)
                && 0 <= i < f.children[p].len() && 0 <= j < f.children[q].len()
                && f.children[p][i] == f.children[q][j] implies p == q by {
            assert(p != entity && q != entity);
            assert(f0.children[p][i] == f.children[p][i]);
            assert(f0.children[q][j] == f.children[q][j]);
        }
        assert forall|p: Entity, k: int| #![trigger self.kids@[p][k]]
            self.kids@.contains_key(p) && 0 <= k < self.kids@[p].len() implies {
                let cs = self.kids@[p];
                let c = cs[k];
                &&& self.links@.contains_key(c)
                &&& self.links@[c].parent == Some(p)
                &&& self.links@[c].prev_sibling == (if k == 0 { None } else { Some(cs[k - 1]) })
                &&& self.links@[c].next_sibling == (if k + 1 < cs.len() { Some(cs[k + 1]) } else { None })
            } by {
            assert(p != entity);
            let c = old_self.kids@[p][k];
            assert(old_self.links@.contains_key(c));
            if c == entity {
                assert(f0.children[p].contains(entity));
            }
        }
    }

    /// Makes `child` the last child of `parent`. `child` gets a new relation naming `parent`;
    /// its entry hides every other generation of the child's slot, and is itself hidden where
    /// it reads as an empty slot. `child` must have no relation and must not be a node whose
    /// relation is hidden (linking such a node again would leave it in two lists). Where the
    /// original would panic, the call is ruled out: `parent` must have a relation once the
    /// child's entry is added (when it is `child` itself, some relation must exist already),
    /// and where `parent` has children, both its last child and `child` must have one too.
    pub fn add_child(&mut self, parent: Entity, child: Entity)
        requires
            old(self).wf(),
            !old(self).in_hierarchy(child),
            old(self).forest().bound <= MAX_INDEX,
            parent != child ==> old(self).has_relation(parent) && parent.key().slot() != child.key().slot(),
            parent == child ==> old(self).forest().bound > 0
                && !is_null_entry(old(self).forest().bound as int, child.key().gen()),
            parent != child && old(self).forest().children[parent].len() > 0 ==> {
                &&& !is_null_entry(old(self).forest().bound as int, child.key().gen())
                &&& old(self).has_relation(old(self).forest().children[parent].last())
                &&& old(self).forest().children[parent].last().key().slot() != child.key().slot()
            },
        ensures
            final(self).wf(),
            final(self).forest() == old(self).forest().with_child(parent, child),
            !is_null_entry(old(self).forest().bound as int, child.key().gen())
                ==> (final(self).relation_of(child) matches Some(r) && r.spec_parent() == Some(parent)),
            is_null_entry(old(self).forest().bound as int, child.key().gen()) ==> final(self).relation_of(child) is None,
            forall|e: Entity| e != child ==> (final(self).has_relation(e)
                <==> old(self).has_relation(e) && e.key().slot() != child.key().slot()),
            final(self).spec_entities() == old(self).spec_entities(),
            forall|k: TypeId| final(self).has_silo(k) == old(self).has_silo(k)
                && final(self).silo_entries(k) == old(self).silo_entries(k),
    {
        let ghost old_links = self.links@;
        let ghost cs: Seq<Entity> = if old_links.contains_key(parent) { self.kids@[parent] } else { seq![] };
        let ghost bound = self.relations@.len();
        proof {
            assert(!old_links.contains_key(child)) by {
                if old_links.contains_key(child) {
                    assert(self.in_hierarchy(child));
                }
            }
            assert(lists_ok(self.links@, self.kids@));
            if old_links.contains_key(parent) && cs.len() > 0 {
                assert(cs[cs.len() - 1] == cs.last());
                assert(links_ok(self.links@, self.kids@));
                assert(old_links.contains_key(cs.last()));
                assert(parent != child);
                assert(self.forest().children[parent] == cs);
            }
        }
        let mut child_relation = Relation::new();
        child_relation.parent = Some(parent);
        self.rel_insert(child, child_relation);
        let parent_rel = self.rel_get(parent).unwrap();
        if !parent_rel.has_children() {
            let mut p = parent_rel;
            p.first_child = Some(child);
            p.last_child = Some(child);
            self.rel_set(parent, p);
        } else {
            let last = parent_rel.last_child.unwrap();
            let mut c = self.rel_get(child).unwrap();
            c.prev_sibling = Some(last);
            self.rel_set(child, c);
            let mut l = self.rel_get(last).unwrap();
            l.next_sibling = Some(child);
            self.rel_set(last, l);
            let mut p = self.rel_get(parent).unwrap();
            p.last_child = Some(child);
            self.rel_set(parent, p);
        }
        self.kids = Ghost(self.kids@.insert(child, seq![]).insert(parent, cs.push(child)));
        self.rank = Ghost(self.rank@.insert(child, bound));
        proof {
            assert(self.links@.dom() =~= old_links.dom().insert(child));
            assert(child_link_facts(old_links, self.links@, parent, child, cs));
            self.lemma_tree_ok_after_child(*old(self), parent, child, cs);
        }
    }

    /// Whether `node` and each of its children have a relation, so its children can be read.
    #[verifier::spinoff_prover]
    #[verifier::rlimit(40)]
    pub fn children_readable(&self, node: Entity) -> (r: bool)
        requires
            self.wf(),
        ensures
            r == (self.has_relation(node) && forall|k: int| 0 <= k < self.forest().children[node].len()
                ==> self.has_relation(#[trigger] self.forest().children[node][k])),
    {
        proof {
            assert(lists_ok(self.links@, self.kids@));
        }
        let rel = self.rel_get(node);
        if rel.is_none() {
            return false;
        }
        let ghost cs = self.kids@[node];
        proof {
            assert(self.kids@.contains_key(node));
            assert(self.forest().children[node] == cs);
        }
        let mut iter = rel.unwrap().first_child;
        let ghost mut n: int = 0;
        while iter.is_some()
            invariant
                self.wf(),
                cs == self.kids@[node],
                cs == self.forest().children[node],
                self.kids@.contains_key(node),
                0 <= n <= cs.len(),
                forall|k: int| 0 <= k < n ==> self.has_relation(#[trigger] cs[k]),
                iter == (if n < cs.len() { Some(cs[n]) } else { None::<Entity> }),
            decreases cs.len() - n,
        {
            let child = iter.unwrap();
            proof {
                assert(links_ok(self.links@, self.kids@));
                assert(self.kids@[node][n] == child);
            }
            match self.rel_get(child) {
                None => {
                    proof {
                        assert(!self.has_relation(cs[n]));
                    }
                    return false;
                },
                Some(c) => {
                    iter = c.next_sibling;
                    proof {
                        n = n + 1;
                    }
                },
            }
        }
        true
    }

    /// The children of `node`, in order.
    pub fn get_children(&self, node: Entity) -> (r: Vec<Entity>)
        requires
            self.wf(),
            self.has_relation(node),
            forall|k: int| 0 <= k < self.forest().children[node].len()
                ==> self.has_relation(#[trigger] self.forest().children[node][k]),
        ensures
            r@ == self.forest().children[node],
    {
        let ghost cs = self.kids@[node];
        proof {
            assert(self.kids@.contains_key(node));
            assert(self.forest().children[node] == cs);
        }
        let mut iter = self.rel_get(node).unwrap().first_child;
        let mut ret: Vec<Entity> = Vec::new();
        proof {
            assert(lists_ok(self.links@, self.kids@));
            assert(self.kids@.contains_key(node));
            if cs.len() > 0 {
                assert(cs.take(0) =~= Seq::<Entity>::empty());
            }
        }
        while iter.is_some()
            invariant
                self.wf(),
                cs == self.kids@[node],
                self.kids@.contains_key(node),
                forall|k: int| 0 <= k < cs.len() ==> self.has_relation(#[trigger] cs[k]),
                ret@.len() <= cs.len(),
                ret@ == cs.take(ret@.len() as int),
                iter == (if ret@.len() < cs.len() { Some(cs[ret@.len() as int]) } else { None::<Entity> }),
            decreases cs.len() - ret@.len(),
        {
            let child = iter.unwrap();
            let ghost k = ret@.len() as int;
            proof {
                assert(links_ok(self.links@, self.kids@));
                assert(self.kids@[node][k] == child);
            }
            ret.push(child);
            iter = self.rel_get(child).unwrap().next_sibling;
            proof {
                assert(cs.take(k + 1) =~= cs.take(k).push(child));
            }
        }
        proof {
            assert(cs.take(cs.len() as int) =~= cs);
        }
        ret
    }

    /// The nodes under `root`, `root` first, then each child's walk in order.
    pub fn visit_pre_order(&self, root: Entity) -> (r: Vec<Entity>)
        requires
            self.wf(),
            self.forest().walkable(root),
            self.clear_walk(root),
        ensures
            r@ == self.forest().pre_order(root),
        decreases self.forest().bound - self.forest().rank[root],
    {
        let ghost f = self.forest();
        let ghost m = f.bound - f.rank[root];
        let mut out: Vec<Entity> = Vec::new();
        out.push(root);
        proof {
            self.lemma_clear_walk_unfold(root);
        }
        let children = self.get_children(root);
        proof {
            lemma_children_walkable(f, root);
            assert(children@.take(0) =~= Seq::<Entity>::empty());
            assert(f.walkable_below(children@.take(0), m));
            assert(out@ =~= seq![root] + f.pre_order_list(children@.take(0), m));
        }
        let mut i: usize = 0;
        while i < children.len()
            invariant
                self.wf(),
                f == self.forest(),
                f.walkable(root),
                self.clear_walk(root),
                m == f.bound - f.rank[root],
                children@ == f.children[root],
                f.walkable_below(children@, m),
                i <= children@.len(),
                out@ == seq![root] + f.pre_order_list(children@.take(i as int), m),
            decreases children@.len() - i,
        {
            let c = children[i];
            proof {
                lemma_take_step(f, children@, i as int, m);
                self.lemma_clear_walk_unfold(root);
                assert(self.clear_walk(children@[i as int]));
            }
            let mut sub = self.visit_pre_order(c);
            out.append(&mut sub);
            proof {
                assert(out@ =~= seq![root] + f.pre_order_list(children@.take(i + 1), m));
            }
            i = i + 1;
        }
        proof {
            assert(children@.take(i as int) =~= children@);
        }
        out
    }

    /// The nodes under `root`: the children's walks from the last child to the first, then `root`.
    #[verifier::spinoff_prover]
    pub fn visit_post_order(&self, root: Entity) -> (r: Vec<Entity>)
        requires
            self.wf(),
            self.forest().walkable(root),
            self.clear_walk(root),
        ensures
            r@ == self.forest().post_order(root),
        decreases self.forest().bound - self.forest().rank[root],
    {
        let ghost f = self.forest();
        let ghost m = f.bound - f.rank[root];
        let mut out: Vec<Entity> = Vec::new();
        proof {
            self.lemma_clear_walk_unfold(root);
        }
        let children = self.get_children(root);
        proof {
            lemma_children_walkable(f, root);
            assert(children@.skip(children@.len() as int) =~= Seq::<Entity>::empty());
            assert(f.walkable_below(children@.skip(children@.len() as int), m));
        }
        let mut i: usize = children.len();
        while i > 0
            invariant
                self.wf(),
                f == self.forest(),
                f.walkable(root),
                self.clear_walk(root),
                m == f.bound - f.rank[root],
                children@ == f.children[root],
                f.walkable_below(children@, m),
                i <= children@.len(),
                out@ == f.post_order_list(children@.skip(i as int), m),
            decreases i,
        {
            i = i - 1;
            let c = children[i];
            proof {
                lemma_post_order_list_step(f, children@, i as int, m);
                self.lemma_clear_walk_unfold(root);
                assert(self.clear_walk(children@[i as int]));
            }
            let mut sub = self.visit_post_order(c);
            out.append(&mut sub);
        }
        out.push(root);
        proof {
            assert(children@.skip(0) =~= children@);
        }
        out
    }

    /// Every (parent, child) edge under `root`: for each child in order, the edge from `root`,
    /// then the edges under that child.
    pub fn parent_child_pairs(&self, root: Entity) -> (r: Vec<(Entity, Entity)>)
        requires
            self.wf(),
            self.forest().walkable(root),
            self.clear_walk(root),
        ensures
            r@ == self.forest().edges(root),
            r@.map_values(|e: (Entity, Entity)| e.1) == self.forest().pre_order(root).drop_first(),
        decreases self.forest().bound - self.forest().rank[root],
    {
        let ghost f = self.forest();
        let ghost m = f.bound - f.rank[root];
        let mut out: Vec<(Entity, Entity)> = Vec::new();
        proof {
            self.lemma_clear_walk_unfold(root);
        }
        let children = self.get_children(root);
        proof {
            lemma_children_walkable(f, root);
            assert(children@.take(0) =~= Seq::<Entity>::empty());
            assert(f.walkable_below(children@.take(0), m));
        }
        let mut i: usize = 0;
        while i < children.len()
            invariant
                self.wf(),
                f == self.forest(),
                f.walkable(root),
                self.clear_walk(root),
                m == f.bound - f.rank[root],
                children@ == f.children[root],
                f.walkable_below(children@, m),
                i <= children@.len(),
                out@ == f.edges_list(root, children@.take(i as int), m),
            decreases children@.len() - i,
        {
            let c = children[i];
            proof {
                lemma_take_step(f, children@, i as int, m);
                self.lemma_clear_walk_unfold(root);
                assert(self.clear_walk(children@[i as int]));
                assert(f.edges_list(root, children@.take(i + 1), m)
                    == f.edges_list(root, children@.take(i as int), m) + seq![(root, c)] + f.edges(c));
            }
            out.push((root, c));
            let mut sub = self.parent_child_pairs(c);
            out.append(&mut sub);
            proof {
                assert(out@ =~= f.edges_list(root, children@.take(i + 1), m));
            }
            i = i + 1;
        }
        proof {
            assert(children@.take(i as int) =~= children@);
            lemma_edges_follow_pre_order(f, root);
        }
        out
    }

    /// The nodes under `root` in the given order that have a component of every type in
    /// `keys`; nothing at all when some type in `keys` has no container.
    pub fn query_tree(&self, keys: &[TypeId], root: Entity, order: TreeOrder) -> (r: Vec<Entity>)
        requires
            self.wf(),
            self.all_silos(keys@) ==> self.forest().walkable(root) && self.clear_walk(root),
        ensures
            !self.all_silos(keys@) ==> r@ == Seq::<Entity>::empty(),
            self.all_silos(keys@) ==> r@ == (match order {
                TreeOrder::PostOrder => self.forest().post_order(root),
                TreeOrder::PreOrder => self.forest().pre_order(root),
            }).filter(|e: Entity| self.has_all(keys@, e)),
            self.all_silos(keys@) && order is PostOrder
                ==> r@ == self.forest().pre_order(root).filter(|e: Entity| self.has_all(keys@, e)).reverse(),
            r@.no_duplicates(),
    {
        let mut ret: Vec<Entity> = Vec::new();
        let mut j: usize = 0;
        while j < keys.len()
            invariant
                self.wf(),
                j <= keys@.len(),
                ret@ == Seq::<Entity>::empty(),
                forall|i: int| 0 <= i < j ==> self.has_silo(#[trigger] keys@[i]),
            decreases keys@.len() - j,
        {
            if self.component_count(keys[j]).is_none() {
                return ret;
            }
            j = j + 1;
        }
        let walk = match order {
            TreeOrder::PostOrder => self.visit_post_order(root),
            TreeOrder::PreOrder => self.visit_pre_order(root),
        };
        let ghost pred = |e: Entity| self.has_all(keys@, e);
        let mut i: usize = 0;
        while i < walk.len()
            invariant
                self.wf(),
                i <= walk@.len(),
                pred == (|e: Entity| self.has_all(keys@, e)),
                ret@ == walk@.take(i as int).filter(pred),
            decreases walk@.len() - i,
        {
            let e = walk[i];
            let keep = self.has_components(keys, e);
            proof {
                let t = walk@.take(i + 1);
                assert(t.drop_last() =~= walk@.take(i as int));
                assert(t.last() == e);
                reveal(Seq::filter);
            }
            if keep {
                ret.push(e);
            }
            i = i + 1;
        }
        proof {
            assert(walk@.take(i as int) =~= walk@);
            if self.all_silos(keys@) {
                self.lemma_walk_orders_filtered(root, pred);
            }
        }
        ret
    }

    /// Keeping the nodes of a walk that satisfy `pred`: in post-order they come as in pre-order
    /// read backwards, and each at most once.
    pub proof fn lemma_walk_orders_filtered(&self, root: Entity, pred: spec_fn(Entity) -> bool)
        requires
            self.wf(),
            self.forest().walkable(root),
        ensures
            self.forest().post_order(root).filter(pred) == self.forest().pre_order(root).filter(pred).reverse(),
            self.forest().pre_order(root).filter(pred).no_duplicates(),
            self.forest().post_order(root).filter(pred).no_duplicates(),
    {
        self.lemma_forest_valid();
        lemma_forest_orders_filtered(self.forest(), root, pred);
    }

    proof fn lemma_tree_ok_after_child(&self, old_self: Self, parent: Entity, child: Entity, cs: Seq<Entity>)
        requires
            old_self.tree_ok(),
            !old_self.links@.contains_key(child),
            old_self.links@.contains_key(parent) || parent == child,
            cs == (if old_self.links@.contains_key(parent) { old_self.kids@[parent] } else { seq![] }),
            self.links@.dom() == old_self.links@.dom().insert(child),
            self.kids@ == old_self.kids@.insert(child, seq![]).insert(parent, cs.push(child)),
            self.rank@ == old_self.rank@.insert(child, old_self.relations@.len()),
            self.relations@.len() == old_self.relations@.len() + 1,
            child_link_facts(old_self.links@, self.links@, parent, child, cs),
        ensures
            self.tree_ok(),
    {
        let f0 = old_self.forest();
        let f = self.forest();
        lemma_child_not_listed(f0, old_self.links@, child);
        lemma_child_ranks(f0, f, parent, child, cs);
        lemma_child_children(f0, f, parent, child, cs);
        lemma_child_parents(f0, f, parent, child, cs);
        lemma_child_lists(old_self.links@, self.links@, f0.children, f.children, parent, child, cs);
        lemma_child_links(old_self.links@, self.links@, f0, f, parent, child, cs);
        assert(self.kids@.dom() =~= self.links@.dom());
        assert(self.rank@.dom() =~= self.links@.dom());
    }
}

/// How adding `child` under `parent` rewrites the relations, field by field.
spec fn child_link_facts(
    l0: Map<Entity, Relation>,
    l: Map<Entity, Relation>,
    parent: Entity,
    child: Entity,
    cs: Seq<Entity>,
) -> bool {
    forall|x: Entity| #[trigger] l.contains_key(x) ==> {
        let n = l[x];
        let o = l0[x];
        &&& n.parent == (if x == child { Some(parent) } else { o.parent })
        &&& n.prev_sibling == (if x == child {
            if cs.len() == 0 { None } else { Some(cs.last()) }
        } else {
            o.prev_sibling
        })
        &&& n.next_sibling == (if cs.len() > 0 && x == cs.last() {
            Some(child)
        } else if x == child {
            None
        } else {
            o.next_sibling
        })
        &&& n.first_child == (if x == parent {
            if cs.len() == 0 { Some(child) } else { o.first_child }
        } else if x == child {
            None
        } else {
            o.first_child
        })
        &&& n.last_child == (if x == parent { Some(child) } else if x == child { None } else { o.last_child })
    }
}

/// An entity with no relation is on nobody's list of children.
proof fn lemma_child_not_listed(f0: Forest, l0: Map<Entity, Relation>, child: Entity)
    requires
        links_ok(l0, f0.children),
        !l0.contains_key(child),
    ensures
        forall|p: Entity, k: int| f0.children.contains_key(p) && 0 <= k < f0.children[p].len()
            ==> #[trigger] f0.children[p][k] != child,
        forall|p: Entity| #[trigger] f0.children.contains_key(p) ==> !f0.children[p].contains(child),
{
    assert forall|p: Entity, k: int| f0.children.contains_key(p) && 0 <= k < f0.children[p].len()
        implies #[trigger] f0.children[p][k] != child by {
        assert(l0.contains_key(f0.children[p][k]));
    }
    assert forall|p: Entity| #[trigger] f0.children.contains_key(p) implies !f0.children[p].contains(child) by {
        if f0.children[p].contains(child) {
            let k = choose|k: int| 0 <= k < f0.children[p].len() && f0.children[p][k] == child;
            assert(f0.children[p][k] != child);
        }
    }
}

proof fn lemma_child_ranks(f0: Forest, f: Forest, parent: Entity, child: Entity, cs: Seq<Entity>)
    requires
        f0.ranks_ok(),
        !f0.children.contains_key(child),
        f0.children.contains_key(parent) || parent == child,
        f.children == f0.children.insert(child, seq![]).insert(parent, cs.push(child)),
        f.rank == f0.rank.insert(child, f0.bound),
        f.bound == f0.bound + 1,
    ensures
        f.ranks_ok(),
{
    assert forall|p: Entity| #[trigger] f.children.contains_key(p) implies f.rank.contains_key(p) && f.rank[p] < f.bound by {
        if p != child {
            assert(f0.children.contains_key(p));
        }
    }
}

proof fn lemma_child_children(f0: Forest, f: Forest, parent: Entity, child: Entity, cs: Seq<Entity>)
    requires
        f0.ranks_ok(),
        f0.children_ok(),
        !f0.children.contains_key(child),
        f0.children.contains_key(parent) || parent == child,
        cs == (if f0.children.contains_key(parent) { f0.children[parent] } else { seq![] }),
        forall|p: Entity, k: int| f0.children.contains_key(p) && 0 <= k < f0.children[p].len()
            ==> #[trigger] f0.children[p][k] != child,
        f.children == f0.children.insert(child, seq![]).insert(parent, cs.push(child)),
        f.rank == f0.rank.insert(child, f0.bound),
        f.bound == f0.bound + 1,
    ensures
        f.children_ok(),
{
    assert forall|p: Entity, k: int| #![trigger f.children[p][k]]
        f.children.contains_key(p) && 0 <= k < f.children[p].len() implies {
            let c = f.children[p][k];
            &&& f.children.contains_key(c)
            &&& (c == p || f.rank[p] < f.rank[c])
        } by {
        if p == parent {
            if k < cs.len() {
                assert(f.children[p][k] == f0.children[parent][k]);
            }
        } else if p != child {
            assert(f.children[p][k] == f0.children[p][k]);
        }
    }
}

proof fn lemma_child_parents(f0: Forest, f: Forest, parent: Entity, child: Entity, cs: Seq<Entity>)
    requires
        f0.parents_unique(),
        !f0.children.contains_key(child),
        f0.children.contains_key(parent) || parent == child,
        cs == (if f0.children.contains_key(parent) { f0.children[parent] } else { seq![] }),
        forall|p: Entity, k: int| f0.children.contains_key(p) && 0 <= k < f0.children[p].len()
            ==> #[trigger] f0.children[p][k] != child,
        f.children == f0.children.insert(child, seq![]).insert(parent, cs.push(child)),
    ensures
        f.parents_unique(),
{
    assert forall|p: Entity, q: Entity, i: int, j: int| #![trigger f.children[p][i], f.children[q][j]]
        f.children.contains_key(p) && f.children.contains_key(q)
            && 0 <= i < f.children[p].len() && 0 <= j < f.children[q].len()
            && f.children[p][i] == f.children[q][j] implies p == q by {
        let c = f.children[p][i];
        if c == child {
            if p != parent && p != child {
                assert(f0.children[p][i] == c);
            }
            if q != parent && q != child {
                assert(f0.children[q][j] == c);
            }
        } else {
            if p == parent {
                assert(f0.children[parent][i] == c);
            } else {
                assert(f0.children[p][i] == c);
            }
            if q == parent {
                assert(f0.children[parent][j] == c);
            } else {
                assert(f0.children[q][j] == c);
            }
            if p != q {
                if p == parent {
                    assert(f0.children[parent][i] == f0.children[q][j]);
                } else if q == parent {
                    assert(f0.children[p][i] == f0.children[parent][j]);
                } else {
                    assert(f0.children[p][i] == f0.children[q][j]);
                }
            }
        }
    }
}

proof fn lemma_child_lists(
    l0: Map<Entity, Relation>,
    l: Map<Entity, Relation>,
    k0: Map<Entity, Seq<Entity>>,
    k: Map<Entity, Seq<Entity>>,
    parent: Entity,
    child: Entity,
    cs: Seq<Entity>,
)
    requires
        lists_ok(l0, k0),
        k0.dom() == l0.dom(),
        !l0.contains_key(child),
        l0.contains_key(parent) || parent == child,
        cs == (if l0.contains_key(parent) { k0[parent] } else { seq![] }),
        !cs.contains(child),
        l.dom() == l0.dom().insert(child),
        k == k0.insert(child, seq![]).insert(parent, cs.push(child)),
        child_link_facts(l0, l, parent, child, cs),
    ensures
        lists_ok(l, k),
{
    assert forall|p: Entity| #[trigger] k.contains_key(p) implies {
        let cs2 = k[p];
        let r = l[p];
        &&& cs2.no_duplicates()
        &&& r.first_child == (if cs2.len() == 0 { None } else { Some(cs2[0]) })
        &&& r.last_child == (if cs2.len() == 0 { None } else { Some(cs2.last()) })
    } by {
        assert(l.contains_key(p));
        if p == parent {
            let cs2 = cs.push(child);
            assert forall|i: int, j: int| 0 <= i < cs2.len() && 0 <= j < cs2.len() && i != j implies cs2[i] != cs2[j] by {
                if i < cs.len() && j < cs.len() {
                    assert(k0[parent].no_duplicates());
                } else if i < cs.len() {
                    assert(cs.contains(cs2[i]));
                } else if j < cs.len() {
                    assert(cs.contains(cs2[j]));
                }
            }
            if cs.len() > 0 {
                assert(cs2[0] == cs[0]);
            }
        } else if p != child {
            assert(k0.contains_key(p));
        }
    }
}

proof fn lemma_child_links(
    l0: Map<Entity, Relation>,
    l: Map<Entity, Relation>,
    f0: Forest,
    f: Forest,
    parent: Entity,
    child: Entity,
    cs: Seq<Entity>,
)
    requires
        links_ok(l0, f0.children),
        lists_ok(l0, f0.children),
        f0.parents_unique(),
        f0.children.dom() == l0.dom(),
        !l0.contains_key(child),
        l0.contains_key(parent) || parent == child,
        cs == (if l0.contains_key(parent) { f0.children[parent] } else { seq![] }),
        !cs.contains(child),
        forall|p: Entity, k: int| f0.children.contains_key(p) && 0 <= k < f0.children[p].len()
            ==> #[trigger] f0.children[p][k] != child,
        l.dom() == l0.dom().insert(child),
        f.children == f0.children.insert(child, seq![]).insert(parent, cs.push(child)),
        child_link_facts(l0, l, parent, child, cs),
    ensures
        links_ok(l, f.children),
{
    let k0 = f0.children;
    let kk = f.children;
    assert forall|p: Entity, k: int| #![trigger kk[p][k]]
        kk.contains_key(p) && 0 <= k < kk[p].len() implies {
            let cs2 = kk[p];
            let c = cs2[k];
            &&& l.contains_key(c)
            &&& l[c].parent == Some(p)
            &&& l[c].prev_sibling == (if k == 0 { None } else { Some(cs2[k - 1]) })
            &&& l[c].next_sibling == (if k + 1 < cs2.len() { Some(cs2[k + 1]) } else { None })
        } by {
        let cs2 = kk[p];
        let c = cs2[k];
        if p == parent {
            if k < cs.len() {
                assert(c == k0[parent][k]);
                assert(l0.contains_key(c));
                assert(l.contains_key(c));
                if k > 0 {
                    assert(cs2[k - 1] == k0[parent][k - 1]);
                }
                if c == cs.last() {
                    assert(k0[parent].no_duplicates());
                    assert(cs[cs.len() - 1] == c);
                    assert(k == cs.len() - 1);
                } else if k + 1 < cs.len() {
                    assert(cs2[k + 1] == k0[parent][k + 1]);
                } else {
                    assert(k == cs.len() - 1);
                    assert(cs[cs.len() - 1] == cs.last());
                }
            } else {
                assert(c == child);
                assert(l.contains_key(child));
                if cs.len() > 0 {
                    assert(cs2[k - 1] == cs.last());
                }
            }
        } else {
            assert(p != child);
            assert(k0.contains_key(p));
            assert(c == k0[p][k]);
            assert(l0.contains_key(c));
            assert(l.contains_key(c));
            if k > 0 {
                assert(cs2[k - 1] == k0[p][k - 1]);
            }
            if k + 1 < cs2.len() {
                assert(cs2[k + 1] == k0[p][k + 1]);
            }
            if cs.len() > 0 && c == cs.last() {
                assert(cs[cs.len() - 1] == c);
                assert(k0[parent][cs.len() - 1] == k0[p][k]);
            }
        }
    }
}


/// The children that a run of `add_child` calls, given as (parent, child) pairs in call order,
/// gives to `node`.
pub open spec fn children_added(calls: Seq<(Entity, Entity)>, node: Entity) -> Seq<Entity>
    decreases calls.len(),
{
    if calls.len() == 0 {
        seq![]
    } else {
        let last = calls.last();
        children_added(calls.drop_last(), node) + (if last.0 == node { seq![last.1] } else { seq![] })
    }
}

/// After a run of `add_child` calls, the children of a node of the hierarchy are its children
/// before the run followed by the children the calls gave it, in call order. `regs[i + 1]` is
/// the hierarchy after the call `calls[i]` on `regs[i]`, whose child was not in the hierarchy.
pub proof fn lemma_children_history(regs: Seq<Registry>, calls: Seq<(Entity, Entity)>, node: Entity)
    requires
        regs.len() == calls.len() + 1,
        regs[0].in_hierarchy(node),
        forall|i: int| 0 <= i < calls.len() ==> !regs[i].in_hierarchy((#[trigger] calls[i]).1),
        forall|i: int| 0 <= i < calls.len() ==> regs[i + 1].forest() == regs[i].forest().with_child(
            (#[trigger] calls[i]).0,
            calls[i].1,
        ),
    ensures
        regs.last().in_hierarchy(node),
        regs.last().forest().children[node] == regs[0].forest().children[node] + children_added(calls, node),
        regs.last().wf() ==> regs.last().forest().children[node].no_duplicates(),
    decreases calls.len(),
{
    lemma_children_history_steps(regs, calls, node);
    if regs.last().wf() {
        regs.last().lemma_forest_valid();
    }
}

proof fn lemma_children_history_steps(regs: Seq<Registry>, calls: Seq<(Entity, Entity)>, node: Entity)
    requires
        regs.len() == calls.len() + 1,
        regs[0].in_hierarchy(node),
        forall|i: int| 0 <= i < calls.len() ==> !regs[i].in_hierarchy((#[trigger] calls[i]).1),
        forall|i: int| 0 <= i < calls.len() ==> regs[i + 1].forest() == regs[i].forest().with_child(
            (#[trigger] calls[i]).0,
            calls[i].1,
        ),
    ensures
        regs.last().in_hierarchy(node),
        regs.last().forest().children[node] == regs[0].forest().children[node] + children_added(calls, node),
    decreases calls.len(),
{
    let n: int = calls.len() as int;
    if n == 0 {
        assert(regs[0].forest().children[node] + children_added(calls, node) =~= regs[0].forest().children[node]);
    } else {
        let regs0 = regs.drop_last();
        let calls0 = calls.drop_last();
        assert forall|i: int| 0 <= i < calls0.len() implies !regs0[i].in_hierarchy((#[trigger] calls0[i]).1) by {
            assert(calls0[i] == calls[i]);
        }
        assert forall|i: int| 0 <= i < calls0.len() implies regs0[i + 1].forest() == regs0[i].forest().with_child(
            (#[trigger] calls0[i]).0,
            calls0[i].1,
        ) by {
            assert(calls0[i] == calls[i]);
        }
        lemma_children_history_steps(regs0, calls0, node);
        let before = regs[n - 1];
        assert(regs0.last() == before);
        let (p, c) = calls[n - 1];
        assert(!before.in_hierarchy(c));
        assert(regs[n].forest() == before.forest().with_child(p, c));
        assert(c != node);
        let prev = regs[0].forest().children[node] + children_added(calls0, node);
        assert(before.forest().children[node] == prev);
        assert(calls.last() == calls[n - 1]);
        assert(regs.last() == regs[n]);
        if p == node {
            assert(regs[n].forest().children[node] == prev.push(c));
            assert(prev.push(c) =~= regs[0].forest().children[node] + children_added(calls, node));
        } else {
            assert(regs[n].forest().children[node] == prev);
            assert(prev =~= regs[0].forest().children[node] + children_added(calls, node));
        }
    }
}

} // verus!
