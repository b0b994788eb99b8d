//! The global monotonic partition over value identities.
//!
//! [`UnionFind`] is a union-find (disjoint-set) structure over [`Tag`]s,
//! with union by rank and path compression. Its abstract state is a
//! [`UfView`]: the introduced identities in introduction order, the map
//! from each identity to the identity of its class leader, and the rank
//! bookkeeping that pins down which leader a union keeps.

use vstd::prelude::*;

use crate::tag::Tag;
use std::collections::HashMap;

verus! {

broadcast use vstd::std_specs::hash::group_hash_axioms;

/// The abstract state of a [`UnionFind`]: a partition of a finite set of
/// `u64` identities, each class represented by one of its members (its
/// leader).
#[verifier::ext_equal]
pub ghost struct UfView {
    /// The introduced identities, in introduction order, without duplicates.
    pub ids: Seq<u64>,
    /// Maps each introduced identity to the identity of its class leader.
    pub leader: Map<u64, u64>,
    /// Maps each introduced identity to its union-by-rank rank.
    pub rank: Map<u64, nat>,
}

impl UfView {
    /// The state with no identities introduced.
    pub open spec fn empty() -> UfView {
        UfView { ids: Seq::empty(), leader: Map::empty(), rank: Map::empty() }
    }

    /// Whether `id` has been introduced.
    pub open spec fn contains(self, id: u64) -> bool {
        self.leader.contains_key(id)
    }

    /// Whether `a` and `b` are in the same class.
    pub open spec fn same_class(self, a: u64, b: u64) -> bool {
        self.leader[a] == self.leader[b]
    }

    /// The position at which `id` was introduced.
    pub open spec fn idx(self, id: u64) -> int {
        self.ids.index_of(id)
    }

    /// A consistent state: identities are listed once each, every listed
    /// identity has a leader and a rank, and the leader map is idempotent
    /// (a leader is its own leader).
    pub open spec fn wf(self) -> bool {
        &&& self.ids.no_duplicates()
        &&& self.leader.dom() == self.ids.to_set()
        &&& self.rank.dom() == self.leader.dom()
        &&& forall|k: u64|
            self.contains(k) ==> self.contains(#[trigger] self.leader[k])
                && self.leader[self.leader[k]] == self.leader[k]
    }

    /// Registers `id` as its own singleton class; a no-op if `id` is
    /// already present.
    pub open spec fn introduce(self, id: u64) -> UfView {
        if self.contains(id) {
            self
        } else {
            UfView {
                ids: self.ids.push(id),
                leader: self.leader.insert(id, id),
                rank: self.rank.insert(id, 0),
            }
        }
    }

    /// Merges the classes of `a` and `b` (both already introduced) and
    /// returns the new state together with the leader of the merged class.
    ///
    /// The kept leader is the one of larger rank; on equal ranks the one
    /// introduced later wins and its rank grows by one.
    pub open spec fn union(self, a: u64, b: u64) -> (UfView, u64) {
        let la = self.leader[a];
        let lb = self.leader[b];
        if la == lb {
            (self, la)
        } else {
            let w = if self.rank[la] < self.rank[lb] {
                lb
            } else if self.rank[lb] < self.rank[la] {
                la
            } else if self.idx(la) < self.idx(lb) {
                lb
            } else {
                la
            };
            let leader2 = Map::new(
                |k: u64| self.leader.contains_key(k),
                |k: u64| if self.leader[k] == la || self.leader[k] == lb { w } else { self.leader[k] },
            );
            let rank2 = if self.rank[la] == self.rank[lb] {
                self.rank.insert(w, self.rank[w] + 1)
            } else {
                self.rank
            };
            (UfView { ids: self.ids, leader: leader2, rank: rank2 }, w)
        }
    }
}

/// Introducing an identity preserves consistency.
pub proof fn lemma_introduce_wf(v: UfView, id: u64)
    requires
        v.wf(),
    ensures
        v.introduce(id).wf(),
        v.introduce(id).contains(id),
        forall|k: u64| v.contains(k) ==> #[trigger] v.introduce(id).contains(k),
{
    if !v.contains(id) {
        assert(!v.ids.contains(id));
        let ids2 = v.ids.push(id);
        assert forall|k: u64| #[trigger] ids2.contains(k) implies v.ids.contains(k) || k == id by {
            let i = choose|i: int| 0 <= i < ids2.len() && ids2[i] == k;
            if i < v.ids.len() {
                assert(v.ids[i] == k);
            }
        }
        assert forall|k: u64| v.ids.contains(k) implies #[trigger] ids2.contains(k) by {
            let i = choose|i: int| 0 <= i < v.ids.len() && v.ids[i] == k;
            assert(ids2[i] == k);
        }
        assert(ids2.contains(id)) by {
            assert(ids2[v.ids.len() as int] == id);
        }
        assert(ids2.no_duplicates()) by {
            assert forall|i: int, j: int|
                0 <= i < ids2.len() && 0 <= j < ids2.len() && i != j implies ids2[i] != ids2[j] by {
                if i < v.ids.len() && j < v.ids.len() {
                } else if i == v.ids.len() {
                    assert(!v.ids.contains(id));
                    if ids2[j] == id {
                        assert(v.ids[j] == id);
                    }
                } else {
                    assert(!v.ids.contains(id));
                    if ids2[i] == id {
                        assert(v.ids[i] == id);
                    }
                }
            }
        }
        assert(v.introduce(id).leader.dom() =~= v.introduce(id).ids.to_set());
        assert(v.introduce(id).rank.dom() =~= v.introduce(id).leader.dom());
    }
}

/// Idempotent introduction: introducing an identity a second time
/// changes nothing at all, so in particular the number of classes and
/// their membership stay as they were.
pub proof fn lemma_introduce_idempotent(v: UfView, id: u64)
    requires
        v.wf(),
    ensures
        v.introduce(id).introduce(id) == v.introduce(id),
{
}

/// Introducing a fresh identity does not disturb the classes of the
/// identities already present.
pub proof fn lemma_introduce_preserves_same_class(v: UfView, id: u64, c: u64, d: u64)
    requires
        v.wf(),
        v.contains(c),
        v.contains(d),
    ensures
        v.introduce(id).same_class(c, d) == v.same_class(c, d),
{
}

/// What introduction does to the partition, stated over class membership
/// alone: a fresh identity relates only to itself, and nothing else
/// changes.
pub proof fn lemma_introduce_rel(v: UfView, b: u64, x: u64, y: u64)
    requires
        v.wf(),
        v.introduce(b).contains(x),
        v.introduce(b).contains(y),
    ensures
        v.introduce(b).same_class(x, y) == (if !v.contains(b) && (x == b || y == b) {
            x == y
        } else {
            v.same_class(x, y)
        }),
{
    if !v.contains(b) {
        if x != b && y != b {
            assert(v.contains(x) && v.contains(y));
            assert(v.leader[x] != b && v.leader[y] != b);
        }
    }
}

/// What union does to the partition, stated over class membership alone:
/// exactly the pairs that were related, or that each sat in one of the two
/// merged classes, are related afterwards. The choice of surviving leader
/// does not show.
pub proof fn lemma_union_rel(v: UfView, a: u64, b: u64, x: u64, y: u64)
    requires
        v.wf(),
        v.contains(a),
        v.contains(b),
        v.contains(x),
        v.contains(y),
    ensures
        v.union(a, b).0.same_class(x, y) == (v.same_class(x, y) || ((v.same_class(x, a)
            || v.same_class(x, b)) && (v.same_class(y, a) || v.same_class(y, b)))),
{
}

/// Merging two classes yields a consistent state whose identities are
/// unchanged; the returned leader is the leader of both inputs afterwards.
pub proof fn lemma_union_wf(v: UfView, a: u64, b: u64)
    requires
        v.wf(),
        v.contains(a),
        v.contains(b),
    ensures
        v.union(a, b).0.wf(),
        v.union(a, b).0.ids == v.ids,
        v.union(a, b).0.leader.dom() == v.leader.dom(),
        v.contains(v.union(a, b).1),
        v.union(a, b).0.leader[a] == v.union(a, b).1,
        v.union(a, b).0.leader[b] == v.union(a, b).1,
        v.union(a, b).1 == v.leader[a] || v.union(a, b).1 == v.leader[b],
{
    let la = v.leader[a];
    let lb = v.leader[b];
    let u = v.union(a, b).0;
    if la == lb {
    } else {
        assert(u.leader.dom() =~= v.leader.dom());
        assert(u.rank.dom() =~= u.leader.dom());
    }
}

/// Monotonicity, first half: right after a union of `a` and `b`, the two
/// are in the same class.
pub proof fn lemma_union_same_class(v: UfView, a: u64, b: u64)
    requires
        v.wf(),
        v.contains(a),
        v.contains(b),
    ensures
        v.union(a, b).0.same_class(a, b),
{
}

/// Monotonicity, second half: identities in the same class stay in the
/// same class across any later union; the partition only ever coarsens.
pub proof fn lemma_union_preserves_same_class(v: UfView, a: u64, b: u64, c: u64, d: u64)
    requires
        v.wf(),
        v.contains(a),
        v.contains(b),
        v.contains(c),
        v.contains(d),
        v.same_class(c, d),
    ensures
        v.union(a, b).0.same_class(c, d),
{
}

/// A consistent parent forest: `parent` and `rank` have equal length,
/// parent pointers stay in range, ranks strictly increase along parent
/// edges, and the rank of an element never exceeds its index. The last
/// condition holds because a union on equal ranks keeps the root with the
/// larger index; it bounds every rank by the element count, which rules
/// out rank overflow and bounds the length of every parent chain.
spec fn forest_wf(parent: Seq<usize>, rank: Seq<usize>) -> bool {
    &&& parent.len() == rank.len()
    &&& forall|i: int| 0 <= i < parent.len() ==> (#[trigger] parent[i]) < parent.len()
    &&& forall|i: int|
        0 <= i < parent.len() && (#[trigger] parent[i]) != i ==> rank[i] < rank[parent[i] as int]
    &&& forall|i: int| 0 <= i < rank.len() ==> (#[trigger] rank[i]) <= i
}

/// Follows parent pointers from `i` for at most `fuel` steps.
spec fn chase(parent: Seq<usize>, i: int, fuel: nat) -> int
    decreases fuel,
{
    if 0 <= i < parent.len() && parent[i] != i && fuel > 0 {
        chase(parent, parent[i] as int, (fuel - 1) as nat)
    } else {
        i
    }
}

/// The root of the tree containing `i`. In a consistent forest every
/// parent chain ascends in rank, and ranks are below the element count,
/// so `parent.len()` steps always suffice to reach the root.
spec fn root_of(parent: Seq<usize>, i: int) -> int {
    chase(parent, i, parent.len() as nat)
}

/// In a consistent forest, chasing with any sufficient fuel reaches the
/// root, and the answer does not depend on the fuel.
proof fn lemma_chase_props(parent: Seq<usize>, rank: Seq<usize>, i: int, fuel: nat)
    requires
        forest_wf(parent, rank),
        0 <= i < parent.len(),
        fuel + rank[i] >= parent.len(),
    ensures
        ({
            let r = chase(parent, i, fuel);
            &&& 0 <= r < parent.len()
            &&& parent[r] == r
            &&& rank[r] >= rank[i]
            &&& r != i ==> rank[r] > rank[i]
            &&& r == chase(parent, i, parent.len() as nat)
        }),
    decreases parent.len() - rank[i],
{
    if parent[i] != i {
        let p = parent[i] as int;
        assert(rank[i] < rank[p]);
        lemma_chase_props(parent, rank, p, (fuel - 1) as nat);
        lemma_chase_props(parent, rank, p, (parent.len() - 1) as nat);
    }
}

/// Root facts in a consistent forest: the root is a self-parented element
/// of no smaller rank, and `root_of` steps through parent edges.
proof fn lemma_root_of(parent: Seq<usize>, rank: Seq<usize>, i: int)
    requires
        forest_wf(parent, rank),
        0 <= i < parent.len(),
    ensures
        ({
            let r = root_of(parent, i);
            &&& 0 <= r < parent.len()
            &&& parent[r] == r
            &&& rank[r] >= rank[i]
            &&& r != i ==> rank[r] > rank[i]
            &&& parent[i] == i ==> r == i
            &&& parent[i] != i ==> r == root_of(parent, parent[i] as int)
        }),
{
    lemma_chase_props(parent, rank, i, parent.len() as nat);
    if parent[i] != i {
        lemma_chase_props(parent, rank, parent[i] as int, (parent.len() - 1) as nat);
    }
}

/// Path compression: repointing `x` directly at its root changes no
/// element's root.
proof fn lemma_roots_after_compress(parent: Seq<usize>, rank: Seq<usize>, x: int, j: int)
    requires
        forest_wf(parent, rank),
        0 <= x < parent.len(),
        0 <= j < parent.len(),
    ensures
        forest_wf(parent.update(x, root_of(parent, x) as usize), rank),
        root_of(parent.update(x, root_of(parent, x) as usize), j) == root_of(parent, j),
    decreases parent.len() - rank[j],
{
    let r = root_of(parent, x);
    lemma_root_of(parent, rank, x);
    let parent2 = parent.update(x, r as usize);
    assert(forest_wf(parent2, rank)) by {
        assert forall|i: int|
            0 <= i < parent2.len() && (#[trigger] parent2[i]) != i implies rank[i] < rank[parent2[i] as int] by {
            if i != x {
                assert(parent2[i] == parent[i]);
            }
        }
    }
    lemma_root_of(parent2, rank, j);
    lemma_root_of(parent, rank, j);
    if parent[j] == j {
        if j == x {
            assert(r == j);
        }
    } else {
        if j == x {
            if r != x {
                assert(parent2[x] == r as usize);
                lemma_root_of(parent2, rank, r);
            }
        } else {
            assert(parent2[j] == parent[j]);
            lemma_roots_after_compress(parent, rank, x, parent[j] as int);
        }
    }
}

/// Linking one root beneath another renames that one root: every element
/// whose root was the linked root now has the surviving root, and no
/// other element's root changes. `rank2` is whatever rank sequence makes
/// the linked forest consistent.
proof fn lemma_roots_after_link(
    parent: Seq<usize>,
    rank1: Seq<usize>,
    rank2: Seq<usize>,
    xr: int,
    yr: int,
    j: int,
)
    requires
        forest_wf(parent, rank1),
        forest_wf(parent.update(xr, yr as usize), rank2),
        0 <= xr < parent.len(),
        0 <= yr < parent.len(),
        xr != yr,
        parent[xr] == xr,
        parent[yr] == yr,
        0 <= j < parent.len(),
    ensures
        root_of(parent.update(xr, yr as usize), j) == if root_of(parent, j) == xr {
            yr
        } else {
            root_of(parent, j)
        },
    decreases parent.len() - rank2[j],
{
    let parent2 = parent.update(xr, yr as usize);
    lemma_root_of(parent2, rank2, j);
    lemma_root_of(parent, rank1, j);
    if parent[j] == j {
        if j == xr {
            assert(parent2[xr] == yr as usize);
            lemma_root_of(parent2, rank2, xr);
            lemma_root_of(parent2, rank2, yr);
        } else {
            assert(parent2[j] == parent[j]);
        }
    } else {
        let p = parent[j] as int;
        assert(j != xr && j != yr);
        assert(parent2[j] == parent[j]);
        assert(rank2[j] < rank2[p]);
        lemma_roots_after_link(parent, rank1, rank2, xr, yr, p);
        assert(root_of(parent2, j) == root_of(parent2, p));
        assert(root_of(parent, j) == root_of(parent, p));
    }
}

/// Appending a fresh singleton element preserves consistency and the
/// roots of all existing elements; the new element is its own root.
proof fn lemma_roots_after_push(parent: Seq<usize>, rank: Seq<usize>, x: usize, j: int)
    requires
        forest_wf(parent, rank),
        x as int == parent.len(),
        0 <= j <= parent.len(),
    ensures
        forest_wf(parent.push(x), rank.push(0)),
        j < parent.len() ==> root_of(parent.push(x), j) == root_of(parent, j),
        j == parent.len() ==> root_of(parent.push(x), j) == j,
    decreases parent.len() - (if j < parent.len() { rank[j] as int } else { 0 }),
{
    let n = parent.len() as int;
    let parent2 = parent.push(x);
    let rank2 = rank.push(0);
    assert(forest_wf(parent2, rank2)) by {
        assert forall|i: int|
            0 <= i < parent2.len() && (#[trigger] parent2[i]) != i implies rank2[i] < rank2[parent2[i] as int] by {
            if i < n {
                assert(parent2[i] == parent[i]);
                assert(parent[i] < parent.len());
                assert(rank2[i] == rank[i]);
                assert(rank2[parent2[i] as int] == rank[parent[i] as int]);
            } else {
                assert(parent2[i] == i);
            }
        }
        assert forall|i: int| 0 <= i < rank2.len() implies (#[trigger] rank2[i]) <= i by {
            if i < n {
                assert(rank2[i] == rank[i]);
            }
        }
    }
    if j == n {
        assert(parent2[j] == j);
        lemma_root_of(parent2, rank2, j);
    } else {
        lemma_root_of(parent, rank, j);
        lemma_root_of(parent2, rank2, j);
        if parent[j] != j {
            assert(parent2[j] == parent[j]);
            lemma_roots_after_push(parent, rank, x, parent[j] as int);
        } else {
            assert(parent2[j] == parent[j]);
        }
    }
}

/// A union-find over [`Tag`]s with union by rank and path compression,
/// as required for near-constant amortized cost on an index that grows
/// without bound and is queried on every observation.
///
/// Elements are addressed internally by dense indices in introduction
/// order: `index_to_set[i]` is the tag at index `i`, `id_to_index` inverts
/// it, `parent[i]` points towards the root of `i`'s tree (a root is its
/// own parent), and `rank[i]` is the union-by-rank bound used to keep
/// trees shallow.
pub struct UnionFind {
    id_to_index: HashMap<u64, usize>,
    index_to_set: Vec<Tag>,
    parent: Vec<usize>,
    rank: Vec<usize>,
}

impl View for UnionFind {
    type V = UfView;

    closed spec fn view(&self) -> UfView {
        UfView {
            ids: Seq::new(self.index_to_set@.len(), |i: int| self.id_at(i)),
            leader: Map::new(
                |k: u64| self.id_to_index@.contains_key(k),
                |k: u64| self.id_at(root_of(self.parent@, self.id_to_index@[k] as int)),
            ),
            rank: Map::new(
                |k: u64| self.id_to_index@.contains_key(k),
                |k: u64| self.rank@[self.id_to_index@[k] as int] as nat,
            ),
        }
    }
}

impl UnionFind {
    /// The identity stored at index `i`.
    spec fn id_at(&self, i: int) -> u64 {
        self.index_to_set@[i]@
    }

    /// Internal consistency: a consistent parent forest plus a bijection
    /// between the stored tags and their indices.
    pub closed spec fn wf(&self) -> bool {
        &&& self.parent@.len() == self.index_to_set@.len()
        &&& self.rank@.len() == self.index_to_set@.len()
        &&& forest_wf(self.parent@, self.rank@)
        &&& forall|i: int|
            0 <= i < self.index_to_set@.len() ==> self.id_to_index@.contains_key(
                #[trigger] self.id_at(i),
            ) && self.id_to_index@[self.id_at(i)] == i
        &&& forall|k: u64|
            self.id_to_index@.contains_key(k) ==> (#[trigger] self.id_to_index@[k])
                < self.index_to_set@.len() && self.id_at(self.id_to_index@[k] as int) == k
    }

    /// A consistent structure presents a consistent abstract state.
    pub proof fn lemma_view_wf(&self)
        requires
            self.wf(),
        ensures
            self@.wf(),
    {
        let v = self@;
        let n = self.index_to_set@.len() as int;
        assert(v.ids.no_duplicates()) by {
            assert forall|i: int, j: int|
                0 <= i < v.ids.len() && 0 <= j < v.ids.len() && i != j implies v.ids[i]
                != v.ids[j] by {
                assert(self.id_to_index@[self.id_at(i)] == i);
                assert(self.id_to_index@[self.id_at(j)] == j);
            }
        }
        assert(v.leader.dom() =~= v.ids.to_set()) by {
            assert forall|k: u64| v.ids.to_set().contains(k) implies v.leader.dom().contains(
                k,
            ) by {
                let i = choose|i: int| 0 <= i < v.ids.len() && v.ids[i] == k;
                assert(self.id_at(i) == k);
            }
            assert forall|k: u64| v.leader.dom().contains(k) implies v.ids.to_set().contains(
                k,
            ) by {
                let i = self.id_to_index@[k] as int;
                assert(v.ids[i] == k);
            }
        }
        assert(v.rank.dom() =~= v.leader.dom());
        assert forall|k: u64| v.contains(k) implies v.contains(#[trigger] v.leader[k])
            && v.leader[v.leader[k]] == v.leader[k] by {
            let i = self.id_to_index@[k] as int;
            lemma_root_of(self.parent@, self.rank@, i);
            let r = root_of(self.parent@, i);
            assert(v.leader[k] == self.id_at(r));
            assert(self.id_to_index@[self.id_at(r)] == r);
            lemma_root_of(self.parent@, self.rank@, r);
        }
    }

    /// In a consistent structure, the introduction position of the
    /// identity at index `i` is `i` itself.
    proof fn lemma_idx_at(&self, i: int)
        requires
            self.wf(),
            0 <= i < self.index_to_set@.len(),
        ensures
            self@.idx(self.id_at(i)) == i,
    {
        self.lemma_view_wf();
        let v = self@;
        assert(v.ids[i] == self.id_at(i));
        let j = v.idx(self.id_at(i));
        assert(0 <= j < v.ids.len() && v.ids[j] == self.id_at(i));
        if j != i {
            assert(self.id_to_index@[self.id_at(j)] == j);
            assert(self.id_to_index@[self.id_at(i)] == i);
        }
    }

    /// Two structures with the same tags and the same roots have the
    /// same abstract state.
    proof fn lemma_view_same(uf1: UnionFind, uf2: UnionFind)
        requires
            uf1.wf(),
            uf2.id_to_index@ == uf1.id_to_index@,
            uf2.index_to_set@ == uf1.index_to_set@,
            uf2.rank@ == uf1.rank@,
            uf2.parent@.len() == uf1.parent@.len(),
            forall|j: int|
                0 <= j < uf1.parent@.len() ==> root_of(uf2.parent@, j) == root_of(
                    uf1.parent@,
                    j,
                ),
        ensures
            uf2@ == uf1@,
    {
        assert(uf2@.ids =~= uf1@.ids);
        assert(uf2@.leader =~= uf1@.leader) by {
            assert forall|k: u64| uf1.id_to_index@.contains_key(k) implies uf2@.leader[k]
                == uf1@.leader[k] by {
                let i = uf1.id_to_index@[k] as int;
                assert(root_of(uf2.parent@, i) == root_of(uf1.parent@, i));
            }
        }
        assert(uf2@.rank =~= uf1@.rank);
        assert(uf2@ =~= uf1@);
    }

    /// Creates a new, empty index.
    pub fn new() -> (uf: UnionFind)
        ensures
            uf.wf(),
            uf@ == UfView::empty(),
    {
        let uf = UnionFind {
            id_to_index: HashMap::new(),
            index_to_set: Vec::new(),
            parent: Vec::new(),
            rank: Vec::new(),
        };
        proof {
            assert(uf@.ids =~= Seq::<u64>::empty());
            assert(uf@.leader =~= Map::<u64, u64>::empty());
            assert(uf@.rank =~= Map::<u64, nat>::empty());
            assert(uf@ =~= UfView::empty());
        }
        uf
    }

    /// The index at which `tag` is stored, if it was introduced.
    fn get_index(&self, tag: &Tag) -> (r: Option<usize>)
        requires
            self.wf(),
        ensures
            match r {
                Some(i) => self@.contains(tag@) && i == self.id_to_index@[tag@] && i
                    < self.parent@.len(),
                None => !self@.contains(tag@),
            },
    {
        let k = tag.id();
        match self.id_to_index.get(&k) {
            Some(i) => Some(*i),
            None => None,
        }
    }

    /// Whether `tag` was ever introduced.
    pub fn contains_tag(&self, tag: &Tag) -> (r: bool)
        requires
            self.wf(),
        ensures
            r == self@.contains(tag@),
    {
        let k = tag.id();
        self.id_to_index.contains_key(&k)
    }

    /// Registers `tag` as its own singleton class if it is not already
    /// present; idempotent, and returns the tag unchanged either way.
    pub fn introduce_tag(&mut self, id: Tag) -> (r: Tag)
        requires
            old(self).wf(),
        ensures
            final(self).wf(),
            final(self)@ == old(self)@.introduce(id@),
            r == id,
    {
        let k = id.id();
        if self.id_to_index.contains_key(&k) {
            proof {
                assert(old(self)@.contains(id@));
            }
            return id;
        }
        proof {
            assert(!old(self).id_to_index@.contains_key(id@));
        }
        let index = self.parent.len();
        self.id_to_index.insert(k, index);
        self.index_to_set.push(id);
        self.parent.push(index);
        self.rank.push(0);
        proof {
            let v = old(self)@;
            let p1 = old(self).parent@;
            let r1 = old(self).rank@;
            let n = p1.len() as int;
            assert(self.id_to_index@ == old(self).id_to_index@.insert(id@, index));
            assert(self.parent@ =~= p1.push(index));
            assert(self.rank@ =~= r1.push(0));
            assert forall|j: int| 0 <= j <= n implies {
                &&& forest_wf(self.parent@, self.rank@)
                &&& (j < n ==> root_of(self.parent@, j) == root_of(p1, j))
                &&& (j == n ==> root_of(self.parent@, j) == j)
            } by {
                lemma_roots_after_push(p1, r1, index, j);
            }
            assert(self.wf()) by {
                assert forall|i: int|
                    0 <= i < self.index_to_set@.len() implies self.id_to_index@.contains_key(
                    #[trigger] self.id_at(i),
                ) && self.id_to_index@[self.id_at(i)] == i by {
                    if i < n {
                        assert(self.id_at(i) == old(self).id_at(i));
                        assert(old(self).id_to_index@.contains_key(old(self).id_at(i)));
                        assert(old(self).id_to_index@[old(self).id_at(i)] == i);
                        assert(self.id_at(i) != id@);
                    } else {
                        assert(self.id_at(n) == id@);
                    }
                }
                assert forall|k: u64|
                    self.id_to_index@.contains_key(k) implies (#[trigger] self.id_to_index@[k])
                    < self.index_to_set@.len() && self.id_at(self.id_to_index@[k] as int)
                    == k by {
                    if k != id@ {
                        assert(old(self).id_to_index@.contains_key(k));
                        assert(self.id_to_index@[k] == old(self).id_to_index@[k]);
                        assert(self.id_at(old(self).id_to_index@[k] as int) == old(
                            self,
                        ).id_at(old(self).id_to_index@[k] as int));
                    }
                }
            }
            assert(self@.ids =~= v.introduce(id@).ids);
            assert(self@.leader =~= v.introduce(id@).leader) by {
                assert forall|k: u64| self.id_to_index@.contains_key(k) implies self@.leader[k]
                    == v.introduce(id@).leader[k] by {
                    if k == id@ {
                        assert(self.id_to_index@[k] == n);
                        assert(root_of(self.parent@, n) == n);
                        assert(self.id_at(n) == id@);
                    } else {
                        assert(old(self).id_to_index@.contains_key(k));
                        let i = old(self).id_to_index@[k] as int;
                        assert(self.id_to_index@[k] == i);
                        assert(root_of(self.parent@, i) == root_of(p1, i));
                        lemma_root_of(p1, r1, i);
                        assert(self.id_at(root_of(p1, i)) == old(self).id_at(root_of(p1, i)));
                    }
                }
            }
            assert(self@.rank =~= v.introduce(id@).rank);
            assert(self@ =~= v.introduce(id@));
        }
        id
    }

    /// Creates a tag for the identity `id` and introduces it; a no-op if
    /// that identity is already present.
    pub fn make_set(&mut self, id: u64) -> (t: Tag)
        requires
            old(self).wf(),
        ensures
            final(self).wf(),
            final(self)@ == old(self)@.introduce(id),
            t@ == id,
    {
        let tag = Tag::new(id);
        self.introduce_tag(tag)
    }

    /// The index of the root of the tree containing index `x`, with path
    /// compression: every index inspected on the way is repointed at the
    /// root, which changes no class.
    fn find_index(&mut self, x: usize) -> (r: usize)
        requires
            old(self).wf(),
            x < old(self).parent@.len(),
        ensures
            final(self).wf(),
            final(self)@ == old(self)@,
            final(self).id_to_index@ == old(self).id_to_index@,
            final(self).index_to_set@ == old(self).index_to_set@,
            final(self).rank@ == old(self).rank@,
            final(self).parent@.len() == old(self).parent@.len(),
            r < old(self).parent@.len(),
            final(self).parent@[r as int] == r,
            r as int == root_of(old(self).parent@, x as int),
            forall|j: int|
                0 <= j < old(self).parent@.len() ==> root_of(final(self).parent@, j) == root_of(
                    old(self).parent@,
                    j,
                ),
        decreases old(self).parent@.len() - old(self).rank@[x as int],
    {
        let p = self.parent[x];
        if p != x {
            proof {
                lemma_root_of(self.parent@, self.rank@, x as int);
            }
            let r = self.find_index(p);
            let ghost mid = *self;
            self.parent[x] = r;
            proof {
                assert(r as int == root_of(mid.parent@, x as int));
                assert((root_of(mid.parent@, x as int)) as usize == r);
                assert(self.parent@ == mid.parent@.update(
                    x as int,
                    (root_of(mid.parent@, x as int)) as usize,
                ));
                assert(forest_wf(self.parent@, self.rank@)) by {
                    lemma_roots_after_compress(mid.parent@, mid.rank@, x as int, x as int);
                }
                assert forall|j: int| 0 <= j < mid.parent@.len() implies root_of(self.parent@, j)
                    == root_of(mid.parent@, j) by {
                    lemma_roots_after_compress(mid.parent@, mid.rank@, x as int, j);
                }
                assert(self.wf()) by {
                    assert forall|i: int|
                        0 <= i < self.index_to_set@.len() implies self.id_to_index@.contains_key(
                        #[trigger] self.id_at(i),
                    ) && self.id_to_index@[self.id_at(i)] == i by {
                        assert(self.id_at(i) == mid.id_at(i));
                    }
                    assert forall|k: u64|
                        self.id_to_index@.contains_key(k) implies (
                    #[trigger] self.id_to_index@[k]) < self.index_to_set@.len() && self.id_at(
                        self.id_to_index@[k] as int,
                    ) == k by {
                        assert(self.id_at(self.id_to_index@[k] as int) == mid.id_at(
                            mid.id_to_index@[k] as int,
                        ));
                    }
                }
                UnionFind::lemma_view_same(*old(self), *self);
            }
            r
        } else {
            proof {
                lemma_root_of(self.parent@, self.rank@, x as int);
            }
            x
        }
    }

    /// Returns the tag of the leader of the class containing `tag`, or
    /// `None` if `tag` was never introduced. May compress paths; the
    /// partition itself is unchanged.
    pub fn find(&mut self, tag: &Tag) -> (r: Option<Tag>)
        requires
            old(self).wf(),
        ensures
            final(self).wf(),
            final(self)@ == old(self)@,
            match r {
                Some(l) => old(self)@.contains(tag@) && l@ == old(self)@.leader[tag@],
                None => !old(self)@.contains(tag@),
            },
    {
        let index_opt = self.get_index(tag);
        match index_opt {
            None => None,
            Some(index) => {
                let leader_index = self.find_index(index);
                let t = self.index_to_set[leader_index];
                proof {
                    assert(t@ == old(self).id_at(leader_index as int));
                    assert(old(self)@.leader[tag@] == old(self).id_at(
                        root_of(old(self).parent@, old(self).id_to_index@[tag@] as int),
                    ));
                }
                Some(t)
            },
        }
    }

    /// Merges the trees rooted over indices `x` and `y`, by rank, with
    /// the later-introduced root winning a tie; returns the index of the
    /// merged root.
    fn union_indices(&mut self, x: usize, y: usize) -> (r: usize)
        requires
            old(self).wf(),
            x < old(self).parent@.len(),
            y < old(self).parent@.len(),
        ensures
            final(self).wf(),
            final(self).id_to_index@ == old(self).id_to_index@,
            final(self).index_to_set@ == old(self).index_to_set@,
            final(self).parent@.len() == old(self).parent@.len(),
            final(self)@ == old(self)@.union(
                old(self).id_at(x as int),
                old(self).id_at(y as int),
            ).0,
            r < old(self).parent@.len(),
            final(self).id_at(r as int) == old(self)@.union(
                old(self).id_at(x as int),
                old(self).id_at(y as int),
            ).1,
    {
        let ghost v0 = old(self)@;
        let ghost a = old(self).id_at(x as int);
        let ghost b = old(self).id_at(y as int);
        let xr = self.find_index(x);
        let yr = self.find_index(y);
        proof {
            old(self).lemma_view_wf();
            old(self).lemma_idx_at(xr as int);
            old(self).lemma_idx_at(yr as int);
            assert(v0.leader[a] == old(self).id_at(xr as int));
            assert(v0.leader[b] == old(self).id_at(yr as int));
            assert(old(self).id_to_index@[old(self).id_at(xr as int)] == xr);
            assert(old(self).id_to_index@[old(self).id_at(yr as int)] == yr);
            assert(v0.rank[v0.leader[a]] == old(self).rank@[xr as int] as nat);
            assert(v0.rank[v0.leader[b]] == old(self).rank@[yr as int] as nat);
        }
        if xr == yr {
            proof {
                assert(self@ =~= v0.union(a, b).0);
            }
            return xr;
        }
        let ghost la = v0.leader[a];
        let ghost lb = v0.leader[b];
        proof {
            assert(la != lb) by {
                assert(old(self).id_to_index@[la] == xr);
                assert(old(self).id_to_index@[lb] == yr);
            }
        }
        let rx = self.rank[xr];
        let ry = self.rank[yr];
        let (wi, li): (usize, usize) = if rx < ry {
            (yr, xr)
        } else if ry < rx {
            (xr, yr)
        } else if xr < yr {
            (yr, xr)
        } else {
            (xr, yr)
        };
        let ghost mid = *self;
        proof {
            lemma_root_of(mid.parent@, mid.rank@, xr as int);
            lemma_root_of(mid.parent@, mid.rank@, yr as int);
            assert(mid.parent@[xr as int] == xr);
            assert(mid.parent@[yr as int] == yr);
            assert(rx == mid.rank@[xr as int] && ry == mid.rank@[yr as int]);
            assert(li < wi || mid.rank@[li as int] < mid.rank@[wi as int]);
        }
        self.parent[li] = wi;
        if rx == ry {
            proof {
                assert(self.rank@[wi as int] < usize::MAX);
            }
            let nw = self.rank[wi] + 1;
            self.rank[wi] = nw;
        }
        proof {
            let w_id = old(self).id_at(wi as int);
            let p2 = self.parent@;
            let rank2 = self.rank@;
            assert(v0.union(a, b).1 == w_id);
            assert(p2 == mid.parent@.update(li as int, wi));
            assert(forest_wf(p2, rank2)) by {
                assert forall|i: int|
                    0 <= i < p2.len() && (#[trigger] p2[i]) != i implies rank2[i] < rank2[p2[i] as int] by {
                    if i == li as int {
                        assert(p2[i] == wi);
                    } else if i == wi as int {
                        assert(p2[i] == mid.parent@[i]);
                        assert(p2[i] == i);
                    } else {
                        assert(p2[i] == mid.parent@[i]);
                        assert(rank2[i] == mid.rank@[i]);
                        assert(mid.rank@[i] < mid.rank@[mid.parent@[i] as int]);
                        if mid.parent@[i] as int == wi as int && rx == ry {
                            assert(rank2[p2[i] as int] == mid.rank@[wi as int] + 1);
                        } else {
                            assert(rank2[p2[i] as int] == mid.rank@[mid.parent@[i] as int]);
                        }
                    }
                }
                assert forall|i: int| 0 <= i < rank2.len() implies (#[trigger] rank2[i]) <= i by {
                    if i != wi as int {
                        assert(rank2[i] == mid.rank@[i]);
                    } else if rx == ry {
                        assert(rank2[i] == mid.rank@[li as int] + 1);
                        assert(mid.rank@[li as int] <= li as int);
                        assert(li < wi);
                    }
                }
            }
            assert forall|j: int| 0 <= j < p2.len() implies root_of(p2, j) == (if root_of(
                mid.parent@,
                j,
            ) == li as int {
                wi as int
            } else {
                root_of(mid.parent@, j)
            }) by {
                lemma_roots_after_link(mid.parent@, mid.rank@, rank2, li as int, wi as int, j);
            }
            assert(self.wf()) by {
                assert forall|i: int|
                    0 <= i < self.index_to_set@.len() implies self.id_to_index@.contains_key(
                    #[trigger] self.id_at(i),
                ) && self.id_to_index@[self.id_at(i)] == i by {
                    assert(self.id_at(i) == mid.id_at(i));
                }
                assert forall|k: u64|
                    self.id_to_index@.contains_key(k) implies (#[trigger] self.id_to_index@[k])
                    < self.index_to_set@.len() && self.id_at(self.id_to_index@[k] as int)
                    == k by {
                    assert(self.id_at(self.id_to_index@[k] as int) == mid.id_at(
                        mid.id_to_index@[k] as int,
                    ));
                }
            }
            assert(self@.ids =~= v0.union(a, b).0.ids);
            assert(self@.leader =~= v0.union(a, b).0.leader) by {
                assert forall|k: u64| self.id_to_index@.contains_key(k) implies self@.leader[k]
                    == v0.union(a, b).0.leader[k] by {
                    let i = self.id_to_index@[k] as int;
                    let rt = root_of(mid.parent@, i);
                    assert(root_of(old(self).parent@, i) == rt);
                    assert(v0.leader[k] == old(self).id_at(rt));
                    lemma_root_of(mid.parent@, mid.rank@, i);
                    if rt == li as int {
                    } else if rt == wi as int {
                    } else {
                        assert(old(self).id_to_index@[old(self).id_at(rt)] == rt);
                        assert(old(self).id_at(rt) != la && old(self).id_at(rt) != lb);
                    }
                }
            }
            assert(self@.rank =~= v0.union(a, b).0.rank) by {
                assert forall|k: u64| self.id_to_index@.contains_key(k) implies self@.rank[k]
                    == v0.union(a, b).0.rank[k] by {
                    let i = self.id_to_index@[k] as int;
                    if i == wi as int {
                        assert(k == w_id);
                    } else {
                        assert(k != w_id) by {
                            assert(old(self).id_to_index@[w_id] == wi);
                        }
                        assert(rank2[i] == mid.rank@[i]);
                    }
                }
            }
            assert(self@ =~= v0.union(a, b).0);
            assert(self.id_at(wi as int) == w_id);
        }
        wi
    }

    /// Merges the classes containing `t1` and `t2` and returns the tag of
    /// the merged class's leader, or `None`, changing nothing, if either
    /// tag was never introduced.
    pub fn union_tags(&mut self, t1: &Tag, t2: &Tag) -> (r: Option<Tag>)
        requires
            old(self).wf(),
        ensures
            final(self).wf(),
            match r {
                Some(l) => {
                    &&& old(self)@.contains(t1@)
                    &&& old(self)@.contains(t2@)
                    &&& final(self)@ == old(self)@.union(t1@, t2@).0
                    &&& l@ == old(self)@.union(t1@, t2@).1
                },
                None => {
                    &&& !(old(self)@.contains(t1@) && old(self)@.contains(t2@))
                    &&& final(self)@ == old(self)@
                },
            },
    {
        let i1_opt = self.get_index(t1);
        let i1 = match i1_opt {
            Some(i) => i,
            None => {
                return None;
            },
        };
        let i2_opt = self.get_index(t2);
        let i2 = match i2_opt {
            Some(i) => i,
            None => {
                return None;
            },
        };
        let leader_index = self.union_indices(i1, i2);
        let t = self.index_to_set[leader_index];
        proof {
            assert(old(self).id_at(i1 as int) == t1@);
            assert(old(self).id_at(i2 as int) == t2@);
        }
        Some(t)
    }

    /// Creates tags for the identities `id1` and `id2` and merges their
    /// classes, as [`UnionFind::union_tags`] does.
    pub fn union_vals(&mut self, id1: u64, id2: u64) -> (r: Option<Tag>)
        requires
            old(self).wf(),
        ensures
            final(self).wf(),
            match r {
                Some(l) => {
                    &&& old(self)@.contains(id1)
                    &&& old(self)@.contains(id2)
                    &&& final(self)@ == old(self)@.union(id1, id2).0
                    &&& l@ == old(self)@.union(id1, id2).1
                },
                None => {
                    &&& !(old(self)@.contains(id1) && old(self)@.contains(id2))
                    &&& final(self)@ == old(self)@
                },
            },
    {
        let t1 = Tag::new(id1);
        let t2 = Tag::new(id2);
        self.union_tags(&t1, &t2)
    }
}

} // verus!
