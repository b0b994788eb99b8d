//! Per-location accumulation of variable observations.
//!
//! A [`Site`] captures one syntactic program location. It collects
//! `(variable, tag)` observations into a pending log, and on
//! [`Site::update`] folds that log, in observation order, into a local
//! type partition and a committed variable-to-class map, resolving each
//! tag through the global [`UnionFind`] first. [`Sites`] is the
//! checkout/checkin registry holding one site per location identifier.

use vstd::prelude::*;

use crate::errors::UnknownTag;
use crate::tag::Tag;
use crate::union_find::{UfView, UnionFind};

verus! {

/// Whether the association list `s` holds an entry for key `k`.
pub open spec fn has_key(s: Seq<(Seq<char>, u64)>, k: Seq<char>) -> bool {
    exists|i: int| 0 <= i < s.len() && s[i].0 == k
}

/// The position of key `k` in the association list `s`.
pub open spec fn key_idx(s: Seq<(Seq<char>, u64)>, k: Seq<char>) -> int {
    choose|i: int| 0 <= i < s.len() && s[i].0 == k
}

/// The value stored for key `k` in the association list `s`.
pub open spec fn value_of(s: Seq<(Seq<char>, u64)>, k: Seq<char>) -> u64 {
    s[key_idx(s, k)].1
}

/// Whether each key occurs at most once in `s`.
pub open spec fn distinct_keys(s: Seq<(Seq<char>, u64)>) -> bool {
    forall|i: int, j: int| 0 <= i < j < s.len() ==> s[i].0 != s[j].0
}

/// `s` with the entry for `k` set to `v`: updated in place if `k` is
/// present, appended otherwise.
pub open spec fn set_entry(s: Seq<(Seq<char>, u64)>, k: Seq<char>, v: u64) -> Seq<
    (Seq<char>, u64),
> {
    if has_key(s, k) {
        s.update(key_idx(s, k), (k, v))
    } else {
        s.push((k, v))
    }
}

/// With distinct keys, `key_idx` finds exactly the position an entry
/// occupies.
pub proof fn lemma_key_idx(s: Seq<(Seq<char>, u64)>, i: int)
    requires
        distinct_keys(s),
        0 <= i < s.len(),
    ensures
        has_key(s, s[i].0),
        key_idx(s, s[i].0) == i,
{
    assert(has_key(s, s[i].0));
    let j = key_idx(s, s[i].0);
    assert(0 <= j < s.len() && s[j].0 == s[i].0);
}

/// `set_entry` keeps keys distinct, stores exactly the given value under
/// the given key, and leaves every other entry alone.
pub proof fn lemma_set_entry(s: Seq<(Seq<char>, u64)>, k: Seq<char>, v: u64)
    requires
        distinct_keys(s),
    ensures
        distinct_keys(set_entry(s, k, v)),
        has_key(set_entry(s, k, v), k),
        value_of(set_entry(s, k, v), k) == v,
        forall|k2: Seq<char>|
            k2 != k ==> (#[trigger] has_key(set_entry(s, k, v), k2)) == has_key(s, k2),
        forall|k2: Seq<char>|
            k2 != k && has_key(s, k2) ==> #[trigger] value_of(set_entry(s, k, v), k2) == value_of(
                s,
                k2,
            ),
{
    let s2 = set_entry(s, k, v);
    if has_key(s, k) {
        let i = key_idx(s, k);
        assert(0 <= i < s.len() && s[i].0 == k);
        assert(distinct_keys(s2));
        assert(s2[i] == (k, v));
        lemma_key_idx(s2, i);
        assert forall|k2: Seq<char>|
            k2 != k implies (#[trigger] has_key(s2, k2)) == has_key(s, k2) by {
            if has_key(s2, k2) {
                let j = key_idx(s2, k2);
                assert(s[j].0 == k2);
            }
            if has_key(s, k2) {
                let j = key_idx(s, k2);
                assert(j != i);
                assert(s2[j].0 == k2);
            }
        }
        assert forall|k2: Seq<char>|
            k2 != k && has_key(s, k2) implies #[trigger] value_of(s2, k2) == value_of(s, k2) by {
            let j = key_idx(s, k2);
            assert(j != i);
            assert(s2[j].0 == k2);
            lemma_key_idx(s2, j);
        }
    } else {
        assert(s2 == s.push((k, v)));
        assert(distinct_keys(s2)) by {
            assert forall|a: int, b: int|
                0 <= a < b < s2.len() implies s2[a].0 != s2[b].0 by {
                if b < s.len() {
                } else {
                    assert(s2[b].0 == k);
                    assert(s2[a].0 == s[a].0);
                    assert(has_key(s, s[a].0));
                }
            }
        }
        assert(s2[s.len() as int] == (k, v));
        lemma_key_idx(s2, s.len() as int);
        assert forall|k2: Seq<char>|
            k2 != k implies (#[trigger] has_key(s2, k2)) == has_key(s, k2) by {
            if has_key(s2, k2) {
                let j = key_idx(s2, k2);
                assert(j < s.len());
                assert(s[j].0 == k2);
            }
            if has_key(s, k2) {
                let j = key_idx(s, k2);
                assert(s2[j].0 == k2);
            }
        }
        assert forall|k2: Seq<char>|
            k2 != k && has_key(s, k2) implies #[trigger] value_of(s2, k2) == value_of(s, k2) by {
            let j = key_idx(s, k2);
            assert(s2[j].0 == k2);
            lemma_key_idx(s2, j);
        }
    }
}

/// The abstract state of a [`Site`].
#[verifier::ext_equal]
pub ghost struct SiteView {
    /// The location identifier.
    pub name: Seq<char>,
    /// The pending observation log: `(variable, tag identity)` pairs in
    /// observation order, accumulated since the last commit.
    pub pending: Seq<(Seq<char>, u64)>,
    /// The committed map from variable to the identity of its type-class
    /// leader in `local`, in first-commit order, one entry per variable.
    pub committed: Seq<(Seq<char>, u64)>,
    /// The local type partition over leader identities of the global
    /// index.
    pub local: UfView,
}

impl SiteView {
    /// A consistent site: the committed map has one entry per variable,
    /// the local partition is consistent, and every committed class is a
    /// member of the local partition.
    pub open spec fn wf(self) -> bool {
        &&& distinct_keys(self.committed)
        &&& self.local.wf()
        &&& forall|i: int|
            0 <= i < self.committed.len() ==> self.local.contains(#[trigger] self.committed[i].1)
    }

    /// A fresh site for the location `name`: nothing observed, nothing
    /// committed.
    pub open spec fn empty(name: Seq<char>) -> SiteView {
        SiteView {
            name: name,
            pending: Seq::empty(),
            committed: Seq::empty(),
            local: UfView::empty(),
        }
    }
}

/// Whether every tag in the pending log `pending` was introduced into the
/// global index `g`.
pub open spec fn pending_known(pending: Seq<(Seq<char>, u64)>, g: UfView) -> bool {
    forall|i: int| 0 <= i < pending.len() ==> g.contains(#[trigger] pending[i].1)
}

/// One commit step for the observation `(name, ...)` whose tag resolved
/// to the global leader `leader`: introduce `leader` into the local
/// partition; if `name` already has a class, merge that class with
/// `leader` and record the merged leader, else record `leader` itself.
pub open spec fn commit_one(
    local: UfView,
    committed: Seq<(Seq<char>, u64)>,
    name: Seq<char>,
    leader: u64,
) -> (UfView, Seq<(Seq<char>, u64)>) {
    let l1 = local.introduce(leader);
    if has_key(committed, name) {
        let merged = l1.union(value_of(committed, name), leader);
        (merged.0, set_entry(committed, name, merged.1))
    } else {
        (l1, set_entry(committed, name, leader))
    }
}

/// Folds the pending log over the committed state, in observation order,
/// resolving each tag to its leader in the global index `g`.
pub open spec fn commit_pending(
    local: UfView,
    committed: Seq<(Seq<char>, u64)>,
    pending: Seq<(Seq<char>, u64)>,
    g: UfView,
) -> (UfView, Seq<(Seq<char>, u64)>)
    decreases pending.len(),
{
    if pending.len() == 0 {
        (local, committed)
    } else {
        let step = commit_one(local, committed, pending[0].0, g.leader[pending[0].1]);
        commit_pending(step.0, step.1, pending.drop_first(), g)
    }
}

/// Folding one more entry continues the fold: committing `pending + [e]`
/// is committing `pending` and then one step for `e`.
pub proof fn lemma_commit_pending_snoc(
    local: UfView,
    committed: Seq<(Seq<char>, u64)>,
    pending: Seq<(Seq<char>, u64)>,
    e: (Seq<char>, u64),
    g: UfView,
)
    ensures
        commit_pending(local, committed, pending.push(e), g) == ({
            let mid = commit_pending(local, committed, pending, g);
            commit_one(mid.0, mid.1, e.0, g.leader[e.1])
        }),
    decreases pending.len(),
{
    reveal_with_fuel(commit_pending, 2);
    if pending.len() == 0 {
        assert(pending.push(e).drop_first() =~= Seq::<(Seq<char>, u64)>::empty());
        assert(pending.push(e)[0] == e);
    } else {
        assert(pending.push(e)[0] == pending[0]);
        assert(pending.push(e).drop_first() =~= pending.drop_first().push(e));
        let step = commit_one(local, committed, pending[0].0, g.leader[pending[0].1]);
        lemma_commit_pending_snoc(step.0, step.1, pending.drop_first(), e, g);
    }
}

/// The position of `name` among the entries, if present.
fn find_key(entries: &Vec<(String, Tag)>, name: &String) -> (r: Option<usize>)
    ensures
        match r {
            Some(i) => i < entries@.len() && entries@[i as int].0@ == name@,
            None => forall|j: int| 0 <= j < entries@.len() ==> (#[trigger] entries@[j]).0@ != name@,
        },
{
    let n = entries.len();
    let mut i: usize = 0;
    while i < n
        invariant
            n == entries@.len(),
            i <= n,
            forall|j: int| 0 <= j < i ==> (#[trigger] entries@[j]).0@ != name@,
        decreases n - i,
    {
        if entries[i].0 == *name {
            return Some(i);
        }
        i += 1;
    }
    None
}

/// A commit state that [`commit_one`] keeps consistent: the local
/// partition is consistent, committed variables are distinct, and every
/// committed class is a member of the local partition.
pub open spec fn commit_state_wf(l: UfView, c: Seq<(Seq<char>, u64)>) -> bool {
    &&& l.wf()
    &&& distinct_keys(c)
    &&& forall|i: int| 0 <= i < c.len() ==> l.contains(#[trigger] c[i].1)
}

/// What one commit step does to class membership, over the input state
/// alone: the resolved leader `b` joins (fresh identities relate only to
/// themselves), and if the variable had a class already, that class and
/// `b`'s are merged. Which member leads the merged class does not show.
pub open spec fn rel_after_introduce(v: UfView, b: u64, x: u64, y: u64) -> bool {
    if !v.contains(b) && (x == b || y == b) {
        x == y
    } else {
        v.same_class(x, y)
    }
}

/// Class membership after [`commit_one`], over the input state alone.
pub open spec fn rel_after_commit_one(
    l: UfView,
    c: Seq<(Seq<char>, u64)>,
    n: Seq<char>,
    b: u64,
    x: u64,
    y: u64,
) -> bool {
    if has_key(c, n) {
        let a = value_of(c, n);
        rel_after_introduce(l, b, x, y) || ((rel_after_introduce(l, b, x, a)
            || rel_after_introduce(l, b, x, b)) && (rel_after_introduce(l, b, y, a)
            || rel_after_introduce(l, b, y, b)))
    } else {
        rel_after_introduce(l, b, x, y)
    }
}

/// One commit step keeps the state consistent; its partition is exactly
/// [`rel_after_commit_one`]; the identities present afterwards are those
/// of the input plus `b`; the committed variables gain `n` and keep their
/// other values; and the value stored for `n` is a member of the merged
/// class of `b` (and, if present before, of `n`'s old class).
pub proof fn lemma_commit_one_props(l: UfView, c: Seq<(Seq<char>, u64)>, n: Seq<char>, b: u64)
    requires
        commit_state_wf(l, c),
    ensures
        ({
            let step = commit_one(l, c, n, b);
            &&& commit_state_wf(step.0, step.1)
            &&& step.0.leader.dom() == l.introduce(b).leader.dom()
            &&& step.0.contains(b)
            &&& forall|x: u64| l.contains(x) ==> #[trigger] step.0.contains(x)
            &&& forall|x: u64, y: u64|
                step.0.contains(x) && step.0.contains(y) ==> (#[trigger] step.0.same_class(x, y))
                    == rel_after_commit_one(l, c, n, b, x, y)
            &&& has_key(step.1, n)
            &&& step.0.same_class(value_of(step.1, n), b)
            &&& (has_key(c, n) ==> step.0.same_class(value_of(step.1, n), value_of(c, n)))
            &&& forall|k: Seq<char>| k != n ==> (#[trigger] has_key(step.1, k)) == has_key(c, k)
            &&& forall|k: Seq<char>|
                k != n && has_key(c, k) ==> #[trigger] value_of(step.1, k) == value_of(c, k)
        }),
{
    let l1 = l.introduce(b);
    crate::union_find::lemma_introduce_wf(l, b);
    if has_key(c, n) {
        let a = value_of(c, n);
        let i = key_idx(c, n);
        assert(l.contains(c[i].1));
        crate::union_find::lemma_union_wf(l1, a, b);
        let u = l1.union(a, b);
        let w = u.1;
        lemma_set_entry(c, n, w);
        assert forall|x: u64, y: u64|
            u.0.contains(x) && u.0.contains(y) implies (#[trigger] u.0.same_class(x, y))
            == rel_after_commit_one(l, c, n, b, x, y) by {
            crate::union_find::lemma_union_rel(l1, a, b, x, y);
            crate::union_find::lemma_introduce_rel(l, b, x, y);
            crate::union_find::lemma_introduce_rel(l, b, x, a);
            crate::union_find::lemma_introduce_rel(l, b, x, b);
            crate::union_find::lemma_introduce_rel(l, b, y, a);
            crate::union_find::lemma_introduce_rel(l, b, y, b);
        }
        assert(u.0.same_class(w, b) && u.0.same_class(w, a)) by {
            assert(u.0.leader[a] == w && u.0.leader[b] == w);
            assert(u.0.leader[w] == w);
        }
        assert(commit_state_wf(u.0, set_entry(c, n, w))) by {
            assert forall|j: int|
                0 <= j < set_entry(c, n, w).len() implies u.0.contains(
                #[trigger] set_entry(c, n, w)[j].1,
            ) by {
                if j == i {
                    assert(set_entry(c, n, w)[j] == (n, w));
                } else {
                    assert(set_entry(c, n, w)[j] == c[j]);
                    assert(l.contains(c[j].1));
                }
            }
        }
    } else {
        lemma_set_entry(c, n, b);
        assert forall|x: u64, y: u64|
            l1.contains(x) && l1.contains(y) implies (#[trigger] l1.same_class(x, y))
            == rel_after_commit_one(l, c, n, b, x, y) by {
            crate::union_find::lemma_introduce_rel(l, b, x, y);
        }
        assert(l1.same_class(b, b));
        assert(commit_state_wf(l1, set_entry(c, n, b))) by {
            assert forall|j: int|
                0 <= j < set_entry(c, n, b).len() implies l1.contains(
                #[trigger] set_entry(c, n, b)[j].1,
            ) by {
                if j < c.len() {
                    assert(set_entry(c, n, b)[j] == c[j]);
                    assert(l.contains(c[j].1));
                } else {
                    assert(set_entry(c, n, b)[j] == (n, b));
                }
            }
        }
    }
}

/// Two commit outcomes that carry the same information. Class leaders are
/// implementation detail — only class membership is meaningful — so two
/// outcomes agree when they hold the same identities partitioned the same
/// way, commit the same variables, and store for each variable members of
/// one common class, though possibly different ones.
pub open spec fn class_equiv(
    l1: UfView,
    c1: Seq<(Seq<char>, u64)>,
    l2: UfView,
    c2: Seq<(Seq<char>, u64)>,
) -> bool {
    &&& commit_state_wf(l1, c1)
    &&& commit_state_wf(l2, c2)
    &&& l1.leader.dom() == l2.leader.dom()
    &&& forall|x: u64, y: u64|
        #![trigger l1.same_class(x, y)]
        #![trigger l2.same_class(x, y)]
        l1.contains(x) && l1.contains(y) ==> l1.same_class(x, y) == l2.same_class(x, y)
    &&& forall|k: Seq<char>| (#[trigger] has_key(c1, k)) == has_key(c2, k)
    &&& forall|k: Seq<char>|
        #[trigger] has_key(c1, k) ==> l1.contains(value_of(c1, k)) && l1.contains(value_of(c2, k))
            && l1.same_class(value_of(c1, k), value_of(c2, k))
}

/// Committing the same observation on two class-equivalent states yields
/// class-equivalent states: the agreement survives every further commit
/// step.
pub proof fn lemma_commit_one_congruent(
    l1: UfView,
    c1: Seq<(Seq<char>, u64)>,
    l2: UfView,
    c2: Seq<(Seq<char>, u64)>,
    n: Seq<char>,
    b: u64,
)
    requires
        class_equiv(l1, c1, l2, c2),
    ensures
        ({
            let s1 = commit_one(l1, c1, n, b);
            let s2 = commit_one(l2, c2, n, b);
            class_equiv(s1.0, s1.1, s2.0, s2.1)
        }),
{
    lemma_commit_one_props(l1, c1, n, b);
    lemma_commit_one_props(l2, c2, n, b);
    let s1 = commit_one(l1, c1, n, b);
    let s2 = commit_one(l2, c2, n, b);
    assert(s1.0.leader.dom() =~= s2.0.leader.dom());
    assert forall|x: u64, y: u64|
        #![trigger s1.0.same_class(x, y)]
        #![trigger s2.0.same_class(x, y)]
        s1.0.contains(x) && s1.0.contains(y) implies s1.0.same_class(x, y) == s2.0.same_class(
        x,
        y,
    ) by {
        assert(s2.0.contains(x) && s2.0.contains(y));
        if l1.contains(x) && l1.contains(y) {
            assert(l1.same_class(x, y) == l2.same_class(x, y));
        }
        if has_key(c1, n) {
            let a1 = value_of(c1, n);
            let a2 = value_of(c2, n);
            assert(l1.contains(a1) && l1.contains(a2) && l1.same_class(a1, a2));
            assert(l2.same_class(a1, a2));
            if l1.contains(x) {
                assert(l1.same_class(x, a1) == l2.same_class(x, a1));
                assert(l1.same_class(x, a2) == l2.same_class(x, a2));
            }
            if l1.contains(y) {
                assert(l1.same_class(y, a1) == l2.same_class(y, a1));
                assert(l1.same_class(y, a2) == l2.same_class(y, a2));
            }
        }
        if l1.contains(b) {
            if l1.contains(x) {
                assert(l1.same_class(x, b) == l2.same_class(x, b));
            }
            if l1.contains(y) {
                assert(l1.same_class(y, b) == l2.same_class(y, b));
            }
        }
    }
    assert forall|k: Seq<char>| (#[trigger] has_key(s1.1, k)) == has_key(s2.1, k) by {
        if k != n {
            assert(has_key(s1.1, k) == has_key(c1, k));
            assert(has_key(s2.1, k) == has_key(c2, k));
        }
    }
    assert forall|k: Seq<char>| #[trigger] has_key(s1.1, k) implies s1.0.contains(
        value_of(s1.1, k),
    ) && s1.0.contains(value_of(s2.1, k)) && s1.0.same_class(
        value_of(s1.1, k),
        value_of(s2.1, k),
    ) by {
        if k == n {
            let w1 = value_of(s1.1, n);
            let w2 = value_of(s2.1, n);
            assert(s1.0.same_class(w1, b));
            assert(s2.0.same_class(w2, b));
            assert(s1.0.same_class(w2, b));
        } else {
            let v1 = value_of(c1, k);
            let v2 = value_of(c2, k);
            assert(has_key(c1, k));
            assert(value_of(s1.1, k) == v1 && value_of(s2.1, k) == v2);
            assert(l1.same_class(v1, v2));
            assert(s1.0.same_class(v1, v2) == rel_after_commit_one(l1, c1, n, b, v1, v2));
        }
    }
}

/// Exchanging two consecutive commit steps yields class-equivalent
/// outcomes: the same identities, partitioned the same way, with the same
/// variables committed to members of the same classes. Union is
/// associative and commutative on class membership, so only leader choice
/// can differ.
/// The partition part of [`lemma_commit_one_swap`] when the two steps
/// touch different variables that both have committed classes already.
#[verifier::rlimit(100)]
proof fn lemma_swap_rel_two_keys(
    l: UfView,
    c: Seq<(Seq<char>, u64)>,
    n1: Seq<char>,
    b1: u64,
    n2: Seq<char>,
    b2: u64,
    x: u64,
    y: u64,
)
    requires
        commit_state_wf(l, c),
        n1 != n2,
        has_key(c, n1),
        has_key(c, n2),
        commit_one(commit_one(l, c, n1, b1).0, commit_one(l, c, n1, b1).1, n2, b2).0.contains(x),
        commit_one(commit_one(l, c, n1, b1).0, commit_one(l, c, n1, b1).1, n2, b2).0.contains(y),
        commit_one(commit_one(l, c, n2, b2).0, commit_one(l, c, n2, b2).1, n1, b1).0.contains(x),
        commit_one(commit_one(l, c, n2, b2).0, commit_one(l, c, n2, b2).1, n1, b1).0.contains(y),
    ensures
        commit_one(commit_one(l, c, n1, b1).0, commit_one(l, c, n1, b1).1, n2, b2).0.same_class(
            x,
            y,
        ) == commit_one(commit_one(l, c, n2, b2).0, commit_one(l, c, n2, b2).1, n1, b1).0.same_class(
            x,
            y,
        ),
{
    let sa = commit_one(l, c, n1, b1);
    let sb = commit_one(l, c, n2, b2);
    let sa2 = commit_one(sa.0, sa.1, n2, b2);
    let sb2 = commit_one(sb.0, sb.1, n1, b1);
    if sa2.0.same_class(x, y) {
        lemma_swap_rel_two_keys_forward(l, c, n1, b1, n2, b2, x, y);
    }
    if sb2.0.same_class(x, y) {
        lemma_swap_rel_two_keys_forward(l, c, n2, b2, n1, b1, x, y);
    }
}

/// One direction of [`lemma_swap_rel_two_keys`]; the other follows by
/// exchanging the two steps' roles.
#[verifier::rlimit(100)]
proof fn lemma_swap_rel_two_keys_forward(
    l: UfView,
    c: Seq<(Seq<char>, u64)>,
    n1: Seq<char>,
    b1: u64,
    n2: Seq<char>,
    b2: u64,
    x: u64,
    y: u64,
)
    requires
        commit_state_wf(l, c),
        n1 != n2,
        has_key(c, n1),
        has_key(c, n2),
        commit_one(commit_one(l, c, n1, b1).0, commit_one(l, c, n1, b1).1, n2, b2).0.contains(x),
        commit_one(commit_one(l, c, n1, b1).0, commit_one(l, c, n1, b1).1, n2, b2).0.contains(y),
        commit_one(commit_one(l, c, n2, b2).0, commit_one(l, c, n2, b2).1, n1, b1).0.contains(x),
        commit_one(commit_one(l, c, n2, b2).0, commit_one(l, c, n2, b2).1, n1, b1).0.contains(y),
        commit_one(commit_one(l, c, n1, b1).0, commit_one(l, c, n1, b1).1, n2, b2).0.same_class(
            x,
            y,
        ),
    ensures
        commit_one(commit_one(l, c, n2, b2).0, commit_one(l, c, n2, b2).1, n1, b1).0.same_class(
            x,
            y,
        ),
{
    lemma_commit_one_props(l, c, n1, b1);
    lemma_commit_one_props(l, c, n2, b2);
    let sa = commit_one(l, c, n1, b1);
    let sb = commit_one(l, c, n2, b2);
    lemma_commit_one_props(sa.0, sa.1, n2, b2);
    lemma_commit_one_props(sb.0, sb.1, n1, b1);
    let sa2 = commit_one(sa.0, sa.1, n2, b2);
    let sb2 = commit_one(sb.0, sb.1, n1, b1);
    let a1 = value_of(c, n1);
    let a2 = value_of(c, n2);
    let w1a = value_of(sa.1, n1);
    let w2b = value_of(sb.1, n2);
    assert(value_of(sa.1, n2) == a2 && value_of(sb.1, n1) == a1);
    assert(l.contains(c[key_idx(c, n1)].1) && l.contains(c[key_idx(c, n2)].1));
    assert(sa.0.same_class(w1a, b1) && sa.0.same_class(w1a, a1));
    assert(sb.0.same_class(w2b, b2) && sb.0.same_class(w2b, a2));
    assert(sa2.0.same_class(x, y) == rel_after_commit_one(sa.0, sa.1, n2, b2, x, y));
    assert(sb2.0.same_class(x, y) == rel_after_commit_one(sb.0, sb.1, n1, b1, x, y));
    assert(sb2.0.same_class(x, y));
}

/// The partition part of [`lemma_commit_one_swap`], one pair at a time.
#[verifier::rlimit(100)]
proof fn lemma_commit_one_swap_rel(
    l: UfView,
    c: Seq<(Seq<char>, u64)>,
    n1: Seq<char>,
    b1: u64,
    n2: Seq<char>,
    b2: u64,
    x: u64,
    y: u64,
)
    requires
        commit_state_wf(l, c),
        commit_one(commit_one(l, c, n1, b1).0, commit_one(l, c, n1, b1).1, n2, b2).0.contains(x),
        commit_one(commit_one(l, c, n1, b1).0, commit_one(l, c, n1, b1).1, n2, b2).0.contains(y),
        commit_one(commit_one(l, c, n2, b2).0, commit_one(l, c, n2, b2).1, n1, b1).0.contains(x),
        commit_one(commit_one(l, c, n2, b2).0, commit_one(l, c, n2, b2).1, n1, b1).0.contains(y),
    ensures
        commit_one(commit_one(l, c, n1, b1).0, commit_one(l, c, n1, b1).1, n2, b2).0.same_class(
            x,
            y,
        ) == commit_one(commit_one(l, c, n2, b2).0, commit_one(l, c, n2, b2).1, n1, b1).0.same_class(
            x,
            y,
        ),
{
    if n1 == n2 {
        lemma_swap_rel_same_name(l, c, n1, b1, b2, x, y);
    } else if has_key(c, n1) && has_key(c, n2) {
        lemma_swap_rel_two_keys(l, c, n1, b1, n2, b2, x, y);
    } else if has_key(c, n1) {
        lemma_swap_rel_one_key(l, c, n1, b1, n2, b2, x, y);
    } else if has_key(c, n2) {
        lemma_swap_rel_one_key(l, c, n2, b2, n1, b1, x, y);
    } else {
        lemma_swap_rel_no_keys(l, c, n1, b1, n2, b2, x, y);
    }
}

/// The partition part of [`lemma_commit_one_swap`] when both steps
/// observe the same variable.
#[verifier::rlimit(100)]
proof fn lemma_swap_rel_same_name(
    l: UfView,
    c: Seq<(Seq<char>, u64)>,
    n: Seq<char>,
    b1: u64,
    b2: u64,
    x: u64,
    y: u64,
)
    requires
        commit_state_wf(l, c),
        commit_one(commit_one(l, c, n, b1).0, commit_one(l, c, n, b1).1, n, b2).0.contains(x),
        commit_one(commit_one(l, c, n, b1).0, commit_one(l, c, n, b1).1, n, b2).0.contains(y),
        commit_one(commit_one(l, c, n, b2).0, commit_one(l, c, n, b2).1, n, b1).0.contains(x),
        commit_one(commit_one(l, c, n, b2).0, commit_one(l, c, n, b2).1, n, b1).0.contains(y),
    ensures
        commit_one(commit_one(l, c, n, b1).0, commit_one(l, c, n, b1).1, n, b2).0.same_class(x, y)
            == commit_one(commit_one(l, c, n, b2).0, commit_one(l, c, n, b2).1, n, b1).0.same_class(
            x,
            y,
        ),
{
    lemma_commit_one_props(l, c, n, b1);
    lemma_commit_one_props(l, c, n, b2);
    let sa = commit_one(l, c, n, b1);
    let sb = commit_one(l, c, n, b2);
    lemma_commit_one_props(sa.0, sa.1, n, b2);
    lemma_commit_one_props(sb.0, sb.1, n, b1);
    let sa2 = commit_one(sa.0, sa.1, n, b2);
    let sb2 = commit_one(sb.0, sb.1, n, b1);
    let w1a = value_of(sa.1, n);
    let w2b = value_of(sb.1, n);
    assert(sa.0.same_class(w1a, b1));
    assert(sb.0.same_class(w2b, b2));
    if has_key(c, n) {
        let a = value_of(c, n);
        assert(l.contains(c[key_idx(c, n)].1));
        assert(sa.0.same_class(w1a, a));
        assert(sb.0.same_class(w2b, a));
    }
    assert(sa2.0.same_class(x, y) == rel_after_commit_one(sa.0, sa.1, n, b2, x, y));
    assert(sb2.0.same_class(x, y) == rel_after_commit_one(sb.0, sb.1, n, b1, x, y));
    assert(sa2.0.same_class(x, y) == sb2.0.same_class(x, y));
}

/// The partition part of [`lemma_commit_one_swap`] when the two steps
/// touch different variables and only the first one has a committed
/// class.
#[verifier::rlimit(100)]
proof fn lemma_swap_rel_one_key(
    l: UfView,
    c: Seq<(Seq<char>, u64)>,
    n1: Seq<char>,
    b1: u64,
    n2: Seq<char>,
    b2: u64,
    x: u64,
    y: u64,
)
    requires
        commit_state_wf(l, c),
        n1 != n2,
        has_key(c, n1),
        !has_key(c, n2),
        commit_one(commit_one(l, c, n1, b1).0, commit_one(l, c, n1, b1).1, n2, b2).0.contains(x),
        commit_one(commit_one(l, c, n1, b1).0, commit_one(l, c, n1, b1).1, n2, b2).0.contains(y),
        commit_one(commit_one(l, c, n2, b2).0, commit_one(l, c, n2, b2).1, n1, b1).0.contains(x),
        commit_one(commit_one(l, c, n2, b2).0, commit_one(l, c, n2, b2).1, n1, b1).0.contains(y),
    ensures
        commit_one(commit_one(l, c, n1, b1).0, commit_one(l, c, n1, b1).1, n2, b2).0.same_class(
            x,
            y,
        ) == commit_one(commit_one(l, c, n2, b2).0, commit_one(l, c, n2, b2).1, n1, b1).0.same_class(
            x,
            y,
        ),
{
    lemma_commit_one_props(l, c, n1, b1);
    lemma_commit_one_props(l, c, n2, b2);
    let sa = commit_one(l, c, n1, b1);
    let sb = commit_one(l, c, n2, b2);
    lemma_commit_one_props(sa.0, sa.1, n2, b2);
    lemma_commit_one_props(sb.0, sb.1, n1, b1);
    let sa2 = commit_one(sa.0, sa.1, n2, b2);
    let sb2 = commit_one(sb.0, sb.1, n1, b1);
    let a1 = value_of(c, n1);
    let w1a = value_of(sa.1, n1);
    assert(!has_key(sa.1, n2) && value_of(sb.1, n1) == a1);
    assert(l.contains(c[key_idx(c, n1)].1));
    assert(sa.0.same_class(w1a, b1) && sa.0.same_class(w1a, a1));
    assert(sa2.0.same_class(x, y) == rel_after_commit_one(sa.0, sa.1, n2, b2, x, y));
    assert(sb2.0.same_class(x, y) == rel_after_commit_one(sb.0, sb.1, n1, b1, x, y));
    assert(sa2.0.same_class(x, y) == sb2.0.same_class(x, y));
}

/// The partition part of [`lemma_commit_one_swap`] when the two steps
/// touch different variables, neither with a committed class.
#[verifier::rlimit(100)]
proof fn lemma_swap_rel_no_keys(
    l: UfView,
    c: Seq<(Seq<char>, u64)>,
    n1: Seq<char>,
    b1: u64,
    n2: Seq<char>,
    b2: u64,
    x: u64,
    y: u64,
)
    requires
        commit_state_wf(l, c),
        n1 != n2,
        !has_key(c, n1),
        !has_key(c, n2),
        commit_one(commit_one(l, c, n1, b1).0, commit_one(l, c, n1, b1).1, n2, b2).0.contains(x),
        commit_one(commit_one(l, c, n1, b1).0, commit_one(l, c, n1, b1).1, n2, b2).0.contains(y),
        commit_one(commit_one(l, c, n2, b2).0, commit_one(l, c, n2, b2).1, n1, b1).0.contains(x),
        commit_one(commit_one(l, c, n2, b2).0, commit_one(l, c, n2, b2).1, n1, b1).0.contains(y),
    ensures
        commit_one(commit_one(l, c, n1, b1).0, commit_one(l, c, n1, b1).1, n2, b2).0.same_class(
            x,
            y,
        ) == commit_one(commit_one(l, c, n2, b2).0, commit_one(l, c, n2, b2).1, n1, b1).0.same_class(
            x,
            y,
        ),
{
    lemma_commit_one_props(l, c, n1, b1);
    lemma_commit_one_props(l, c, n2, b2);
    let sa = commit_one(l, c, n1, b1);
    let sb = commit_one(l, c, n2, b2);
    lemma_commit_one_props(sa.0, sa.1, n2, b2);
    lemma_commit_one_props(sb.0, sb.1, n1, b1);
    let sa2 = commit_one(sa.0, sa.1, n2, b2);
    let sb2 = commit_one(sb.0, sb.1, n1, b1);
    assert(!has_key(sa.1, n2) && !has_key(sb.1, n1));
    assert(sa2.0.same_class(x, y) == rel_after_commit_one(sa.0, sa.1, n2, b2, x, y));
    assert(sb2.0.same_class(x, y) == rel_after_commit_one(sb.0, sb.1, n1, b1, x, y));
    assert(sa2.0.same_class(x, y) == sb2.0.same_class(x, y));
}

#[verifier::rlimit(100)]
pub proof fn lemma_commit_one_swap(
    l: UfView,
    c: Seq<(Seq<char>, u64)>,
    n1: Seq<char>,
    b1: u64,
    n2: Seq<char>,
    b2: u64,
)
    requires
        commit_state_wf(l, c),
    ensures
        ({
            let sa = commit_one(l, c, n1, b1);
            let sa2 = commit_one(sa.0, sa.1, n2, b2);
            let sb = commit_one(l, c, n2, b2);
            let sb2 = commit_one(sb.0, sb.1, n1, b1);
            class_equiv(sa2.0, sa2.1, sb2.0, sb2.1)
        }),
{
    lemma_commit_one_props(l, c, n1, b1);
    lemma_commit_one_props(l, c, n2, b2);
    let sa = commit_one(l, c, n1, b1);
    let sb = commit_one(l, c, n2, b2);
    lemma_commit_one_props(sa.0, sa.1, n2, b2);
    lemma_commit_one_props(sb.0, sb.1, n1, b1);
    let sa2 = commit_one(sa.0, sa.1, n2, b2);
    let sb2 = commit_one(sb.0, sb.1, n1, b1);
    assert(sa2.0.leader.dom() =~= sb2.0.leader.dom());
    // names for the classes the two steps may merge
    let a1 = value_of(c, n1);
    let a2 = value_of(c, n2);
    let w1a = value_of(sa.1, n1);
    let w2b = value_of(sb.1, n2);
    assert(sa.0.same_class(w1a, b1));
    assert(sb.0.same_class(w2b, b2));
    assert forall|x: u64, y: u64|
        #![trigger sa2.0.same_class(x, y)]
        #![trigger sb2.0.same_class(x, y)]
        sa2.0.contains(x) && sa2.0.contains(y) implies sa2.0.same_class(x, y)
        == sb2.0.same_class(x, y) by {
        assert(sb2.0.contains(x) && sb2.0.contains(y));
        lemma_commit_one_swap_rel(l, c, n1, b1, n2, b2, x, y);
    }
    assert forall|k: Seq<char>| (#[trigger] has_key(sa2.1, k)) == has_key(sb2.1, k) by {
        if k != n1 && k != n2 {
            assert(has_key(sa2.1, k) == has_key(sa.1, k));
            assert(has_key(sa.1, k) == has_key(c, k));
            assert(has_key(sb2.1, k) == has_key(sb.1, k));
            assert(has_key(sb.1, k) == has_key(c, k));
        } else if k == n2 {
            assert(has_key(sa2.1, n2));
            if n1 == n2 {
                assert(has_key(sb2.1, k));
            } else {
                assert(has_key(sb2.1, k) == has_key(sb.1, k));
            }
        } else {
            assert(has_key(sb2.1, k));
            assert(has_key(sa2.1, k) == has_key(sa.1, k));
        }
    }
    assert forall|k: Seq<char>| #[trigger] has_key(sa2.1, k) implies sa2.0.contains(
        value_of(sa2.1, k),
    ) && sa2.0.contains(value_of(sb2.1, k)) && sa2.0.same_class(
        value_of(sa2.1, k),
        value_of(sb2.1, k),
    ) by {
        let va = value_of(sa2.1, k);
        let vb = value_of(sb2.1, k);
        assert(has_key(sb2.1, k));
        // both runs end with b1 and b2 in one class with whatever they
        // merged; anchor each stored value at its minting step's leader
        if k == n2 && n1 == n2 {
            // the variable was committed twice; its final value sits with
            // b2 in run A and with b1 in run B, and the two steps chained
            // b1 and b2 into one class in both runs
            assert(sa2.0.same_class(va, b2));
            assert(sa2.0.same_class(va, w1a));
            assert(sa.0.same_class(w1a, b1));
            assert(sa2.0.same_class(w1a, b1) == rel_after_commit_one(sa.0, sa.1, n2, b2, w1a, b1));
            assert(sb2.0.same_class(vb, b1));
            assert(sb2.0.same_class(vb, w2b));
            assert(sb2.0.same_class(w2b, b2) == rel_after_commit_one(sb.0, sb.1, n1, b1, w2b, b2));
            assert(sb2.0.same_class(vb, b2));
            assert(sa2.0.same_class(vb, b2));
        } else if k == n2 {
            // committed only by the `n2` step: in run A that step ran
            // second, in run B first, where its value then survived step 2
            assert(sa2.0.same_class(va, b2));
            assert(value_of(sb2.1, n2) == value_of(sb.1, n2));
            assert(sb.0.same_class(w2b, b2));
            assert(sb2.0.same_class(w2b, b2) == rel_after_commit_one(sb.0, sb.1, n1, b1, w2b, b2));
            assert(sb2.0.same_class(vb, b2));
            assert(sa2.0.same_class(vb, b2));
        } else if k == n1 {
            // symmetric: anchor at b1
            assert(value_of(sa2.1, n1) == value_of(sa.1, n1));
            assert(sa.0.same_class(w1a, b1));
            assert(sa2.0.same_class(w1a, b1) == rel_after_commit_one(sa.0, sa.1, n2, b2, w1a, b1));
            assert(sa2.0.same_class(va, b1));
            assert(sb2.0.same_class(vb, b1));
            assert(sa2.0.same_class(vb, b1));
        } else {
            // untouched by both steps: the same value on both sides
            assert(has_key(c, k));
            assert(value_of(sa2.1, k) == value_of(sa.1, k));
            assert(value_of(sa.1, k) == value_of(c, k));
            assert(value_of(sb2.1, k) == value_of(sb.1, k));
            assert(value_of(sb.1, k) == value_of(c, k));
            let i = key_idx(c, k);
            assert(l.contains(c[i].1));
            assert(sa.0.same_class(va, vb) == rel_after_commit_one(l, c, n1, b1, va, vb));
            assert(sa2.0.same_class(va, vb) == rel_after_commit_one(sa.0, sa.1, n2, b2, va, vb));
        }
    }
}

/// Folding a pending log keeps the commit state consistent.
pub proof fn lemma_commit_pending_wf(
    l: UfView,
    c: Seq<(Seq<char>, u64)>,
    pending: Seq<(Seq<char>, u64)>,
    g: UfView,
)
    requires
        commit_state_wf(l, c),
    ensures
        commit_state_wf(
            commit_pending(l, c, pending, g).0,
            commit_pending(l, c, pending, g).1,
        ),
    decreases pending.len(),
{
    if pending.len() > 0 {
        lemma_commit_one_props(l, c, pending[0].0, g.leader[pending[0].1]);
        let step = commit_one(l, c, pending[0].0, g.leader[pending[0].1]);
        lemma_commit_pending_wf(step.0, step.1, pending.drop_first(), g);
    }
}

/// Folding the same pending log over two class-equivalent states yields
/// class-equivalent states.
pub proof fn lemma_commit_pending_congruent(
    l1: UfView,
    c1: Seq<(Seq<char>, u64)>,
    l2: UfView,
    c2: Seq<(Seq<char>, u64)>,
    pending: Seq<(Seq<char>, u64)>,
    g: UfView,
)
    requires
        class_equiv(l1, c1, l2, c2),
    ensures
        ({
            let r1 = commit_pending(l1, c1, pending, g);
            let r2 = commit_pending(l2, c2, pending, g);
            class_equiv(r1.0, r1.1, r2.0, r2.1)
        }),
    decreases pending.len(),
{
    if pending.len() > 0 {
        lemma_commit_one_congruent(l1, c1, l2, c2, pending[0].0, g.leader[pending[0].1]);
        let s1 = commit_one(l1, c1, pending[0].0, g.leader[pending[0].1]);
        let s2 = commit_one(l2, c2, pending[0].0, g.leader[pending[0].1]);
        lemma_commit_pending_congruent(s1.0, s1.1, s2.0, s2.1, pending.drop_first(), g);
    }
}

/// A fold over concatenated logs is the fold over the first, continued
/// over the second.
pub proof fn lemma_commit_pending_concat(
    l: UfView,
    c: Seq<(Seq<char>, u64)>,
    p1: Seq<(Seq<char>, u64)>,
    p2: Seq<(Seq<char>, u64)>,
    g: UfView,
)
    ensures
        commit_pending(l, c, p1 + p2, g) == ({
            let mid = commit_pending(l, c, p1, g);
            commit_pending(mid.0, mid.1, p2, g)
        }),
    decreases p1.len(),
{
    if p1.len() == 0 {
        assert(p1 + p2 =~= p2);
    } else {
        assert((p1 + p2)[0] == p1[0]);
        assert((p1 + p2).drop_first() =~= p1.drop_first() + p2);
        let step = commit_one(l, c, p1[0].0, g.leader[p1[0].1]);
        lemma_commit_pending_concat(step.0, step.1, p1.drop_first(), p2, g);
    }
}

/// Exchanging two neighbouring observations of one pending log commits
/// the same variables with the same classes. This is the generating case
/// of [`lemma_commit_permutation`]: exchanges of neighbours compose to
/// every permutation, and [`lemma_commit_pending_congruent`] carries the
/// agreement across whatever is committed afterwards.
pub proof fn lemma_commit_order_independent(
    l: UfView,
    c: Seq<(Seq<char>, u64)>,
    pending: Seq<(Seq<char>, u64)>,
    i: int,
    g: UfView,
)
    requires
        commit_state_wf(l, c),
        0 <= i,
        i + 1 < pending.len(),
    ensures
        ({
            let swapped = pending.update(i, pending[i + 1]).update(i + 1, pending[i]);
            let r1 = commit_pending(l, c, pending, g);
            let r2 = commit_pending(l, c, swapped, g);
            class_equiv(r1.0, r1.1, r2.0, r2.1)
        }),
{
    let swapped = pending.update(i, pending[i + 1]).update(i + 1, pending[i]);
    let e1 = pending[i];
    let e2 = pending[i + 1];
    let prefix = pending.take(i);
    let suffix = pending.skip(i + 2);
    assert(pending =~= prefix + (seq![e1, e2] + suffix));
    assert(swapped =~= prefix + (seq![e2, e1] + suffix));
    let mid = commit_pending(l, c, prefix, g);
    lemma_commit_pending_wf(l, c, prefix, g);
    lemma_commit_pending_concat(l, c, prefix, seq![e1, e2] + suffix, g);
    lemma_commit_pending_concat(l, c, prefix, seq![e2, e1] + suffix, g);
    lemma_commit_pending_concat(mid.0, mid.1, seq![e1, e2], suffix, g);
    lemma_commit_pending_concat(mid.0, mid.1, seq![e2, e1], suffix, g);
    assert(seq![e1, e2] + suffix =~= seq![e1, e2] + suffix);
    let s12 = commit_pending(mid.0, mid.1, seq![e1, e2], g);
    let s21 = commit_pending(mid.0, mid.1, seq![e2, e1], g);
    assert(s12 == ({
        let first = commit_one(mid.0, mid.1, e1.0, g.leader[e1.1]);
        commit_one(first.0, first.1, e2.0, g.leader[e2.1])
    })) by {
        reveal_with_fuel(commit_pending, 3);
        assert(seq![e1, e2].drop_first() =~= seq![e2]);
        assert(seq![e2].drop_first() =~= Seq::<(Seq<char>, u64)>::empty());
    }
    assert(s21 == ({
        let first = commit_one(mid.0, mid.1, e2.0, g.leader[e2.1]);
        commit_one(first.0, first.1, e1.0, g.leader[e1.1])
    })) by {
        reveal_with_fuel(commit_pending, 3);
        assert(seq![e2, e1].drop_first() =~= seq![e1]);
        assert(seq![e1].drop_first() =~= Seq::<(Seq<char>, u64)>::empty());
    }
    lemma_commit_one_swap(mid.0, mid.1, e1.0, g.leader[e1.1], e2.0, g.leader[e2.1]);
    lemma_commit_pending_congruent(s12.0, s12.1, s21.0, s21.1, suffix, g);
}

/// Class equivalence is reflexive on consistent states.
pub proof fn lemma_class_equiv_refl(l: UfView, c: Seq<(Seq<char>, u64)>)
    requires
        commit_state_wf(l, c),
    ensures
        class_equiv(l, c, l, c),
{
    assert forall|k: Seq<char>| #[trigger] has_key(c, k) implies l.contains(value_of(c, k))
        && l.same_class(value_of(c, k), value_of(c, k)) by {
        let i = key_idx(c, k);
        assert(l.contains(c[i].1));
    }
}

/// Class equivalence composes.
pub proof fn lemma_class_equiv_trans(
    l1: UfView,
    c1: Seq<(Seq<char>, u64)>,
    l2: UfView,
    c2: Seq<(Seq<char>, u64)>,
    l3: UfView,
    c3: Seq<(Seq<char>, u64)>,
)
    requires
        class_equiv(l1, c1, l2, c2),
        class_equiv(l2, c2, l3, c3),
    ensures
        class_equiv(l1, c1, l3, c3),
{
    assert forall|x: u64, y: u64|
        #![trigger l1.same_class(x, y)]
        #![trigger l3.same_class(x, y)]
        l1.contains(x) && l1.contains(y) implies l1.same_class(x, y) == l3.same_class(x, y) by {
        assert(l2.contains(x) && l2.contains(y));
        assert(l1.same_class(x, y) == l2.same_class(x, y));
        assert(l2.same_class(x, y) == l3.same_class(x, y));
    }
    assert forall|k: Seq<char>| #[trigger] has_key(c1, k) implies l1.contains(value_of(c1, k))
        && l1.contains(value_of(c3, k)) && l1.same_class(value_of(c1, k), value_of(c3, k)) by {
        assert(has_key(c2, k));
        let v1 = value_of(c1, k);
        let v2 = value_of(c2, k);
        let v3 = value_of(c3, k);
        assert(l1.same_class(v1, v2));
        assert(l2.same_class(v2, v3));
        assert(l2.contains(v2) && l2.contains(v3));
        assert(l1.same_class(v2, v3) == l2.same_class(v2, v3));
    }
}

/// Moving one observation to the front of the log is a chain of exchanges
/// of neighbours, so it too commits to a class-equivalent outcome.
pub proof fn lemma_commit_move_to_front(
    l: UfView,
    c: Seq<(Seq<char>, u64)>,
    pending: Seq<(Seq<char>, u64)>,
    j: int,
    g: UfView,
)
    requires
        commit_state_wf(l, c),
        0 <= j < pending.len(),
    ensures
        ({
            let moved = seq![pending[j]] + pending.remove(j);
            let r1 = commit_pending(l, c, pending, g);
            let r2 = commit_pending(l, c, moved, g);
            class_equiv(r1.0, r1.1, r2.0, r2.1)
        }),
    decreases j,
{
    let moved = seq![pending[j]] + pending.remove(j);
    if j == 0 {
        assert(moved =~= pending);
        lemma_commit_pending_wf(l, c, pending, g);
        let r1 = commit_pending(l, c, pending, g);
        lemma_class_equiv_refl(r1.0, r1.1);
    } else {
        let s2 = pending.update(j - 1, pending[j]).update(j, pending[j - 1]);
        lemma_commit_order_independent(l, c, pending, j - 1, g);
        lemma_commit_move_to_front(l, c, s2, j - 1, g);
        assert(s2[j - 1] == pending[j]);
        assert(seq![s2[j - 1]] + s2.remove(j - 1) =~= moved);
        let r1 = commit_pending(l, c, pending, g);
        let r2 = commit_pending(l, c, s2, g);
        let r3 = commit_pending(l, c, moved, g);
        lemma_class_equiv_trans(r1.0, r1.1, r2.0, r2.1, r3.0, r3.1);
    }
}

/// Commit order-independence of final classes, in full: two pending logs
/// holding the same observations, one a permutation of the other, commit
/// to class-equivalent outcomes — the same identities in the local
/// partition, partitioned the same way, and for each variable a committed
/// value from the same class, though possibly another member of it.
pub proof fn lemma_commit_permutation(
    l: UfView,
    c: Seq<(Seq<char>, u64)>,
    p1: Seq<(Seq<char>, u64)>,
    p2: Seq<(Seq<char>, u64)>,
    g: UfView,
)
    requires
        commit_state_wf(l, c),
        p1.to_multiset() == p2.to_multiset(),
    ensures
        ({
            let r1 = commit_pending(l, c, p1, g);
            let r2 = commit_pending(l, c, p2, g);
            class_equiv(r1.0, r1.1, r2.0, r2.1)
        }),
    decreases p1.len(),
{
    broadcast use vstd::seq_lib::group_to_multiset_ensures;

    if p2.len() == 0 {
        assert(p1.to_multiset().len() == p1.len());
        assert(p2.to_multiset().len() == p2.len());
        assert(p1.len() == 0);
        lemma_commit_pending_wf(l, c, p1, g);
        let r1 = commit_pending(l, c, p1, g);
        assert(p1 =~= p2);
        lemma_class_equiv_refl(r1.0, r1.1);
    } else {
        let e = p2[0];
        assert(p2.contains(e));
        assert(p1.to_multiset().count(e) > 0);
        assert(p1.contains(e));
        let j = choose|j: int| 0 <= j < p1.len() && p1[j] == e;
        lemma_commit_move_to_front(l, c, p1, j, g);
        let moved = seq![e] + p1.remove(j);
        lemma_commit_pending_concat(l, c, seq![e], p1.remove(j), g);
        lemma_commit_pending_concat(l, c, seq![e], p2.drop_first(), g);
        assert(commit_pending(l, c, seq![e], g) == commit_one(l, c, e.0, g.leader[e.1])) by {
            reveal_with_fuel(commit_pending, 2);
            assert(seq![e].drop_first() =~= Seq::<(Seq<char>, u64)>::empty());
            assert(seq![e][0] == e);
        }
        let mid = commit_one(l, c, e.0, g.leader[e.1]);
        lemma_commit_one_props(l, c, e.0, g.leader[e.1]);
        assert(p2 =~= seq![e] + p2.drop_first());
        assert(p1.remove(j).to_multiset() == p2.drop_first().to_multiset()) by {
            assert(p1.remove(j).to_multiset() =~= p1.to_multiset().remove(e));
            assert(p2.remove(0) =~= p2.drop_first());
            assert(p2.drop_first().to_multiset() =~= p2.to_multiset().remove(e));
        }
        lemma_commit_permutation(mid.0, mid.1, p1.remove(j), p2.drop_first(), g);
        let r1 = commit_pending(l, c, p1, g);
        let rm = commit_pending(l, c, moved, g);
        let r2 = commit_pending(l, c, p2, g);
        lemma_class_equiv_trans(r1.0, r1.1, rm.0, rm.1, r2.0, r2.1);
    }
}

/// Retroactive coarsening. Suppose the variable `v` already has a
/// committed class `a` (recorded at an earlier commit), and a later
/// observation binds `v` to a tag `t` — whose class in the global index
/// `g`, by then, may have absorbed the tags behind `a`'s class through
/// interactions recorded in between. Committing that observation folds
/// the two together: afterwards `v`'s committed class is the leader of
/// both `a` and `t`'s global leader in the site's local partition, so the
/// site's own history coarsens along with the global index.
pub proof fn lemma_retroactive_coarsening(s: SiteView, g: UfView, v: Seq<char>, t: u64)
    requires
        s.wf(),
        g.wf(),
        g.contains(t),
        has_key(s.committed, v),
    ensures
        ({
            let folded = commit_pending(s.local, s.committed, seq![(v, t)], g);
            let a = value_of(s.committed, v);
            let b = g.leader[t];
            &&& has_key(folded.1, v)
            &&& value_of(folded.1, v) == folded.0.leader[a]
            &&& value_of(folded.1, v) == folded.0.leader[b]
        }),
{
    reveal_with_fuel(commit_pending, 2);
    let pend = seq![(v, t)];
    assert(pend.drop_first() =~= Seq::<(Seq<char>, u64)>::empty());
    assert(pend[0] == (v, t));
    let a = value_of(s.committed, v);
    let b = g.leader[t];
    let l1 = s.local.introduce(b);
    crate::union_find::lemma_introduce_wf(s.local, b);
    let i = key_idx(s.committed, v);
    assert(s.local.contains(s.committed[i].1));
    crate::union_find::lemma_union_wf(l1, a, b);
    lemma_set_entry(s.committed, v, l1.union(a, b).1);
}

/// One program location under analysis: its local type partition, the
/// committed variable-to-class map, the pending observation log, and the
/// location identifier it was created for.
pub struct Site {
    type_uf: UnionFind,
    var_tags: Vec<(String, Tag)>,
    observed_var_tags: Vec<(String, Tag)>,
    name: String,
}

impl View for Site {
    type V = SiteView;

    closed spec fn view(&self) -> SiteView {
        SiteView {
            name: self.name@,
            pending: Seq::new(
                self.observed_var_tags@.len(),
                |i: int| (self.observed_var_tags@[i].0@, self.observed_var_tags@[i].1@),
            ),
            committed: Seq::new(
                self.var_tags@.len(),
                |i: int| (self.var_tags@[i].0@, self.var_tags@[i].1@),
            ),
            local: self.type_uf@,
        }
    }
}

impl Site {
    /// Internal consistency: the local partition is consistent, committed
    /// variables are distinct, and every committed class is a member of
    /// the local partition.
    pub closed spec fn wf(&self) -> bool {
        &&& self.type_uf.wf()
        &&& distinct_keys(self@.committed)
        &&& forall|i: int|
            0 <= i < self@.committed.len() ==> self.type_uf@.contains(
                #[trigger] self@.committed[i].1,
            )
    }

    /// A consistent site presents a consistent abstract state.
    pub proof fn lemma_view_wf(&self)
        requires
            self.wf(),
        ensures
            self@.wf(),
    {
        self.type_uf.lemma_view_wf();
    }

    /// Creates an empty site for the location `name`.
    pub fn new(name: &str) -> (s: Site)
        ensures
            s.wf(),
            s@ == SiteView::empty(name@),
    {
        let s = Site {
            type_uf: UnionFind::new(),
            var_tags: Vec::new(),
            observed_var_tags: Vec::new(),
            name: name.to_owned(),
        };
        proof {
            assert(s@.pending =~= Seq::<(Seq<char>, u64)>::empty());
            assert(s@.committed =~= Seq::<(Seq<char>, u64)>::empty());
            assert(s@ =~= SiteView::empty(name@));
        }
        s
    }

    /// Appends one `(variable, tag)` observation to the pending log.
    /// Constant time, no lookups, no visible effect until the next
    /// [`Site::update`].
    pub fn observe_var(&mut self, name: &str, var_tag: &Tag)
        requires
            old(self).wf(),
        ensures
            final(self).wf(),
            final(self)@ == (SiteView {
                pending: old(self)@.pending.push((name@, var_tag@)),
                ..old(self)@
            }),
    {
        self.observed_var_tags.push((name.to_owned(), *var_tag));
        proof {
            assert(self@.pending =~= old(self)@.pending.push((name@, var_tag@)));
            assert(self@.committed =~= old(self)@.committed);
            assert(self@ =~= (SiteView {
                pending: old(self)@.pending.push((name@, var_tag@)),
                ..old(self)@
            }));
        }
    }

    /// Commits the pending observation log, in observation order, against
    /// the global index `value_uf`. For each `(variable, tag)` entry the
    /// tag is resolved to its current global leader, the leader is
    /// introduced into the local type partition, and the variable's class
    /// is set to that leader, merged with the variable's previous class
    /// if it had one. The pending log is then cleared.
    ///
    /// Fails with [`UnknownTag`], changing nothing, exactly when some
    /// pending tag was never introduced into the global index; such a tag
    /// came from neither minting path, which is a caller-contract
    /// violation. The global partition itself is never changed (paths in
    /// it may be compressed).
    pub fn update(&mut self, value_uf: &mut UnionFind) -> (r: Result<(), UnknownTag>)
        requires
            old(self).wf(),
            old(value_uf).wf(),
        ensures
            final(self).wf(),
            final(value_uf).wf(),
            final(value_uf)@ == old(value_uf)@,
            match r {
                Ok(_) => {
                    &&& pending_known(old(self)@.pending, old(value_uf)@)
                    &&& final(self)@.name == old(self)@.name
                    &&& final(self)@.pending == Seq::<(Seq<char>, u64)>::empty()
                    &&& (final(self)@.local, final(self)@.committed) == commit_pending(
                        old(self)@.local,
                        old(self)@.committed,
                        old(self)@.pending,
                        old(value_uf)@,
                    )
                },
                Err(_) => {
                    &&& !pending_known(old(self)@.pending, old(value_uf)@)
                    &&& final(self)@ == old(self)@
                },
            },
    {
        let n = self.observed_var_tags.len();
        let mut i: usize = 0;
        while i < n
            invariant
                n == self.observed_var_tags@.len(),
                i <= n,
                *self == *old(self),
                *value_uf == *old(value_uf),
                old(self).wf(),
                old(value_uf).wf(),
                forall|j: int|
                    0 <= j < i ==> old(value_uf)@.contains(#[trigger] old(self)@.pending[j].1),
            decreases n - i,
        {
            let known = value_uf.contains_tag(&self.observed_var_tags[i].1);
            if !known {
                proof {
                    assert(old(self)@.pending[i as int].1 == self.observed_var_tags@[
                        i as int
                    ].1@);
                }
                return Err(UnknownTag);
            }
            i += 1;
        }
        let ghost g = old(value_uf)@;
        let ghost l0 = old(self)@.local;
        let ghost c0 = old(self)@.committed;
        let ghost pend = old(self)@.pending;
        proof {
            assert(pending_known(pend, g));
            assert(pend.take(0) =~= Seq::<(Seq<char>, u64)>::empty());
        }
        let mut k: usize = 0;
        while k < n
            invariant
                n == self.observed_var_tags@.len(),
                k <= n,
                old(self).wf(),
                self.wf(),
                value_uf.wf(),
                value_uf@ == g,
                g == old(value_uf)@,
                l0 == old(self)@.local,
                c0 == old(self)@.committed,
                pend == old(self)@.pending,
                self@.pending == pend,
                self@.name == old(self)@.name,
                pending_known(pend, g),
                (self@.local, self@.committed) == commit_pending(l0, c0, pend.take(k as int), g),
            decreases n - k,
        {
            let t = self.observed_var_tags[k].1;
            let nm = self.observed_var_tags[k].0.clone();
            proof {
                assert(pend[k as int] == (nm@, t@));
            }
            let ghost pre_local = self@.local;
            let ghost pre_comm = self@.committed;
            proof {
                assert(g.contains(pend[k as int].1));
                self.type_uf.lemma_view_wf();
            }
            let leader_tag_opt = value_uf.find(&t);
            let leader_tag = match leader_tag_opt {
                Some(l) => l,
                None => {
                    proof {
                        assert(false);
                    }
                    return Err(UnknownTag);
                },
            };
            let ghost ltid = leader_tag@;
            proof {
                assert(ltid == g.leader[pend[k as int].1]);
            }
            let local_leader = self.type_uf.introduce_tag(leader_tag);
            proof {
                crate::union_find::lemma_introduce_wf(pre_local, ltid);
            }
            let ghost l1 = pre_local.introduce(ltid);
            let existing = find_key(&self.var_tags, &nm);
            match existing {
                Some(vi) => {
                    let old_tag = self.var_tags[vi].1;
                    proof {
                        lemma_key_idx(pre_comm, vi as int);
                        assert(pre_comm[vi as int] == (nm@, old_tag@));
                        assert(has_key(pre_comm, nm@));
                        assert(value_of(pre_comm, nm@) == old_tag@);
                        assert(l1.contains(old_tag@));
                        assert(l1.contains(ltid));
                        crate::union_find::lemma_union_wf(l1, old_tag@, ltid);
                    }
                    let merged_opt = self.type_uf.union_tags(&old_tag, &local_leader);
                    let merged = match merged_opt {
                        Some(m) => m,
                        None => {
                            proof {
                                assert(false);
                            }
                            return Err(UnknownTag);
                        },
                    };
                    let ghost step = commit_one(pre_local, pre_comm, nm@, ltid);
                    self.var_tags[vi] = (nm, merged);
                    proof {
                        assert(self@.local == step.0);
                        assert(self@.committed =~= pre_comm.update(vi as int, (nm@, merged@)));
                        assert(self@.committed == step.1);
                        assert(self.wf()) by {
                            assert forall|j: int|
                                0 <= j < self@.committed.len() implies self.type_uf@.contains(
                                #[trigger] self@.committed[j].1,
                            ) by {
                                if j != vi as int {
                                    assert(self@.committed[j] == pre_comm[j]);
                                    assert(pre_local.contains(pre_comm[j].1));
                                }
                            }
                            assert forall|a: int, b: int|
                                0 <= a < b < self@.committed.len() implies self@.committed[a].0
                                != self@.committed[b].0 by {
                                assert(self@.committed[a].0 == pre_comm[a].0);
                                assert(self@.committed[b].0 == pre_comm[b].0);
                            }
                        }
                    }
                },
                None => {
                    proof {
                        assert(!has_key(pre_comm, nm@)) by {
                            if has_key(pre_comm, nm@) {
                                let j = key_idx(pre_comm, nm@);
                                assert(self.var_tags@[j].0@ == nm@);
                            }
                        }
                    }
                    let ghost step = commit_one(pre_local, pre_comm, nm@, ltid);
                    self.var_tags.push((nm, local_leader));
                    proof {
                        assert(self@.local == step.0);
                        assert(self@.committed =~= pre_comm.push((nm@, ltid)));
                        assert(self@.committed == step.1);
                        assert(self.wf()) by {
                            assert forall|j: int|
                                0 <= j < self@.committed.len() implies self.type_uf@.contains(
                                #[trigger] self@.committed[j].1,
                            ) by {
                                if j < pre_comm.len() {
                                    assert(self@.committed[j] == pre_comm[j]);
                                    assert(pre_local.contains(pre_comm[j].1));
                                }
                            }
                            assert forall|a: int, b: int|
                                0 <= a < b < self@.committed.len() implies self@.committed[a].0
                                != self@.committed[b].0 by {
                                if b < pre_comm.len() {
                                    assert(self@.committed[a].0 == pre_comm[a].0);
                                    assert(self@.committed[b].0 == pre_comm[b].0);
                                } else {
                                    assert(self@.committed[a].0 == pre_comm[a].0);
                                    assert(self@.committed[b].0 == nm@);
                                    assert(self.var_tags@[a].0@ != nm@);
                                }
                            }
                        }
                    }
                },
            }
            proof {
                lemma_commit_pending_snoc(l0, c0, pend.take(k as int), pend[k as int], g);
                assert(pend.take(k + 1) =~= pend.take(k as int).push(pend[k as int]));
                assert((self@.local, self@.committed) == commit_pending(
                    l0,
                    c0,
                    pend.take(k + 1),
                    g,
                ));
                assert(self@.pending =~= pend);
            }
            k += 1;
        }
        self.observed_var_tags.clear();
        proof {
            assert(pend.take(n as int) =~= pend);
            assert(self@.pending =~= Seq::<(Seq<char>, u64)>::empty());
            assert(self@.committed =~= Seq::new(
                self.var_tags@.len(),
                |i: int| (self.var_tags@[i].0@, self.var_tags@[i].1@),
            ));
        }
        Ok(())
    }

    /// The committed variable-to-class map, one `(variable, class
    /// leader)` pair per committed variable, in first-commit order. The
    /// class tag has no meaning beyond equality: two variables with equal
    /// class tags carry the same inferred abstract type.
    pub fn report(&self) -> (r: Vec<(String, Tag)>)
        requires
            self.wf(),
        ensures
            r@.len() == self@.committed.len(),
            forall|i: int|
                0 <= i < r@.len() ==> (#[trigger] r@[i]).0@ == self@.committed[i].0 && r@[i].1@
                    == self@.committed[i].1,
    {
        let mut r: Vec<(String, Tag)> = Vec::new();
        let n = self.var_tags.len();
        let mut i: usize = 0;
        while i < n
            invariant
                self.wf(),
                n == self.var_tags@.len(),
                i <= n,
                r@.len() == i,
                forall|j: int|
                    0 <= j < i ==> (#[trigger] r@[j]).0@ == self@.committed[j].0 && r@[j].1@
                        == self@.committed[j].1,
            decreases n - i,
        {
            let entry_name = self.var_tags[i].0.clone();
            let entry_tag = self.var_tags[i].1;
            r.push((entry_name, entry_tag));
            i += 1;
        }
        r
    }
}

/// Whether the registry state `s` holds a site for the location `name`.
pub open spec fn has_site(s: Seq<SiteView>, name: Seq<char>) -> bool {
    exists|i: int| 0 <= i < s.len() && s[i].name == name
}

/// The position of the site for the location `name` in the registry
/// state `s`.
pub open spec fn site_idx(s: Seq<SiteView>, name: Seq<char>) -> int {
    choose|i: int| 0 <= i < s.len() && s[i].name == name
}

/// With distinct location names, `site_idx` finds exactly the position a
/// site occupies.
pub proof fn lemma_site_idx(s: Seq<SiteView>, i: int)
    requires
        forall|a: int, b: int| 0 <= a < b < s.len() ==> s[a].name != s[b].name,
        0 <= i < s.len(),
    ensures
        has_site(s, s[i].name),
        site_idx(s, s[i].name) == i,
{
    assert(has_site(s, s[i].name));
    let j = site_idx(s, s[i].name);
    assert(0 <= j < s.len() && s[j].name == s[i].name);
}

/// The `(location, variable, class leader)` triples of one site.
pub open spec fn site_triples(v: SiteView) -> Seq<(Seq<char>, Seq<char>, u64)> {
    Seq::new(v.committed.len(), |i: int| (v.name, v.committed[i].0, v.committed[i].1))
}

/// The triples of all sites in the registry state `s`, in registry order.
pub open spec fn report_of(s: Seq<SiteView>) -> Seq<(Seq<char>, Seq<char>, u64)>
    decreases s.len(),
{
    if s.len() == 0 {
        Seq::empty()
    } else {
        site_triples(s[0]) + report_of(s.drop_first())
    }
}

/// Reporting one more site appends its triples.
pub proof fn lemma_report_of_snoc(s: Seq<SiteView>, v: SiteView)
    ensures
        report_of(s.push(v)) == report_of(s) + site_triples(v),
    decreases s.len(),
{
    reveal_with_fuel(report_of, 2);
    if s.len() == 0 {
        assert(s.push(v).drop_first() =~= Seq::<SiteView>::empty());
        assert(s.push(v)[0] == v);
        assert(report_of(s.push(v)) =~= report_of(s) + site_triples(v));
    } else {
        assert(s.push(v)[0] == s[0]);
        assert(s.push(v).drop_first() =~= s.drop_first().push(v));
        lemma_report_of_snoc(s.drop_first(), v);
        assert(site_triples(s[0]) + (report_of(s.drop_first()) + site_triples(v)) =~= (site_triples(
            s[0],
        ) + report_of(s.drop_first())) + site_triples(v));
    }
}

/// The checkout/checkin registry of analysis sites, keyed by location
/// identifier, holding at most one site per identifier.
///
/// Checking out moves the site for an identifier out of the registry,
/// transferring ownership to the caller, so the registry is never locked
/// across the body of analyzed code; checking in moves it back. Checking
/// out an identifier whose site is currently checked out yields a fresh,
/// empty site, and checking that one in discards the in-flight one; the
/// discipline that no identifier is checked out twice concurrently is the
/// caller's.
pub struct Sites {
    locs: Vec<Site>,
}

impl View for Sites {
    type V = Seq<SiteView>;

    closed spec fn view(&self) -> Seq<SiteView> {
        Seq::new(self.locs@.len(), |i: int| self.locs@[i]@)
    }
}

impl Sites {
    /// Internal consistency: each held site is consistent and location
    /// names are distinct.
    pub closed spec fn wf(&self) -> bool {
        &&& forall|i: int| 0 <= i < self.locs@.len() ==> (#[trigger] self.locs@[i]).wf()
        &&& forall|a: int, b: int|
            0 <= a < b < self.locs@.len() ==> self.locs@[a]@.name != self.locs@[b]@.name
    }

    /// Creates an empty registry.
    pub fn new() -> (s: Sites)
        ensures
            s.wf(),
            s@ == Seq::<SiteView>::empty(),
    {
        let s = Sites { locs: Vec::new() };
        proof {
            assert(s@ =~= Seq::<SiteView>::empty());
        }
        s
    }

    /// The position of the site for the location `id`, if one is held.
    fn find_site(&self, id: &String) -> (r: Option<usize>)
        ensures
            match r {
                Some(i) => i < self@.len() && self@[i as int].name == id@,
                None => forall|j: int| 0 <= j < self@.len() ==> (#[trigger] self@[j]).name != id@,
            },
    {
        let n = self.locs.len();
        let mut i: usize = 0;
        while i < n
            invariant
                n == self.locs@.len(),
                i <= n,
                forall|j: int| 0 <= j < i ==> (#[trigger] self@[j]).name != id@,
            decreases n - i,
        {
            if self.locs[i].name == *id {
                return Some(i);
            }
            i += 1;
        }
        None
    }

    /// Removes and returns the site for the location `id`, transferring
    /// ownership to the caller; if none is held, returns a fresh, empty
    /// site instead of erring.
    pub fn extract(&mut self, id: &str) -> (s: Site)
        requires
            old(self).wf(),
        ensures
            final(self).wf(),
            s.wf(),
            has_site(old(self)@, id@) ==> {
                &&& s@ == old(self)@[site_idx(old(self)@, id@)]
                &&& final(self)@ == old(self)@.remove(site_idx(old(self)@, id@))
            },
            !has_site(old(self)@, id@) ==> {
                &&& s@ == SiteView::empty(id@)
                &&& final(self)@ == old(self)@
            },
    {
        let id_string = id.to_owned();
        let found = self.find_site(&id_string);
        match found {
            Some(i) => {
                proof {
                    lemma_site_idx(old(self)@, i as int);
                }
                let s = self.locs.remove(i);
                proof {
                    assert(self@ =~= old(self)@.remove(i as int));
                }
                s
            },
            None => {
                proof {
                    assert(!has_site(old(self)@, id@)) by {
                        if has_site(old(self)@, id@) {
                            let j = site_idx(old(self)@, id@);
                            assert(old(self)@[j].name == id@);
                        }
                    }
                }
                Site::new(id)
            },
        }
    }

    /// Inserts `site` back under its own location identifier, overwriting
    /// whatever is currently stored there.
    pub fn stash(&mut self, site: Site)
        requires
            old(self).wf(),
            site.wf(),
        ensures
            final(self).wf(),
            has_site(old(self)@, site@.name) ==> final(self)@ == old(self)@.update(
                site_idx(old(self)@, site@.name),
                site@,
            ),
            !has_site(old(self)@, site@.name) ==> final(self)@ == old(self)@.push(site@),
    {
        let nm = site.name.clone();
        let found = self.find_site(&nm);
        match found {
            Some(i) => {
                proof {
                    lemma_site_idx(old(self)@, i as int);
                }
                self.locs[i] = site;
                proof {
                    assert(self@ =~= old(self)@.update(i as int, site@));
                    assert(self.wf()) by {
                        assert forall|a: int, b: int|
                            0 <= a < b < self.locs@.len() implies self.locs@[a]@.name
                            != self.locs@[b]@.name by {
                            assert(self.locs@[a]@.name == old(self)@[a].name);
                            assert(self.locs@[b]@.name == old(self)@[b].name);
                        }
                    }
                }
            },
            None => {
                proof {
                    assert(!has_site(old(self)@, site@.name)) by {
                        if has_site(old(self)@, site@.name) {
                            let j = site_idx(old(self)@, site@.name);
                            assert(old(self)@[j].name == site@.name);
                        }
                    }
                }
                self.locs.push(site);
                proof {
                    assert(self@ =~= old(self)@.push(site@));
                    assert(self.wf()) by {
                        assert forall|a: int, b: int|
                            0 <= a < b < self.locs@.len() implies self.locs@[a]@.name
                            != self.locs@[b]@.name by {
                            assert(self.locs@[a]@.name == old(self)@[a].name);
                            if b < old(self)@.len() {
                                assert(self.locs@[b]@.name == old(self)@[b].name);
                            } else {
                                assert(self.locs@[b]@.name == site@.name);
                            }
                        }
                    }
                }
            },
        }
    }

    /// The `(location, variable, class leader)` triples of every held
    /// site, in registry order. The class tag has no meaning beyond
    /// equality.
    pub fn report(&self) -> (r: Vec<(String, String, Tag)>)
        requires
            self.wf(),
        ensures
            Seq::new(r@.len(), |i: int| (r@[i].0@, r@[i].1@, r@[i].2@)) == report_of(self@),
    {
        let mut r: Vec<(String, String, Tag)> = Vec::new();
        let n = self.locs.len();
        proof {
            assert(self@.take(0) =~= Seq::<SiteView>::empty());
            assert(Seq::new(r@.len(), |i: int| (r@[i].0@, r@[i].1@, r@[i].2@)) =~= report_of(
                self@.take(0),
            ));
        }
        let mut i: usize = 0;
        while i < n
            invariant
                self.wf(),
                n == self.locs@.len(),
                i <= n,
                Seq::new(r@.len(), |k: int| (r@[k].0@, r@[k].1@, r@[k].2@)) == report_of(
                    self@.take(i as int),
                ),
            decreases n - i,
        {
            let entries = self.locs[i].report();
            let m = entries.len();
            let ghost r_pre = r@;
            let ghost rep_pre = Seq::new(
                r_pre.len(),
                |k: int| (r_pre[k].0@, r_pre[k].1@, r_pre[k].2@),
            );
            proof {
                assert(rep_pre =~= Seq::new(r@.len(), |k: int| (r@[k].0@, r@[k].1@, r@[k].2@)));
                assert(rep_pre == report_of(self@.take(i as int)));
            }
            let mut j: usize = 0;
            while j < m
                invariant
                    self.wf(),
                    n == self.locs@.len(),
                    i < n,
                    m == entries@.len(),
                    j <= m,
                    m == self@[i as int].committed.len(),
                    forall|q: int|
                        0 <= q < m ==> (#[trigger] entries@[q]).0@ == self@[i as int].committed[q].0
                            && entries@[q].1@ == self@[i as int].committed[q].1,
                    r@.len() == r_pre.len() + j,
                    r@.take(r_pre.len() as int) == r_pre,
                    forall|q: int|
                        0 <= q < j ==> (#[trigger] r@[r_pre.len() + q]).0@ == self@[i as int].name
                            && r@[r_pre.len() + q].1@ == self@[i as int].committed[q].0 && r@[
                            r_pre.len() + q
                        ].2@ == self@[i as int].committed[q].1,
                decreases m - j,
            {
                let site_name = self.locs[i].name.clone();
                let var_name = entries[j].0.clone();
                let class_tag = entries[j].1;
                r.push((site_name, var_name, class_tag));
                proof {
                    assert(r@.take(r_pre.len() as int) =~= r_pre);
                }
                j += 1;
            }
            proof {
                assert(self@.take(i + 1) =~= self@.take(i as int).push(self@[i as int]));
                lemma_report_of_snoc(self@.take(i as int), self@[i as int]);
                let lhs = Seq::new(r@.len(), |k: int| (r@[k].0@, r@[k].1@, r@[k].2@));
                let rhs = rep_pre + site_triples(self@[i as int]);
                assert(report_of(self@.take(i + 1)) == rhs);
                assert forall|kk: int| 0 <= kk < r_pre.len() implies r@[kk] == r_pre[kk] by {
                    assert(r@.take(r_pre.len() as int)[kk] == r@[kk]);
                }
                assert forall|k: int| 0 <= k < lhs.len() implies lhs[k] == rhs[k] by {
                    if k < r_pre.len() {
                        assert(lhs[k] == (r_pre[k].0@, r_pre[k].1@, r_pre[k].2@));
                        assert(rhs[k] == rep_pre[k]);
                    } else {
                        let q = k - r_pre.len();
                        assert(r@[r_pre.len() + q].0@ == self@[i as int].name && r@[r_pre.len()
                            + q].1@ == self@[i as int].committed[q].0 && r@[r_pre.len() + q].2@
                            == self@[i as int].committed[q].1);
                        assert(rhs[k] == site_triples(self@[i as int])[q]);
                    }
                }
                assert(lhs =~= rhs);
                assert(lhs == report_of(self@.take(i + 1)));
            }
            i += 1;
        }
        proof {
            assert(self@.take(n as int) =~= self@);
        }
        r
    }
}

} // verus!
