//! Rebuilding a tree from its flat form gives the tree back, for trees whose
//! keys are plain segments and whose `Complex` values are not empty.
use vstd::prelude::*;
use crate::path::{
    flat_of, get_path, join, law_set_keeps_others, law_set_then_get, leaf_at, lemma_leaf_cons,
    qualify, set_path, split, valid_path,
};
use crate::settings::{set_all, set_entry};
use crate::value::Val;

verus! {

broadcast use vstd::map::axiom_map_index_decreases_finite;

/// A `Complex` value is finite and not empty; other values always qualify.
pub open spec fn dense_value(v: Val) -> bool {
    match v {
        Val::Complex(c) => c.dom().finite() && c.dom() != Set::<Seq<char>>::empty(),
        _ => true,
    }
}

/// A finite tree in which no reachable `Complex` value is empty.
pub open spec fn dense(m: Map<Seq<char>, Val>) -> bool {
    &&& m.dom().finite()
    &&& forall|s: Seq<Seq<char>>| #[trigger] get_path(m, s) is Some ==> dense_value(get_path(m, s)->0)
}

/// A key that a path can name on its own: not empty and without a dot.
pub open spec fn plain_key(k: Seq<char>) -> bool {
    k.len() > 0 && !k.contains('.')
}

/// Every key of the tree, at every level, is plain.
pub open spec fn plain_keys(m: Map<Seq<char>, Val>) -> bool {
    forall|s: Seq<Seq<char>>| #[trigger] get_path(m, s) is Some ==> plain_key(s.last())
}

/// A path whose segments are all plain keys.
pub open spec fn plain_path(p: Seq<Seq<char>>) -> bool {
    p.len() >= 1 && forall|j: int| 0 <= j < p.len() ==> #[trigger] plain_key(p[j])
}

proof fn lemma_child_get(m: Map<Seq<char>, Val>, k: Seq<char>, c: Map<Seq<char>, Val>, s: Seq<Seq<char>>)
    requires
        m.contains_key(k),
        m[k] == Val::Complex(c),
    ensures
        s.len() >= 1 ==> get_path(m, seq![k] + s) == get_path(c, s),
        get_path(c, s) is Some ==> s.len() >= 1,
{
    if s.len() >= 1 {
        lemma_leaf_cons(m, k, c, s);
    }
}

proof fn lemma_dense_child(m: Map<Seq<char>, Val>, k: Seq<char>, c: Map<Seq<char>, Val>)
    requires
        dense(m),
        m.contains_key(k),
        m[k] == Val::Complex(c),
    ensures
        dense(c),
        c.dom() != Set::<Seq<char>>::empty(),
{
    assert(get_path(m, seq![k]) == Some(m[k]));
    assert forall|s: Seq<Seq<char>>| #[trigger] get_path(c, s) is Some implies dense_value(get_path(c, s)->0) by {
        lemma_child_get(m, k, c, s);
        assert(get_path(m, seq![k] + s) is Some);
    }
}

/// A non-empty dense tree has a leaf.
proof fn lemma_has_leaf(m: Map<Seq<char>, Val>)
    requires
        dense(m),
        m.dom() != Set::<Seq<char>>::empty(),
    ensures
        exists|s: Seq<Seq<char>>| #[trigger] leaf_at(m, s) is Some,
    decreases m,
{
    if forall|k: Seq<char>| !#[trigger] m.dom().contains(k) {
        assert(m.dom() =~= Set::<Seq<char>>::empty());
    }
    let k = choose|k: Seq<char>| #[trigger] m.dom().contains(k);
    match m[k] {
        Val::Complex(c) => {
            lemma_dense_child(m, k, c);
            assert(decreases_to!(m => m[k]));
            lemma_has_leaf(c);
            let rest = choose|s: Seq<Seq<char>>| #[trigger] leaf_at(c, s) is Some;
            assert(rest.len() >= 1);
            lemma_leaf_cons(m, k, c, rest);
            assert(leaf_at(m, seq![k] + rest) is Some);
        },
        _ => {
            assert(leaf_at(m, seq![k]) is Some);
        },
    }
}

/// Two dense trees with the same leaves are equal.
pub proof fn lemma_leaf_ext(m1: Map<Seq<char>, Val>, m2: Map<Seq<char>, Val>)
    requires
        dense(m1),
        dense(m2),
        forall|s: Seq<Seq<char>>| #[trigger] leaf_at(m1, s) == leaf_at(m2, s),
    ensures
        m1 == m2,
    decreases m1,
{
    assert forall|k: Seq<char>| m1.contains_key(k) implies #[trigger] m2.contains_key(k) && m2[k] == m1[k] by {
        match m1[k] {
            Val::Complex(c1) => {
                lemma_dense_child(m1, k, c1);
                lemma_has_leaf(c1);
                let rest = choose|s: Seq<Seq<char>>| #[trigger] leaf_at(c1, s) is Some;
                assert(rest.len() >= 1);
                lemma_leaf_cons(m1, k, c1, rest);
                assert(leaf_at(m2, seq![k] + rest) is Some);
                assert((seq![k] + rest)[0] == k);
                assert(m2.contains_key(k));
                if let Val::Complex(c2) = m2[k] {
                    lemma_dense_child(m2, k, c2);
                    assert forall|s: Seq<Seq<char>>| #[trigger] leaf_at(c1, s) == leaf_at(c2, s) by {
                        if s.len() >= 1 {
                            lemma_leaf_cons(m1, k, c1, s);
                            lemma_leaf_cons(m2, k, c2, s);
                            assert(leaf_at(m1, seq![k] + s) == leaf_at(m2, seq![k] + s));
                        }
                    }
                    assert(decreases_to!(m1 => m1[k]));
                    lemma_leaf_ext(c1, c2);
                } else {
                    assert((seq![k] + rest).drop_first() =~= rest);
                }
            },
            _ => {
                assert(leaf_at(m1, seq![k]) == Some(m1[k]));
                assert(leaf_at(m2, seq![k]) == Some(m1[k]));
            },
        }
    }
    assert forall|k: Seq<char>| m2.contains_key(k) implies #[trigger] m1.contains_key(k) by {
        match m2[k] {
            Val::Complex(c2) => {
                lemma_dense_child(m2, k, c2);
                lemma_has_leaf(c2);
                let rest = choose|s: Seq<Seq<char>>| #[trigger] leaf_at(c2, s) is Some;
                assert(rest.len() >= 1);
                lemma_leaf_cons(m2, k, c2, rest);
                assert(leaf_at(m1, seq![k] + rest) is Some);
                assert((seq![k] + rest)[0] == k);
            },
            _ => {
                assert(leaf_at(m2, seq![k]) == Some(m2[k]));
                assert(leaf_at(m1, seq![k]) is Some);
            },
        }
    }
    assert(m1 =~= m2);
}

/// Every non-empty strict prefix of a resolving path names a `Complex`.
proof fn lemma_prefix_complex(m: Map<Seq<char>, Val>, p: Seq<Seq<char>>, q: Seq<Seq<char>>)
    requires
        get_path(m, p) is Some,
        1 <= q.len() < p.len(),
        q.is_prefix_of(p),
    ensures
        get_path(m, q) is Some && get_path(m, q)->0 is Complex,
    decreases p.len(),
{
    assert(q[0] == p[0]);
    if q.len() > 1 {
        if let Val::Complex(c) = m[p[0]] {
            let (p_tail, q_tail) = (p.drop_first(), q.drop_first());
            assert(q_tail =~= p_tail.subrange(0, q_tail.len() as int));
            lemma_prefix_complex(c, p_tail, q_tail);
        }
    }
}

/// Nothing lies below a leaf.
proof fn lemma_below_leaf(m: Map<Seq<char>, Val>, p: Seq<Seq<char>>, q: Seq<Seq<char>>)
    requires
        get_path(m, p) is Some,
        !(get_path(m, p)->0 is Complex),
        1 <= p.len() < q.len(),
        p.is_prefix_of(q),
    ensures
        get_path(m, q) is None,
    decreases p.len(),
{
    assert(q[0] == p[0]);
    if p.len() > 1 {
        if let Val::Complex(c) = m[p[0]] {
            let (p_tail, q_tail) = (p.drop_first(), q.drop_first());
            assert(p_tail =~= q_tail.subrange(0, p_tail.len() as int));
            lemma_below_leaf(c, p_tail, q_tail);
        }
    }
}

proof fn lemma_set_top(a: Map<Seq<char>, Val>, p: Seq<Seq<char>>, v: Val)
    requires
        p.len() >= 1,
    ensures
        set_path(a, p, v).dom() == a.dom().insert(p[0]),
{
    assert(set_path(a, p, v).dom() =~= a.dom().insert(p[0]));
}

/// Every `Complex` reachable in the tree is finite.
pub open spec fn finite_below(m: Map<Seq<char>, Val>) -> bool {
    &&& m.dom().finite()
    &&& forall|s: Seq<Seq<char>>| #[trigger] get_path(m, s) is Some && get_path(m, s)->0 is Complex
        ==> get_path(m, s)->0->Complex_0.dom().finite()
}

/// After a write, every non-empty strict prefix of the written path names a
/// finite, non-empty `Complex`.
proof fn lemma_set_prefix(a: Map<Seq<char>, Val>, p: Seq<Seq<char>>, v: Val, q: Seq<Seq<char>>)
    requires
        finite_below(a),
        1 <= q.len() < p.len(),
        q.is_prefix_of(p),
    ensures
        get_path(set_path(a, p, v), q) is Some,
        dense_value(get_path(set_path(a, p, v), q)->0),
        get_path(set_path(a, p, v), q)->0 is Complex,
    decreases p.len(),
{
    assert(q[0] == p[0]);
    let child = match a.get(p[0]) {
        Some(Val::Complex(c)) => c,
        _ => Map::empty(),
    };
    let rest = p.drop_first();
    assert(finite_below(child)) by {
        if let Some(Val::Complex(c)) = a.get(p[0]) {
            assert(get_path(a, seq![p[0]]) == Some(a[p[0]]));
            assert forall|s: Seq<Seq<char>>| #[trigger] get_path(child, s) is Some && get_path(child, s)->0 is Complex
                implies get_path(child, s)->0->Complex_0.dom().finite() by {
                lemma_child_get(a, p[0], c, s);
                assert(get_path(a, seq![p[0]] + s) is Some);
            }
        } else {
            assert forall|s: Seq<Seq<char>>| #[trigger] get_path(child, s) is Some implies false by {}
        }
    }
    if q.len() == 1 {
        lemma_set_top(child, rest, v);
        let sp = set_path(child, rest, v);
        assert(set_path(a, p, v)[p[0]] == Val::Complex(sp));
        assert(q =~= seq![p[0]]);
        assert(sp.dom().contains(rest[0]));
        assert(sp.dom() != Set::<Seq<char>>::empty()) by {
            if sp.dom() == Set::<Seq<char>>::empty() {
                assert(!Set::<Seq<char>>::empty().contains(rest[0]));
            }
        }
    } else {
        let q_tail = q.drop_first();
        assert(q_tail =~= rest.subrange(0, q_tail.len() as int));
        lemma_set_prefix(child, rest, v, q_tail);
    }
}

/// A path whose segments are plain keys splits back from its joined text.
pub proof fn lemma_split_join(p: Seq<Seq<char>>)
    requires
        plain_path(p),
    ensures
        split(join(p)) == p,
    decreases p.len(),
{
    let a = p[0];
    assert(plain_key(p[0]));
    assert forall|j: int| 0 <= j < a.len() implies a[j] != '.' by {
        if a[j] == '.' {
            assert(a.contains('.'));
        }
    }
    if p.len() == 1 {
        lemma_split_prefix_run(a, Seq::empty());
        assert(a + Seq::<char>::empty() =~= a);
    } else {
        let rest = p.drop_first();
        assert forall|j: int| 0 <= j < rest.len() implies #[trigger] plain_key(rest[j]) by {
            assert(rest[j] == p[j + 1]);
        }
        lemma_split_join(rest);
        lemma_split_prefix_run(a, seq!['.'] + join(rest));
        let tail = seq!['.'] + join(rest);
        assert(tail.drop_first() =~= join(rest));
        assert(a + seq!['.'] + join(rest) =~= a + tail);
        crate::path::lemma_split_nonempty(join(rest));
        assert(split(tail)[0] =~= Seq::<char>::empty());
        assert(split(tail).drop_first() =~= split(join(rest)));
        assert(a + Seq::<char>::empty() =~= a);
        assert(seq![a] + rest =~= p);
    }
}

/// Splitting text that starts with a dot-free run `a`.
proof fn lemma_split_prefix_run(a: Seq<char>, b: Seq<char>)
    requires
        forall|j: int| 0 <= j < a.len() ==> a[j] != '.',
    ensures
        split(a + b) == seq![a + split(b)[0]] + split(b).drop_first(),
    decreases a.len(),
{
    crate::path::lemma_split_nonempty(b);
    if a.len() == 0 {
        assert(a + b =~= b);
        assert(seq![a + split(b)[0]] + split(b).drop_first() =~= split(b)) by {
            assert(a + split(b)[0] =~= split(b)[0]);
        }
    } else {
        let a2 = a.drop_first();
        lemma_split_prefix_run(a2, b);
        assert((a + b).drop_first() =~= a2 + b);
        assert((a + b)[0] == a[0]);
        crate::path::lemma_split_nonempty(a2 + b);
        assert(seq![a[0]] + (a2 + split(b)[0]) =~= a + split(b)[0]);
        assert(split(a + b) =~= seq![a + split(b)[0]] + split(b).drop_first());
    }
}

/// The segments of a path that resolves in a tree with plain keys are plain.
proof fn lemma_plain_path(m: Map<Seq<char>, Val>, q: Seq<Seq<char>>)
    requires
        plain_keys(m),
        get_path(m, q) is Some,
    ensures
        plain_path(q),
{
    assert forall|j: int| 0 <= j < q.len() implies #[trigger] plain_key(q[j]) by {
        let pre = q.subrange(0, j + 1);
        if j + 1 < q.len() {
            assert(pre.is_prefix_of(q));
            lemma_prefix_complex(m, q, pre);
        } else {
            assert(pre =~= q);
        }
        assert(pre.last() == q[j]);
    }
}

/// What the tree rebuilt from the first keys of `done` holds at `q`.
spec fn rebuilt_leaf(m: Map<Seq<char>, Val>, done: Seq<Seq<char>>, q: Seq<Seq<char>>) -> Option<Val> {
    if done.contains(join(q)) {
        leaf_at(m, q)
    } else {
        None
    }
}

proof fn lemma_rebuild(m: Map<Seq<char>, Val>, f: Map<Seq<char>, Val>, order: Seq<Seq<char>>, i: int)
    requires
        dense(m),
        plain_keys(m),
        flat_of(m, None, f),
        order.to_set() == f.dom(),
        0 <= i <= order.len(),
    ensures
        dense(set_all(f, order.subrange(0, i))),
        forall|q: Seq<Seq<char>>| #[trigger] leaf_at(set_all(f, order.subrange(0, i)), q)
            == rebuilt_leaf(m, order.subrange(0, i), q),
    decreases i,
{
    let done = order.subrange(0, i);
    if i == 0 {
        assert(set_all(f, done) == Map::<Seq<char>, Val>::empty());
        assert forall|q: Seq<Seq<char>>| #[trigger] leaf_at(set_all(f, done), q) == rebuilt_leaf(m, done, q) by {
            assert(!done.contains(join(q)));
        }
        assert(Map::<Seq<char>, Val>::empty().dom() =~= Set::<Seq<char>>::empty());
    } else {
        lemma_rebuild(m, f, order, i - 1);
        let prev = order.subrange(0, i - 1);
        let acc = set_all(f, prev);
        assert(done.drop_last() =~= prev);
        let k = order[i - 1];
        assert(done.last() == k);
        assert(order.to_set().contains(k));
        assert(f.contains_key(k));
        let v = f[k];
        let p = choose|p: Seq<Seq<char>>| qualify(None, join(p)) == k && #[trigger] leaf_at(m, p) == Some(v);
        lemma_plain_path(m, p);
        lemma_split_join(p);
        assert(valid_path(p)) by {
            assert forall|j: int| 0 <= j < p.len() implies #[trigger] p[j].len() > 0 by {
                assert(plain_key(p[j]));
            }
        }
        let next = set_path(acc, p, v);
        assert(set_all(f, done) == set_entry(acc, k, v));
        assert(set_all(f, done) == next);
        assert(!(v is Complex));
        law_set_then_get(acc, p, v);
        assert forall|x: Seq<char>| #[trigger] done.contains(x) <==> prev.contains(x) || x == k by {
            if done.contains(x) {
                let j = choose|j: int| 0 <= j < done.len() && done[j] == x;
                if j < i - 1 {
                    assert(prev[j] == x);
                }
            }
            if prev.contains(x) {
                let j = choose|j: int| 0 <= j < prev.len() && prev[j] == x;
                assert(done[j] == x);
            }
            if x == k {
                assert(done[i - 1] == x);
            }
        }
        lemma_set_top(acc, p, v);
        assert forall|q: Seq<Seq<char>>| #[trigger] get_path(next, q) is Some implies dense_value(get_path(next, q)->0) by {
            if p.is_prefix_of(q) {
                if q.len() == p.len() {
                    assert(q =~= p);
                } else {
                    lemma_below_leaf(next, p, q);
                }
            } else if q.is_prefix_of(p) {
                lemma_set_prefix(acc, p, v, q);
            } else {
                law_set_keeps_others(acc, p, v, q);
            }
        }
        assert forall|q: Seq<Seq<char>>| #[trigger] leaf_at(next, q) == rebuilt_leaf(m, done, q) by {
            if q.len() == 0 {
            } else if p.is_prefix_of(q) {
                if q.len() == p.len() {
                    assert(q =~= p);
                } else {
                    lemma_below_leaf(next, p, q);
                    lemma_below_leaf(m, p, q);
                }
            } else if q.is_prefix_of(p) {
                lemma_set_prefix(acc, p, v, q);
                lemma_prefix_complex(m, p, q);
            } else {
                law_set_keeps_others(acc, p, v, q);
                assert(leaf_at(acc, q) == rebuilt_leaf(m, prev, q));
                if join(q) == k && leaf_at(m, q) is Some {
                    lemma_plain_path(m, q);
                    lemma_split_join(q);
                    assert(q == p);
                }
            }
        }
    }
}

/// Rebuilding the flat form of a tree, its entries taken in any order, gives
/// the tree back when every key is a plain segment (not empty, without a dot)
/// and no `Complex` value in it is empty.
pub proof fn law_flatten_then_from_flat(m: Map<Seq<char>, Val>, f: Map<Seq<char>, Val>, order: Seq<Seq<char>>)
    requires
        dense(m),
        plain_keys(m),
        flat_of(m, None, f),
        order.to_set() == f.dom(),
    ensures
        set_all(f, order) == m,
{
    lemma_rebuild(m, f, order, order.len() as int);
    assert(order.subrange(0, order.len() as int) =~= order);
    let r = set_all(f, order);
    assert forall|q: Seq<Seq<char>>| #[trigger] leaf_at(r, q) == leaf_at(m, q) by {
        assert(leaf_at(r, q) == rebuilt_leaf(m, order, q));
        if leaf_at(m, q) is Some {
            assert(f.contains_key(qualify(None, join(q))));
            assert(order.to_set().contains(join(q)));
        }
    }
    lemma_leaf_ext(r, m);
}

} // verus!
