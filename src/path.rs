//! Key paths: dot-separated segments that address a value in a tree, and the
//! mathematical model of reading, writing and deleting along a path.
use vstd::prelude::*;
use crate::value::Val;

verus! {

/// The segments of a key path: the text between dots, empty segments included.
/// A path without dots has one segment.
pub open spec fn split(s: Seq<char>) -> Seq<Seq<char>>
    decreases s.len(),
{
    if s.len() == 0 {
        seq![Seq::<char>::empty()]
    } else {
        let rest = split(s.drop_first());
        if s[0] == '.' {
            seq![Seq::<char>::empty()] + rest
        } else {
            rest.update(0, seq![s[0]] + rest[0])
        }
    }
}

/// The segments joined with dots.
pub open spec fn join(segs: Seq<Seq<char>>) -> Seq<char>
    decreases segs.len(),
{
    if segs.len() == 0 {
        Seq::empty()
    } else if segs.len() == 1 {
        segs[0]
    } else {
        segs[0] + seq!['.'] + join(segs.drop_first())
    }
}

/// A key prefixed by a parent path and a dot, if there is a parent.
pub open spec fn qualify(parent: Option<Seq<char>>, key: Seq<char>) -> Seq<char> {
    match parent {
        Some(p) => p + seq!['.'] + key,
        None => key,
    }
}

/// A path that a write accepts: at least one segment and no empty segment.
pub open spec fn valid_path(segs: Seq<Seq<char>>) -> bool {
    segs.len() >= 1 && forall|i: int| 0 <= i < segs.len() ==> #[trigger] segs[i].len() > 0
}

/// The value found by walking `segs` down from `m`: every segment but the last
/// must name a `Complex` value.
pub open spec fn get_path(m: Map<Seq<char>, Val>, segs: Seq<Seq<char>>) -> Option<Val>
    decreases segs.len(),
{
    if segs.len() == 0 || !m.contains_key(segs[0]) {
        None
    } else if segs.len() == 1 {
        Some(m[segs[0]])
    } else {
        match m[segs[0]] {
            Val::Complex(c) => get_path(c, segs.drop_first()),
            _ => None,
        }
    }
}

/// The map after writing `v` at `segs`: missing levels are created, and a
/// level that holds a non-`Complex` value is replaced by a new `Complex`.
pub open spec fn set_path(m: Map<Seq<char>, Val>, segs: Seq<Seq<char>>, v: Val) -> Map<Seq<char>, Val>
    decreases segs.len(),
{
    if segs.len() == 0 {
        m
    } else if segs.len() == 1 {
        m.insert(segs[0], v)
    } else {
        let child = match m.get(segs[0]) {
            Some(Val::Complex(c)) => c,
            _ => Map::empty(),
        };
        m.insert(segs[0], Val::Complex(set_path(child, segs.drop_first(), v)))
    }
}

/// The map after removing the value at `segs`; unchanged when the path does
/// not resolve.
pub open spec fn del_path(m: Map<Seq<char>, Val>, segs: Seq<Seq<char>>) -> Map<Seq<char>, Val>
    decreases segs.len(),
{
    if segs.len() == 0 || !m.contains_key(segs[0]) {
        m
    } else if segs.len() == 1 {
        m.remove(segs[0])
    } else {
        match m[segs[0]] {
            Val::Complex(c) => m.insert(segs[0], Val::Complex(del_path(c, segs.drop_first()))),
            _ => m,
        }
    }
}

/// The value at `segs` when it is a leaf, that is, not `Complex`.
pub open spec fn leaf_at(m: Map<Seq<char>, Val>, segs: Seq<Seq<char>>) -> Option<Val> {
    match get_path(m, segs) {
        Some(Val::Complex(_)) => None,
        r => r,
    }
}

/// The views of a sequence of strings.
pub open spec fn segs_view(v: Seq<String>) -> Seq<Seq<char>> {
    v.map_values(|x: String| x@)
}

/// Writing a value at a path and then reading that path gives the value back.
pub proof fn law_set_then_get(m: Map<Seq<char>, Val>, segs: Seq<Seq<char>>, v: Val)
    requires
        segs.len() >= 1,
    ensures
        get_path(set_path(m, segs, v), segs) == Some(v),
    decreases segs.len(),
{
    if segs.len() > 1 {
        let child = match m.get(segs[0]) {
            Some(Val::Complex(c)) => c,
            _ => Map::empty(),
        };
        law_set_then_get(child, segs.drop_first(), v);
    }
}

/// Paths of which neither is a prefix of the other address disjoint parts of
/// a tree.
pub open spec fn diverge(p: Seq<Seq<char>>, q: Seq<Seq<char>>) -> bool {
    !p.is_prefix_of(q) && !q.is_prefix_of(p)
}

/// `k` is the qualified, joined path of a leaf of `m` that holds `v`.
pub open spec fn from_leaf(m: Map<Seq<char>, Val>, parent: Option<Seq<char>>, k: Seq<char>, v: Val) -> bool {
    exists|segs: Seq<Seq<char>>| qualify(parent, join(segs)) == k && #[trigger] leaf_at(m, segs) == Some(v)
}

/// `f` is a flat form of `m` under `parent`: every leaf of `m` appears in `f`
/// under its qualified, joined path, and every entry of `f` is such a leaf.
/// Where two leaf paths join to the same text, `f` holds one of them.
pub open spec fn flat_of(m: Map<Seq<char>, Val>, parent: Option<Seq<char>>, f: Map<Seq<char>, Val>) -> bool {
    &&& forall|segs: Seq<Seq<char>>| #[trigger] leaf_at(m, segs) is Some ==> f.contains_key(qualify(parent, join(segs)))
    &&& forall|k: Seq<char>| #[trigger] f.contains_key(k) ==> from_leaf(m, parent, k, f[k])
}

pub proof fn lemma_qualify_cons(parent: Option<Seq<char>>, k: Seq<char>, rest: Seq<Seq<char>>)
    requires
        rest.len() >= 1,
    ensures
        qualify(Some(qualify(parent, k)), join(rest)) == qualify(parent, join(seq![k] + rest)),
{
    let segs = seq![k] + rest;
    assert(segs.drop_first() =~= rest);
    assert(join(segs) == k + seq!['.'] + join(rest));
    match parent {
        Some(p) => {
            assert(p + seq!['.'] + k + seq!['.'] + join(rest) =~= p + seq!['.'] + (k + seq!['.'] + join(rest)));
        },
        None => {},
    }
}

pub proof fn lemma_leaf_cons(m: Map<Seq<char>, Val>, k: Seq<char>, c: Map<Seq<char>, Val>, rest: Seq<Seq<char>>)
    requires
        rest.len() >= 1,
        m.contains_key(k),
        m[k] == Val::Complex(c),
    ensures
        leaf_at(m, seq![k] + rest) == leaf_at(c, rest),
        get_path(m, seq![k] + rest) == get_path(c, rest),
{
    let segs = seq![k] + rest;
    assert(segs.drop_first() =~= rest);
}

/// A path below a leaf reaches nothing.
pub proof fn lemma_leaf_single(m: Map<Seq<char>, Val>, segs: Seq<Seq<char>>)
    requires
        segs.len() >= 1,
        m.contains_key(segs[0]),
        !(m[segs[0]] is Complex),
        leaf_at(m, segs) is Some,
    ensures
        segs =~= seq![segs[0]],
        leaf_at(m, segs) == Some(m[segs[0]]),
{
}

proof fn lemma_prefix_cons(p: Seq<Seq<char>>, q: Seq<Seq<char>>)
    requires
        p.len() >= 1,
        q.len() >= 1,
        p[0] == q[0],
        p.drop_first().is_prefix_of(q.drop_first()),
    ensures
        p.is_prefix_of(q),
{
    let (a, b) = (p.drop_first(), q.drop_first());
    assert forall|j: int| 0 <= j < p.len() implies p[j] == q[j] by {
        if j > 0 {
            assert(p[j] == a[j - 1]);
            assert(a[j - 1] == b.subrange(0, a.len() as int)[j - 1]);
        }
    }
    assert(p =~= q.subrange(0, p.len() as int));
}

/// Writing at one path leaves every diverging path as it was.
pub proof fn law_set_keeps_others(m: Map<Seq<char>, Val>, segs: Seq<Seq<char>>, v: Val, q: Seq<Seq<char>>)
    requires
        segs.len() >= 1,
        q.len() >= 1,
        diverge(segs, q),
    ensures
        get_path(set_path(m, segs, v), q) == get_path(m, q),
    decreases segs.len(),
{
    if segs[0] != q[0] {
        assert(set_path(m, segs, v).contains_key(q[0]) == m.contains_key(q[0]));
    } else {
        if segs.len() == 1 {
            assert(segs =~= q.subrange(0, 1));
        }
        if q.len() == 1 {
            assert(q =~= segs.subrange(0, 1));
        }
        let child = match m.get(segs[0]) {
            Some(Val::Complex(c)) => c,
            _ => Map::empty(),
        };
        let (a, b) = (segs.drop_first(), q.drop_first());
        assert(!a.is_prefix_of(b)) by {
            if a.is_prefix_of(b) {
                lemma_prefix_cons(segs, q);
            }
        }
        assert(!b.is_prefix_of(a)) by {
            if b.is_prefix_of(a) {
                lemma_prefix_cons(q, segs);
            }
        }
        law_set_keeps_others(child, a, v, b);
        match m.get(segs[0]) {
            Some(Val::Complex(c)) => {},
            _ => {
                assert(get_path(child, b) is None);
            },
        }
    }
}

/// After a path is deleted, reading it finds nothing.
pub proof fn law_delete_then_get(m: Map<Seq<char>, Val>, segs: Seq<Seq<char>>)
    requires
        segs.len() >= 1,
    ensures
        get_path(del_path(m, segs), segs) is None,
    decreases segs.len(),
{
    if segs.len() > 1 && m.contains_key(segs[0]) {
        if let Val::Complex(c) = m[segs[0]] {
            law_delete_then_get(c, segs.drop_first());
        }
    }
}

/// Deleting one path leaves every diverging path, such as a sibling, as it was.
pub proof fn law_delete_keeps_others(m: Map<Seq<char>, Val>, segs: Seq<Seq<char>>, q: Seq<Seq<char>>)
    requires
        segs.len() >= 1,
        q.len() >= 1,
        diverge(segs, q),
    ensures
        get_path(del_path(m, segs), q) == get_path(m, q),
    decreases segs.len(),
{
    if segs[0] != q[0] {
        assert(del_path(m, segs).contains_key(q[0]) == m.contains_key(q[0]));
    } else {
        if segs.len() == 1 {
            assert(segs =~= q.subrange(0, 1));
        }
        if q.len() == 1 {
            assert(q =~= segs.subrange(0, 1));
        }
        let (a, b) = (segs.drop_first(), q.drop_first());
        assert(!a.is_prefix_of(b)) by {
            if a.is_prefix_of(b) {
                lemma_prefix_cons(segs, q);
            }
        }
        assert(!b.is_prefix_of(a)) by {
            if b.is_prefix_of(a) {
                lemma_prefix_cons(q, segs);
            }
        }
        if m.contains_key(segs[0]) {
            if let Val::Complex(c) = m[segs[0]] {
                law_delete_keeps_others(c, a, b);
            }
        }
    }
}

pub proof fn lemma_split_nonempty(s: Seq<char>)
    ensures
        split(s).len() >= 1,
    decreases s.len(),
{
    if s.len() > 0 {
        lemma_split_nonempty(s.drop_first());
    }
}

/// Splitting text that starts with a dot-free run `s[a..b]`.
proof fn lemma_split_run(s: Seq<char>, a: int, b: int)
    requires
        0 <= a <= b <= s.len(),
        forall|j: int| a <= j < b ==> s[j] != '.',
    ensures
        split(s.subrange(a, s.len() as int)) == seq![s.subrange(a, b) + split(s.subrange(b, s.len() as int))[0]]
            + split(s.subrange(b, s.len() as int)).drop_first(),
    decreases b - a,
{
    let t = s.subrange(a, s.len() as int);
    let u = s.subrange(b, s.len() as int);
    lemma_split_nonempty(u);
    if a == b {
        assert(s.subrange(a, b) =~= Seq::<char>::empty());
        assert(seq![Seq::<char>::empty() + split(u)[0]] + split(u).drop_first() =~= split(u)) by {
            assert(Seq::<char>::empty() + split(u)[0] =~= split(u)[0]);
        }
    } else {
        lemma_split_run(s, a + 1, b);
        let t1 = s.subrange(a + 1, s.len() as int);
        assert(t.drop_first() =~= t1);
        lemma_split_nonempty(t1);
        assert(s.subrange(a, b) =~= seq![s[a]] + s.subrange(a + 1, b));
        assert(split(t) =~= split(t1).update(0, seq![s[a]] + split(t1)[0]));
        assert(seq![s[a]] + (s.subrange(a + 1, b) + split(u)[0]) =~= s.subrange(a, b) + split(u)[0]);
    }
}

/// The segments of `path`, split at each dot.
pub fn split_path(path: &str) -> (r: Vec<String>)
    ensures
        segs_view(r@) == split(path@),
        r@.len() >= 1,
{
    proof {
        lemma_split_nonempty(path@);
    }
    let n = path.unicode_len();
    let mut out: Vec<String> = Vec::new();
    let mut start: usize = 0;
    let mut i: usize = 0;
    proof {
        assert(path@.subrange(0, n as int) =~= path@);
        assert(out@.map_values(|x: String| x@) + split(path@) =~= split(path@));
    }
    while i < n
        invariant
            n == path@.len(),
            start <= i <= n,
            forall|j: int| start <= j < i ==> path@[j] != '.',
            out@.map_values(|x: String| x@) + split(path@.subrange(start as int, n as int)) == split(path@),
        decreases n - i,
    {
        let c = path.get_char(i);
        if c == '.' {
            let seg = path.substring_char(start, i).to_owned();
            proof {
                let s = path@;
                lemma_split_run(s, start as int, i as int);
                let u = s.subrange(i as int, n as int);
                let w = s.subrange(i + 1, n as int);
                assert(u.drop_first() =~= w);
                assert(split(u) == seq![Seq::<char>::empty()] + split(w));
                assert(split(u)[0] == Seq::<char>::empty());
                assert(split(u).drop_first() =~= split(w));
                assert(s.subrange(start as int, i as int) + Seq::<char>::empty() =~= seg@);
                assert(out@.push(seg).map_values(|x: String| x@) =~= out@.map_values(|x: String| x@).push(seg@));
                assert(out@.map_values(|x: String| x@).push(seg@) + split(w) =~= out@.map_values(|x: String| x@) + (seq![seg@] + split(w)));
            }
            out.push(seg);
            start = i + 1;
        }
        i = i + 1;
    }
    let seg = path.substring_char(start, n).to_owned();
    proof {
        let s = path@;
        lemma_split_run(s, start as int, n as int);
        let u = s.subrange(n as int, n as int);
        assert(u =~= Seq::<char>::empty());
        assert(split(u) == seq![Seq::<char>::empty()]);
        assert(split(u).drop_first() =~= Seq::<Seq<char>>::empty());
        assert(s.subrange(start as int, n as int) + Seq::<char>::empty() =~= seg@);
        assert(out@.push(seg).map_values(|x: String| x@) =~= out@.map_values(|x: String| x@) + seq![seg@]);
    }
    out.push(seg);
    out
}

} // verus!
