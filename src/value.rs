use vstd::prelude::*;
use crate::path::{flat_of, from_leaf, join, leaf_at, lemma_leaf_cons, lemma_leaf_single, lemma_qualify_cons, qualify};

verus! {

broadcast use vstd::std_specs::vec::group_vec_axioms;

/// Mathematical model of a stored value.
pub enum Val {
    Text(Seq<char>),
    Switch(bool),
    Int(i32),
    Float(u32),
    Complex(Map<Seq<char>, Val>),
    Array(Seq<Val>),
    Blank,
}

/// A value stored in a settings tree.
///
/// `Float` holds the IEEE-754 bit pattern of a 32-bit float; `Blank` marks
/// the absence of a value.
#[derive(Debug)]
pub enum Type {
    Text(String),
    Switch(bool),
    Int(i32),
    Float(u32),
    Complex(Dict),
    Array(Vec<Type>),
    Blank,
}

/// A mapping from string keys to values in which each key occurs at most once.
/// Its entries keep the order in which their keys were first inserted.
#[derive(Debug)]
pub struct Dict {
    entries: Vec<(String, Type)>,
}

pub open spec fn val_of(t: Type) -> Val
    decreases t,
{
    match t {
        Type::Text(s) => Val::Text(s@),
        Type::Switch(b) => Val::Switch(b),
        Type::Int(i) => Val::Int(i),
        Type::Float(f) => Val::Float(f),
        Type::Complex(d) => Val::Complex(dict_view(d)),
        Type::Array(a) => Val::Array(vals_of(a@)),
        Type::Blank => Val::Blank,
    }
}

/// The models of a sequence of values, element by element.
pub open spec fn vals_of(s: Seq<Type>) -> Seq<Val>
    decreases s,
{
    if s.len() == 0 {
        Seq::empty()
    } else {
        vals_of(s.drop_last()).push(val_of(s.last()))
    }
}

/// The mapping that a dictionary holds.
pub closed spec fn dict_view(d: Dict) -> Map<Seq<char>, Val>
    decreases d,
{
    entries_map(d.entries@)
}

spec fn entries_map(s: Seq<(String, Type)>) -> Map<Seq<char>, Val>
    decreases s,
{
    if s.len() == 0 {
        Map::empty()
    } else {
        entries_map(s.drop_last()).insert(s.last().0@, val_of(s.last().1))
    }
}

impl View for Type {
    type V = Val;

    open spec fn view(&self) -> Val {
        val_of(*self)
    }
}

impl View for Dict {
    type V = Map<Seq<char>, Val>;

    open spec fn view(&self) -> Map<Seq<char>, Val> {
        dict_view(*self)
    }
}

spec fn keys_of(s: Seq<(String, Type)>) -> Seq<Seq<char>> {
    s.map_values(|e: (String, Type)| e.0@)
}

proof fn lemma_entries_map(s: Seq<(String, Type)>)
    requires
        keys_of(s).no_duplicates(),
    ensures
        forall|k: Seq<char>| #[trigger]
            entries_map(s).contains_key(k) <==> keys_of(s).contains(k),
        forall|i: int|
            0 <= i < s.len() ==> #[trigger] entries_map(s)[s[i].0@] == val_of(s[i].1),
    decreases s.len(),
{
    if s.len() > 0 {
        let p = s.drop_last();
        assert(keys_of(p) =~= keys_of(s).drop_last());
        lemma_entries_map(p);
        assert forall|k: Seq<char>| #[trigger]
            entries_map(s).contains_key(k) <==> keys_of(s).contains(k) by {
            if keys_of(s).contains(k) {
                let i = choose|i: int| 0 <= i < keys_of(s).len() && keys_of(s)[i] == k;
                if i < p.len() {
                    assert(keys_of(p)[i] == k);
                }
            }
            if keys_of(p).contains(k) {
                let i = choose|i: int| 0 <= i < keys_of(p).len() && keys_of(p)[i] == k;
                assert(keys_of(s)[i] == k);
            }
            assert(keys_of(s)[s.len() - 1] == s.last().0@);
        }
        assert forall|i: int| 0 <= i < s.len() implies #[trigger] entries_map(s)[s[i].0@] == val_of(s[i].1) by {
            if i < s.len() - 1 {
                assert(keys_of(s)[i] != keys_of(s)[s.len() - 1]);
                assert(p[i] == s[i]);
            }
        }
    }
}

impl Dict {
    #[verifier::type_invariant]
    spec fn inv(&self) -> bool {
        keys_of(self.entries@).no_duplicates()
    }

    /// The keys of the dictionary, in the order of its entries.
    pub closed spec fn key_seq(&self) -> Seq<Seq<char>> {
        keys_of(self.entries@)
    }

    /// An empty dictionary.
    pub fn new() -> (r: Dict)
        ensures
            r@ == Map::<Seq<char>, Val>::empty(),
            r.key_seq() == Seq::<Seq<char>>::empty(),
    {
        let r = Dict { entries: Vec::new() };
        assert(keys_of(r.entries@) =~= Seq::<Seq<char>>::empty());
        r
    }

    /// The number of entries; also states how the keys relate to the mapping.
    pub fn len(&self) -> (r: usize)
        ensures
            r == self.key_seq().len(),
            self.key_seq().no_duplicates(),
            forall|k: Seq<char>| #[trigger] self@.contains_key(k) <==> self.key_seq().contains(k),
            self@.dom().finite(),
    {
        proof {
            use_type_invariant(self);
            lemma_entries_map(self.entries@);
            self.lemma_finite();
        }
        self.entries.len()
    }

    proof fn lemma_finite(&self)
        ensures
            self@.dom().finite(),
    {
        lemma_entries_map_finite(self.entries@);
    }

    /// True when the dictionary holds no key.
    pub fn is_empty(&self) -> (r: bool)
        ensures
            r == (self@.dom() == Set::<Seq<char>>::empty()),
    {
        proof {
            use_type_invariant(self);
            lemma_entries_map(self.entries@);
            if self.entries@.len() > 0 {
                assert(keys_of(self.entries@)[0] == self.entries@[0].0@);
                assert(self@.contains_key(self.entries@[0].0@));
            }
        }
        let r = self.entries.len() == 0;
        proof {
            if r {
                assert(self@.dom() =~= Set::<Seq<char>>::empty());
            }
        }
        r
    }

    /// The key and value of the entry at position `i`.
    pub fn entry(&self, i: usize) -> (r: (&String, &Type))
        requires
            i < self.key_seq().len(),
        ensures
            r.0@ == self.key_seq()[i as int],
            self@.contains_key(r.0@),
            r.1@ == self@[r.0@],
    {
        proof {
            use_type_invariant(self);
            lemma_entries_map(self.entries@);
        }
        let e = &self.entries[i];
        assert(keys_of(self.entries@)[i as int] == e.0@);
        (&e.0, &e.1)
    }

    fn find(&self, key: &String) -> (r: Option<usize>)
        ensures
            match r {
                Some(i) => i < self.entries@.len() && self.entries@[i as int].0@ == key@,
                None => !self@.contains_key(key@),
            },
    {
        proof {
            use_type_invariant(self);
            lemma_entries_map(self.entries@);
        }
        let mut i: usize = 0;
        while i < self.entries.len()
            invariant
                i <= self.entries@.len(),
                forall|j: int| 0 <= j < i ==> self.entries@[j].0@ != key@,
            decreases self.entries@.len() - i,
        {
            if self.entries[i].0 == *key {
                return Some(i);
            }
            i = i + 1;
        }
        proof {
            if self@.contains_key(key@) {
                let j = choose|j: int| 0 <= j < keys_of(self.entries@).len() && keys_of(self.entries@)[j] == key@;
                assert(self.entries@[j].0@ == key@);
            }
        }
        None
    }

    /// The value stored under `key`, if any.
    pub fn get(&self, key: &str) -> (r: Option<&Type>)
        ensures
            match r {
                Some(v) => self@.contains_key(key@) && v@ == self@[key@],
                None => !self@.contains_key(key@),
            },
    {
        let k = key.to_owned();
        self.get_key(&k)
    }

    /// The value stored under `key`, if any.
    pub fn get_key(&self, key: &String) -> (r: Option<&Type>)
        ensures
            match r {
                Some(v) => self@.contains_key(key@) && v@ == self@[key@],
                None => !self@.contains_key(key@),
            },
    {
        proof {
            use_type_invariant(self);
            lemma_entries_map(self.entries@);
        }
        match self.find(key) {
            Some(i) => {
                assert(keys_of(self.entries@)[i as int] == key@);
                Some(&self.entries[i].1)
            },
            None => None,
        }
    }

    /// True when `key` is stored in the dictionary.
    pub fn contains_key(&self, key: &String) -> (r: bool)
        ensures
            r == self@.contains_key(key@),
    {
        match self.get_key(key) {
            Some(_) => true,
            None => false,
        }
    }

    /// Stores `value` under `key` and returns the value it replaces. A new key
    /// goes after the existing ones; a replaced key keeps its position.
    pub fn insert(&mut self, key: String, value: Type) -> (r: Option<Type>)
        ensures
            final(self)@ == old(self)@.insert(key@, value@),
            match r {
                Some(v) => old(self)@.contains_key(key@) && v@ == old(self)@[key@],
                None => !old(self)@.contains_key(key@),
            },
            old(self)@.contains_key(key@) ==> final(self).key_seq() == old(self).key_seq(),
            !old(self)@.contains_key(key@) ==> final(self).key_seq() == old(self).key_seq().push(key@),
    {
        proof {
            use_type_invariant(&*self);
            lemma_entries_map(self.entries@);
        }
        let ghost old_entries = self.entries@;
        match self.find(&key) {
            Some(i) => {
                let mut taken = Dict::new();
                std::mem::swap(self, &mut taken);
                let Dict { entries: mut entries } = taken;
                let mut prev = value;
                std::mem::swap(&mut entries[i].1, &mut prev);
                proof {
                    let s = entries@;
                    assert(s =~= old_entries.update(i as int, s[i as int]));
                    assert(keys_of(s) =~= keys_of(old_entries));
                    lemma_entries_map(s);
                    assert(keys_of(old_entries)[i as int] == key@);
                    assert forall|k: Seq<char>| #[trigger] entries_map(s).contains_key(k) == old(self)@.insert(key@, value@).contains_key(k) by {}
                    assert forall|k: Seq<char>| entries_map(s).contains_key(k) implies #[trigger] entries_map(s)[k] == old(self)@.insert(key@, value@)[k] by {
                        let j = choose|j: int| 0 <= j < keys_of(s).len() && keys_of(s)[j] == k;
                        assert(s[j].0@ == k);
                        if j != i {
                            assert(old_entries[j] == s[j]);
                        }
                    }
                    assert(entries_map(s) =~= old(self)@.insert(key@, value@));
                }
                *self = Dict { entries };
                Some(prev)
            },
            None => {
                let mut taken = Dict::new();
                std::mem::swap(self, &mut taken);
                let Dict { entries: mut entries } = taken;
                entries.push((key, value));
                proof {
                    let s = entries@;
                    assert(s.drop_last() =~= old_entries);
                    assert(keys_of(s) =~= keys_of(old_entries).push(key@));
                    assert(!keys_of(old_entries).contains(key@));
                }
                *self = Dict { entries };
                None
            },
        }
    }

    /// Removes `key` and returns the value it held. The other entries keep
    /// their order.
    pub fn remove(&mut self, key: &str) -> (r: Option<Type>)
        ensures
            final(self)@ == old(self)@.remove(key@),
            match r {
                Some(v) => old(self)@.contains_key(key@) && v@ == old(self)@[key@],
                None => !old(self)@.contains_key(key@),
            },
    {
        let k = key.to_owned();
        self.remove_key(&k)
    }

    /// Removes `key` and returns the value it held.
    pub fn remove_key(&mut self, key: &String) -> (r: Option<Type>)
        ensures
            final(self)@ == old(self)@.remove(key@),
            match r {
                Some(v) => old(self)@.contains_key(key@) && v@ == old(self)@[key@],
                None => !old(self)@.contains_key(key@),
            },
    {
        proof {
            use_type_invariant(&*self);
            lemma_entries_map(self.entries@);
        }
        let ghost old_entries = self.entries@;
        match self.find(key) {
            Some(i) => {
                let mut taken = Dict::new();
                std::mem::swap(self, &mut taken);
                let Dict { entries: mut entries } = taken;
                let (_, prev) = entries.remove(i);
                proof {
                    let s = entries@;
                    assert(s =~= old_entries.remove(i as int));
                    assert(keys_of(s) =~= keys_of(old_entries).remove(i as int));
                    assert(keys_of(old_entries)[i as int] == key@);
                    assert forall|a: int, b: int| 0 <= a < b < keys_of(s).len() implies keys_of(s)[a] != keys_of(s)[b] by {
                        let a2 = if a < i { a } else { a + 1 };
                        let b2 = if b < i { b } else { b + 1 };
                        assert(keys_of(s)[a] == keys_of(old_entries)[a2]);
                        assert(keys_of(s)[b] == keys_of(old_entries)[b2]);
                    }
                    lemma_entries_map(s);
                    assert forall|k: Seq<char>| #[trigger] entries_map(s).contains_key(k) == old(self)@.remove(key@).contains_key(k) by {
                        if keys_of(s).contains(k) {
                            let j = choose|j: int| 0 <= j < keys_of(s).len() && keys_of(s)[j] == k;
                            let j2 = if j < i { j } else { j + 1 };
                            assert(keys_of(old_entries)[j2] == k);
                        }
                        if old(self)@.remove(key@).contains_key(k) {
                            let j = choose|j: int| 0 <= j < keys_of(old_entries).len() && keys_of(old_entries)[j] == k;
                            let j2 = if j < i { j } else { j - 1 };
                            assert(keys_of(s)[j2] == k);
                        }
                    }
                    assert forall|k: Seq<char>| entries_map(s).contains_key(k) implies #[trigger] entries_map(s)[k] == old(self)@.remove(key@)[k] by {
                        let j = choose|j: int| 0 <= j < keys_of(s).len() && keys_of(s)[j] == k;
                        let j2 = if j < i { j } else { j + 1 };
                        assert(s[j] == old_entries[j2]);
                    }
                    assert(entries_map(s) =~= old(self)@.remove(key@));
                }
                *self = Dict { entries };
                Some(prev)
            },
            None => {
                assert(old(self)@.remove(key@) =~= old(self)@);
                None
            },
        }
    }
}

proof fn lemma_vals_of(s: Seq<Type>)
    ensures
        vals_of(s).len() == s.len(),
        forall|i: int| 0 <= i < s.len() ==> #[trigger] vals_of(s)[i] == val_of(s[i]),
    decreases s.len(),
{
    if s.len() > 0 {
        lemma_vals_of(s.drop_last());
        assert forall|i: int| 0 <= i < s.len() implies #[trigger] vals_of(s)[i] == val_of(s[i]) by {
            if i < s.len() - 1 {
                assert(s.drop_last()[i] == s[i]);
            }
        }
    }
}

/// Two sequences of values with the same models, element by element.
proof fn lemma_vals_of_eq(s: Seq<Type>, t: Seq<Type>)
    requires
        s.len() == t.len(),
        forall|i: int| 0 <= i < s.len() ==> val_of(#[trigger] s[i]) == val_of(t[i]),
    ensures
        vals_of(s) == vals_of(t),
{
    lemma_vals_of(s);
    lemma_vals_of(t);
    assert(vals_of(s) =~= vals_of(t));
}

fn copy_value(t: &Type) -> (r: Type)
    ensures
        r@ == t@,
    decreases t,
{
    match t {
        Type::Text(s) => Type::Text(s.clone()),
        Type::Switch(b) => Type::Switch(*b),
        Type::Int(i) => Type::Int(*i),
        Type::Float(f) => Type::Float(*f),
        Type::Complex(d) => Type::Complex(copy_dict(d)),
        Type::Array(a) => Type::Array(copy_vec(a)),
        Type::Blank => Type::Blank,
    }
}

fn copy_vec(a: &Vec<Type>) -> (r: Vec<Type>)
    ensures
        vals_of(r@) == vals_of(a@),
        r@.len() == a@.len(),
    decreases a,
{
    let mut out: Vec<Type> = Vec::new();
    let mut i: usize = 0;
    while i < a.len()
        invariant
            i <= a@.len(),
            out@.len() == i,
            forall|j: int| 0 <= j < i ==> val_of(#[trigger] out@[j]) == val_of(a@[j]),
        decreases a@.len() - i,
    {
        assert(decreases_to!(a => a@[i as int]));
        let c = copy_value(&a[i]);
        out.push(c);
        i = i + 1;
    }
    proof {
        lemma_vals_of_eq(out@, a@);
    }
    out
}

fn copy_dict(d: &Dict) -> (r: Dict)
    ensures
        r@ == d@,
        r.key_seq() == d.key_seq(),
    decreases d,
{
    proof {
        use_type_invariant(d);
    }
    let mut out: Vec<(String, Type)> = Vec::new();
    let mut i: usize = 0;
    while i < d.entries.len()
        invariant
            i <= d.entries@.len(),
            out@.len() == i,
            entries_map(out@) == entries_map(d.entries@.subrange(0, i as int)),
            keys_of(out@) == keys_of(d.entries@.subrange(0, i as int)),
        decreases d.entries@.len() - i,
    {
        assert(decreases_to!(d => d.entries@[i as int].1));
        let k = d.entries[i].0.clone();
        let v = copy_value(&d.entries[i].1);
        let ghost before = out@;
        out.push((k, v));
        proof {
            let next = d.entries@.subrange(0, i + 1);
            assert(next.drop_last() =~= d.entries@.subrange(0, i as int));
            assert(out@.drop_last() =~= before);
            assert(keys_of(out@) =~= keys_of(before).push(out@[i as int].0@));
            assert(keys_of(next) =~= keys_of(d.entries@.subrange(0, i as int)).push(next[i as int].0@));
            assert(keys_of(out@) =~= keys_of(next));
        }
        i = i + 1;
    }
    assert(d.entries@.subrange(0, i as int) =~= d.entries@);
    Dict { entries: out }
}

fn same_value(a: &Type, b: &Type) -> (r: bool)
    ensures
        r == (a@ == b@),
    decreases a,
{
    match (a, b) {
        (Type::Text(x), Type::Text(y)) => *x == *y,
        (Type::Switch(x), Type::Switch(y)) => *x == *y,
        (Type::Int(x), Type::Int(y)) => *x == *y,
        (Type::Float(x), Type::Float(y)) => *x == *y,
        (Type::Complex(x), Type::Complex(y)) => same_dict(x, y),
        (Type::Array(x), Type::Array(y)) => same_vec(x, y),
        (Type::Blank, Type::Blank) => true,
        _ => false,
    }
}

fn same_vec(a: &Vec<Type>, b: &Vec<Type>) -> (r: bool)
    ensures
        r == (vals_of(a@) == vals_of(b@)),
    decreases a,
{
    proof {
        lemma_vals_of(a@);
        lemma_vals_of(b@);
    }
    if a.len() != b.len() {
        return false;
    }
    let mut i: usize = 0;
    while i < a.len()
        invariant
            i <= a@.len(),
            a@.len() == b@.len(),
            forall|j: int| 0 <= j < i ==> val_of(#[trigger] a@[j]) == val_of(b@[j]),
        decreases a@.len() - i,
    {
        assert(decreases_to!(a => a@[i as int]));
        proof {
            lemma_vals_of(a@);
            lemma_vals_of(b@);
        }
        if !same_value(&a[i], &b[i]) {
            assert(vals_of(a@)[i as int] != vals_of(b@)[i as int]);
            return false;
        }
        i = i + 1;
    }
    proof {
        lemma_vals_of_eq(a@, b@);
    }
    true
}

fn same_dict(a: &Dict, b: &Dict) -> (r: bool)
    ensures
        r == (a@ == b@),
    decreases a,
{
    proof {
        use_type_invariant(a);
        use_type_invariant(b);
        lemma_entries_map(a.entries@);
        lemma_entries_map(b.entries@);
    }
    let mut i: usize = 0;
    while i < a.entries.len()
        invariant
            i <= a.entries@.len(),
            forall|j: int| 0 <= j < i ==> #[trigger] b@.contains_key(a.entries@[j].0@),
            forall|j: int| 0 <= j < i ==> b@[#[trigger] a.entries@[j].0@] == a@[a.entries@[j].0@],
        decreases a.entries@.len() - i,
    {
        proof {
            use_type_invariant(a);
            lemma_entries_map(a.entries@);
        }
        assert(decreases_to!(a => a.entries@[i as int].1));
        assert(keys_of(a.entries@)[i as int] == a.entries@[i as int].0@);
        match b.get_key(&a.entries[i].0) {
            Some(w) => {
                if !same_value(&a.entries[i].1, w) {
                    return false;
                }
            },
            None => {
                return false;
            },
        }
        i = i + 1;
    }
    let mut j: usize = 0;
    while j < b.entries.len()
        invariant
            j <= b.entries@.len(),
            forall|m: int| 0 <= m < j ==> #[trigger] a@.contains_key(b.entries@[m].0@),
        decreases b.entries@.len() - j,
    {
        proof {
            use_type_invariant(b);
            lemma_entries_map(b.entries@);
        }
        assert(keys_of(b.entries@)[j as int] == b.entries@[j as int].0@);
        if !a.contains_key(&b.entries[j].0) {
            assert(b@.contains_key(b.entries@[j as int].0@));
            return false;
        }
        j = j + 1;
    }
    proof {
        use_type_invariant(a);
        use_type_invariant(b);
        lemma_entries_map(a.entries@);
        lemma_entries_map(b.entries@);
        assert forall|k: Seq<char>| #[trigger] a@.contains_key(k) == b@.contains_key(k) by {
            if a@.contains_key(k) {
                let m = choose|m: int| 0 <= m < keys_of(a.entries@).len() && keys_of(a.entries@)[m] == k;
                assert(a.entries@[m].0@ == k);
            }
            if b@.contains_key(k) {
                let m = choose|m: int| 0 <= m < keys_of(b.entries@).len() && keys_of(b.entries@)[m] == k;
                assert(b.entries@[m].0@ == k);
            }
        }
        assert forall|k: Seq<char>| a@.contains_key(k) implies #[trigger] a@[k] == b@[k] by {
            let m = choose|m: int| 0 <= m < keys_of(a.entries@).len() && keys_of(a.entries@)[m] == k;
            assert(a.entries@[m].0@ == k);
        }
        assert(a@ =~= b@);
    }
    true
}

impl Clone for Type {
    /// A deep copy.
    fn clone(&self) -> (r: Type)
        ensures
            r@ == self@,
    {
        copy_value(self)
    }
}

impl Clone for Dict {
    /// A deep copy that keeps the order of the entries.
    fn clone(&self) -> (r: Dict)
        ensures
            r@ == self@,
            r.key_seq() == self.key_seq(),
    {
        copy_dict(self)
    }
}

impl PartialEq for Type {
    fn eq(&self, other: &Type) -> (r: bool) {
        same_value(self, other)
    }
}

impl vstd::std_specs::cmp::PartialEqSpecImpl for Type {
    open spec fn obeys_eq_spec() -> bool {
        true
    }

    open spec fn eq_spec(&self, other: &Type) -> bool {
        self@ == other@
    }
}

impl PartialEq for Dict {
    fn eq(&self, other: &Dict) -> (r: bool) {
        same_dict(self, other)
    }
}

impl vstd::std_specs::cmp::PartialEqSpecImpl for Dict {
    open spec fn obeys_eq_spec() -> bool {
        true
    }

    open spec fn eq_spec(&self, other: &Dict) -> bool {
        self@ == other@
    }
}

/// The model of an optional parent path.
pub open spec fn parent_view(p: Option<String>) -> Option<Seq<char>> {
    match p {
        Some(s) => Some(s@),
        None => None,
    }
}

fn qualified(parent: &Option<String>, key: &String) -> (r: String)
    ensures
        r@ == qualify(parent_view(*parent), key@),
{
    match parent {
        Some(p) => {
            let q = p.clone().concat(".");
            proof {
                reveal_strlit(".");
            }
            q.concat(key.as_str())
        },
        None => key.clone(),
    }
}

impl Dict {
    /// Adds to `out` every leaf below this dictionary, each under its path
    /// joined with dots and prefixed by `parent`.
    pub fn flatten_into(&self, parent: &Option<String>, out: &mut Dict)
        ensures
            forall|segs: Seq<Seq<char>>| #[trigger] leaf_at(self@, segs) is Some
                ==> final(out)@.contains_key(qualify(parent_view(*parent), join(segs))),
            forall|k: Seq<char>| old(out)@.contains_key(k) ==> #[trigger] final(out)@.contains_key(k),
            forall|k: Seq<char>| #[trigger] final(out)@.contains_key(k) ==>
                from_leaf(self@, parent_view(*parent), k, final(out)@[k])
                || (old(out)@.contains_key(k) && final(out)@[k] == old(out)@[k]),
        decreases self,
    {
        let ghost pv = parent_view(*parent);
        let ghost m = self@;
        let ghost keys = keys_of(self.entries@);
        proof {
            use_type_invariant(self);
            lemma_entries_map(self.entries@);
            assert forall|j: int| 0 <= j < self.entries@.len() implies m.contains_key(#[trigger] self.entries@[j].0@) && m[self.entries@[j].0@] == val_of(self.entries@[j].1) by {
                assert(keys_of(self.entries@)[j] == self.entries@[j].0@);
            }
        }
        let mut i: usize = 0;
        while i < self.entries.len()
            invariant
                i <= self.entries@.len(),
                m == self@,
                pv == parent_view(*parent),
                keys == keys_of(self.entries@),
                keys.len() == self.entries@.len(),
                forall|j: int| 0 <= j < self.entries@.len() ==> #[trigger] keys[j] == self.entries@[j].0@,
                forall|j: int| 0 <= j < self.entries@.len() ==> m.contains_key(#[trigger] self.entries@[j].0@) && m[self.entries@[j].0@] == val_of(self.entries@[j].1),
                forall|k: Seq<char>| #[trigger] m.contains_key(k) <==> keys.contains(k),
                forall|segs: Seq<Seq<char>>| #[trigger] leaf_at(m, segs) is Some && keys.subrange(0, i as int).contains(segs[0])
                    ==> out@.contains_key(qualify(pv, join(segs))),
                forall|k: Seq<char>| old(out)@.contains_key(k) ==> #[trigger] out@.contains_key(k),
                forall|k: Seq<char>| #[trigger] out@.contains_key(k) ==>
                    from_leaf(m, pv, k, out@[k]) || (old(out)@.contains_key(k) && out@[k] == old(out)@[k]),
            decreases self.entries@.len() - i,
        {
            let ghost before = out@;
            let key = &self.entries[i].0;
            let value = &self.entries[i].1;
            let q = qualified(parent, key);
            let ghost qv = q@;
            proof {
                assert(m[key@] == value@);
            }
            match value {
                Type::Complex(c) => {
                    assert(decreases_to!(self => self.entries@[i as int].1));
                    let inner = Some(q);
                    c.flatten_into(&inner, out);
                    proof {
                        assert forall|segs: Seq<Seq<char>>| #[trigger] leaf_at(m, segs) is Some && keys.subrange(0, i + 1).contains(segs[0])
                            implies out@.contains_key(qualify(pv, join(segs))) by {
                            let j = choose|j: int| 0 <= j < i + 1 && #[trigger] keys.subrange(0, i + 1)[j] == segs[0];
                            if j < i {
                                assert(keys.subrange(0, i as int)[j] == segs[0]);
                                assert(before.contains_key(qualify(pv, join(segs))));
                            } else {
                                assert(keys[i as int] == key@);
                                let rest = segs.drop_first();
                                assert(segs =~= seq![key@] + rest);
                                if rest.len() == 0 {
                                    assert(leaf_at(m, segs) is None);
                                }
                                assert(m[key@] == Val::Complex(c@));
                                lemma_leaf_cons(m, key@, c@, rest);
                                lemma_qualify_cons(pv, key@, rest);
                                assert(out@.contains_key(qualify(pv, join(segs))));
                            }
                        }
                        assert forall|k: Seq<char>| #[trigger] out@.contains_key(k) implies
                            from_leaf(m, pv, k, out@[k]) || (old(out)@.contains_key(k) && out@[k] == old(out)@[k]) by {
                            if from_leaf(c@, Some(qv), k, out@[k]) {
                                let rest = choose|rest: Seq<Seq<char>>| qualify(Some(qv), join(rest)) == k && #[trigger] leaf_at(c@, rest) == Some(out@[k]);
                                assert(rest.len() >= 1);
                                lemma_leaf_cons(m, key@, c@, rest);
                                lemma_qualify_cons(pv, key@, rest);
                                assert(leaf_at(m, seq![key@] + rest) == Some(out@[k]));
                            } else {
                                assert(before.contains_key(k));
                            }
                        }
                    }
                },
                _ => {
                    let copy = value.clone();
                    out.insert(q, copy);
                    proof {
                        assert(join(seq![key@]) == key@);
                        assert(leaf_at(m, seq![key@]) == Some(value@));
                        assert(from_leaf(m, pv, q@, value@));
                        assert forall|segs: Seq<Seq<char>>| #[trigger] leaf_at(m, segs) is Some && keys.subrange(0, i + 1).contains(segs[0])
                            implies out@.contains_key(qualify(pv, join(segs))) by {
                            let j = choose|j: int| 0 <= j < i + 1 && #[trigger] keys.subrange(0, i + 1)[j] == segs[0];
                            if j < i {
                                assert(keys.subrange(0, i as int)[j] == segs[0]);
                                assert(before.contains_key(qualify(pv, join(segs))));
                            } else {
                                assert(keys[i as int] == key@);
                                lemma_leaf_single(m, segs);
                            }
                        }
                    }
                },
            }
            i = i + 1;
        }
        proof {
            assert(keys.subrange(0, i as int) =~= keys);
            assert forall|segs: Seq<Seq<char>>| #[trigger] leaf_at(m, segs) is Some
                implies out@.contains_key(qualify(pv, join(segs))) by {
                assert(m.contains_key(segs[0]));
            }
        }
    }
}

impl Type {
    pub fn is_text(&self) -> (r: bool)
        ensures
            r == (self@ is Text),
    {
        match self {
            Type::Text(_) => true,
            _ => false,
        }
    }

    pub fn is_switch(&self) -> (r: bool)
        ensures
            r == (self@ is Switch),
    {
        match self {
            Type::Switch(_) => true,
            _ => false,
        }
    }

    pub fn is_int(&self) -> (r: bool)
        ensures
            r == (self@ is Int),
    {
        match self {
            Type::Int(_) => true,
            _ => false,
        }
    }

    pub fn is_float(&self) -> (r: bool)
        ensures
            r == (self@ is Float),
    {
        match self {
            Type::Float(_) => true,
            _ => false,
        }
    }

    pub fn is_complex(&self) -> (r: bool)
        ensures
            r == (self@ is Complex),
    {
        match self {
            Type::Complex(_) => true,
            _ => false,
        }
    }

    pub fn is_array(&self) -> (r: bool)
        ensures
            r == (self@ is Array),
    {
        match self {
            Type::Array(_) => true,
            _ => false,
        }
    }

    /// True for the `Blank` marker.
    pub fn is_none(&self) -> (r: bool)
        ensures
            r == (self@ is Blank),
    {
        match self {
            Type::Blank => true,
            _ => false,
        }
    }

    pub fn to_text(&self) -> (r: Option<String>)
        ensures
            match self@ {
                Val::Text(t) => r is Some && r->0@ == t,
                _ => r is None,
            },
    {
        match self {
            Type::Text(s) => Some(s.clone()),
            _ => None,
        }
    }

    pub fn to_switch(&self) -> (r: Option<bool>)
        ensures
            match self@ {
                Val::Switch(b) => r == Some(b),
                _ => r is None,
            },
    {
        match self {
            Type::Switch(b) => Some(*b),
            _ => None,
        }
    }

    pub fn to_int(&self) -> (r: Option<i32>)
        ensures
            match self@ {
                Val::Int(i) => r == Some(i),
                _ => r is None,
            },
    {
        match self {
            Type::Int(i) => Some(*i),
            _ => None,
        }
    }

    /// The bit pattern of a `Float`.
    pub fn to_float(&self) -> (r: Option<u32>)
        ensures
            match self@ {
                Val::Float(f) => r == Some(f),
                _ => r is None,
            },
    {
        match self {
            Type::Float(f) => Some(*f),
            _ => None,
        }
    }

    /// A copy of the mapping of a `Complex`.
    pub fn to_complex(&self) -> (r: Option<Dict>)
        ensures
            match self@ {
                Val::Complex(m) => r is Some && r->0@ == m,
                _ => r is None,
            },
    {
        match self {
            Type::Complex(d) => Some(d.clone()),
            _ => None,
        }
    }

    /// A copy of the elements of an `Array`.
    pub fn to_array(&self) -> (r: Option<Vec<Type>>)
        ensures
            match self@ {
                Val::Array(a) => r is Some && vals_of(r->0@) == a,
                _ => r is None,
            },
    {
        match self {
            Type::Array(a) => Some(copy_vec(a)),
            _ => None,
        }
    }

    pub fn move_it(self) -> (r: Type)
        ensures
            r == self,
    {
        self
    }

    /// The flat form of a value. A `Complex` value becomes a `Complex` whose
    /// keys are the dot-joined paths of its leaves, each prefixed by
    /// `parent_key` when one is given; any other value is returned as it is.
    pub fn flatten(&self, parent_key: Option<String>) -> (r: Type)
        ensures
            !(self@ is Complex) ==> r@ == self@,
            self@ is Complex ==> r@ is Complex && flat_of(self@->Complex_0, parent_view(parent_key), r@->Complex_0),
    {
        match self {
            Type::Complex(d) => {
                let mut out = Dict::new();
                d.flatten_into(&parent_key, &mut out);
                let r = Type::Complex(out);
                proof {
                    let pv = parent_view(parent_key);
                    assert forall|k: Seq<char>| #[trigger] out@.contains_key(k) implies from_leaf(d@, pv, k, out@[k]) by {}
                    assert(flat_of(d@, pv, out@));
                }
                r
            },
            _ => self.clone(),
        }
    }
}

/// A native value that can be stored in a settings tree.
pub trait SupportedType {
    /// The model of the stored form of the value.
    spec fn wrapped(&self) -> Val;

    /// The value as a `Type`.
    fn wrap(&self) -> (r: Type)
        ensures
            r@ == self.wrapped(),
    ;
}

impl SupportedType for () {
    open spec fn wrapped(&self) -> Val {
        Val::Blank
    }

    fn wrap(&self) -> (r: Type) {
        Type::Blank
    }
}

impl SupportedType for String {
    open spec fn wrapped(&self) -> Val {
        Val::Text(self@)
    }

    fn wrap(&self) -> (r: Type) {
        Type::Text(self.clone())
    }
}

impl SupportedType for str {
    open spec fn wrapped(&self) -> Val {
        Val::Text(self@)
    }

    fn wrap(&self) -> (r: Type) {
        Type::Text(self.to_owned())
    }
}

impl SupportedType for bool {
    open spec fn wrapped(&self) -> Val {
        Val::Switch(*self)
    }

    fn wrap(&self) -> (r: Type) {
        Type::Switch(*self)
    }
}

impl SupportedType for i32 {
    open spec fn wrapped(&self) -> Val {
        Val::Int(*self)
    }

    fn wrap(&self) -> (r: Type) {
        Type::Int(*self)
    }
}

impl SupportedType for Dict {
    open spec fn wrapped(&self) -> Val {
        Val::Complex(self@)
    }

    fn wrap(&self) -> (r: Type) {
        Type::Complex(self.clone())
    }
}

impl SupportedType for Vec<Type> {
    open spec fn wrapped(&self) -> Val {
        Val::Array(vals_of(self@))
    }

    fn wrap(&self) -> (r: Type) {
        Type::Array(copy_vec(self))
    }
}

impl SupportedType for Type {
    open spec fn wrapped(&self) -> Val {
        self@
    }

    fn wrap(&self) -> (r: Type) {
        self.clone()
    }
}

proof fn lemma_entries_map_finite(s: Seq<(String, Type)>)
    ensures
        entries_map(s).dom().finite(),
    decreases s.len(),
{
    if s.len() > 0 {
        lemma_entries_map_finite(s.drop_last());
    }
}

} // verus!
