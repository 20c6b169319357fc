//! A settings store: one tree of values, read and written by key path.
use vstd::prelude::*;
use crate::error::Error;
use crate::format::Format;
use crate::path::{
    del_path, flat_of, get_path, join, leaf_at, qualify, segs_view, set_path, split, split_path,
    valid_path,
};
use crate::tree::{del_in, get_in, opt_view, set_in};
use crate::value::{Dict, SupportedType, Type, Val};

verus! {

/// A tree is flat when it holds at least one key and no `Complex` value at
/// its top level.
pub open spec fn is_flat_map(m: Map<Seq<char>, Val>) -> bool {
    &&& m.dom() != Set::<Seq<char>>::empty()
    &&& forall|k: Seq<char>| #[trigger] m.contains_key(k) ==> !(m[k] is Complex)
}

/// One step of rebuilding a tree from flat entries: the value is written at
/// the path that the key splits into, unless that path has an empty segment.
pub open spec fn set_entry(acc: Map<Seq<char>, Val>, k: Seq<char>, v: Val) -> Map<Seq<char>, Val> {
    if valid_path(split(k)) {
        set_path(acc, split(k), v)
    } else {
        acc
    }
}

/// The tree built by writing the entries of `m` under `keys`, in that order,
/// into an empty tree.
pub open spec fn set_all(m: Map<Seq<char>, Val>, keys: Seq<Seq<char>>) -> Map<Seq<char>, Val>
    decreases keys.len(),
{
    if keys.len() == 0 {
        Map::empty()
    } else {
        set_entry(set_all(m, keys.drop_last()), keys.last(), m[keys.last()])
    }
}

/// The flat form of a tree that holds at least one leaf is flat.
pub proof fn law_flatten_is_flat(m: Map<Seq<char>, Val>, f: Map<Seq<char>, Val>)
    requires
        flat_of(m, None, f),
        exists|segs: Seq<Seq<char>>| #[trigger] leaf_at(m, segs) is Some,
    ensures
        is_flat_map(f),
{
    let segs = choose|segs: Seq<Seq<char>>| #[trigger] leaf_at(m, segs) is Some;
    let k = qualify(None, join(segs));
    assert(f.contains_key(k));
    assert(f.dom().contains(k));
    assert forall|k2: Seq<char>| #[trigger] f.contains_key(k2) implies !(f[k2] is Complex) by {
        let s2 = choose|s2: Seq<Seq<char>>| qualify(None, join(s2)) == k2 && #[trigger] leaf_at(m, s2) == Some(f[k2]);
    }
}

/// The tree that merging `b` onto `a` gives, for flat forms `fa`, `fb` of
/// the two and an order of the overlaid keys: the leaves of `b` win.
pub open spec fn merged_as(a: Map<Seq<char>, Val>, b: Map<Seq<char>, Val>, r: Map<Seq<char>, Val>) -> bool {
    exists|fa: Map<Seq<char>, Val>, fb: Map<Seq<char>, Val>, order: Seq<Seq<char>>|
        #![trigger flat_of(a, None, fa), flat_of(b, None, fb), set_all(fa.union_prefer_right(fb), order)]
        flat_of(a, None, fa) && flat_of(b, None, fb) && order.no_duplicates()
            && order.to_set() == fa.union_prefer_right(fb).dom()
            && r == set_all(fa.union_prefer_right(fb), order)
}

/// A settings store: a tree of values and the format of the file that holds it.
pub struct Settings<T: Format + Clone> {
    global: Dict,
    ioconfig: T,
}

impl<T: Format + Clone> View for Settings<T> {
    type V = Map<Seq<char>, Val>;

    closed spec fn view(&self) -> Map<Seq<char>, Val> {
        self.global@
    }
}

impl<T: Format + Clone> Settings<T> {
    /// The keys of the tree, in the order of its top-level entries.
    pub closed spec fn key_seq(&self) -> Seq<Seq<char>> {
        self.global.key_seq()
    }

    /// An empty store.
    pub fn new(config: T) -> (r: Settings<T>)
        ensures
            r@ == Map::<Seq<char>, Val>::empty(),
    {
        Settings { global: Dict::new(), ioconfig: config }
    }

    /// A store that holds `parts`.
    pub fn from_parts(parts: Dict, config: T) -> (r: Settings<T>)
        ensures
            r@ == parts@,
    {
        Settings { global: parts, ioconfig: config }
    }

    /// The tree of the store.
    pub fn parts(&self) -> (r: &Dict)
        ensures
            r@ == self@,
    {
        &self.global
    }

    /// The format of the store.
    pub fn config(&self) -> &T {
        &self.ioconfig
    }

    /// Rebuilds a nested tree from a flat one: each entry is written at the
    /// path that its key splits into, in the order of the entries. A key
    /// whose path has an empty segment is skipped.
    pub fn from_flat(flat_hash: &Settings<T>) -> (r: Settings<T>)
        ensures
            r@ == set_all(flat_hash@, flat_hash.key_seq()),
    {
        let mut new_hash = Settings::new(flat_hash.ioconfig.clone());
        let n = flat_hash.global.len();
        let ghost keys = flat_hash.key_seq();
        let ghost m = flat_hash@;
        let mut i: usize = 0;
        while i < n
            invariant
                n == keys.len(),
                i <= n,
                keys == flat_hash.key_seq(),
                m == flat_hash@,
                new_hash@ == set_all(m, keys.subrange(0, i as int)),
            decreases n - i,
        {
            let (key, value) = flat_hash.global.entry(i);
            let _ = new_hash.set_value(key.as_str(), value);
            proof {
                let next = keys.subrange(0, i + 1);
                assert(next.drop_last() =~= keys.subrange(0, i as int));
                assert(next.last() == key@);
            }
            i = i + 1;
        }
        proof {
            assert(keys.subrange(0, n as int) =~= keys);
        }
        new_hash
    }

    /// The flat form of the store.
    pub fn get_flat_hash(&self) -> (r: Settings<T>)
        ensures
            flat_of(self@, None, r@),
    {
        Settings::flatten(self)
    }

    /// True when the store is flat: it holds at least one key and no
    /// top-level `Complex` value.
    pub fn is_flat(&self) -> (r: bool)
        ensures
            r == is_flat_map(self@),
    {
        let n = self.global.len();
        let mut i: usize = 0;
        while i < n
            invariant
                n == self.global.key_seq().len(),
                i <= n,
                forall|k: Seq<char>| #[trigger] self.global@.contains_key(k) <==> self.global.key_seq().contains(k),
                forall|j: int| 0 <= j < i ==> !(self.global@[#[trigger] self.global.key_seq()[j]] is Complex),
            decreases n - i,
        {
            let (_, value) = self.global.entry(i);
            if value.is_complex() {
                return false;
            }
            i = i + 1;
        }
        proof {
            assert forall|k: Seq<char>| #[trigger] self.global@.contains_key(k) implies !(self.global@[k] is Complex) by {
                let j = choose|j: int| 0 <= j < self.global.key_seq().len() && self.global.key_seq()[j] == k;
            }
        }
        let empty = self.global.is_empty();
        !empty
    }

    /// The flat form of a store: every leaf under its dot-joined path.
    pub fn flatten(hash_to_flatten: &Settings<T>) -> (r: Settings<T>)
        ensures
            flat_of(hash_to_flatten@, None, r@),
    {
        let mut flat_hash = Dict::new();
        hash_to_flatten.global.flatten_into(&None, &mut flat_hash);
        let r = Settings { global: flat_hash, ioconfig: hash_to_flatten.ioconfig.clone() };
        proof {
            let m = hash_to_flatten@;
            assert forall|k: Seq<char>| #[trigger] r@.contains_key(k) implies crate::path::from_leaf(m, None, k, r@[k]) by {}
        }
        r
    }

    /// The top-level value stored under `key_path` taken as one key, without
    /// splitting it at dots.
    pub fn get_value_absolute(&self, key_path: &str) -> (r: Option<Type>)
        ensures
            opt_view(r) == self@.get(key_path@),
    {
        match self.global.get(key_path) {
            Some(v) => Some(v.clone()),
            None => None,
        }
    }

    /// A copy of the value at `key_path`.
    pub fn get_value(&self, key_path: &str) -> (r: Option<Type>)
        ensures
            opt_view(r) == get_path(self@, split(key_path@)),
    {
        let segs = split_path(key_path);
        match get_in(&self.global, &segs, 0) {
            Some(v) => {
                assert(segs_view(segs@).skip(0) =~= segs_view(segs@));
                Some(v.clone())
            },
            None => {
                assert(segs_view(segs@).skip(0) =~= segs_view(segs@));
                None
            },
        }
    }

    /// The value at `key_path`, or `default_value` when there is none.
    pub fn get_value_or<A: SupportedType + ?Sized>(&self, key_path: &str, default_value: &A) -> (r: Type)
        ensures
            r@ == match get_path(self@, split(key_path@)) {
                Some(v) => v,
                None => default_value.wrapped(),
            },
    {
        match self.get_value(key_path) {
            Some(value) => value,
            None => default_value.wrap(),
        }
    }

    /// Writes `value` at `key_path`, creating the missing levels and replacing
    /// a non-`Complex` value met on the way. A path with an empty segment is
    /// refused and the store is left as it was.
    pub fn set_value<A: SupportedType + ?Sized>(&mut self, key_path: &str, value: &A) -> (r: Result<(), Error>)
        ensures
            valid_path(split(key_path@)) ==> r is Ok && final(self)@ == set_path(old(self)@, split(key_path@), value.wrapped()),
            !valid_path(split(key_path@)) ==> (r matches Err(Error::InvalidPath(p)) && p@ == key_path@) && final(self)@ == old(self)@,
    {
        let segs = split_path(key_path);
        let ghost sv = segs_view(segs@);
        let mut i: usize = 0;
        while i < segs.len()
            invariant
                i <= segs@.len(),
                sv == segs_view(segs@),
                sv == split(key_path@),
                forall|j: int| 0 <= j < i ==> #[trigger] sv[j].len() > 0,
            decreases segs@.len() - i,
        {
            if segs[i].as_str().is_empty() {
                assert(sv[i as int].len() == 0);
                return Err(Error::InvalidPath(key_path.to_owned()));
            }
            i = i + 1;
        }
        let wrapped = value.wrap();
        set_in(&mut self.global, &segs, 0, wrapped);
        assert(sv.skip(0) =~= sv);
        Ok(())
    }

    /// Removes the value at `key_path` and returns it; a removed `Complex`
    /// takes its whole subtree along. Nothing changes when the path does not
    /// resolve.
    pub fn delete_key(&mut self, key_path: &str) -> (r: Option<Type>)
        ensures
            opt_view(r) == get_path(old(self)@, split(key_path@)),
            final(self)@ == del_path(old(self)@, split(key_path@)),
    {
        let segs = split_path(key_path);
        assert(segs_view(segs@).skip(0) =~= segs_view(segs@));
        del_in(&mut self.global, &segs, 0)
    }

    /// Overlays `other` onto this store: both are flattened, the flat entries
    /// of `other` replace those of this store under the same key, and the
    /// result is rebuilt with `from_flat`.
    pub fn merge(self, other: Settings<T>) -> (r: Settings<T>)
        ensures
            merged_as(self@, other@, r@),
    {
        let mut flat_self = Settings::flatten(&self);
        let flat_other = Settings::flatten(&other);
        let ghost fa = flat_self@;
        let ghost fb = flat_other@;
        let n = flat_other.global.len();
        let ghost kb = flat_other.global.key_seq();
        let mut i: usize = 0;
        while i < n
            invariant
                n == kb.len(),
                i <= n,
                kb == flat_other.global.key_seq(),
                fb == flat_other@,
                forall|k: Seq<char>| #[trigger] fb.contains_key(k) <==> kb.contains(k),
                forall|k: Seq<char>| #[trigger] flat_self@.contains_key(k) <==> fa.contains_key(k) || kb.subrange(0, i as int).contains(k),
                forall|k: Seq<char>| #[trigger] kb.subrange(0, i as int).contains(k) ==> flat_self@[k] == fb[k],
                forall|k: Seq<char>| #[trigger] fa.contains_key(k) && !kb.subrange(0, i as int).contains(k) ==> flat_self@[k] == fa[k],
            decreases n - i,
        {
            let (k, v) = flat_other.global.entry(i);
            let ghost before = flat_self@;
            flat_self.global.insert(k.clone(), v.clone());
            proof {
                let next = kb.subrange(0, i + 1);
                assert(next =~= kb.subrange(0, i as int).push(k@));
                assert forall|x: Seq<char>| #[trigger] next.contains(x) <==> kb.subrange(0, i as int).contains(x) || x == k@ by {
                    if next.contains(x) {
                        let j = choose|j: int| 0 <= j < next.len() && next[j] == x;
                        if j < i {
                            assert(kb.subrange(0, i as int)[j] == x);
                        }
                    }
                    if x == k@ {
                        assert(next[i as int] == x);
                    }
                    if kb.subrange(0, i as int).contains(x) {
                        let j = choose|j: int| 0 <= j < i && kb.subrange(0, i as int)[j] == x;
                        assert(next[j] == x);
                    }
                }
                assert forall|x: Seq<char>| #[trigger] flat_self@.contains_key(x) <==> fa.contains_key(x) || next.contains(x) by {
                    assert(flat_self@.contains_key(x) <==> before.contains_key(x) || x == k@);
                    assert(before.contains_key(x) <==> fa.contains_key(x) || kb.subrange(0, i as int).contains(x));
                }
            }
            i = i + 1;
        }
        let ghost u = fa.union_prefer_right(fb);
        proof {
            assert(kb.subrange(0, n as int) =~= kb);
            assert(flat_self@ =~= u);
        }
        // `len` states that the key order lists each key of the tree once.
        let _ = flat_self.global.len();
        let r = Settings::from_flat(&flat_self);
        proof {
            let order = flat_self.key_seq();
            assert(order.to_set() =~= u.dom());
            assert(flat_of(self@, None, fa) && flat_of(other@, None, fb) && order.no_duplicates()
                && order.to_set() == fa.union_prefer_right(fb).dom()
                && r@ == set_all(fa.union_prefer_right(fb), order));
        }
        r
    }

    /// Merges `other` into this store, with the outcome of `merge`.
    pub fn merge_into(&mut self, other: Settings<T>)
        ensures
            merged_as(old(self)@, other@, final(self)@),
    {
        let mut current = Settings::new(self.ioconfig.clone());
        std::mem::swap(self, &mut current);
        *self = current.merge(other);
    }

    /// Decodes `buffer` with the format of `config` into a new store. An
    /// empty buffer is refused with `Error::Blank`.
    pub fn create_from(buffer: &str, config: T) -> (r: Result<Settings<T>, Error>)
        ensures
            buffer@.len() == 0 ==> r matches Err(Error::Blank),
    {
        if buffer.is_empty() {
            return Err(Error::Blank);
        }
        let decoded = config.from_str(buffer);
        Settings::from_decoded(decoded, config)
    }

    /// A store from the outcome of decoding a buffer.
    pub fn from_decoded(decoded: Result<Dict, Error>, config: T) -> (r: Result<Settings<T>, Error>)
        ensures
            match decoded {
                Ok(d) => r is Ok && r->Ok_0@ == d@,
                Err(e) => r is Err,
            },
    {
        match decoded {
            Ok(parts) => Ok(Settings::from_parts(parts, config)),
            Err(error) => Err(error),
        }
    }

    /// Like `create_from`, but an empty store when loading fails.
    pub fn create_from_or_empty(buffer: &str, config: T) -> (r: Settings<T>)
        ensures
            buffer@.len() == 0 ==> r@ == Map::<Seq<char>, Val>::empty(),
    {
        match Settings::create_from(buffer, config.clone()) {
            Ok(settings) => settings,
            Err(_) => Settings::new(config),
        }
    }

    /// Replaces the tree of the store with the decoding of `buffer`. An empty
    /// buffer is refused with `Error::Blank`; on any error the store keeps
    /// its tree.
    pub fn load_from(&mut self, buffer: &str) -> (r: Result<(), Error>)
        ensures
            buffer@.len() == 0 ==> r matches Err(Error::Blank),
            r is Err ==> final(self)@ == old(self)@,
    {
        if buffer.is_empty() {
            return Err(Error::Blank);
        }
        let decoded = self.ioconfig.from_str(buffer);
        self.apply_decoded(decoded)
    }

    /// Takes the outcome of decoding a buffer: the decoded tree replaces the
    /// tree of the store, an error leaves the store as it was.
    pub fn apply_decoded(&mut self, decoded: Result<Dict, Error>) -> (r: Result<(), Error>)
        ensures
            match decoded {
                Ok(d) => r is Ok && final(self)@ == d@,
                Err(e) => r is Err && final(self)@ == old(self)@,
            },
    {
        match decoded {
            Ok(parts) => {
                self.global = parts;
                Ok(())
            },
            Err(error) => Err(error),
        }
    }

    /// The tree of the store encoded with its format.
    pub fn save_to(&self) -> Result<String, Error> {
        self.ioconfig.to_string(&self.global)
    }

    /// The dot-joined paths of all leaves of the tree, each once.
    pub fn keys(&self) -> (r: Vec<String>)
        ensures
            segs_view(r@).no_duplicates(),
            forall|k: Seq<char>| #[trigger] segs_view(r@).contains(k) <==>
                exists|segs: Seq<Seq<char>>| join(segs) == k && #[trigger] leaf_at(self@, segs) is Some,
    {
        let flat = Settings::flatten(self);
        let n = flat.global.len();
        let mut keys: Vec<String> = Vec::new();
        let mut i: usize = 0;
        while i < n
            invariant
                n == flat.global.key_seq().len(),
                i <= n,
                flat.global.key_seq().no_duplicates(),
                segs_view(keys@) == flat.global.key_seq().subrange(0, i as int),
            decreases n - i,
        {
            let (k, _) = flat.global.entry(i);
            let ghost before = keys@;
            keys.push(k.clone());
            proof {
                assert(keys@.drop_last() == before);
                assert(segs_view(keys@) =~= segs_view(before).push(k@));
                assert(flat.global.key_seq().subrange(0, i + 1) =~= flat.global.key_seq().subrange(0, i as int).push(k@));
            }
            i = i + 1;
        }
        proof {
            let ks = flat.global.key_seq();
            assert(ks.subrange(0, n as int) =~= ks);
            assert forall|k: Seq<char>| #[trigger] segs_view(keys@).contains(k) <==>
                exists|segs: Seq<Seq<char>>| join(segs) == k && #[trigger] leaf_at(self@, segs) is Some by {
                if segs_view(keys@).contains(k) {
                    assert(flat@.contains_key(k));
                    let segs = choose|segs: Seq<Seq<char>>| qualify(None, join(segs)) == k && #[trigger] leaf_at(self@, segs) == Some(flat@[k]);
                    assert(leaf_at(self@, segs) is Some);
                }
                if exists|segs: Seq<Seq<char>>| join(segs) == k && #[trigger] leaf_at(self@, segs) is Some {
                    let segs = choose|segs: Seq<Seq<char>>| join(segs) == k && #[trigger] leaf_at(self@, segs) is Some;
                    assert(flat@.contains_key(qualify(None, join(segs))));
                }
            }
        }
        keys
    }
}

impl<T: Format + Clone> Clone for Settings<T> {
    /// A deep copy of the tree, with a clone of the format.
    fn clone(&self) -> (r: Settings<T>)
        ensures
            r@ == self@,
    {
        Settings { global: self.global.clone(), ioconfig: self.ioconfig.clone() }
    }
}

} // verus!
