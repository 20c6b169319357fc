//! Two settings stores read as one: a local store shadows a global one.
use vstd::prelude::*;
use crate::error::Error;
use crate::format::Format;
use crate::path::{del_path, get_path, set_path, split, valid_path};
use crate::settings::Settings;
use crate::tree::opt_view;
use crate::value::{SupportedType, Type, Val};

verus! {

/// A local `Complex` value with the keys that only the global one has added.
pub open spec fn fill_from(local: Map<Seq<char>, Val>, global: Option<Val>) -> Map<Seq<char>, Val> {
    match global {
        Some(Val::Complex(g)) => g.union_prefer_right(local),
        _ => local,
    }
}

/// What a shadowed read of `segs` finds: the local value when there is one,
/// with a local `Complex` filled one level deep from the global one;
/// otherwise the global value.
pub open spec fn shadow_get(g: Map<Seq<char>, Val>, l: Option<Map<Seq<char>, Val>>, segs: Seq<Seq<char>>) -> Option<Val> {
    match l {
        None => get_path(g, segs),
        Some(lm) => match get_path(lm, segs) {
            None => get_path(g, segs),
            Some(Val::Complex(lc)) => Some(Val::Complex(fill_from(lc, get_path(g, segs)))),
            Some(v) => Some(v),
        },
    }
}

/// A global store, always present, and a local store that exists once it is
/// written to or loaded. Reads prefer the local store.
pub struct ShadowSettings<T: Format + Clone> {
    ioconfig: T,
    global: Settings<T>,
    local: Option<Settings<T>>,
}

impl<T: Format + Clone> ShadowSettings<T> {
    /// The tree of the global store.
    pub closed spec fn global_view(&self) -> Map<Seq<char>, Val> {
        self.global@
    }

    /// The tree of the local store, if it exists.
    pub closed spec fn local_view(&self) -> Option<Map<Seq<char>, Val>> {
        match self.local {
            Some(l) => Some(l@),
            None => None,
        }
    }

    /// Empty global store and no local store.
    pub fn new(config: T) -> (r: ShadowSettings<T>)
        ensures
            r.global_view() == Map::<Seq<char>, Val>::empty(),
            r.local_view() is None,
    {
        ShadowSettings { ioconfig: config.clone(), global: Settings::new(config), local: None }
    }

    /// A shadowed store whose global store is decoded from `buffer`.
    pub fn create_from(buffer: &str, config: T) -> (r: Result<ShadowSettings<T>, Error>)
        ensures
            buffer@.len() == 0 ==> r matches Err(Error::Blank),
            r is Ok ==> r->Ok_0.local_view() is None,
    {
        let global = Settings::create_from(buffer, config.clone())?;
        Ok(ShadowSettings { ioconfig: config, global, local: None })
    }

    /// The format of both stores.
    pub fn config(&self) -> &T {
        &self.ioconfig
    }

    /// True when the local store exists.
    pub fn has_local(&self) -> (r: bool)
        ensures
            r == self.local_view() is Some,
    {
        self.local.is_some()
    }

    /// Replaces the global store with the decoding of `buffer`; on an error
    /// nothing changes.
    pub fn load_global_from(&mut self, buffer: &str) -> (r: Result<(), Error>)
        ensures
            buffer@.len() == 0 ==> r matches Err(Error::Blank),
            r is Err ==> final(self).global_view() == old(self).global_view(),
            final(self).local_view() == old(self).local_view(),
    {
        self.global = Settings::create_from(buffer, self.ioconfig.clone())?;
        Ok(())
    }

    /// Replaces the local store with the decoding of `buffer`; on an error
    /// nothing changes.
    pub fn load_local_from(&mut self, buffer: &str) -> (r: Result<(), Error>)
        ensures
            buffer@.len() == 0 ==> r matches Err(Error::Blank),
            r is Err ==> final(self).local_view() == old(self).local_view(),
            r is Ok ==> final(self).local_view() is Some,
            final(self).global_view() == old(self).global_view(),
    {
        let local = Settings::create_from(buffer, self.ioconfig.clone())?;
        self.local = Some(local);
        Ok(())
    }

    /// The global store encoded with its format.
    pub fn save_global_to(&self) -> Result<String, Error> {
        self.global.save_to()
    }

    /// The local store encoded with its format; `None` when there is no
    /// local store.
    pub fn save_local_to(&self) -> (r: Option<Result<String, Error>>)
        ensures
            r is Some == self.local_view() is Some,
    {
        match &self.local {
            Some(local) => Some(local.save_to()),
            None => None,
        }
    }

    /// The value at `key_path`, the local store shadowing the global one.
    pub fn get_value(&self, key_path: &str) -> (r: Option<Type>)
        ensures
            opt_view(r) == shadow_get(self.global_view(), self.local_view(), split(key_path@)),
    {
        match &self.local {
            None => self.global.get_value(key_path),
            Some(local) => match local.get_value(key_path) {
                None => self.global.get_value(key_path),
                Some(Type::Complex(mut value)) => {
                    let ghost lc = value@;
                    let from_global = self.global.get_value(key_path);
                    if let Some(Type::Complex(g)) = from_global {
                        let n = g.len();
                        let ghost gk = g.key_seq();
                        let mut i: usize = 0;
                        while i < n
                            invariant
                                n == gk.len(),
                                i <= n,
                                gk == g.key_seq(),
                                forall|x: Seq<char>| #[trigger] g@.contains_key(x) <==> gk.contains(x),
                                forall|x: Seq<char>| #[trigger] value@.contains_key(x) <==> lc.contains_key(x) || gk.subrange(0, i as int).contains(x),
                                forall|x: Seq<char>| lc.contains_key(x) ==> #[trigger] value@[x] == lc[x],
                                forall|x: Seq<char>| !lc.contains_key(x) && gk.subrange(0, i as int).contains(x) ==> #[trigger] value@[x] == g@[x],
                            decreases n - i,
                        {
                            let (k, v) = g.entry(i);
                            let ghost before = value@;
                            if !value.contains_key(k) {
                                value.insert(k.clone(), v.clone());
                            }
                            proof {
                                let next = gk.subrange(0, i + 1);
                                assert forall|x: Seq<char>| #[trigger] next.contains(x) <==> gk.subrange(0, i as int).contains(x) || x == k@ by {
                                    if next.contains(x) {
                                        let j = choose|j: int| 0 <= j < next.len() && next[j] == x;
                                        if j < i {
                                            assert(gk.subrange(0, i as int)[j] == x);
                                        }
                                    }
                                    if x == k@ {
                                        assert(next[i as int] == x);
                                    }
                                    if gk.subrange(0, i as int).contains(x) {
                                        let j = choose|j: int| 0 <= j < i && gk.subrange(0, i as int)[j] == x;
                                        assert(next[j] == x);
                                    }
                                }
                            }
                            i = i + 1;
                        }
                        proof {
                            assert(gk.subrange(0, n as int) =~= gk);
                            assert(value@ =~= g@.union_prefer_right(lc));
                        }
                    }
                    Some(Type::Complex(value))
                },
                Some(value) => Some(value),
            },
        }
    }

    /// The shadowed value at `key_path`, or `default_value` when there is none.
    pub fn get_value_or<A: SupportedType + ?Sized>(&self, key_path: &str, default_value: &A) -> (r: Type)
        ensures
            r@ == match shadow_get(self.global_view(), self.local_view(), split(key_path@)) {
                Some(v) => v,
                None => default_value.wrapped(),
            },
    {
        match self.get_value(key_path) {
            Some(value) => value,
            None => default_value.wrap(),
        }
    }

    /// The value at `key_path` in the local store alone.
    pub fn get_value_local(&self, key_path: &str) -> (r: Option<Type>)
        ensures
            opt_view(r) == match self.local_view() {
                Some(l) => get_path(l, split(key_path@)),
                None => None,
            },
    {
        match &self.local {
            Some(local) => local.get_value(key_path),
            None => None,
        }
    }

    /// The value at `key_path` in the global store alone.
    pub fn get_value_global(&self, key_path: &str) -> (r: Option<Type>)
        ensures
            opt_view(r) == get_path(self.global_view(), split(key_path@)),
    {
        self.global.get_value(key_path)
    }

    /// Writes into the local store, creating it first when it does not exist.
    pub fn set_value_local<A: SupportedType + ?Sized>(&mut self, key_path: &str, value: &A) -> (r: Result<(), Error>)
        ensures
            final(self).global_view() == old(self).global_view(),
            ({
                let base = match old(self).local_view() {
                    Some(l) => l,
                    None => Map::<Seq<char>, Val>::empty(),
                };
                &&& valid_path(split(key_path@)) ==> r is Ok
                    && final(self).local_view() == Some(set_path(base, split(key_path@), value.wrapped()))
                &&& !valid_path(split(key_path@)) ==> r is Err && final(self).local_view() == Some(base)
            }),
    {
        match self.local {
            Some(ref mut local) => local.set_value(key_path, value),
            None => {
                let mut local = Settings::new(self.ioconfig.clone());
                let result = local.set_value(key_path, value);
                self.local = Some(local);
                result
            },
        }
    }

    /// Writes into the global store.
    pub fn set_value_global<A: SupportedType + ?Sized>(&mut self, key_path: &str, value: &A) -> (r: Result<(), Error>)
        ensures
            final(self).local_view() == old(self).local_view(),
            valid_path(split(key_path@)) ==> r is Ok
                && final(self).global_view() == set_path(old(self).global_view(), split(key_path@), value.wrapped()),
            !valid_path(split(key_path@)) ==> r is Err && final(self).global_view() == old(self).global_view(),
    {
        self.global.set_value(key_path, value)
    }

    /// Deletes from the local store alone.
    pub fn delete_key_local(&mut self, key_path: &str) -> (r: Option<Type>)
        ensures
            final(self).global_view() == old(self).global_view(),
            match old(self).local_view() {
                Some(l) => opt_view(r) == get_path(l, split(key_path@))
                    && final(self).local_view() == Some(del_path(l, split(key_path@))),
                None => r is None && final(self).local_view() is None,
            },
    {
        match self.local {
            Some(ref mut local) => local.delete_key(key_path),
            None => None,
        }
    }

    /// Deletes from the global store alone; a local value keeps shadowing.
    pub fn delete_key_global(&mut self, key_path: &str) -> (r: Option<Type>)
        ensures
            final(self).local_view() == old(self).local_view(),
            opt_view(r) == get_path(old(self).global_view(), split(key_path@)),
            final(self).global_view() == del_path(old(self).global_view(), split(key_path@)),
    {
        self.global.delete_key(key_path)
    }
}

impl<T: Format + Clone> Clone for ShadowSettings<T> {
    /// A deep copy of both stores.
    fn clone(&self) -> (r: ShadowSettings<T>)
        ensures
            r.global_view() == self.global_view(),
            r.local_view() == self.local_view(),
    {
        let local = match &self.local {
            Some(l) => Some(l.clone()),
            None => None,
        };
        ShadowSettings { ioconfig: self.ioconfig.clone(), global: self.global.clone(), local }
    }
}

} // verus!
