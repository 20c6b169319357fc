//! Reading, writing and deleting along a key path inside a `Dict`.
use vstd::prelude::*;
use crate::path::{del_path, get_path, segs_view, set_path};
use crate::value::{Dict, Type, Val};

verus! {

/// The model of an optional value.
pub open spec fn opt_view(o: Option<Type>) -> Option<Val> {
    match o {
        Some(t) => Some(t@),
        None => None,
    }
}

proof fn lemma_skip_next(segs: Seq<Seq<char>>, i: int)
    requires
        0 <= i < segs.len(),
    ensures
        segs.skip(i).drop_first() == segs.skip(i + 1),
        segs.skip(i)[0] == segs[i],
        segs.skip(i).len() == segs.len() - i,
{
    assert(segs.skip(i).drop_first() =~= segs.skip(i + 1));
}

/// The value at the path `segs[i..]` below `d`.
pub fn get_in<'a>(d: &'a Dict, segs: &Vec<String>, i: usize) -> (r: Option<&'a Type>)
    requires
        i < segs@.len(),
    ensures
        match r {
            Some(t) => get_path(d@, segs_view(segs@).skip(i as int)) == Some(t@),
            None => get_path(d@, segs_view(segs@).skip(i as int)) is None,
        },
    decreases segs@.len() - i,
{
    proof {
        lemma_skip_next(segs_view(segs@), i as int);
    }
    match d.get_key(&segs[i]) {
        None => None,
        Some(v) => {
            if i == segs.len() - 1 {
                Some(v)
            } else {
                match v {
                    Type::Complex(c) => get_in(c, segs, i + 1),
                    _ => None,
                }
            }
        },
    }
}

/// Writes `value` at the path `segs[i..]` below `d`.
pub fn set_in(d: &mut Dict, segs: &Vec<String>, i: usize, value: Type)
    requires
        i < segs@.len(),
    ensures
        final(d)@ == set_path(old(d)@, segs_view(segs@).skip(i as int), value@),
    decreases segs@.len() - i,
{
    proof {
        lemma_skip_next(segs_view(segs@), i as int);
    }
    let key = segs[i].clone();
    if i == segs.len() - 1 {
        d.insert(key, value);
    } else {
        let ghost m = d@;
        let mut child = match d.remove_key(&key) {
            Some(Type::Complex(c)) => c,
            _ => Dict::new(),
        };
        set_in(&mut child, segs, i + 1, value);
        d.insert(key, Type::Complex(child));
        proof {
            let s = segs_view(segs@).skip(i as int);
            assert(final(d)@ =~= set_path(m, s, value@));
        }
    }
}

/// Removes the value at the path `segs[i..]` below `d` and returns it.
pub fn del_in(d: &mut Dict, segs: &Vec<String>, i: usize) -> (r: Option<Type>)
    requires
        i < segs@.len(),
    ensures
        final(d)@ == del_path(old(d)@, segs_view(segs@).skip(i as int)),
        opt_view(r) == get_path(old(d)@, segs_view(segs@).skip(i as int)),
    decreases segs@.len() - i,
{
    proof {
        lemma_skip_next(segs_view(segs@), i as int);
    }
    let ghost m = d@;
    if i == segs.len() - 1 {
        d.remove_key(&segs[i])
    } else {
        match d.remove_key(&segs[i]) {
            None => None,
            Some(Type::Complex(mut c)) => {
                let r = del_in(&mut c, segs, i + 1);
                d.insert(segs[i].clone(), Type::Complex(c));
                proof {
                    let s = segs_view(segs@).skip(i as int);
                    assert(final(d)@ =~= del_path(m, s));
                }
                r
            },
            Some(other) => {
                d.insert(segs[i].clone(), other);
                proof {
                    let s = segs_view(segs@).skip(i as int);
                    assert(final(d)@ =~= m);
                }
                None
            },
        }
    }
}

} // verus!
