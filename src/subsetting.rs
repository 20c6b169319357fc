//! A simpler settings value: text, or named sub-settings.
use vstd::prelude::*;

verus! {

/// Mathematical model of a `Subsetting`.
pub enum SubVal {
    Single(Seq<char>),
    Complex(Seq<(Seq<char>, SubVal)>),
}

/// A settings value that is either one text or a list of named sub-values.
#[derive(Debug)]
pub enum Subsetting {
    Single(String),
    Complex(Vec<(String, Subsetting)>),
}

pub open spec fn sub_view(s: Subsetting) -> SubVal
    decreases s,
{
    match s {
        Subsetting::Single(t) => SubVal::Single(t@),
        Subsetting::Complex(v) => SubVal::Complex(subs_view(v@)),
    }
}

pub open spec fn subs_view(s: Seq<(String, Subsetting)>) -> Seq<(Seq<char>, SubVal)>
    decreases s,
{
    if s.len() == 0 {
        Seq::empty()
    } else {
        subs_view(s.drop_last()).push((s.last().0@, sub_view(s.last().1)))
    }
}

impl View for Subsetting {
    type V = SubVal;

    open spec fn view(&self) -> SubVal {
        sub_view(*self)
    }
}

fn copy_sub(s: &Subsetting) -> (r: Subsetting)
    ensures
        r@ == s@,
    decreases s,
{
    match s {
        Subsetting::Single(t) => Subsetting::Single(t.clone()),
        Subsetting::Complex(v) => Subsetting::Complex(copy_subs(v)),
    }
}

fn copy_subs(v: &Vec<(String, Subsetting)>) -> (r: Vec<(String, Subsetting)>)
    ensures
        subs_view(r@) == subs_view(v@),
    decreases v,
{
    broadcast use vstd::std_specs::vec::group_vec_axioms;
    let mut out: Vec<(String, Subsetting)> = Vec::new();
    let mut i: usize = 0;
    while i < v.len()
        invariant
            i <= v@.len(),
            out@.len() == i,
            subs_view(out@) == subs_view(v@.subrange(0, i as int)),
        decreases v@.len() - i,
    {
        assert(decreases_to!(v => v@[i as int].1));
        let k = v[i].0.clone();
        let c = copy_sub(&v[i].1);
        let ghost before = out@;
        out.push((k, c));
        proof {
            let next = v@.subrange(0, i + 1);
            assert(next.drop_last() =~= v@.subrange(0, i as int));
            assert(out@.drop_last() =~= before);
        }
        i = i + 1;
    }
    assert(v@.subrange(0, i as int) =~= v@);
    out
}

impl Subsetting {
    /// The text of a `Single`.
    pub fn to_string(&self) -> (r: Option<String>)
        ensures
            match self@ {
                SubVal::Single(t) => r is Some && r->0@ == t,
                _ => r is None,
            },
    {
        match self {
            Subsetting::Single(string) => Some(string.clone()),
            Subsetting::Complex(_) => None,
        }
    }

    /// A copy of the named sub-values of a `Complex`.
    pub fn to_hash(&self) -> (r: Option<Vec<(String, Subsetting)>>)
        ensures
            match self@ {
                SubVal::Complex(c) => r is Some && subs_view(r->0@) == c,
                _ => r is None,
            },
    {
        match self {
            Subsetting::Single(_) => None,
            Subsetting::Complex(complex) => Some(copy_subs(complex)),
        }
    }

    pub fn is_string(&self) -> (r: bool)
        ensures
            r == (self@ is Single),
    {
        match self {
            Subsetting::Single(_) => true,
            Subsetting::Complex(_) => false,
        }
    }

    pub fn is_hash(&self) -> (r: bool)
        ensures
            r == (self@ is Complex),
    {
        match self {
            Subsetting::Single(_) => false,
            Subsetting::Complex(_) => true,
        }
    }
}

} // verus!
