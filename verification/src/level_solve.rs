//! Occurrence checks between levels.
use vstd::prelude::*;

use crate::level::{DecodedLevel, SpecLevel};
use crate::level_normalize::flatten_max;

verus! {

/// `u` is a subterm of `v` (`v` itself included).
pub open spec fn occurs(u: SpecLevel, v: SpecLevel) -> bool
    decreases v,
{
    u == v || match v {
        SpecLevel::Succ(a) => occurs(u, *a),
        SpecLevel::Max(a, b) => occurs(u, *a) || occurs(u, *b),
        SpecLevel::IMax(a, b) => occurs(u, *a) || occurs(u, *b),
        _ => false,
    }
}

/// Some argument of the nested `max`es of `l` is a level other than `u`
/// in which `u` occurs.
pub open spec fn occurs_in_max_arg(u: SpecLevel, l: SpecLevel) -> bool {
    exists|i: int|
        0 <= i < flatten_max(l).len() && #[trigger] flatten_max(l)[i] != u && occurs(
            u,
            flatten_max(l)[i],
        )
}

/// `l` is a `max`, and `u` occurs strictly inside one of its arguments.
pub open spec fn strict_occurs_max(u: SpecLevel, l: SpecLevel) -> bool {
    l is Max && occurs_in_max_arg(u, l)
}

proof fn lemma_occurs_in_max_arg_concat(u: SpecLevel, a: SpecLevel, b: SpecLevel)
    ensures
        occurs_in_max_arg(u, SpecLevel::Max(Box::new(a), Box::new(b))) == (occurs_in_max_arg(u, a)
            || occurs_in_max_arg(u, b)),
{
    let l = SpecLevel::Max(Box::new(a), Box::new(b));
    let fa = flatten_max(a);
    let fb = flatten_max(b);
    assert(flatten_max(l) == fa + fb);
    if occurs_in_max_arg(u, l) {
        let i = choose|i: int|
            0 <= i < flatten_max(l).len() && #[trigger] flatten_max(l)[i] != u && occurs(
                u,
                flatten_max(l)[i],
            );
        if i < fa.len() {
            assert(flatten_max(a)[i] == flatten_max(l)[i]);
        } else {
            assert(flatten_max(b)[i - fa.len()] == flatten_max(l)[i]);
        }
    }
    if occurs_in_max_arg(u, a) {
        let i = choose|i: int|
            0 <= i < flatten_max(a).len() && #[trigger] flatten_max(a)[i] != u && occurs(
                u,
                flatten_max(a)[i],
            );
        assert(flatten_max(l)[i] == flatten_max(a)[i]);
    }
    if occurs_in_max_arg(u, b) {
        let i = choose|i: int|
            0 <= i < flatten_max(b).len() && #[trigger] flatten_max(b)[i] != u && occurs(
                u,
                flatten_max(b)[i],
            );
        assert(flatten_max(l)[fa.len() + i] == flatten_max(b)[i]);
    }
}

impl DecodedLevel {
    /// `self` is a subterm of `v` (`v` itself included).
    pub fn occurs(&self, v: &DecodedLevel) -> (r: bool)
        ensures
            r == occurs(self@, v@),
        decreases v,
    {
        if self.level_eq(v) {
            return true;
        }
        match v {
            DecodedLevel::Succ(a) => self.occurs(a),
            DecodedLevel::Max(a, b) => self.occurs(a) || self.occurs(b),
            DecodedLevel::IMax(a, b) => self.occurs(a) || self.occurs(b),
            _ => false,
        }
    }

    /// `l` is a `max` and `self` occurs strictly inside one of its
    /// arguments.
    pub fn strict_occurs_max(&self, l: &DecodedLevel) -> (r: bool)
        ensures
            r == strict_occurs_max(self@, l@),
    {
        match l {
            DecodedLevel::Max(u, v) => {
                let r = self.strict_occurs_max_visit(u) || self.strict_occurs_max_visit(v);
                proof {
                    lemma_occurs_in_max_arg_concat(self@, u@, v@);
                }
                r
            },
            _ => false,
        }
    }

    /// Some argument of the nested `max`es of `u` is a level other than
    /// `self` in which `self` occurs.
    pub fn strict_occurs_max_visit(&self, u: &DecodedLevel) -> (r: bool)
        ensures
            r == occurs_in_max_arg(self@, u@),
        decreases u,
    {
        match u {
            DecodedLevel::Max(a, b) => {
                let r = self.strict_occurs_max_visit(a) || self.strict_occurs_max_visit(b);
                proof {
                    lemma_occurs_in_max_arg_concat(self@, a@, b@);
                }
                r
            },
            _ => {
                let r = !u.level_eq(self) && self.occurs(u);
                proof {
                    assert(flatten_max(u@) =~= seq![u@]);
                    if r {
                        assert(flatten_max(u@)[0] == u@);
                    }
                }
                r
            },
        }
    }
}

/// Every level occurs in itself.
pub proof fn lemma_occurs_reflexive(u: SpecLevel)
    ensures
        occurs(u, u),
{
}

/// Occurrence is transitive: a subterm of a subterm is a subterm.
pub proof fn lemma_occurs_transitive(u: SpecLevel, v: SpecLevel, w: SpecLevel)
    requires
        occurs(u, v),
        occurs(v, w),
    ensures
        occurs(u, w),
    decreases w,
{
    if v != w {
        match w {
            SpecLevel::Succ(a) => lemma_occurs_transitive(u, v, *a),
            SpecLevel::Max(a, b) => {
                if occurs(v, *a) {
                    lemma_occurs_transitive(u, v, *a);
                } else {
                    lemma_occurs_transitive(u, v, *b);
                }
            },
            SpecLevel::IMax(a, b) => {
                if occurs(v, *a) {
                    lemma_occurs_transitive(u, v, *a);
                } else {
                    lemma_occurs_transitive(u, v, *b);
                }
            },
            _ => {},
        }
    }
}

/// A strict occurrence in a `max` is an occurrence, and not the `max`
/// itself.
pub proof fn lemma_strict_occurs_max_occurs(u: SpecLevel, l: SpecLevel)
    requires
        strict_occurs_max(u, l),
    ensures
        occurs(u, l),
        u != l,
{
    lemma_flatten_occurs(l);
    let i = choose|i: int|
        0 <= i < flatten_max(l).len() && #[trigger] flatten_max(l)[i] != u && occurs(
            u,
            flatten_max(l)[i],
        );
    lemma_occurs_transitive(u, flatten_max(l)[i], l);
    lemma_occurs_size(u, flatten_max(l)[i]);
    lemma_flatten_smaller(l, i);
}

proof fn lemma_flatten_occurs(l: SpecLevel)
    ensures
        forall|i: int| 0 <= i < flatten_max(l).len() ==> occurs(#[trigger] flatten_max(l)[i], l),
    decreases l,
{
    if let SpecLevel::Max(a, b) = l {
        lemma_flatten_occurs(*a);
        lemma_flatten_occurs(*b);
        let fa = flatten_max(*a);
        let fb = flatten_max(*b);
        assert(occurs(*a, *a));
        assert(occurs(*a, l));
        assert(occurs(*b, *b));
        assert(occurs(*b, l));
        assert forall|i: int| 0 <= i < flatten_max(l).len() implies occurs(
            #[trigger] flatten_max(l)[i],
            l,
        ) by {
            if i < fa.len() {
                assert(flatten_max(l)[i] == fa[i]);
                assert(occurs(fa[i], *a));
                lemma_occurs_transitive(fa[i], *a, l);
            } else {
                assert(flatten_max(l)[i] == fb[i - fa.len()]);
                assert(occurs(fb[i - fa.len()], *b));
                lemma_occurs_transitive(fb[i - fa.len()], *b, l);
            }
        }
    }
}

proof fn lemma_occurs_size(u: SpecLevel, v: SpecLevel)
    requires
        occurs(u, v),
    ensures
        crate::level::size(u) <= crate::level::size(v),
    decreases v,
{
    if u != v {
        match v {
            SpecLevel::Succ(a) => lemma_occurs_size(u, *a),
            SpecLevel::Max(a, b) => {
                if occurs(u, *a) {
                    lemma_occurs_size(u, *a);
                } else {
                    lemma_occurs_size(u, *b);
                }
            },
            SpecLevel::IMax(a, b) => {
                if occurs(u, *a) {
                    lemma_occurs_size(u, *a);
                } else {
                    lemma_occurs_size(u, *b);
                }
            },
            _ => {},
        }
    }
}

proof fn lemma_flatten_smaller(l: SpecLevel, i: int)
    requires
        l is Max,
        0 <= i < flatten_max(l).len(),
    ensures
        crate::level::size(flatten_max(l)[i]) < crate::level::size(l),
    decreases l,
{
    if let SpecLevel::Max(a, b) = l {
        let fa = flatten_max(*a);
        if i < fa.len() {
            assert(flatten_max(l)[i] == fa[i]);
            if *a is Max {
                lemma_flatten_smaller(*a, i);
            } else {
                assert(fa =~= seq![*a]);
            }
        } else {
            let fb = flatten_max(*b);
            assert(flatten_max(l)[i] == fb[i - fa.len()]);
            if *b is Max {
                lemma_flatten_smaller(*b, i - fa.len());
            } else {
                assert(fb =~= seq![*b]);
            }
        }
    }
}


/// The argument at position `k` of `v`: the one argument of a `Succ`
/// (position 0), the two of a `max` or an `imax` (positions 0 and 1).
pub open spec fn argument(v: SpecLevel, k: nat) -> Option<SpecLevel> {
    match v {
        SpecLevel::Succ(a) => if k == 0 {
            Some(*a)
        } else {
            None
        },
        SpecLevel::Max(a, b) => if k == 0 {
            Some(*a)
        } else if k == 1 {
            Some(*b)
        } else {
            None
        },
        SpecLevel::IMax(a, b) => if k == 0 {
            Some(*a)
        } else if k == 1 {
            Some(*b)
        } else {
            None
        },
        _ => None,
    }
}

/// The level reached from `v` by taking, in turn, the arguments at the
/// positions of `path`, if there is one.
pub open spec fn follow(v: SpecLevel, path: Seq<nat>) -> Option<SpecLevel>
    decreases path.len(),
{
    if path.len() == 0 {
        Some(v)
    } else {
        match argument(v, path[0]) {
            Some(a) => follow(a, path.drop_first()),
            None => None,
        }
    }
}

proof fn lemma_path_occurs(u: SpecLevel, v: SpecLevel, path: Seq<nat>)
    requires
        follow(v, path) == Some(u),
    ensures
        occurs(u, v),
    decreases path.len(),
{
    if path.len() > 0 {
        let a = argument(v, path[0])->0;
        lemma_path_occurs(u, a, path.drop_first());
    }
}

proof fn lemma_occurs_path(u: SpecLevel, v: SpecLevel) -> (path: Seq<nat>)
    requires
        occurs(u, v),
    ensures
        follow(v, path) == Some(u),
    decreases v,
{
    if u == v {
        Seq::empty()
    } else {
        let (k, a): (nat, SpecLevel) = match v {
            SpecLevel::Succ(a) => (0, *a),
            SpecLevel::Max(a, b) => if occurs(u, *a) {
                (0, *a)
            } else {
                (1, *b)
            },
            SpecLevel::IMax(a, b) => if occurs(u, *a) {
                (0, *a)
            } else {
                (1, *b)
            },
            _ => (0, v),
        };
        let rest = lemma_occurs_path(u, a);
        let path = seq![k] + rest;
        assert(path.drop_first() =~= rest);
        path
    }
}

/// `u` occurs in `v` exactly when `v` reaches `u` by following arguments:
/// `u` is `v` or a subterm of it, through `Succ`, `max` and `imax` alike.
pub proof fn lemma_occurs_iff_path(u: SpecLevel, v: SpecLevel)
    ensures
        occurs(u, v) == exists|path: Seq<nat>| #[trigger] follow(v, path) == Some(u),
{
    if occurs(u, v) {
        let path = lemma_occurs_path(u, v);
    }
    if exists|path: Seq<nat>| #[trigger] follow(v, path) == Some(u) {
        let path = choose|path: Seq<nat>| #[trigger] follow(v, path) == Some(u);
        lemma_path_occurs(u, v, path);
    }
}

/// Each argument of a `Succ`, a `max` or an `imax` occurs in it.
pub proof fn lemma_arguments_occur(a: SpecLevel, b: SpecLevel)
    ensures
        occurs(a, SpecLevel::Succ(Box::new(a))),
        occurs(a, SpecLevel::Max(Box::new(a), Box::new(b))),
        occurs(b, SpecLevel::Max(Box::new(a), Box::new(b))),
        occurs(a, SpecLevel::IMax(Box::new(a), Box::new(b))),
        occurs(b, SpecLevel::IMax(Box::new(a), Box::new(b))),
{
    assert(occurs(a, a));
    assert(occurs(b, b));
}

/// What occurs in a level is the level itself or strictly smaller.
pub proof fn lemma_occurs_smaller(u: SpecLevel, v: SpecLevel)
    requires
        occurs(u, v),
    ensures
        u == v || crate::level::size(u) < crate::level::size(v),
    decreases v,
{
    if u != v {
        match v {
            SpecLevel::Succ(a) => lemma_occurs_size(u, *a),
            SpecLevel::Max(a, b) => {
                if occurs(u, *a) {
                    lemma_occurs_size(u, *a);
                } else {
                    lemma_occurs_size(u, *b);
                }
            },
            SpecLevel::IMax(a, b) => {
                if occurs(u, *a) {
                    lemma_occurs_size(u, *a);
                } else {
                    lemma_occurs_size(u, *b);
                }
            },
            _ => {},
        }
    }
}

} // verus!
