//! Normalization of universe levels.
//!
//! A level is normalized by pushing its outer `Succ`s into the arguments of
//! a `max`, flattening nested `max`es, normalizing each argument, sorting
//! the arguments, merging arguments that differ only in their offset
//! (keeping the largest), dropping explicit numerals that another argument
//! subsumes, and simplifying `imax`.
use vstd::prelude::*;

use crate::level::{
    add_offset, base, lemma_add_offset_parts, lemma_add_offset_succ, lemma_base_offset,
    lemma_size_positive, offset, size, succ_depth, DecodedLevel, DecodedName, SpecLevel,
    SpecName,
};
use crate::name_order::name_before;

verus! {

/// Levels whose normal form is themselves without further work: numerals,
/// and parameters or metavariables with an offset.
pub open spec fn is_cheap(l: SpecLevel) -> bool
    decreases l,
{
    match l {
        SpecLevel::Zero | SpecLevel::Param(_) | SpecLevel::MVar(_) => true,
        SpecLevel::Succ(u) => is_cheap(*u),
        _ => false,
    }
}

/// Levels that are at least one under every assignment of their
/// parameters.
pub open spec fn never_zero(l: SpecLevel) -> bool
    decreases l,
{
    match l {
        SpecLevel::Zero | SpecLevel::Param(_) | SpecLevel::MVar(_) => false,
        SpecLevel::Succ(_) => true,
        SpecLevel::Max(a, b) => never_zero(*a) || never_zero(*b),
        SpecLevel::IMax(_, b) => never_zero(*b),
    }
}

/// The rank of a level's constructor in the order of `norm_before`.
pub open spec fn ctor_rank(l: SpecLevel) -> nat {
    match l {
        SpecLevel::Zero => 0,
        SpecLevel::Param(_) => 1,
        SpecLevel::MVar(_) => 2,
        SpecLevel::Succ(_) => 3,
        SpecLevel::Max(_, _) => 4,
        SpecLevel::IMax(_, _) => 5,
    }
}

/// `imax u v`, simplified where `v` is zero, `u` is zero or one, or
/// `u == v`.
pub open spec fn mk_imax(u: SpecLevel, v: SpecLevel) -> SpecLevel {
    if v is Zero {
        SpecLevel::Zero
    } else if u is Zero {
        v
    } else if u == SpecLevel::Succ(Box::new(SpecLevel::Zero)) {
        v
    } else if u == v {
        u
    } else {
        SpecLevel::IMax(Box::new(u), Box::new(v))
    }
}

/// The order in which normalization sorts the arguments of a `max`: `l1`
/// with `k1` extra `Succ`s comes before `l2` with `k2` extra `Succ`s.
pub open spec fn norm_before_aux(l1: SpecLevel, k1: nat, l2: SpecLevel, k2: nat) -> bool
    decreases size(l1) + size(l2),
{
    match (l1, l2) {
        (SpecLevel::Succ(a), _) => norm_before_aux(*a, k1 + 1, l2, k2),
        (_, SpecLevel::Succ(b)) => norm_before_aux(l1, k1, *b, k2 + 1),
        (SpecLevel::Max(a1, a2), SpecLevel::Max(b1, b2)) => if l1 == l2 {
            k1 < k2
        } else if a1 != b1 {
            norm_before_aux(*a1, 0, *b1, 0)
        } else {
            norm_before_aux(*a2, 0, *b2, 0)
        },
        (SpecLevel::IMax(a1, a2), SpecLevel::IMax(b1, b2)) => if l1 == l2 {
            k1 < k2
        } else if a1 != b1 {
            norm_before_aux(*a1, 0, *b1, 0)
        } else {
            norm_before_aux(*a2, 0, *b2, 0)
        },
        (SpecLevel::Param(n1), SpecLevel::Param(n2)) => if n1 == n2 {
            k1 < k2
        } else {
            name_before(n1, n2)
        },
        (SpecLevel::MVar(n1), SpecLevel::MVar(n2)) => if n1 == n2 {
            k1 < k2
        } else {
            name_before(n1, n2)
        },
        _ => if l1 == l2 {
            k1 < k2
        } else {
            ctor_rank(l1) < ctor_rank(l2)
        },
    }
}

/// `l1` comes strictly before `l2` in the order of normalization.
pub open spec fn norm_before(l1: SpecLevel, l2: SpecLevel) -> bool {
    norm_before_aux(l1, 0, l2, 0)
}

/// Inserts `x` before the first element of `t` that `x` comes before.
pub open spec fn insert_level(x: SpecLevel, t: Seq<SpecLevel>) -> Seq<SpecLevel>
    decreases t.len(),
{
    if t.len() == 0 {
        seq![x]
    } else if norm_before(x, t[0]) {
        seq![x] + t
    } else {
        seq![t[0]] + insert_level(x, t.drop_first())
    }
}

/// `s` sorted by `norm_before`, inserting its elements one by one in order
/// (equal elements keep their order).
pub open spec fn sort_levels(s: Seq<SpecLevel>) -> Seq<SpecLevel>
    decreases s.len(),
{
    if s.len() == 0 {
        Seq::empty()
    } else {
        insert_level(s.last(), sort_levels(s.drop_last()))
    }
}

/// The arguments of nested `max`es, left to right.
pub open spec fn flatten_max(l: SpecLevel) -> Seq<SpecLevel>
    decreases l,
{
    match l {
        SpecLevel::Max(a, b) => flatten_max(*a) + flatten_max(*b),
        _ => seq![l],
    }
}

/// The rank that orders the mutual recursion of `normalize` and
/// `max_args` at equal size.
pub open spec fn normalize_rank(l: SpecLevel) -> nat {
    if base(l) is IMax {
        2
    } else {
        1
    }
}

/// The normalized arguments of nested `max`es: each argument that is not a
/// `max` is normalized and its own `max` arguments are taken.
pub open spec fn max_args(l: SpecLevel) -> Seq<SpecLevel>
    decreases size(l), 3nat,
{
    match l {
        SpecLevel::Max(a, b) => max_args(*a) + max_args(*b),
        _ => flatten_max(normalize(l)),
    }
}

/// The first index at or after `i` whose level is not a numeral (or the
/// length).
pub open spec fn skip_explicit(s: Seq<SpecLevel>, i: int) -> int
    decreases s.len() - i,
{
    if i < 0 || i >= s.len() || !(base(s[i]) is Zero) {
        i
    } else {
        skip_explicit(s, i + 1)
    }
}

/// The numeral just before `first_non_explicit` is at most the offset of
/// some later argument.
pub open spec fn explicit_subsumed(s: Seq<SpecLevel>, first_non_explicit: int) -> bool {
    first_non_explicit > 0 && exists|j: int|
        first_non_explicit <= j < s.len() && #[trigger] offset(s[j]) >= offset(
            s[first_non_explicit - 1],
        )
}

/// `max result (prev + off)`, or `prev + off` where `result` is zero.
pub open spec fn acc_max(result: SpecLevel, prev: SpecLevel, off: nat) -> SpecLevel {
    let shifted = add_offset(prev, off);
    if result is Zero {
        shifted
    } else {
        SpecLevel::Max(Box::new(result), Box::new(shifted))
    }
}

/// Folds the sorted arguments `s[i..]` into a `max`, keeping of each run of
/// arguments with the same base the last one's offset, and adding
/// `extra_k` to every offset.
pub open spec fn mk_max_from(
    s: Seq<SpecLevel>,
    extra_k: nat,
    i: int,
    prev: SpecLevel,
    prev_k: nat,
    result: SpecLevel,
) -> SpecLevel
    decreases s.len() - i,
{
    if i < 0 || i >= s.len() {
        acc_max(result, prev, extra_k + prev_k)
    } else if base(s[i]) == prev {
        mk_max_from(s, extra_k, i + 1, prev, offset(s[i]), result)
    } else {
        mk_max_from(
            s,
            extra_k,
            i + 1,
            base(s[i]),
            offset(s[i]),
            acc_max(result, prev, extra_k + prev_k),
        )
    }
}

/// The index of the argument a normalized `max` starts from: the first
/// non-numeral if the numerals before it are subsumed, else the largest
/// numeral.
pub open spec fn max_start(s: Seq<SpecLevel>) -> int {
    let fne = skip_explicit(s, 0);
    if explicit_subsumed(s, fne) {
        fne
    } else if fne > 0 {
        fne - 1
    } else {
        0
    }
}

/// The normalized `max` of the sorted arguments `s`, plus `k`.
pub open spec fn mk_max_normal(s: Seq<SpecLevel>, k: nat) -> SpecLevel {
    let i = max_start(s);
    mk_max_from(s, k, i + 1, base(s[i]), offset(s[i]), SpecLevel::Zero)
}

/// The normal form of a level.
pub open spec fn normalize(l: SpecLevel) -> SpecLevel
    decreases size(l), normalize_rank(l),
{
    if is_cheap(l) {
        l
    } else {
        let k = offset(l);
        proof {
            lemma_base_offset(l);
        }
        match base(l) {
            SpecLevel::Max(l1, l2) => mk_max_normal(
                sort_levels(max_args(*l1) + max_args(*l2)),
                k,
            ),
            SpecLevel::IMax(l1, l2) => if never_zero(*l2) {
                add_offset(normalize(SpecLevel::Max(l1, l2)), k)
            } else {
                add_offset(mk_imax(normalize(*l1), normalize(*l2)), k)
            },
            _ => l,
        }
    }
}


/// The views of a sequence of levels.
pub open spec fn level_views(s: Seq<DecodedLevel>) -> Seq<SpecLevel> {
    s.map_values(|x: DecodedLevel| x@)
}

/// Every level in `s` has at most `d` `Succ`s on any path.
pub open spec fn all_depth_le(s: Seq<SpecLevel>, d: nat) -> bool {
    forall|i: int| 0 <= i < s.len() ==> #[trigger] succ_depth(s[i]) <= d
}

pub proof fn lemma_offset_le_depth(l: SpecLevel)
    ensures
        offset(l) <= succ_depth(l),
    decreases l,
{
    if let SpecLevel::Succ(u) = l {
        lemma_offset_le_depth(*u);
    }
}

proof fn lemma_add_offset_depth(l: SpecLevel, n: nat)
    ensures
        succ_depth(add_offset(l, n)) == n + succ_depth(l),
    decreases n,
{
    if n > 0 {
        lemma_add_offset_depth(l, (n - 1) as nat);
    }
}

proof fn lemma_flatten_depth(l: SpecLevel)
    ensures
        flatten_max(l).len() >= 1,
        all_depth_le(flatten_max(l), succ_depth(l)),
    decreases l,
{
    if let SpecLevel::Max(a, b) = l {
        lemma_flatten_depth(*a);
        lemma_flatten_depth(*b);
        let fa = flatten_max(*a);
        let fb = flatten_max(*b);
        assert forall|i: int| 0 <= i < (fa + fb).len() implies #[trigger] succ_depth((fa + fb)[i])
            <= succ_depth(l) by {
            if i < fa.len() {
                assert(succ_depth(fa[i]) <= succ_depth(*a));
            } else {
                assert(succ_depth(fb[i - fa.len()]) <= succ_depth(*b));
            }
        }
    }
}

proof fn lemma_insert_depth(x: SpecLevel, t: Seq<SpecLevel>, d: nat)
    requires
        succ_depth(x) <= d,
        all_depth_le(t, d),
    ensures
        insert_level(x, t).len() == t.len() + 1,
        all_depth_le(insert_level(x, t), d),
    decreases t.len(),
{
    if t.len() > 0 && !norm_before(x, t[0]) {
        lemma_insert_depth(x, t.drop_first(), d);
        let r = insert_level(x, t.drop_first());
        assert forall|i: int| 0 <= i < (seq![t[0]] + r).len() implies #[trigger] succ_depth(
            (seq![t[0]] + r)[i],
        ) <= d by {
            if i > 0 {
                assert((seq![t[0]] + r)[i] == r[i - 1]);
            }
        }
    } else if t.len() > 0 {
        assert forall|i: int| 0 <= i < (seq![x] + t).len() implies #[trigger] succ_depth(
            (seq![x] + t)[i],
        ) <= d by {
            if i > 0 {
                assert((seq![x] + t)[i] == t[i - 1]);
            }
        }
    }
}

pub(crate) proof fn lemma_sort_depth(s: Seq<SpecLevel>, d: nat)
    requires
        all_depth_le(s, d),
    ensures
        sort_levels(s).len() == s.len(),
        all_depth_le(sort_levels(s), d),
    decreases s.len(),
{
    if s.len() > 0 {
        lemma_sort_depth(s.drop_last(), d);
        assert(succ_depth(s[s.len() - 1]) <= d);
        lemma_insert_depth(s.last(), sort_levels(s.drop_last()), d);
    }
}

pub(crate) proof fn lemma_skip_explicit(s: Seq<SpecLevel>, i: int)
    requires
        0 <= i <= s.len(),
    ensures
        i <= skip_explicit(s, i) <= s.len(),
        forall|j: int| i <= j < skip_explicit(s, i) ==> #[trigger] base(s[j]) is Zero,
        skip_explicit(s, i) < s.len() ==> !(base(s[skip_explicit(s, i)]) is Zero),
    decreases s.len() - i,
{
    if i < s.len() && base(s[i]) is Zero {
        lemma_skip_explicit(s, i + 1);
    }
}

proof fn lemma_max_start(s: Seq<SpecLevel>)
    requires
        s.len() >= 1,
    ensures
        0 <= max_start(s) < s.len(),
{
    lemma_skip_explicit(s, 0);
}

proof fn lemma_acc_max_depth(result: SpecLevel, prev: SpecLevel, off: nat, d: nat)
    requires
        succ_depth(result) <= d,
        off + succ_depth(prev) <= d,
    ensures
        succ_depth(acc_max(result, prev, off)) <= d,
{
    lemma_add_offset_depth(prev, off);
}

proof fn lemma_mk_max_from_depth(
    s: Seq<SpecLevel>,
    extra_k: nat,
    i: int,
    prev: SpecLevel,
    prev_k: nat,
    result: SpecLevel,
    d: nat,
)
    requires
        all_depth_le(s, d),
        prev_k + succ_depth(prev) <= d,
        succ_depth(result) <= extra_k + d,
    ensures
        succ_depth(mk_max_from(s, extra_k, i, prev, prev_k, result)) <= extra_k + d,
    decreases s.len() - i,
{
    if i < 0 || i >= s.len() {
        lemma_acc_max_depth(result, prev, extra_k + prev_k, extra_k + d);
    } else {
        lemma_base_offset(s[i]);
        assert(succ_depth(s[i]) <= d);
        if base(s[i]) == prev {
            lemma_mk_max_from_depth(s, extra_k, i + 1, prev, offset(s[i]), result, d);
        } else {
            lemma_acc_max_depth(result, prev, extra_k + prev_k, extra_k + d);
            lemma_mk_max_from_depth(
                s,
                extra_k,
                i + 1,
                base(s[i]),
                offset(s[i]),
                acc_max(result, prev, extra_k + prev_k),
                d,
            );
        }
    }
}

proof fn lemma_mk_max_normal_depth(s: Seq<SpecLevel>, k: nat, d: nat)
    requires
        s.len() >= 1,
        all_depth_le(s, d),
    ensures
        succ_depth(mk_max_normal(s, k)) <= k + d,
{
    lemma_max_start(s);
    let i = max_start(s);
    lemma_base_offset(s[i]);
    assert(succ_depth(s[i]) <= d);
    lemma_mk_max_from_depth(s, k, i + 1, base(s[i]), offset(s[i]), SpecLevel::Zero, d);
}

/// Normalization adds no `Succ` to any path: the normal form's largest
/// number of `Succ`s on a path is at most the level's.
pub proof fn lemma_normalize_depth(l: SpecLevel)
    ensures
        succ_depth(normalize(l)) <= succ_depth(l),
    decreases size(l), normalize_rank(l),
{
    if !is_cheap(l) {
        let k = offset(l);
        lemma_base_offset(l);
        match base(l) {
            SpecLevel::Max(l1, l2) => {
                lemma_max_args_depth(*l1);
                lemma_max_args_depth(*l2);
                let a = max_args(*l1);
                let b = max_args(*l2);
                let d = succ_depth(base(l));
                assert forall|i: int| 0 <= i < (a + b).len() implies #[trigger] succ_depth(
                    (a + b)[i],
                ) <= d by {
                    if i < a.len() {
                        assert(succ_depth(a[i]) <= succ_depth(*l1));
                    } else {
                        assert(succ_depth(b[i - a.len()]) <= succ_depth(*l2));
                    }
                }
                lemma_sort_depth(a + b, d);
                lemma_mk_max_normal_depth(sort_levels(a + b), k, d);
            },
            SpecLevel::IMax(l1, l2) => {
                if never_zero(*l2) {
                    let m = SpecLevel::Max(l1, l2);
                    lemma_normalize_depth(m);
                    lemma_add_offset_depth(normalize(m), k);
                } else {
                    lemma_normalize_depth(*l1);
                    lemma_normalize_depth(*l2);
                    lemma_add_offset_depth(mk_imax(normalize(*l1), normalize(*l2)), k);
                }
            },
            _ => {},
        }
    }
}

/// The normalized arguments of a level are at least one, and none has
/// more `Succ`s on a path than the level.
pub proof fn lemma_max_args_depth(l: SpecLevel)
    ensures
        max_args(l).len() >= 1,
        all_depth_le(max_args(l), succ_depth(l)),
    decreases size(l), 3nat,
{
    match l {
        SpecLevel::Max(x, y) => {
            lemma_max_args_depth(*x);
            lemma_max_args_depth(*y);
            let a = max_args(*x);
            let b = max_args(*y);
            assert forall|i: int| 0 <= i < (a + b).len() implies #[trigger] succ_depth((a + b)[i])
                <= succ_depth(l) by {
                if i < a.len() {
                    assert(succ_depth(a[i]) <= succ_depth(*x));
                } else {
                    assert(succ_depth(b[i - a.len()]) <= succ_depth(*y));
                }
            }
        },
        _ => {
            lemma_normalize_depth(l);
            lemma_flatten_depth(normalize(l));
        },
    }
}


pub(crate) proof fn lemma_not_cheap_base(l: SpecLevel)
    requires
        !is_cheap(l),
    ensures
        base(l) is Max || base(l) is IMax,
    decreases l,
{
    if let SpecLevel::Succ(u) = l {
        lemma_not_cheap_base(*u);
    }
}

/// Inserting at the first index whose element `x` comes before is
/// `insert_level`.
proof fn lemma_insert_level_at(x: SpecLevel, t: Seq<SpecLevel>, j: int)
    requires
        0 <= j <= t.len(),
        forall|k: int| 0 <= k < j ==> !norm_before(x, #[trigger] t[k]),
        j < t.len() ==> norm_before(x, t[j]),
    ensures
        insert_level(x, t) == t.insert(j, x),
    decreases t.len(),
{
    if t.len() == 0 {
        assert(t.insert(j, x) =~= seq![x]);
    } else if j == 0 {
        assert(t.insert(j, x) =~= seq![x] + t);
    } else {
        assert(!norm_before(x, t[0]));
        let t1 = t.drop_first();
        assert forall|k: int| 0 <= k < j - 1 implies !norm_before(x, #[trigger] t1[k]) by {
            assert(t1[k] == t[k + 1]);
        }
        lemma_insert_level_at(x, t1, j - 1);
        assert(t.insert(j, x) =~= seq![t[0]] + t1.insert(j - 1, x));
    }
}

impl DecodedLevel {
    /// This level is `Zero`.
    pub fn is_zero(&self) -> (r: bool)
        ensures
            r == (self@ is Zero),
    {
        match self {
            DecodedLevel::Zero => true,
            _ => false,
        }
    }

    /// The rank of this level's constructor.
    pub fn ctor_to_nat(&self) -> (r: u8)
        ensures
            r == ctor_rank(self@),
    {
        match self {
            DecodedLevel::Zero => 0,
            DecodedLevel::Param(_) => 1,
            DecodedLevel::MVar(_) => 2,
            DecodedLevel::Succ(_) => 3,
            DecodedLevel::Max(_, _) => 4,
            DecodedLevel::IMax(_, _) => 5,
        }
    }

    /// The number of `Succ`s on top of this level.
    pub fn get_offset(&self) -> (n: usize)
        requires
            offset(self@) <= usize::MAX,
        ensures
            n == offset(self@),
    {
        let mut cur = self;
        let mut n: usize = 0;
        loop
            invariant
                n + offset(cur@) == offset(self@),
                offset(self@) <= usize::MAX,
            ensures
                n == offset(self@),
            decreases offset(cur@),
        {
            match cur {
                DecodedLevel::Succ(u) => {
                    n = n + 1;
                    cur = &**u;
                },
                _ => {
                    break ;
                },
            }
        }
        n
    }

    /// This level below its topmost `Succ`s.
    pub fn get_level_offset(&self) -> (r: &DecodedLevel)
        ensures
            r@ == base(self@),
    {
        let mut cur = self;
        loop
            invariant
                base(cur@) == base(self@),
            ensures
                cur@ == base(self@),
            decreases size(cur@),
        {
            match cur {
                DecodedLevel::Succ(u) => {
                    cur = &**u;
                },
                _ => {
                    break ;
                },
            }
        }
        cur
    }

    /// This level is at least one under every assignment.
    pub fn is_never_zero(&self) -> (r: bool)
        ensures
            r == never_zero(self@),
        decreases self,
    {
        match self {
            DecodedLevel::Zero | DecodedLevel::Param(_) | DecodedLevel::MVar(_) => false,
            DecodedLevel::Succ(_) => true,
            DecodedLevel::Max(l1, l2) => l1.is_never_zero() || l2.is_never_zero(),
            DecodedLevel::IMax(_, l2) => l2.is_never_zero(),
        }
    }

    /// This level is its own normal form without further work.
    pub fn is_already_normalized_cheap(&self) -> (r: bool)
        ensures
            r == is_cheap(self@),
        decreases self,
    {
        match self {
            DecodedLevel::Zero | DecodedLevel::Param(_) | DecodedLevel::MVar(_) => true,
            DecodedLevel::Succ(u) => u.is_already_normalized_cheap(),
            _ => false,
        }
    }

    /// `n` applications of `Succ` on top of this level.
    pub fn add_offset(self, n: usize) -> (r: DecodedLevel)
        ensures
            r@ == add_offset(self@, n as nat),
    {
        let ghost l = self@;
        let mut u = self;
        let mut i: usize = 0;
        while i < n
            invariant
                i <= n,
                u@ == add_offset(l, i as nat),
            decreases n - i,
        {
            u = DecodedLevel::Succ(Box::new(u));
            proof {
                lemma_add_offset_succ(l, i as nat);
            }
            i = i + 1;
        }
        u
    }

    /// `imax u v`, simplified.
    pub fn mk_imax_aux(u: DecodedLevel, v: DecodedLevel) -> (r: DecodedLevel)
        ensures
            r@ == mk_imax(u@, v@),
    {
        if v.is_zero() {
            return DecodedLevel::Zero;
        }
        if u.is_zero() {
            return v;
        }
        if let DecodedLevel::Succ(inner) = &u {
            if inner.is_zero() {
                return v;
            }
        }
        if u.level_eq(&v) {
            u
        } else {
            DecodedLevel::IMax(Box::new(u), Box::new(v))
        }
    }

    /// `l1` comes strictly before `l2` in the order of normalization.
    pub fn norm_lt(l1: &DecodedLevel, l2: &DecodedLevel) -> (r: bool)
        requires
            succ_depth(l1@) <= usize::MAX,
            succ_depth(l2@) <= usize::MAX,
        ensures
            r == norm_before(l1@, l2@),
    {
        Self::norm_lt_aux(l1, 0, l2, 0)
    }

    /// `l1` with `k1` extra `Succ`s comes strictly before `l2` with `k2`
    /// extra `Succ`s.
    pub fn norm_lt_aux(l1: &DecodedLevel, k1: usize, l2: &DecodedLevel, k2: usize) -> (r: bool)
        requires
            k1 + succ_depth(l1@) <= usize::MAX,
            k2 + succ_depth(l2@) <= usize::MAX,
        ensures
            r == norm_before_aux(l1@, k1 as nat, l2@, k2 as nat),
        decreases size(l1@) + size(l2@),
    {
        match (l1, l2) {
            (DecodedLevel::Succ(a), _) => Self::norm_lt_aux(a, k1 + 1, l2, k2),
            (_, DecodedLevel::Succ(b)) => Self::norm_lt_aux(l1, k1, b, k2 + 1),
            (DecodedLevel::Max(a1, a2), DecodedLevel::Max(b1, b2)) => {
                if l1.level_eq(l2) {
                    k1 < k2
                } else if !a1.level_eq(b1) {
                    Self::norm_lt_aux(a1, 0, b1, 0)
                } else {
                    Self::norm_lt_aux(a2, 0, b2, 0)
                }
            },
            (DecodedLevel::IMax(a1, a2), DecodedLevel::IMax(b1, b2)) => {
                if l1.level_eq(l2) {
                    k1 < k2
                } else if !a1.level_eq(b1) {
                    Self::norm_lt_aux(a1, 0, b1, 0)
                } else {
                    Self::norm_lt_aux(a2, 0, b2, 0)
                }
            },
            (DecodedLevel::Param(n1), DecodedLevel::Param(n2)) => {
                if n1.name_eq(n2) {
                    k1 < k2
                } else {
                    n1.name_lt(n2)
                }
            },
            (DecodedLevel::MVar(n1), DecodedLevel::MVar(n2)) => {
                if n1.name_eq(n2) {
                    k1 < k2
                } else {
                    n1.name_lt(n2)
                }
            },
            _ => {
                if l1.level_eq(l2) {
                    k1 < k2
                } else {
                    l1.ctor_to_nat() < l2.ctor_to_nat()
                }
            },
        }
    }

    /// Appends the arguments of nested `max`es in `l` to `lvls`: as they
    /// stand where `already_normalized`, else each normalized.
    pub fn get_max_args_aux(l: &DecodedLevel, already_normalized: bool, lvls: &mut Vec<DecodedLevel>)
        requires
            succ_depth(l@) <= usize::MAX,
        ensures
            level_views(final(lvls)@) == level_views(old(lvls)@) + if already_normalized {
                flatten_max(l@)
            } else {
                max_args(l@)
            },
        decreases (if already_normalized {
            0
        } else {
            size(l@)
        }), (if already_normalized {
            size(l@)
        } else {
            3
        }),
    {
        match l {
            DecodedLevel::Max(l1, l2) => {
                Self::get_max_args_aux(l1, already_normalized, lvls);
                Self::get_max_args_aux(l2, already_normalized, lvls);
                assert(level_views(lvls@) =~= level_views(old(lvls)@) + if already_normalized {
                    flatten_max(l@)
                } else {
                    max_args(l@)
                });
            },
            _ => {
                if !already_normalized {
                    let n = l.normalize();
                    proof {
                        lemma_normalize_depth(l@);
                        lemma_size_positive(l@);
                    }
                    Self::get_max_args_aux(&n, true, lvls);
                } else {
                    lvls.push(l.clone());
                    assert(level_views(lvls@) =~= level_views(old(lvls)@) + flatten_max(l@));
                }
            },
        }
    }

    /// `max result (prev + offset)`, or `prev + offset` where `result` is
    /// zero.
    pub fn acc_max(result: DecodedLevel, prev: DecodedLevel, offset: usize) -> (r: DecodedLevel)
        ensures
            r@ == acc_max(result@, prev@, offset as nat),
    {
        let shifted = prev.add_offset(offset);
        if result.is_zero() {
            shifted
        } else {
            DecodedLevel::Max(Box::new(result), Box::new(shifted))
        }
    }

    /// Folds the sorted arguments `lvls[start..]` into a `max` (see
    /// `mk_max_from`).
    pub fn mk_max_aux(
        lvls: &[DecodedLevel],
        extra_k: usize,
        start: usize,
        prev: DecodedLevel,
        prev_k: usize,
        result: DecodedLevel,
    ) -> (r: DecodedLevel)
        requires
            forall|i: int|
                0 <= i < lvls@.len() ==> extra_k + succ_depth(#[trigger] lvls@[i]@) <= usize::MAX,
            extra_k + prev_k + succ_depth(prev@) <= usize::MAX,
        ensures
            r@ == mk_max_from(level_views(lvls@), extra_k as nat, start as int, prev@, prev_k as nat, result@),
    {
        let ghost s = level_views(lvls@);
        let ghost target = mk_max_from(s, extra_k as nat, start as int, prev@, prev_k as nat, result@);
        let mut prev = prev;
        let mut prev_k = prev_k;
        let mut result = result;
        let mut i = if start < lvls.len() {
            start
        } else {
            lvls.len()
        };
        while i < lvls.len()
            invariant
                s == level_views(lvls@),
                i <= lvls@.len(),
                forall|j: int|
                    0 <= j < lvls@.len() ==> extra_k + succ_depth(#[trigger] lvls@[j]@) <= usize::MAX,
                extra_k + prev_k + succ_depth(prev@) <= usize::MAX,
                mk_max_from(s, extra_k as nat, i as int, prev@, prev_k as nat, result@) == target,
            decreases lvls@.len() - i,
        {
            let curr = lvls[i].get_level_offset();
            proof {
                lemma_base_offset(lvls@[i as int]@);
                lemma_offset_le_depth(lvls@[i as int]@);
                assert(s[i as int] == lvls@[i as int]@);
            }
            let curr_k = lvls[i].get_offset();
            if curr.level_eq(&prev) {
                prev_k = curr_k;
            } else {
                result = Self::acc_max(result, prev, extra_k + prev_k);
                prev = curr.clone();
                prev_k = curr_k;
            }
            i = i + 1;
        }
        Self::acc_max(result, prev, extra_k + prev_k)
    }

    /// The first index at or after `start` whose level is not a numeral (or
    /// the length).
    pub fn skip_explicit(lvls: &[DecodedLevel], start: usize) -> (r: usize)
        ensures
            r == skip_explicit(level_views(lvls@), start as int),
    {
        let ghost s = level_views(lvls@);
        let mut i = start;
        while i < lvls.len() && lvls[i].get_level_offset().is_zero()
            invariant
                s == level_views(lvls@),
                start <= i,
                i <= lvls@.len() || i == start,
                skip_explicit(s, i as int) == skip_explicit(s, start as int),
            decreases lvls@.len() - i,
        {
            assert(s[i as int] == lvls@[i as int]@);
            i = i + 1;
        }
        proof {
            if i < lvls@.len() {
                assert(s[i as int] == lvls@[i as int]@);
            }
        }
        i
    }

    /// The numeral just before `first_non_explicit` is at most the offset
    /// of a later argument.
    pub fn is_explicit_subsumed(lvls: &[DecodedLevel], first_non_explicit: usize) -> (r: bool)
        requires
            first_non_explicit <= lvls@.len(),
            forall|i: int| 0 <= i < lvls@.len() ==> succ_depth(#[trigger] lvls@[i]@) <= usize::MAX,
        ensures
            r == explicit_subsumed(level_views(lvls@), first_non_explicit as int),
    {
        if first_non_explicit == 0 {
            return false;
        }
        proof {
            lemma_offset_le_depth(lvls@[first_non_explicit - 1]@);
        }
        let max = lvls[first_non_explicit - 1].get_offset();
        let r = Self::is_explicit_subsumed_aux(lvls, max, first_non_explicit);
        proof {
            let s = level_views(lvls@);
            assert(s[first_non_explicit - 1] == lvls@[first_non_explicit - 1]@);
            if r {
                let j = choose|j: int|
                    first_non_explicit <= j < lvls@.len() && #[trigger] offset(lvls@[j]@) >= max;
                assert(s[j] == lvls@[j]@);
            }
            if explicit_subsumed(s, first_non_explicit as int) {
                let j = choose|j: int|
                    first_non_explicit <= j < s.len() && #[trigger] offset(s[j]) >= offset(
                        s[first_non_explicit - 1],
                    );
                assert(s[j] == lvls@[j]@);
            }
        }
        r
    }

    /// Some argument at or after `start` has an offset of at least
    /// `max_explicit`.
    pub fn is_explicit_subsumed_aux(lvls: &[DecodedLevel], max_explicit: usize, start: usize) -> (r: bool)
        requires
            forall|i: int| 0 <= i < lvls@.len() ==> succ_depth(#[trigger] lvls@[i]@) <= usize::MAX,
        ensures
            r == exists|j: int| start <= j < lvls@.len() && #[trigger] offset(lvls@[j]@) >= max_explicit,
    {
        let mut i = start;
        while i < lvls.len()
            invariant
                start <= i,
                forall|j: int| 0 <= j < lvls@.len() ==> succ_depth(#[trigger] lvls@[j]@) <= usize::MAX,
                forall|j: int| start <= j < i && j < lvls@.len() ==> #[trigger] offset(lvls@[j]@) < max_explicit,
            decreases lvls@.len() - i,
        {
            proof {
                lemma_offset_le_depth(lvls@[i as int]@);
            }
            if lvls[i].get_offset() >= max_explicit {
                return true;
            }
            i = i + 1;
        }
        false
    }

    /// `lvls` sorted by `norm_lt`, inserting the elements one by one in
    /// order (equal elements keep their order).
    pub fn sort_by_norm_lt(lvls: Vec<DecodedLevel>) -> (r: Vec<DecodedLevel>)
        requires
            forall|i: int| 0 <= i < lvls@.len() ==> succ_depth(#[trigger] lvls@[i]@) <= usize::MAX,
        ensures
            level_views(r@) == sort_levels(level_views(lvls@)),
    {
        let ghost orig = level_views(lvls@);
        let ghost n = lvls@.len();
        let mut src = lvls;
        let mut res: Vec<DecodedLevel> = Vec::new();
        proof {
            lemma_sort_depth(orig.take(0), usize::MAX as nat);
            assert(orig.take(0) =~= Seq::<SpecLevel>::empty());
            assert(level_views(src@) =~= orig.skip(0));
        }
        while src.len() > 0
            invariant
                src@.len() <= n,
                n == orig.len(),
                all_depth_le(orig, usize::MAX as nat),
                level_views(src@) == orig.skip(n - src@.len()),
                level_views(res@) == sort_levels(orig.take(n - src@.len())),
            decreases src@.len(),
        {
            let ghost m = n - src@.len();
            let ghost before = level_views(res@);
            let ghost old_src = src@;
            let x = src.remove(0);
            proof {
                assert(level_views(old_src)[0] == old_src[0]@);
                assert(orig.skip(m)[0] == orig[m]);
                assert(x@ == orig[m]);
                assert forall|i: int| 0 <= i < src@.len() implies #[trigger] level_views(src@)[i] == orig.skip(m + 1)[i] by {
                    assert(src@[i] == old_src[i + 1]);
                    assert(level_views(old_src)[i + 1] == old_src[i + 1]@);
                    assert(orig.skip(m)[i + 1] == orig[m + 1 + i]);
                }
                assert(level_views(src@) =~= orig.skip(m + 1));
                assert(orig.take(m + 1).drop_last() =~= orig.take(m));
                assert(orig.take(m + 1).last() == orig[m]);
                lemma_sort_depth(orig.take(m), usize::MAX as nat);
                assert(all_depth_le(orig.take(m), usize::MAX as nat)) by {
                    assert forall|k: int| 0 <= k < orig.take(m).len() implies #[trigger] succ_depth(orig.take(m)[k]) <= usize::MAX by {
                        assert(orig.take(m)[k] == orig[k]);
                    }
                }
                lemma_sort_depth(orig.take(m), usize::MAX as nat);
                assert(succ_depth(orig[m]) <= usize::MAX);
                assert forall|k: int| 0 <= k < res@.len() implies succ_depth(#[trigger] res@[k]@) <= usize::MAX by {
                    assert(before[k] == res@[k]@);
                }
            }
            let mut j: usize = 0;
            while j < res.len() && !Self::norm_lt(&x, &res[j])
                invariant
                    j <= res@.len(),
                    before == level_views(res@),
                    all_depth_le(before, usize::MAX as nat),
                    forall|k: int| 0 <= k < res@.len() ==> succ_depth(#[trigger] res@[k]@) <= usize::MAX,
                    succ_depth(x@) <= usize::MAX,
                    forall|k: int| 0 <= k < j ==> !norm_before(x@, #[trigger] before[k]),
                decreases res@.len() - j,
            {
                proof {
                    assert(before[j as int] == res@[j as int]@);
                    assert(succ_depth(before[j as int]) <= usize::MAX);
                }
                j = j + 1;
            }
            proof {
                if j < res@.len() {
                    assert(before[j as int] == res@[j as int]@);
                }
                lemma_insert_level_at(x@, before, j as int);
            }
            res.insert(j, x);
            assert(level_views(res@) =~= before.insert(j as int, orig[m]));
        }
        assert(orig.take(n as int) =~= orig);
        res
    }

    /// The normal form of this level.
    pub fn normalize(&self) -> (r: DecodedLevel)
        requires
            succ_depth(self@) <= usize::MAX,
        ensures
            r@ == normalize(self@),
        decreases size(self@), normalize_rank(self@),
    {
        if self.is_already_normalized_cheap() {
            return self.clone();
        }
        proof {
            lemma_base_offset(self@);
            lemma_offset_le_depth(self@);
            lemma_not_cheap_base(self@);
        }
        let k = self.get_offset();
        match self.get_level_offset() {
            DecodedLevel::Max(l1, l2) => {
                let mut lvls: Vec<DecodedLevel> = Vec::new();
                Self::get_max_args_aux(l1, false, &mut lvls);
                Self::get_max_args_aux(l2, false, &mut lvls);
                let ghost d = succ_depth(base(self@));
                proof {
                    lemma_max_args_depth(l1@);
                    lemma_max_args_depth(l2@);
                    let a = max_args(l1@);
                    let b = max_args(l2@);
                    assert(level_views(lvls@) =~= a + b);
                    assert forall|i: int| 0 <= i < lvls@.len() implies succ_depth(#[trigger] lvls@[i]@) <= d by {
                        assert(lvls@[i]@ == (a + b)[i]);
                        if i < a.len() {
                            assert(succ_depth(a[i]) <= succ_depth(l1@));
                        } else {
                            assert(succ_depth(b[i - a.len()]) <= succ_depth(l2@));
                        }
                    }
                    assert(all_depth_le(level_views(lvls@), d)) by {
                        assert forall|i: int| 0 <= i < level_views(lvls@).len() implies #[trigger] succ_depth(level_views(lvls@)[i]) <= d by {
                            assert(level_views(lvls@)[i] == lvls@[i]@);
                        }
                    }
                    lemma_sort_depth(level_views(lvls@), d);
                }
                let lvls = Self::sort_by_norm_lt(lvls);
                let ghost s = level_views(lvls@);
                proof {
                    assert forall|i: int| 0 <= i < lvls@.len() implies k + succ_depth(#[trigger] lvls@[i]@) <= usize::MAX by {
                        assert(s[i] == lvls@[i]@);
                        assert(succ_depth(s[i]) <= d);
                    }
                    lemma_max_start(s);
                }
                let first_non_explicit = Self::skip_explicit(lvls.as_slice(), 0);
                proof {
                    lemma_skip_explicit(s, 0);
                }
                let i = if Self::is_explicit_subsumed(lvls.as_slice(), first_non_explicit) {
                    first_non_explicit
                } else if first_non_explicit > 0 {
                    first_non_explicit - 1
                } else {
                    0
                };
                proof {
                    assert(s[i as int] == lvls@[i as int]@);
                    lemma_base_offset(s[i as int]);
                    lemma_offset_le_depth(s[i as int]);
                }
                let prev = lvls[i].get_level_offset().clone();
                let prev_k = lvls[i].get_offset();
                Self::mk_max_aux(lvls.as_slice(), k, i + 1, prev, prev_k, DecodedLevel::Zero)
            },
            DecodedLevel::IMax(l1, l2) => {
                if l2.is_never_zero() {
                    let merged = DecodedLevel::Max(Box::new((**l1).clone()), Box::new((**l2).clone()));
                    assert(merged@ == SpecLevel::Max(Box::new(l1@), Box::new(l2@)));
                    let n = merged.normalize();
                    n.add_offset(k)
                } else {
                    let n1 = l1.normalize();
                    let n2 = l2.normalize();
                    Self::mk_imax_aux(n1, n2).add_offset(k)
                }
            },
            _ => {
                proof {
                    assert(false);
                }
                self.clone()
            },
        }
    }
}

} // verus!
