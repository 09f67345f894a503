//! The value of a universe level once its parameters and metavariables are
//! given natural numbers, and the fact that normalization keeps it.
use vstd::prelude::*;

use crate::level_def_eq::quick_def_eq;
use crate::level::{add_offset, base, lemma_base_offset, offset, size, SpecLevel, SpecName};
use crate::level_normal_form::{lemma_norm_before_key, lemma_sort_levels_sorted, sorted_levels};
use crate::level_normalize::{
    acc_max, flatten_max, insert_level, lemma_max_args_depth, lemma_not_cheap_base,
    lemma_skip_explicit, max_args, max_start, mk_imax, mk_max_from, mk_max_normal, never_zero,
    norm_before, normalize, normalize_rank, skip_explicit, sort_levels, is_cheap,
};

verus! {

/// The larger of two numbers.
pub open spec fn nat_max(a: nat, b: nat) -> nat {
    if a >= b {
        a
    } else {
        b
    }
}

/// The value of `l` where each parameter `n` stands for `params(n)` and
/// each metavariable `n` for `mvars(n)`: `imax u v` is zero where `v` is,
/// and the larger of the two otherwise.
pub open spec fn level_value(
    l: SpecLevel,
    params: spec_fn(SpecName) -> nat,
    mvars: spec_fn(SpecName) -> nat,
) -> nat
    decreases l,
{
    match l {
        SpecLevel::Zero => 0,
        SpecLevel::Succ(u) => level_value(*u, params, mvars) + 1,
        SpecLevel::Max(a, b) => nat_max(level_value(*a, params, mvars), level_value(*b, params, mvars)),
        SpecLevel::IMax(a, b) => if level_value(*b, params, mvars) == 0 {
            0
        } else {
            nat_max(level_value(*a, params, mvars), level_value(*b, params, mvars))
        },
        SpecLevel::Param(n) => params(n),
        SpecLevel::MVar(n) => mvars(n),
    }
}

/// The largest value of the levels of `s` (zero for none).
pub open spec fn args_value(
    s: Seq<SpecLevel>,
    params: spec_fn(SpecName) -> nat,
    mvars: spec_fn(SpecName) -> nat,
) -> nat
    decreases s.len(),
{
    if s.len() == 0 {
        0
    } else {
        nat_max(args_value(s.drop_last(), params, mvars), level_value(s.last(), params, mvars))
    }
}

proof fn lemma_add_offset_value(
    l: SpecLevel,
    n: nat,
    params: spec_fn(SpecName) -> nat,
    mvars: spec_fn(SpecName) -> nat,
)
    ensures
        level_value(add_offset(l, n), params, mvars) == level_value(l, params, mvars) + n,
    decreases n,
{
    if n > 0 {
        lemma_add_offset_value(l, (n - 1) as nat, params, mvars);
    }
}

proof fn lemma_base_value(l: SpecLevel, params: spec_fn(SpecName) -> nat, mvars: spec_fn(SpecName) -> nat)
    ensures
        level_value(l, params, mvars) == offset(l) + level_value(base(l), params, mvars),
    decreases l,
{
    if let SpecLevel::Succ(u) = l {
        lemma_base_value(*u, params, mvars);
    }
}

proof fn lemma_args_value_concat(
    a: Seq<SpecLevel>,
    b: Seq<SpecLevel>,
    params: spec_fn(SpecName) -> nat,
    mvars: spec_fn(SpecName) -> nat,
)
    ensures
        args_value(a + b, params, mvars) == nat_max(args_value(a, params, mvars), args_value(b, params, mvars)),
    decreases b.len(),
{
    if b.len() == 0 {
        assert(a + b =~= a);
    } else {
        lemma_args_value_concat(a, b.drop_last(), params, mvars);
        assert((a + b).drop_last() =~= a + b.drop_last());
        assert((a + b).last() == b.last());
    }
}

proof fn lemma_args_value_single(x: SpecLevel, params: spec_fn(SpecName) -> nat, mvars: spec_fn(SpecName) -> nat)
    ensures
        args_value(seq![x], params, mvars) == level_value(x, params, mvars),
{
    assert(seq![x].drop_last() =~= Seq::<SpecLevel>::empty());
    assert(args_value(Seq::<SpecLevel>::empty(), params, mvars) == 0);
    assert(seq![x].last() == x);
}

proof fn lemma_args_value_bounds(
    s: Seq<SpecLevel>,
    bound: nat,
    params: spec_fn(SpecName) -> nat,
    mvars: spec_fn(SpecName) -> nat,
)
    ensures
        forall|k: int| 0 <= k < s.len() ==> level_value(#[trigger] s[k], params, mvars) <= args_value(s, params, mvars),
        (forall|k: int| 0 <= k < s.len() ==> level_value(#[trigger] s[k], params, mvars) <= bound)
            ==> args_value(s, params, mvars) <= bound,
    decreases s.len(),
{
    if s.len() > 0 {
        let d = s.drop_last();
        lemma_args_value_bounds(d, bound, params, mvars);
        assert forall|k: int| 0 <= k < s.len() implies level_value(#[trigger] s[k], params, mvars)
            <= args_value(s, params, mvars) by {
            if k < s.len() - 1 {
                assert(s[k] == d[k]);
            }
        }
        if forall|k: int| 0 <= k < s.len() ==> level_value(#[trigger] s[k], params, mvars) <= bound {
            assert forall|k: int| 0 <= k < d.len() implies level_value(#[trigger] d[k], params, mvars)
                <= bound by {
                assert(d[k] == s[k]);
            }
            assert(level_value(s[s.len() - 1], params, mvars) <= bound);
        }
    }
}

/// A level's value is the largest value of its `max` arguments.
proof fn lemma_flatten_value(l: SpecLevel, params: spec_fn(SpecName) -> nat, mvars: spec_fn(SpecName) -> nat)
    ensures
        args_value(flatten_max(l), params, mvars) == level_value(l, params, mvars),
    decreases l,
{
    match l {
        SpecLevel::Max(a, b) => {
            lemma_flatten_value(*a, params, mvars);
            lemma_flatten_value(*b, params, mvars);
            lemma_args_value_concat(flatten_max(*a), flatten_max(*b), params, mvars);
        },
        _ => lemma_args_value_single(l, params, mvars),
    }
}

proof fn lemma_insert_value(
    x: SpecLevel,
    t: Seq<SpecLevel>,
    params: spec_fn(SpecName) -> nat,
    mvars: spec_fn(SpecName) -> nat,
)
    ensures
        args_value(insert_level(x, t), params, mvars) == nat_max(
            level_value(x, params, mvars),
            args_value(t, params, mvars),
        ),
    decreases t.len(),
{
    if t.len() == 0 {
        lemma_args_value_single(x, params, mvars);
    } else if norm_before(x, t[0]) {
        lemma_args_value_concat(seq![x], t, params, mvars);
        lemma_args_value_single(x, params, mvars);
    } else {
        let t1 = t.drop_first();
        lemma_insert_value(x, t1, params, mvars);
        lemma_args_value_concat(seq![t[0]], insert_level(x, t1), params, mvars);
        lemma_args_value_concat(seq![t[0]], t1, params, mvars);
        lemma_args_value_single(t[0], params, mvars);
        assert(seq![t[0]] + t1 =~= t);
    }
}

proof fn lemma_sort_value(s: Seq<SpecLevel>, params: spec_fn(SpecName) -> nat, mvars: spec_fn(SpecName) -> nat)
    ensures
        args_value(sort_levels(s), params, mvars) == args_value(s, params, mvars),
    decreases s.len(),
{
    if s.len() > 0 {
        lemma_sort_value(s.drop_last(), params, mvars);
        lemma_insert_value(s.last(), sort_levels(s.drop_last()), params, mvars);
    }
}


proof fn lemma_mk_max_from_value(
    s: Seq<SpecLevel>,
    extra_k: nat,
    i: int,
    prev: SpecLevel,
    prev_k: nat,
    result: SpecLevel,
    params: spec_fn(SpecName) -> nat,
    mvars: spec_fn(SpecName) -> nat,
)
    requires
        1 <= i <= s.len(),
        prev == base(s[i - 1]),
        prev_k == offset(s[i - 1]),
        sorted_levels(s),
    ensures
        level_value(mk_max_from(s, extra_k, i, prev, prev_k, result), params, mvars) == nat_max(
            level_value(result, params, mvars),
            extra_k + args_value(s.subrange(i - 1, s.len() as int), params, mvars),
        ),
    decreases s.len() - i,
{
    let n = s.len() as int;
    lemma_base_value(s[i - 1], params, mvars);
    lemma_add_offset_value(prev, extra_k + prev_k, params, mvars);
    let rest = s.subrange(i, n);
    assert(s.subrange(i - 1, n) =~= seq![s[i - 1]] + rest);
    lemma_args_value_concat(seq![s[i - 1]], rest, params, mvars);
    lemma_args_value_single(s[i - 1], params, mvars);
    let acc = acc_max(result, prev, extra_k + prev_k);
    assert(level_value(acc, params, mvars) == nat_max(
        level_value(result, params, mvars),
        extra_k + level_value(s[i - 1], params, mvars),
    ));
    if i >= n {
        assert(rest =~= Seq::<SpecLevel>::empty());
    } else if base(s[i]) == prev {
        lemma_mk_max_from_value(s, extra_k, i + 1, prev, offset(s[i]), result, params, mvars);
        assert(!norm_before(s[i], s[i - 1]));
        lemma_norm_before_key(s[i], s[i - 1]);
        lemma_base_value(s[i], params, mvars);
        lemma_args_value_bounds(rest, 0, params, mvars);
        assert(rest[0] == s[i]);
    } else {
        lemma_mk_max_from_value(s, extra_k, i + 1, base(s[i]), offset(s[i]), acc, params, mvars);
    }
}

/// Folding sorted arguments into a normal `max` keeps their largest value,
/// plus the offset.
proof fn lemma_mk_max_normal_value(
    s: Seq<SpecLevel>,
    k: nat,
    params: spec_fn(SpecName) -> nat,
    mvars: spec_fn(SpecName) -> nat,
)
    requires
        s.len() >= 1,
        sorted_levels(s),
    ensures
        level_value(mk_max_normal(s, k), params, mvars) == k + args_value(s, params, mvars),
{
    let n = s.len() as int;
    let fne = skip_explicit(s, 0);
    lemma_skip_explicit(s, 0);
    let st = max_start(s);
    assert(0 <= st < n);
    lemma_mk_max_from_value(s, k, st + 1, base(s[st]), offset(s[st]), SpecLevel::Zero, params, mvars);
    let pre = s.subrange(0, st);
    let sub = s.subrange(st, n);
    assert(pre + sub =~= s);
    lemma_args_value_concat(pre, sub, params, mvars);
    lemma_args_value_bounds(sub, 0, params, mvars);
    let bound = args_value(sub, params, mvars);
    assert forall|i: int| 0 <= i < pre.len() implies level_value(#[trigger] pre[i], params, mvars)
        <= bound by {
        assert(pre[i] == s[i]);
        assert(base(s[i]) is Zero);
        lemma_base_value(s[i], params, mvars);
        // The numerals before `st` are no larger than the one at `fne - 1`.
        assert(offset(s[i]) <= offset(s[fne - 1])) by {
            if i < fne - 1 {
                assert(!norm_before(s[fne - 1], s[i]));
                lemma_norm_before_key(s[fne - 1], s[i]);
            }
        }
        if st == fne {
            let j = choose|j: int|
                fne <= j < s.len() && #[trigger] offset(s[j]) >= offset(s[fne - 1]);
            lemma_base_value(s[j], params, mvars);
            assert(sub[j - st] == s[j]);
        } else {
            assert(st == fne - 1);
            lemma_base_value(s[st], params, mvars);
            assert(sub[0] == s[st]);
        }
    }
    lemma_args_value_bounds(pre, bound, params, mvars);
}

proof fn lemma_never_zero_value(l: SpecLevel, params: spec_fn(SpecName) -> nat, mvars: spec_fn(SpecName) -> nat)
    requires
        never_zero(l),
    ensures
        level_value(l, params, mvars) >= 1,
    decreases l,
{
    match l {
        SpecLevel::Max(a, b) => {
            if never_zero(*a) {
                lemma_never_zero_value(*a, params, mvars);
            } else {
                lemma_never_zero_value(*b, params, mvars);
            }
        },
        SpecLevel::IMax(_, b) => lemma_never_zero_value(*b, params, mvars),
        _ => {},
    }
}

/// Normalization keeps a level's value: under every assignment of numbers
/// to parameters and metavariables, a level and its normal form have the
/// same value.
pub proof fn lemma_normalize_value(
    l: SpecLevel,
    params: spec_fn(SpecName) -> nat,
    mvars: spec_fn(SpecName) -> nat,
)
    ensures
        level_value(normalize(l), params, mvars) == level_value(l, params, mvars),
    decreases size(l), normalize_rank(l),
{
    if !is_cheap(l) {
        let k = offset(l);
        lemma_base_offset(l);
        lemma_base_value(l, params, mvars);
        lemma_not_cheap_base(l);
        match base(l) {
            SpecLevel::Max(l1, l2) => {
                lemma_max_args_value(*l1, params, mvars);
                lemma_max_args_value(*l2, params, mvars);
                lemma_max_args_depth(*l1);
                let a = max_args(*l1);
                let b = max_args(*l2);
                lemma_args_value_concat(a, b, params, mvars);
                lemma_sort_levels_sorted(a + b);
                lemma_sort_value(a + b, params, mvars);
                lemma_mk_max_normal_value(sort_levels(a + b), k, params, mvars);
            },
            SpecLevel::IMax(l1, l2) => {
                if never_zero(*l2) {
                    let mx = SpecLevel::Max(l1, l2);
                    lemma_normalize_value(mx, params, mvars);
                    lemma_add_offset_value(normalize(mx), k, params, mvars);
                    lemma_never_zero_value(*l2, params, mvars);
                } else {
                    lemma_normalize_value(*l1, params, mvars);
                    lemma_normalize_value(*l2, params, mvars);
                    let im = mk_imax(normalize(*l1), normalize(*l2));
                    lemma_add_offset_value(im, k, params, mvars);
                }
            },
            _ => {},
        }
    }
}

/// The largest value among a level's normalized arguments is the level's
/// value.
pub proof fn lemma_max_args_value(
    l: SpecLevel,
    params: spec_fn(SpecName) -> nat,
    mvars: spec_fn(SpecName) -> nat,
)
    ensures
        args_value(max_args(l), params, mvars) == level_value(l, params, mvars),
    decreases size(l), 3nat,
{
    match l {
        SpecLevel::Max(a, b) => {
            lemma_max_args_value(*a, params, mvars);
            lemma_max_args_value(*b, params, mvars);
            lemma_args_value_concat(max_args(*a), max_args(*b), params, mvars);
        },
        _ => {
            lemma_normalize_value(l, params, mvars);
            lemma_flatten_value(normalize(l), params, mvars);
        },
    }
}


/// The assignment of zero to every name.
pub open spec fn all_zero() -> spec_fn(SpecName) -> nat {
    |n: SpecName| 0nat
}

/// `never_zero` says exactly that a level is not zero where every
/// parameter and metavariable is.
pub proof fn lemma_never_zero_iff(l: SpecLevel)
    ensures
        never_zero(l) == (level_value(l, all_zero(), all_zero()) >= 1),
    decreases l,
{
    match l {
        SpecLevel::Succ(u) => lemma_never_zero_iff(*u),
        SpecLevel::Max(a, b) => {
            lemma_never_zero_iff(*a);
            lemma_never_zero_iff(*b);
        },
        SpecLevel::IMax(a, b) => {
            lemma_never_zero_iff(*a);
            lemma_never_zero_iff(*b);
        },
        _ => {},
    }
}

/// A level's normal form is never zero exactly when the level is.
pub proof fn lemma_normalize_never_zero(l: SpecLevel)
    ensures
        never_zero(normalize(l)) == never_zero(l),
{
    lemma_never_zero_iff(l);
    lemma_never_zero_iff(normalize(l));
    lemma_normalize_value(l, all_zero(), all_zero());
}


/// The quick answer to `u =?= v` is right about values: where it says
/// `true` the two levels have the same value under every assignment, and
/// where it says `false` they differ under every assignment.
pub proof fn lemma_quick_def_eq_value(
    u: SpecLevel,
    v: SpecLevel,
    params: spec_fn(SpecName) -> nat,
    mvars: spec_fn(SpecName) -> nat,
)
    ensures
        quick_def_eq(u, v) matches Some(b) ==> b == (level_value(u, params, mvars) == level_value(
            v,
            params,
            mvars,
        )),
{
    lemma_base_value(u, params, mvars);
    lemma_base_value(v, params, mvars);
}

} // verus!
