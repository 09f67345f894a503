//! Which normal forms normalization leaves unchanged: exactly those
//! without a `Succ` directly above a `max`.
use vstd::prelude::*;

use crate::level::{add_offset, base, lemma_add_offset_parts, lemma_base_offset, offset, size, SpecLevel};
use crate::level_normal_form::{
    lemma_sort_levels_sorted, max_chain, max_leaves, sorted_levels, succ_over_max,
};
use crate::level_normalize::{
    flatten_max, insert_level, is_cheap, lemma_not_cheap_base, max_args, max_start, mk_imax,
    mk_max_normal, never_zero, norm_before, normalize, normalize_rank, sort_levels,
};

verus! {

/// The number of `imax` nodes of `l`.
pub open spec fn imax_count(l: SpecLevel) -> nat
    decreases l,
{
    match l {
        SpecLevel::Succ(u) => imax_count(*u),
        SpecLevel::Max(a, b) => imax_count(*a) + imax_count(*b),
        SpecLevel::IMax(a, b) => 1 + imax_count(*a) + imax_count(*b),
        _ => 0,
    }
}

/// The number of places in `l` where a `Succ` stands directly above a
/// `max`.
pub open spec fn succ_max_count(l: SpecLevel) -> nat
    decreases l,
{
    match l {
        SpecLevel::Succ(u) => (if *u is Max {
            1nat
        } else {
            0nat
        }) + succ_max_count(*u),
        SpecLevel::Max(a, b) => succ_max_count(*a) + succ_max_count(*b),
        SpecLevel::IMax(a, b) => succ_max_count(*a) + succ_max_count(*b),
        _ => 0,
    }
}

/// The total number of `imax` nodes of the levels of `s`.
pub open spec fn seq_imax_count(s: Seq<SpecLevel>) -> nat
    decreases s.len(),
{
    if s.len() == 0 {
        0
    } else {
        seq_imax_count(s.drop_last()) + imax_count(s.last())
    }
}

/// The total number of `Succ`s directly above a `max` in the levels of `s`.
pub open spec fn seq_succ_max_count(s: Seq<SpecLevel>) -> nat
    decreases s.len(),
{
    if s.len() == 0 {
        0
    } else {
        seq_succ_max_count(s.drop_last()) + succ_max_count(s.last())
    }
}

proof fn lemma_succ_max_count_pos(l: SpecLevel)
    ensures
        succ_over_max(l) == (succ_max_count(l) > 0),
    decreases l,
{
    match l {
        SpecLevel::Succ(u) => lemma_succ_max_count_pos(*u),
        SpecLevel::Max(a, b) => {
            lemma_succ_max_count_pos(*a);
            lemma_succ_max_count_pos(*b);
        },
        SpecLevel::IMax(a, b) => {
            lemma_succ_max_count_pos(*a);
            lemma_succ_max_count_pos(*b);
        },
        _ => {},
    }
}

proof fn lemma_counts_concat(a: Seq<SpecLevel>, b: Seq<SpecLevel>)
    ensures
        seq_imax_count(a + b) == seq_imax_count(a) + seq_imax_count(b),
        seq_succ_max_count(a + b) == seq_succ_max_count(a) + seq_succ_max_count(b),
    decreases b.len(),
{
    if b.len() == 0 {
        assert(a + b =~= a);
    } else {
        lemma_counts_concat(a, b.drop_last());
        assert((a + b).drop_last() =~= a + b.drop_last());
        assert((a + b).last() == b.last());
    }
}

proof fn lemma_counts_single(x: SpecLevel)
    ensures
        seq_imax_count(seq![x]) == imax_count(x),
        seq_succ_max_count(seq![x]) == succ_max_count(x),
{
    assert(seq![x].drop_last() =~= Seq::<SpecLevel>::empty());
    assert(seq![x].last() == x);
    assert(seq_imax_count(Seq::<SpecLevel>::empty()) == 0);
    assert(seq_succ_max_count(Seq::<SpecLevel>::empty()) == 0);
}

/// The counts of a level are those of its `max` arguments, none of which
/// is a `max`.
proof fn lemma_counts_flatten(l: SpecLevel)
    ensures
        seq_imax_count(flatten_max(l)) == imax_count(l),
        seq_succ_max_count(flatten_max(l)) == succ_max_count(l),
        forall|i: int| 0 <= i < flatten_max(l).len() ==> !(#[trigger] flatten_max(l)[i] is Max),
    decreases l,
{
    match l {
        SpecLevel::Max(a, b) => {
            lemma_counts_flatten(*a);
            lemma_counts_flatten(*b);
            let fa = flatten_max(*a);
            let fb = flatten_max(*b);
            lemma_counts_concat(fa, fb);
            assert forall|i: int| 0 <= i < (fa + fb).len() implies !(#[trigger] (fa + fb)[i] is Max) by {
                if i < fa.len() {
                    assert((fa + fb)[i] == fa[i]);
                } else {
                    assert((fa + fb)[i] == fb[i - fa.len()]);
                }
            }
        },
        _ => lemma_counts_single(l),
    }
}

proof fn lemma_counts_chain(ls: Seq<SpecLevel>)
    requires
        ls.len() >= 1,
    ensures
        imax_count(max_chain(ls)) == seq_imax_count(ls),
        succ_max_count(max_chain(ls)) == seq_succ_max_count(ls),
    decreases ls.len(),
{
    if ls.len() == 1 {
        lemma_counts_single(ls[0]);
        assert(seq![ls[0]] =~= ls);
    } else {
        lemma_counts_chain(ls.drop_last());
    }
}

proof fn lemma_counts_insert(x: SpecLevel, t: Seq<SpecLevel>)
    ensures
        seq_imax_count(insert_level(x, t)) == imax_count(x) + seq_imax_count(t),
        seq_succ_max_count(insert_level(x, t)) == succ_max_count(x) + seq_succ_max_count(t),
    decreases t.len(),
{
    if t.len() == 0 {
        lemma_counts_single(x);
    } else if norm_before(x, t[0]) {
        lemma_counts_concat(seq![x], t);
        lemma_counts_single(x);
    } else {
        let t1 = t.drop_first();
        lemma_counts_insert(x, t1);
        lemma_counts_concat(seq![t[0]], insert_level(x, t1));
        lemma_counts_concat(seq![t[0]], t1);
        lemma_counts_single(t[0]);
        assert(seq![t[0]] + t1 =~= t);
    }
}

proof fn lemma_counts_sort(s: Seq<SpecLevel>)
    ensures
        seq_imax_count(sort_levels(s)) == seq_imax_count(s),
        seq_succ_max_count(sort_levels(s)) == seq_succ_max_count(s),
    decreases s.len(),
{
    if s.len() > 0 {
        lemma_counts_sort(s.drop_last());
        lemma_counts_insert(s.last(), sort_levels(s.drop_last()));
    }
}


/// `Succ`s on top add no `imax`, and one `Succ` above a `max` where the
/// level is a `max`.
proof fn lemma_counts_offset(x: SpecLevel, n: nat)
    ensures
        imax_count(add_offset(x, n)) == imax_count(x),
        succ_max_count(add_offset(x, n)) == succ_max_count(x) + if x is Max && n >= 1 {
            1nat
        } else {
            0nat
        },
    decreases n,
{
    if n > 0 {
        lemma_counts_offset(x, (n - 1) as nat);
        assert(add_offset(x, 0) == x);
    }
}

proof fn lemma_cheap_counts(l: SpecLevel)
    requires
        is_cheap(l),
    ensures
        imax_count(l) == 0,
        succ_max_count(l) == 0,
    decreases l,
{
    if let SpecLevel::Succ(u) = l {
        lemma_cheap_counts(*u);
    }
}

/// The leaves of a fold have no more of either than the arguments they
/// come from.
proof fn lemma_counts_leaves(s: Seq<SpecLevel>, extra_k: nat, i: int, prev: SpecLevel, prev_k: nat)
    requires
        1 <= i <= s.len(),
        prev == base(s[i - 1]),
        prev_k == offset(s[i - 1]),
        forall|j: int| 0 <= j < s.len() ==> !(#[trigger] s[j] is Max),
    ensures
        seq_imax_count(max_leaves(s, extra_k, i, prev, prev_k)) <= seq_imax_count(
            s.subrange(i - 1, s.len() as int),
        ),
        seq_succ_max_count(max_leaves(s, extra_k, i, prev, prev_k)) <= seq_succ_max_count(
            s.subrange(i - 1, s.len() as int),
        ),
    decreases s.len() - i,
{
    let n = s.len() as int;
    let x = s[i - 1];
    lemma_base_offset(x);
    lemma_counts_offset(prev, extra_k + prev_k);
    lemma_counts_offset(prev, prev_k);
    assert(!(x is Max));
    let leaf = add_offset(prev, extra_k + prev_k);
    assert(imax_count(leaf) == imax_count(x));
    assert(succ_max_count(leaf) == succ_max_count(x));
    let rest = s.subrange(i, n);
    assert(s.subrange(i - 1, n) =~= seq![x] + rest);
    lemma_counts_concat(seq![x], rest);
    lemma_counts_single(x);
    if i >= n {
        assert(rest =~= Seq::<SpecLevel>::empty());
        lemma_counts_single(leaf);
    } else if base(s[i]) == prev {
        lemma_counts_leaves(s, extra_k, i + 1, prev, offset(s[i]));
    } else {
        lemma_counts_leaves(s, extra_k, i + 1, base(s[i]), offset(s[i]));
        let more = max_leaves(s, extra_k, i + 1, base(s[i]), offset(s[i]));
        lemma_counts_concat(seq![leaf], more);
        lemma_counts_single(leaf);
    }
}

/// Folding arguments into a normal `max` adds no `imax` and no `Succ`
/// above a `max`.
proof fn lemma_counts_mk_max_normal(s: Seq<SpecLevel>, k: nat)
    requires
        s.len() >= 1,
        sorted_levels(s),
        forall|j: int| 0 <= j < s.len() ==> !(#[trigger] s[j] is Max),
    ensures
        imax_count(mk_max_normal(s, k)) <= seq_imax_count(s),
        succ_max_count(mk_max_normal(s, k)) <= seq_succ_max_count(s),
{
    crate::level_normal_form::lemma_mk_max_normal_chain(s, k);
    let st = max_start(s);
    let n = s.len() as int;
    let ls = max_leaves(s, k, st + 1, base(s[st]), offset(s[st]));
    crate::level_normal_form::lemma_max_leaves_nonempty(s, k, st + 1, base(s[st]), offset(s[st]));
    lemma_counts_chain(ls);
    lemma_counts_leaves(s, k, st + 1, base(s[st]), offset(s[st]));
    assert(s.subrange(0, st) + s.subrange(st, n) =~= s);
    lemma_counts_concat(s.subrange(0, st), s.subrange(st, n));
}

/// Normalization adds no `imax`; where it removes none, it adds no `Succ`
/// directly above a `max`, and removes one wherever there is one.
pub proof fn lemma_normalize_counts(y: SpecLevel)
    ensures
        imax_count(normalize(y)) <= imax_count(y),
        imax_count(normalize(y)) == imax_count(y) ==> succ_max_count(normalize(y)) <= succ_max_count(y)
            && (succ_max_count(y) > 0 ==> succ_max_count(normalize(y)) < succ_max_count(y)),
    decreases size(y), normalize_rank(y),
{
    if is_cheap(y) {
        lemma_cheap_counts(y);
    } else {
        let k = offset(y);
        lemma_base_offset(y);
        lemma_counts_offset(base(y), k);
        lemma_not_cheap_base(y);
        match base(y) {
            SpecLevel::Max(l1, l2) => {
                lemma_max_args_counts(*l1);
                lemma_max_args_counts(*l2);
                let a = max_args(*l1);
                let b = max_args(*l2);
                let ab = a + b;
                lemma_counts_concat(a, b);
                lemma_counts_sort(ab);
                lemma_sort_levels_sorted(ab);
                crate::level_normalize::lemma_max_args_depth(*l1);
                let t = sort_levels(ab);
                assert forall|j: int| 0 <= j < t.len() implies !(#[trigger] t[j] is Max) by {
                    broadcast use vstd::seq_lib::group_to_multiset_ensures;

                    assert(t.to_multiset().count(t[j]) > 0);
                    assert(ab.contains(t[j]));
                    let i = choose|i: int| 0 <= i < ab.len() && ab[i] == t[j];
                    if i < a.len() {
                        assert(ab[i] == a[i]);
                    } else {
                        assert(ab[i] == b[i - a.len()]);
                    }
                }
                lemma_counts_mk_max_normal(t, k);
            },
            SpecLevel::IMax(l1, l2) => {
                if never_zero(*l2) {
                    let mx = SpecLevel::Max(l1, l2);
                    lemma_normalize_counts(mx);
                    lemma_counts_offset(normalize(mx), k);
                } else {
                    lemma_normalize_counts(*l1);
                    lemma_normalize_counts(*l2);
                    let r = mk_imax(normalize(*l1), normalize(*l2));
                    lemma_counts_offset(r, k);
                }
            },
            _ => {},
        }
    }
}

/// The normalized arguments of a level, none a `max`, have no more `imax`
/// than the level; where they have as many, they have no more `Succ`s
/// directly above a `max`, and fewer where the level has one.
pub proof fn lemma_max_args_counts(x: SpecLevel)
    ensures
        forall|i: int| 0 <= i < max_args(x).len() ==> !(#[trigger] max_args(x)[i] is Max),
        seq_imax_count(max_args(x)) <= imax_count(x),
        seq_imax_count(max_args(x)) == imax_count(x) ==> seq_succ_max_count(max_args(x))
            <= succ_max_count(x) && (succ_max_count(x) > 0 ==> seq_succ_max_count(max_args(x))
            < succ_max_count(x)),
    decreases size(x), 3nat,
{
    match x {
        SpecLevel::Max(a, b) => {
            lemma_max_args_counts(*a);
            lemma_max_args_counts(*b);
            let ma = max_args(*a);
            let mb = max_args(*b);
            lemma_counts_concat(ma, mb);
            assert forall|i: int| 0 <= i < (ma + mb).len() implies !(#[trigger] (ma + mb)[i] is Max) by {
                if i < ma.len() {
                    assert((ma + mb)[i] == ma[i]);
                } else {
                    assert((ma + mb)[i] == mb[i - ma.len()]);
                }
            }
        },
        _ => {
            lemma_normalize_counts(x);
            lemma_counts_flatten(normalize(x));
        },
    }
}

/// A level that normalization leaves unchanged has no `Succ` directly
/// above a `max`.
pub proof fn lemma_fixed_point_has_no_succ_over_max(y: SpecLevel)
    requires
        normalize(y) == y,
    ensures
        !succ_over_max(y),
{
    lemma_normalize_counts(y);
    lemma_succ_max_count_pos(y);
}

/// Normalization is idempotent on a level exactly when the level's normal
/// form has no `Succ` directly above a `max`.
pub proof fn lemma_normalize_idempotent_iff(l: SpecLevel)
    ensures
        (normalize(normalize(l)) == normalize(l)) == !succ_over_max(normalize(l)),
{
    if !succ_over_max(normalize(l)) {
        crate::level_normal_form::lemma_normalize_idempotent(l);
    } else if normalize(normalize(l)) == normalize(l) {
        lemma_fixed_point_has_no_succ_over_max(normalize(l));
    }
}

} // verus!
