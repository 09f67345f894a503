//! Normal forms of universe levels: the order normalization sorts by, and
//! the levels that normalization leaves unchanged.
use vstd::prelude::*;

use crate::level::{
    add_offset, base, lemma_add_offset_parts, lemma_base_offset, offset, size, SpecLevel,
};
use crate::level_normalize::{
    acc_max, ctor_rank, mk_imax, never_zero, explicit_subsumed, flatten_max, insert_level, is_cheap, lemma_skip_explicit,
    max_args, max_start, mk_max_from, mk_max_normal, norm_before, norm_before_aux, normalize,
    skip_explicit, sort_levels,
};
use crate::level_value::lemma_normalize_never_zero;
use crate::level_normalize::normalize_rank;
use crate::name_order::{lemma_name_order_antisymmetric, lemma_name_order_transitive, name_before};

verus! {

/// The bases of cheap levels: `Zero` (of numerals), parameters and
/// metavariables.
pub open spec fn is_cheap_base(b: SpecLevel) -> bool {
    b is Zero || b is Param || b is MVar
}

/// The order of normalization on two bases (levels without a `Succ` on
/// top): by constructor, parameters and metavariables by name, `max`es and
/// `imax`es by their first arguments, then by their second.
pub open spec fn base_before(b1: SpecLevel, b2: SpecLevel) -> bool {
    match (b1, b2) {
        (SpecLevel::Max(a1, a2), SpecLevel::Max(c1, c2)) => if a1 != c1 {
            norm_before(*a1, *c1)
        } else {
            norm_before(*a2, *c2)
        },
        (SpecLevel::IMax(a1, a2), SpecLevel::IMax(c1, c2)) => if a1 != c1 {
            norm_before(*a1, *c1)
        } else {
            norm_before(*a2, *c2)
        },
        (SpecLevel::Param(n1), SpecLevel::Param(n2)) => name_before(n1, n2),
        (SpecLevel::MVar(n1), SpecLevel::MVar(n2)) => name_before(n1, n2),
        _ => ctor_rank(b1) < ctor_rank(b2),
    }
}

/// Normalization's order, read off the bases and offsets: by base, then
/// by offset.
pub open spec fn key_before(x: SpecLevel, y: SpecLevel) -> bool {
    if base(x) == base(y) {
        offset(x) < offset(y)
    } else {
        base_before(base(x), base(y))
    }
}

/// No level of `s` comes strictly before an earlier one.
pub open spec fn sorted_levels(s: Seq<SpecLevel>) -> bool {
    forall|i: int, j: int| 0 <= i < j < s.len() ==> !norm_before(#[trigger] s[j], #[trigger] s[i])
}

proof fn lemma_cheap_base(l: SpecLevel)
    requires
        is_cheap(l),
    ensures
        is_cheap_base(base(l)),
    decreases l,
{
    if let SpecLevel::Succ(u) = l {
        lemma_cheap_base(*u);
    }
}

/// A cheap base with `Succ`s on top is cheap.
proof fn lemma_add_offset_cheap(b: SpecLevel, n: nat)
    requires
        is_cheap_base(b),
    ensures
        is_cheap(add_offset(b, n)),
    decreases n,
{
    if n > 0 {
        lemma_add_offset_cheap(b, (n - 1) as nat);
    }
}

/// Extra `Succ`s on either side move into the counters.
proof fn lemma_norm_before_aux_strip(l1: SpecLevel, k1: nat, l2: SpecLevel, k2: nat)
    ensures
        norm_before_aux(l1, k1, l2, k2) == norm_before_aux(
            base(l1),
            k1 + offset(l1),
            base(l2),
            k2 + offset(l2),
        ),
    decreases size(l1) + size(l2),
{
    match l1 {
        SpecLevel::Succ(a) => {
            lemma_norm_before_aux_strip(*a, k1 + 1, l2, k2);
        },
        _ => {
            if let SpecLevel::Succ(b) = l2 {
                lemma_norm_before_aux_strip(l1, k1, *b, k2 + 1);
            }
        },
    }
}

/// Normalization's order compares bases, then offsets.
pub proof fn lemma_norm_before_key(x: SpecLevel, y: SpecLevel)
    ensures
        norm_before(x, y) == key_before(x, y),
{
    lemma_norm_before_aux_strip(x, 0, y, 0);
    lemma_base_offset(x);
    lemma_base_offset(y);
}

proof fn lemma_base_before_irreflexive(b: SpecLevel)
    ensures
        !base_before(b, b),
{
    match b {
        SpecLevel::Max(_, a2) => lemma_norm_before_key(*a2, *a2),
        SpecLevel::IMax(_, a2) => lemma_norm_before_key(*a2, *a2),
        SpecLevel::Param(n) => lemma_name_order_antisymmetric(n, n),
        SpecLevel::MVar(n) => lemma_name_order_antisymmetric(n, n),
        _ => {},
    }
}

proof fn lemma_order_basic(x: SpecLevel, y: SpecLevel)
    ensures
        !norm_before(x, x),
        !(norm_before(x, y) && norm_before(y, x)),
        x != y ==> norm_before(x, y) || norm_before(y, x),
    decreases size(x) + size(y), 1nat,
{
    lemma_norm_before_key(x, x);
    lemma_norm_before_key(x, y);
    lemma_norm_before_key(y, x);
    lemma_base_offset(x);
    lemma_base_offset(y);
    if base(x) != base(y) {
        lemma_base_before_basic(base(x), base(y));
    }
}

proof fn lemma_base_before_basic(b1: SpecLevel, b2: SpecLevel)
    requires
        !(b1 is Succ),
        !(b2 is Succ),
    ensures
        !(base_before(b1, b2) && base_before(b2, b1)),
        b1 != b2 ==> base_before(b1, b2) || base_before(b2, b1),
    decreases size(b1) + size(b2), 0nat,
{
    match (b1, b2) {
        (SpecLevel::Max(a1, a2), SpecLevel::Max(c1, c2)) => {
            lemma_order_basic(*a1, *c1);
            lemma_order_basic(*a2, *c2);
        },
        (SpecLevel::IMax(a1, a2), SpecLevel::IMax(c1, c2)) => {
            lemma_order_basic(*a1, *c1);
            lemma_order_basic(*a2, *c2);
        },
        (SpecLevel::Param(n1), SpecLevel::Param(n2)) => lemma_name_order_antisymmetric(n1, n2),
        (SpecLevel::MVar(n1), SpecLevel::MVar(n2)) => lemma_name_order_antisymmetric(n1, n2),
        _ => {},
    }
}

proof fn lemma_order_transitive(x: SpecLevel, y: SpecLevel, z: SpecLevel)
    requires
        norm_before(x, y),
        norm_before(y, z),
    ensures
        norm_before(x, z),
    decreases size(x) + size(y) + size(z), 1nat,
{
    lemma_norm_before_key(x, y);
    lemma_norm_before_key(y, z);
    lemma_norm_before_key(x, z);
    lemma_norm_before_key(y, x);
    lemma_base_offset(x);
    lemma_base_offset(y);
    lemma_base_offset(z);
    lemma_order_basic(x, y);
    if base(x) != base(y) && base(y) != base(z) {
        lemma_base_before_transitive(base(x), base(y), base(z));
    }
}

proof fn lemma_base_before_transitive(b1: SpecLevel, b2: SpecLevel, b3: SpecLevel)
    requires
        !(b1 is Succ),
        !(b2 is Succ),
        !(b3 is Succ),
        base_before(b1, b2),
        base_before(b2, b3),
    ensures
        base_before(b1, b3),
    decreases size(b1) + size(b2) + size(b3), 0nat,
{
    match (b1, b2, b3) {
        (SpecLevel::Max(a1, a2), SpecLevel::Max(p1, p2), SpecLevel::Max(c1, c2)) => {
            lemma_order_basic(*a1, *p1);
            if a1 != p1 && p1 != c1 {
                lemma_order_transitive(*a1, *p1, *c1);
            }
            if a1 == p1 && p1 == c1 {
                lemma_order_transitive(*a2, *p2, *c2);
            }
        },
        (SpecLevel::IMax(a1, a2), SpecLevel::IMax(p1, p2), SpecLevel::IMax(c1, c2)) => {
            lemma_order_basic(*a1, *p1);
            if a1 != p1 && p1 != c1 {
                lemma_order_transitive(*a1, *p1, *c1);
            }
            if a1 == p1 && p1 == c1 {
                lemma_order_transitive(*a2, *p2, *c2);
            }
        },
        (SpecLevel::Param(n1), SpecLevel::Param(n2), SpecLevel::Param(n3)) => {
            lemma_name_order_transitive(n1, n2, n3);
        },
        (SpecLevel::MVar(n1), SpecLevel::MVar(n2), SpecLevel::MVar(n3)) => {
            lemma_name_order_transitive(n1, n2, n3);
        },
        _ => {},
    }
}

/// Normalization's order is a strict total order: no level comes before
/// itself, of two different levels exactly one comes first, and coming
/// first is transitive.
pub proof fn lemma_norm_before_strict_total(x: SpecLevel, y: SpecLevel, z: SpecLevel)
    ensures
        !norm_before(x, x),
        !(norm_before(x, y) && norm_before(y, x)),
        x != y ==> norm_before(x, y) || norm_before(y, x),
        norm_before(x, y) && norm_before(y, z) ==> norm_before(x, z),
{
    lemma_order_basic(x, y);
    if norm_before(x, y) && norm_before(y, z) {
        lemma_order_transitive(x, y, z);
    }
}

proof fn lemma_insert_lower_bound(x: SpecLevel, t: Seq<SpecLevel>, y: SpecLevel)
    requires
        !norm_before(x, y),
        forall|k: int| 0 <= k < t.len() ==> !norm_before(#[trigger] t[k], y),
    ensures
        forall|m: int|
            0 <= m < insert_level(x, t).len() ==> !norm_before(#[trigger] insert_level(x, t)[m], y),
    decreases t.len(),
{
    if t.len() > 0 && !norm_before(x, t[0]) {
        let t1 = t.drop_first();
        assert forall|k: int| 0 <= k < t1.len() implies !norm_before(#[trigger] t1[k], y) by {
            assert(t1[k] == t[k + 1]);
        }
        lemma_insert_lower_bound(x, t1, y);
        let r = insert_level(x, t1);
        assert forall|m: int| 0 <= m < (seq![t[0]] + r).len() implies !norm_before(
            #[trigger] (seq![t[0]] + r)[m],
            y,
        ) by {
            if m > 0 {
                assert((seq![t[0]] + r)[m] == r[m - 1]);
            }
        }
    } else if t.len() > 0 {
        assert forall|m: int| 0 <= m < (seq![x] + t).len() implies !norm_before(
            #[trigger] (seq![x] + t)[m],
            y,
        ) by {
            if m > 0 {
                assert((seq![x] + t)[m] == t[m - 1]);
            }
        }
    }
}

proof fn lemma_cons_to_multiset(a: SpecLevel, s: Seq<SpecLevel>)
    ensures
        (seq![a] + s).to_multiset() =~= s.to_multiset().insert(a),
{
    broadcast use vstd::seq_lib::group_to_multiset_ensures;
    broadcast use vstd::multiset::group_multiset_axioms;

    let c = seq![a] + s;
    assert(c.remove(0) =~= s);
    assert(c.contains(a)) by {
        assert(c[0] == a);
    }
    assert(c.to_multiset().count(a) > 0);
}

proof fn lemma_insert_sorted(x: SpecLevel, t: Seq<SpecLevel>)
    requires
        sorted_levels(t),
    ensures
        insert_level(x, t).len() == t.len() + 1,
        sorted_levels(insert_level(x, t)),
        insert_level(x, t).to_multiset() =~= t.to_multiset().insert(x),
    decreases t.len(),
{
    broadcast use vstd::multiset::group_multiset_axioms;

    if t.len() == 0 {
        lemma_cons_to_multiset(x, t);
        assert(seq![x] + t =~= seq![x]);
    } else if norm_before(x, t[0]) {
        let r = seq![x] + t;
        lemma_cons_to_multiset(x, t);
        assert forall|i: int, j: int| 0 <= i < j < r.len() implies !norm_before(
            #[trigger] r[j],
            #[trigger] r[i],
        ) by {
            assert(r[j] == t[j - 1]);
            if i > 0 {
                assert(r[i] == t[i - 1]);
            } else {
                lemma_norm_before_strict_total(t[j - 1], x, t[0]);
                if j - 1 > 0 {
                    assert(!norm_before(t[j - 1], t[0]));
                }
            }
        }
    } else {
        let t1 = t.drop_first();
        assert forall|i: int, j: int| 0 <= i < j < t1.len() implies !norm_before(
            #[trigger] t1[j],
            #[trigger] t1[i],
        ) by {
            assert(t1[j] == t[j + 1]);
            assert(t1[i] == t[i + 1]);
        }
        lemma_insert_sorted(x, t1);
        assert forall|k: int| 0 <= k < t1.len() implies !norm_before(#[trigger] t1[k], t[0]) by {
            assert(t1[k] == t[k + 1]);
        }
        lemma_insert_lower_bound(x, t1, t[0]);
        let r1 = insert_level(x, t1);
        let r = seq![t[0]] + r1;
        lemma_cons_to_multiset(t[0], r1);
        lemma_cons_to_multiset(t[0], t1);
        assert(seq![t[0]] + t1 =~= t);
        assert forall|i: int, j: int| 0 <= i < j < r.len() implies !norm_before(
            #[trigger] r[j],
            #[trigger] r[i],
        ) by {
            assert(r[j] == r1[j - 1]);
            if i > 0 {
                assert(r[i] == r1[i - 1]);
            }
        }
    }
}

/// Sorting gives the levels in normalization's order: as many as were
/// given, each as often as it was given, none before an earlier one.
pub proof fn lemma_sort_levels_sorted(s: Seq<SpecLevel>)
    ensures
        sort_levels(s).len() == s.len(),
        sort_levels(s).to_multiset() =~= s.to_multiset(),
        sorted_levels(sort_levels(s)),
    decreases s.len(),
{
    broadcast use vstd::seq_lib::group_to_multiset_ensures;

    if s.len() > 0 {
        let d = s.drop_last();
        lemma_sort_levels_sorted(d);
        lemma_insert_sorted(s.last(), sort_levels(d));
        assert(d.push(s.last()) =~= s);
    }
}

proof fn lemma_insert_at_end(x: SpecLevel, t: Seq<SpecLevel>)
    requires
        forall|k: int| 0 <= k < t.len() ==> !norm_before(x, #[trigger] t[k]),
    ensures
        insert_level(x, t) == t.push(x),
    decreases t.len(),
{
    if t.len() > 0 {
        let t1 = t.drop_first();
        assert forall|k: int| 0 <= k < t1.len() implies !norm_before(x, #[trigger] t1[k]) by {
            assert(t1[k] == t[k + 1]);
        }
        lemma_insert_at_end(x, t1);
        assert(!norm_before(x, t[0]));
        assert(seq![t[0]] + t1.push(x) =~= t.push(x));
    } else {
        assert(seq![x] =~= t.push(x));
    }
}

/// Levels already strictly in order are left as they are by sorting.
pub proof fn lemma_sort_levels_strictly_sorted(s: Seq<SpecLevel>)
    requires
        forall|i: int, j: int| 0 <= i < j < s.len() ==> norm_before(#[trigger] s[i], #[trigger] s[j]),
    ensures
        sort_levels(s) == s,
    decreases s.len(),
{
    if s.len() > 0 {
        let d = s.drop_last();
        assert forall|i: int, j: int| 0 <= i < j < d.len() implies norm_before(
            #[trigger] d[i],
            #[trigger] d[j],
        ) by {
            assert(d[i] == s[i]);
            assert(d[j] == s[j]);
        }
        lemma_sort_levels_strictly_sorted(d);
        assert forall|k: int| 0 <= k < d.len() implies !norm_before(s.last(), #[trigger] d[k]) by {
            assert(d[k] == s[k]);
            assert(norm_before(s[k], s[s.len() - 1]));
            lemma_norm_before_strict_total(s[k], s.last(), s.last());
        }
        lemma_insert_at_end(s.last(), d);
        assert(d.push(s.last()) =~= s);
    }
}


/// The left-nested `max` of `ls`: `max (... (max ls[0] ls[1]) ...) ls[n-1]`.
pub open spec fn max_chain(ls: Seq<SpecLevel>) -> SpecLevel
    decreases ls.len(),
{
    if ls.len() <= 1 {
        ls[0]
    } else {
        SpecLevel::Max(Box::new(max_chain(ls.drop_last())), Box::new(ls.last()))
    }
}

/// `l` has a `Succ` directly above a `max` somewhere.
pub open spec fn succ_over_max(l: SpecLevel) -> bool
    decreases l,
{
    match l {
        SpecLevel::Succ(u) => *u is Max || succ_over_max(*u),
        SpecLevel::Max(a, b) => succ_over_max(*a) || succ_over_max(*b),
        SpecLevel::IMax(a, b) => succ_over_max(*a) || succ_over_max(*b),
        _ => false,
    }
}

/// An argument of a normal `max`: a numeral, or a parameter, a
/// metavariable, or an `imax` of normal forms that does not simplify and
/// whose second argument may be zero, with `Succ`s on top.
pub open spec fn normal_arg(x: SpecLevel) -> bool
    decreases size(x), 0nat,
{
    proof {
        lemma_base_offset(x);
    }
    match base(x) {
        SpecLevel::IMax(n1, n2) => is_normal(*n1) && is_normal(*n2) && !never_zero(*n2) && mk_imax(
            *n1,
            *n2,
        ) == base(x),
        b => is_cheap_base(b),
    }
}

/// Every argument of the nested `max`es of `l` is normal.
pub open spec fn normal_leaves(l: SpecLevel) -> bool
    decreases size(l), 1nat,
{
    match l {
        SpecLevel::Max(a, b) => normal_leaves(*a) && normal_leaves(*b),
        _ => normal_arg(l),
    }
}

/// The arguments of a normal `max` are in order: their bases strictly
/// increase, and a leading numeral exceeds every other argument's offset.
pub open spec fn normal_order(ls: Seq<SpecLevel>) -> bool {
    &&& ls.len() >= 1
    &&& forall|i: int, j: int|
        0 <= i < j < ls.len() ==> base_before(base(#[trigger] ls[i]), base(#[trigger] ls[j]))
    &&& (ls.len() >= 2 && base(ls[0]) is Zero) ==> forall|j: int|
        1 <= j < ls.len() ==> #[trigger] offset(ls[j]) < offset(ls[0])
}

/// A level in normal form: the left-nested `max` of normal arguments in
/// order.
pub open spec fn is_normal(l: SpecLevel) -> bool
    decreases size(l), 2nat,
{
    normal_leaves(l) && normal_order(flatten_max(l)) && l == max_chain(flatten_max(l))
}

/// The arguments `mk_max_from` puts into its `max`, in order.
pub open spec fn max_leaves(s: Seq<SpecLevel>, extra_k: nat, i: int, prev: SpecLevel, prev_k: nat) -> Seq<
    SpecLevel,
>
    decreases s.len() - i,
{
    if i < 0 || i >= s.len() {
        seq![add_offset(prev, extra_k + prev_k)]
    } else if base(s[i]) == prev {
        max_leaves(s, extra_k, i + 1, prev, offset(s[i]))
    } else {
        seq![add_offset(prev, extra_k + prev_k)] + max_leaves(
            s,
            extra_k,
            i + 1,
            base(s[i]),
            offset(s[i]),
        )
    }
}

/// What `mk_max_from` starts from for the arguments `pre` already folded.
pub open spec fn chain_acc(pre: Seq<SpecLevel>) -> SpecLevel {
    if pre.len() == 0 {
        SpecLevel::Zero
    } else {
        max_chain(pre)
    }
}

proof fn lemma_add_offset_add(b: SpecLevel, m: nat, n: nat)
    ensures
        add_offset(add_offset(b, m), n) == add_offset(b, m + n),
    decreases n,
{
    if n > 0 {
        lemma_add_offset_add(b, m, (n - 1) as nat);
    }
}

/// An argument with a different number of `Succ`s on top of its base is
/// still an argument of a normal `max`; none is itself a `max`.
proof fn lemma_normal_arg_offset(x: SpecLevel, n: nat)
    requires
        normal_arg(x),
    ensures
        normal_arg(add_offset(base(x), n)),
        !(x is Max),
{
    lemma_base_offset(x);
    lemma_add_offset_parts(base(x), n);
}

/// A normal argument is a normal form on its own.
proof fn lemma_normal_arg_is_normal(x: SpecLevel)
    requires
        normal_arg(x),
    ensures
        is_normal(x),
{
    lemma_normal_arg_offset(x, 0);
    assert(flatten_max(x) == seq![x]);
}

proof fn lemma_flatten_chain(ls: Seq<SpecLevel>)
    requires
        ls.len() >= 1,
        forall|i: int| 0 <= i < ls.len() ==> !(#[trigger] ls[i] is Max),
    ensures
        flatten_max(max_chain(ls)) == ls,
    decreases ls.len(),
{
    if ls.len() == 1 {
        assert(!(ls[0] is Max));
        assert(flatten_max(ls[0]) == seq![ls[0]]);
        assert(seq![ls[0]] =~= ls);
    } else {
        let d = ls.drop_last();
        assert forall|i: int| 0 <= i < d.len() implies !(#[trigger] d[i] is Max) by {
            assert(d[i] == ls[i]);
        }
        lemma_flatten_chain(d);
        assert(!(ls[ls.len() - 1] is Max));
        assert(max_chain(ls) == SpecLevel::Max(Box::new(max_chain(d)), Box::new(ls.last())));
        assert(flatten_max(ls.last()) == seq![ls.last()]);
        assert(d + seq![ls.last()] =~= ls);
    }
}

/// The arguments of a level all normal, and the level's flattening.
proof fn lemma_normal_leaves_flatten(l: SpecLevel)
    ensures
        normal_leaves(l) <==> forall|i: int|
            0 <= i < flatten_max(l).len() ==> #[trigger] normal_arg(flatten_max(l)[i]),
        flatten_max(l).len() >= 1,
        forall|i: int| 0 <= i < flatten_max(l).len() ==> size(#[trigger] flatten_max(l)[i]) <= size(l),
        l is Max ==> forall|i: int|
            0 <= i < flatten_max(l).len() ==> size(#[trigger] flatten_max(l)[i]) < size(l),
    decreases l,
{
    if let SpecLevel::Max(a, b) = l {
        lemma_normal_leaves_flatten(*a);
        lemma_normal_leaves_flatten(*b);
        let fa = flatten_max(*a);
        let fb = flatten_max(*b);
        let f = fa + fb;
        assert forall|i: int| 0 <= i < f.len() implies size(#[trigger] f[i]) < size(l) by {
            if i < fa.len() {
                assert(f[i] == fa[i]);
            } else {
                assert(f[i] == fb[i - fa.len()]);
            }
        }
        if normal_leaves(l) {
            assert forall|i: int| 0 <= i < f.len() implies #[trigger] normal_arg(f[i]) by {
                if i < fa.len() {
                    assert(f[i] == fa[i]);
                } else {
                    assert(f[i] == fb[i - fa.len()]);
                }
            }
        }
        if forall|i: int| 0 <= i < f.len() ==> #[trigger] normal_arg(f[i]) {
            assert forall|i: int| 0 <= i < fa.len() implies #[trigger] normal_arg(fa[i]) by {
                assert(f[i] == fa[i]);
            }
            assert forall|i: int| 0 <= i < fb.len() implies #[trigger] normal_arg(fb[i]) by {
                assert(f[fa.len() + i] == fb[i]);
            }
        }
    } else {
        assert(flatten_max(l) == seq![l]);
        if forall|i: int| 0 <= i < flatten_max(l).len() ==> #[trigger] normal_arg(flatten_max(l)[i]) {
            assert(normal_arg(flatten_max(l)[0]));
        }
    }
}

/// The left-nested `max` of normal arguments in order is a normal form.
proof fn lemma_chain_is_normal(ls: Seq<SpecLevel>)
    requires
        normal_order(ls),
        forall|i: int| 0 <= i < ls.len() ==> #[trigger] normal_arg(ls[i]),
    ensures
        is_normal(max_chain(ls)),
{
    assert forall|i: int| 0 <= i < ls.len() implies !(#[trigger] ls[i] is Max) by {
        lemma_normal_arg_offset(ls[i], 0);
    }
    lemma_flatten_chain(ls);
    lemma_normal_leaves_flatten(max_chain(ls));
}

proof fn lemma_max_args_chain(ls: Seq<SpecLevel>)
    requires
        ls.len() >= 1,
        forall|i: int| 0 <= i < ls.len() ==> normalize(#[trigger] ls[i]) == ls[i] && !(ls[i] is Max),
    ensures
        max_args(max_chain(ls)) == ls,
    decreases ls.len(),
{
    if ls.len() == 1 {
        assert(normalize(ls[0]) == ls[0]);
        assert(flatten_max(ls[0]) == seq![ls[0]]);
        assert(seq![ls[0]] =~= ls);
    } else {
        let d = ls.drop_last();
        assert forall|i: int| 0 <= i < d.len() implies normalize(#[trigger] d[i]) == d[i] && !(
        d[i] is Max) by {
            assert(d[i] == ls[i]);
        }
        lemma_max_args_chain(d);
        assert(normalize(ls[ls.len() - 1]) == ls[ls.len() - 1]);
        assert(max_chain(ls) == SpecLevel::Max(Box::new(max_chain(d)), Box::new(ls.last())));
        assert(flatten_max(ls.last()) == seq![ls.last()]);
        assert(max_args(ls.last()) == seq![ls.last()]);
        assert(d + seq![ls.last()] =~= ls);
    }
}

proof fn lemma_add_offset_not_zero(b: SpecLevel, n: nat)
    requires
        !(b is Zero) || n > 0,
    ensures
        !(add_offset(b, n) is Zero),
{
}

/// `mk_max_from` builds the left-nested `max` of the arguments folded so
/// far followed by `max_leaves`.
proof fn lemma_mk_max_from_chain(
    s: Seq<SpecLevel>,
    extra_k: nat,
    i: int,
    prev: SpecLevel,
    prev_k: nat,
    pre: Seq<SpecLevel>,
)
    requires
        0 <= i,
        pre.len() > 0 ==> !(max_chain(pre) is Zero),
        pre.len() == 0 ==> (!(prev is Zero) || forall|j: int|
            i <= j < s.len() ==> !(base(#[trigger] s[j]) is Zero) && offset(s[j]) < prev_k),
    ensures
        mk_max_from(s, extra_k, i, prev, prev_k, chain_acc(pre)) == max_chain(
            pre + max_leaves(s, extra_k, i, prev, prev_k),
        ),
    decreases s.len() - i,
{
    let shifted = add_offset(prev, extra_k + prev_k);
    let pre1 = pre.push(shifted);
    assert(pre1.drop_last() =~= pre);
    assert(acc_max(chain_acc(pre), prev, extra_k + prev_k) == max_chain(pre1));
    if i >= s.len() {
        assert(pre + seq![shifted] =~= pre1);
    } else if base(s[i]) == prev {
        lemma_mk_max_from_chain(s, extra_k, i + 1, prev, offset(s[i]), pre);
    } else {
        if pre.len() == 0 && prev is Zero {
            assert(offset(s[i]) < prev_k);
        }
        if pre.len() == 0 {
            lemma_add_offset_not_zero(prev, extra_k + prev_k);
        }
        assert(!(max_chain(pre1) is Zero));
        lemma_mk_max_from_chain(s, extra_k, i + 1, base(s[i]), offset(s[i]), pre1);
        let rest = max_leaves(s, extra_k, i + 1, base(s[i]), offset(s[i]));
        assert(pre + (seq![shifted] + rest) =~= pre1 + rest);
    }
}

proof fn lemma_max_leaves_of_distinct(ls: Seq<SpecLevel>, i: int)
    requires
        1 <= i <= ls.len(),
        forall|j: int| 1 <= j < ls.len() ==> base(#[trigger] ls[j]) != base(ls[j - 1]),
    ensures
        max_leaves(ls, 0, i, base(ls[i - 1]), offset(ls[i - 1])) == ls.subrange(i - 1, ls.len() as int),
    decreases ls.len() - i,
{
    lemma_base_offset(ls[i - 1]);
    if i < ls.len() {
        assert(base(ls[i]) != base(ls[i - 1]));
        lemma_max_leaves_of_distinct(ls, i + 1);
        assert(seq![ls[i - 1]] + ls.subrange(i, ls.len() as int) =~= ls.subrange(
            i - 1,
            ls.len() as int,
        ));
    } else {
        assert(seq![ls[i - 1]] =~= ls.subrange(i - 1, ls.len() as int));
    }
}

/// A normal argument is its own normal form.
proof fn lemma_normal_arg_is_fixed(x: SpecLevel)
    requires
        normal_arg(x),
    ensures
        normalize(x) == x,
    decreases size(x), 0nat,
{
    lemma_base_offset(x);
    if let SpecLevel::IMax(n1, n2) = base(x) {
        lemma_normal_form_is_fixed(*n1);
        lemma_normal_form_is_fixed(*n2);
        lemma_not_cheap_imax(x);
    } else {
        lemma_add_offset_cheap(base(x), offset(x));
    }
}

proof fn lemma_not_cheap_imax(x: SpecLevel)
    requires
        base(x) is IMax,
    ensures
        !is_cheap(x),
    decreases x,
{
    if let SpecLevel::Succ(u) = x {
        lemma_not_cheap_imax(*u);
    }
}

/// A level in normal form is its own normal form.
pub proof fn lemma_normal_form_is_fixed(l: SpecLevel)
    requires
        is_normal(l),
    ensures
        normalize(l) == l,
    decreases size(l), 1nat,
{
    let ls = flatten_max(l);
    lemma_normal_leaves_flatten(l);
    if ls.len() == 1 {
        assert(l == ls[0]);
        lemma_normal_arg_is_fixed(ls[0]);
    } else {
        assert forall|i: int| 0 <= i < ls.len() implies normalize(#[trigger] ls[i]) == ls[i] && !(
        ls[i] is Max) by {
            lemma_normal_arg_is_fixed(ls[i]);
            lemma_normal_arg_offset(ls[i], 0);
        }
        let d = ls.drop_last();
        assert forall|i: int| 0 <= i < d.len() implies normalize(#[trigger] d[i]) == d[i] && !(
        d[i] is Max) by {
            assert(d[i] == ls[i]);
        }
        lemma_max_args_chain(d);
        assert(normalize(ls[ls.len() - 1]) == ls[ls.len() - 1]);
        assert(!(ls[ls.len() - 1] is Max));
        assert(flatten_max(ls.last()) == seq![ls.last()]);
        assert(max_args(ls.last()) == seq![ls.last()]);
        assert(d + seq![ls.last()] =~= ls);
        assert(l == SpecLevel::Max(Box::new(max_chain(d)), Box::new(ls.last())));
        assert(!is_cheap(l));
        assert(base(l) == l);
        assert(offset(l) == 0);
        assert forall|i: int, j: int| 0 <= i < j < ls.len() implies norm_before(
            #[trigger] ls[i],
            #[trigger] ls[j],
        ) by {
            assert(base_before(base(ls[i]), base(ls[j])));
            lemma_base_before_irreflexive(base(ls[i]));
            lemma_norm_before_key(ls[i], ls[j]);
        }
        lemma_sort_levels_strictly_sorted(ls);
        assert(sort_levels(ls) == ls);
        assert(normalize(l) == mk_max_normal(ls, 0));
        lemma_skip_explicit(ls, 0);
        lemma_skip_explicit(ls, 1);
        assert(base_before(base(ls[0]), base(ls[1])));
        assert(!(base(ls[1]) is Zero));
        if base(ls[0]) is Zero {
            assert(skip_explicit(ls, 0) == skip_explicit(ls, 1));
            assert(skip_explicit(ls, 1) == 1);
            assert(!explicit_subsumed(ls, 1));
        } else {
            assert(skip_explicit(ls, 0) == 0);
        }
        assert(max_start(ls) == 0);
        assert forall|j: int| 1 <= j < ls.len() implies base(#[trigger] ls[j]) != base(ls[j - 1]) by {
            assert(base_before(base(ls[j - 1]), base(ls[j])));
            lemma_base_before_irreflexive(base(ls[j]));
        }
        assert forall|j: int| 1 <= j < ls.len() implies !(base(#[trigger] ls[j]) is Zero) by {
            assert(base_before(base(ls[0]), base(ls[j])));
        }
        lemma_mk_max_from_chain(ls, 0, 1, base(ls[0]), offset(ls[0]), Seq::empty());
        lemma_max_leaves_of_distinct(ls, 1);
        assert(ls.subrange(0, ls.len() as int) =~= ls);
        assert(Seq::<SpecLevel>::empty() + ls =~= ls);
    }
}


proof fn lemma_sorted_bases(s: Seq<SpecLevel>, i: int, j: int)
    requires
        sorted_levels(s),
        0 <= i < j < s.len(),
    ensures
        base(s[i]) == base(s[j]) || base_before(base(s[i]), base(s[j])),
{
    assert(!norm_before(s[j], s[i]));
    lemma_norm_before_key(s[j], s[i]);
    lemma_base_offset(s[i]);
    lemma_base_offset(s[j]);
    lemma_base_before_basic(base(s[i]), base(s[j]));
}

proof fn lemma_max_leaves_props(s: Seq<SpecLevel>, extra_k: nat, i: int, prev: SpecLevel, prev_k: nat)
    requires
        0 <= i <= s.len(),
        !(prev is Succ),
        normal_arg(prev),
        forall|j: int| 0 <= j < s.len() ==> #[trigger] normal_arg(s[j]),
        sorted_levels(s),
        forall|j: int| i <= j < s.len() ==> prev == base(#[trigger] s[j]) || base_before(prev, base(s[j])),
    ensures
        ({
            let r = max_leaves(s, extra_k, i, prev, prev_k);
            &&& r.len() >= 1
            &&& base(r[0]) == prev
            &&& (i >= s.len() || base(s[i]) != prev) ==> r[0] == add_offset(prev, extra_k + prev_k)
            &&& i >= s.len() ==> r.len() == 1
            &&& forall|m: int| 0 <= m < r.len() ==> #[trigger] normal_arg(r[m])
            &&& forall|m: int| 1 <= m < r.len() ==> base_before(prev, base(#[trigger] r[m]))
            &&& forall|m1: int, m2: int|
                0 <= m1 < m2 < r.len() ==> base_before(base(#[trigger] r[m1]), base(#[trigger] r[m2]))
        }),
    decreases s.len() - i,
{
    let shifted = add_offset(prev, extra_k + prev_k);
    lemma_add_offset_parts(prev, extra_k + prev_k);
    lemma_normal_arg_offset(prev, extra_k + prev_k);
    if i >= s.len() {
    } else if base(s[i]) == prev {
        lemma_max_leaves_props(s, extra_k, i + 1, prev, offset(s[i]));
    } else {
        let b = base(s[i]);
        lemma_base_offset(s[i]);
        lemma_normal_arg_offset(s[i], 0);
        assert forall|j: int| i + 1 <= j < s.len() implies b == base(#[trigger] s[j]) || base_before(
            b,
            base(s[j]),
        ) by {
            lemma_sorted_bases(s, i, j);
        }
        lemma_max_leaves_props(s, extra_k, i + 1, b, offset(s[i]));
        let rest = max_leaves(s, extra_k, i + 1, b, offset(s[i]));
        let r = seq![shifted] + rest;
        assert(base_before(prev, b));
        assert forall|m: int| 1 <= m < r.len() implies base_before(prev, base(#[trigger] r[m])) by {
            assert(r[m] == rest[m - 1]);
            if m > 1 {
                lemma_base_offset(rest[m - 1]);
                lemma_base_before_transitive(prev, b, base(rest[m - 1]));
            }
        }
        assert forall|m1: int, m2: int| 0 <= m1 < m2 < r.len() implies base_before(
            base(#[trigger] r[m1]),
            base(#[trigger] r[m2]),
        ) by {
            assert(r[m2] == rest[m2 - 1]);
            if m1 > 0 {
                assert(r[m1] == rest[m1 - 1]);
            }
        }
        assert forall|m: int| 0 <= m < r.len() implies #[trigger] normal_arg(r[m]) by {
            if m > 0 {
                assert(r[m] == rest[m - 1]);
            }
        }
    }
}

proof fn lemma_max_leaves_offsets(
    s: Seq<SpecLevel>,
    extra_k: nat,
    i: int,
    prev: SpecLevel,
    prev_k: nat,
    bound: nat,
)
    requires
        0 <= i,
        !(prev is Succ),
        forall|j: int| i <= j < s.len() ==> #[trigger] offset(s[j]) < bound,
    ensures
        ({
            let r = max_leaves(s, extra_k, i, prev, prev_k);
            &&& forall|m: int| 1 <= m < r.len() ==> #[trigger] offset(r[m]) < extra_k + bound
            &&& prev_k < bound ==> offset(r[0]) < extra_k + bound
        }),
    decreases s.len() - i,
{
    lemma_add_offset_parts(prev, extra_k + prev_k);
    if i >= s.len() {
    } else if base(s[i]) == prev {
        assert(offset(s[i]) < bound);
        lemma_max_leaves_offsets(s, extra_k, i + 1, prev, offset(s[i]), bound);
    } else {
        assert(offset(s[i]) < bound);
        lemma_base_offset(s[i]);
        lemma_max_leaves_offsets(s, extra_k, i + 1, base(s[i]), offset(s[i]), bound);
        let rest = max_leaves(s, extra_k, i + 1, base(s[i]), offset(s[i]));
        let r = seq![add_offset(prev, extra_k + prev_k)] + rest;
        assert forall|m: int| 1 <= m < r.len() implies #[trigger] offset(r[m]) < extra_k + bound by {
            assert(r[m] == rest[m - 1]);
        }
    }
}

/// Every argument from `i - 1` on has its base among the leaves, with at
/// least its offset.
proof fn lemma_max_leaves_cover(
    s: Seq<SpecLevel>,
    extra_k: nat,
    i: int,
    prev: SpecLevel,
    prev_k: nat,
    j: int,
) -> (m: int)
    requires
        1 <= i <= s.len(),
        prev == base(s[i - 1]),
        prev_k == offset(s[i - 1]),
        sorted_levels(s),
        i - 1 <= j < s.len(),
    ensures
        0 <= m < max_leaves(s, extra_k, i, prev, prev_k).len(),
        base(max_leaves(s, extra_k, i, prev, prev_k)[m]) == base(s[j]),
        offset(max_leaves(s, extra_k, i, prev, prev_k)[m]) >= extra_k + offset(s[j]),
    decreases s.len() - i,
{
    lemma_base_offset(s[i - 1]);
    lemma_add_offset_parts(prev, extra_k + prev_k);
    if i >= s.len() {
        0
    } else if base(s[i]) == prev {
        assert(!norm_before(s[i], s[i - 1]));
        lemma_norm_before_key(s[i], s[i - 1]);
        lemma_max_leaves_cover(s, extra_k, i + 1, prev, offset(s[i]), if j == i - 1 {
            i
        } else {
            j
        })
    } else if j == i - 1 {
        0
    } else {
        lemma_base_offset(s[i]);
        let m = lemma_max_leaves_cover(s, extra_k, i + 1, base(s[i]), offset(s[i]), j);
        let rest = max_leaves(s, extra_k, i + 1, base(s[i]), offset(s[i]));
        assert((seq![add_offset(prev, extra_k + prev_k)] + rest)[m + 1] == rest[m]);
        m + 1
    }
}

/// A fold has at least one leaf.
pub(crate) proof fn lemma_max_leaves_nonempty(
    s: Seq<SpecLevel>,
    extra_k: nat,
    i: int,
    prev: SpecLevel,
    prev_k: nat,
)
    ensures
        max_leaves(s, extra_k, i, prev, prev_k).len() >= 1,
    decreases s.len() - i,
{
    if 0 <= i < s.len() {
        if base(s[i]) == prev {
            lemma_max_leaves_nonempty(s, extra_k, i + 1, prev, offset(s[i]));
        } else {
            lemma_max_leaves_nonempty(s, extra_k, i + 1, base(s[i]), offset(s[i]));
        }
    }
}

/// `mk_max_normal` is the left-nested `max` of the leaves from its start.
pub(crate) proof fn lemma_mk_max_normal_chain(s: Seq<SpecLevel>, k: nat)
    requires
        s.len() >= 1,
        sorted_levels(s),
    ensures
        0 <= max_start(s) < s.len(),
        forall|j: int| 0 <= j < max_start(s) ==> base(#[trigger] s[j]) is Zero,
        mk_max_normal(s, k) == max_chain(
            max_leaves(s, k, max_start(s) + 1, base(s[max_start(s)]), offset(s[max_start(s)])),
        ),
        base(s[max_start(s)]) is Zero ==> forall|j: int|
            max_start(s) + 1 <= j < s.len() ==> !(base(#[trigger] s[j]) is Zero) && offset(s[j])
                < offset(s[max_start(s)]),
{
    let fne = skip_explicit(s, 0);
    lemma_skip_explicit(s, 0);
    let st = max_start(s);
    let prev = base(s[st]);
    let pk = offset(s[st]);
    assert forall|j: int| fne <= j < s.len() implies !(base(#[trigger] s[j]) is Zero) by {
        if fne < j {
            lemma_sorted_bases(s, fne, j);
        }
    }
    if prev is Zero {
        assert(st == fne - 1);
        assert(!explicit_subsumed(s, fne));
        assert forall|j: int| st + 1 <= j < s.len() implies !(base(#[trigger] s[j]) is Zero) && offset(
            s[j],
        ) < pk by {
            if offset(s[j]) >= pk {
                assert(offset(s[j]) >= offset(s[fne - 1]));
            }
        }
    }
    lemma_mk_max_from_chain(s, k, st + 1, prev, pk, Seq::empty());
    let ls = max_leaves(s, k, st + 1, prev, pk);
    assert(Seq::<SpecLevel>::empty() + ls =~= ls);
}

/// Folding sorted normal arguments into a `max` gives a normal form.
proof fn lemma_mk_max_normal_is_normal(s: Seq<SpecLevel>, k: nat)
    requires
        s.len() >= 1,
        forall|j: int| 0 <= j < s.len() ==> #[trigger] normal_arg(s[j]),
        sorted_levels(s),
    ensures
        is_normal(mk_max_normal(s, k)),
{
    lemma_mk_max_normal_chain(s, k);
    let st = max_start(s);
    let prev = base(s[st]);
    let pk = offset(s[st]);
    lemma_base_offset(s[st]);
    lemma_normal_arg_offset(s[st], 0);
    let ls = max_leaves(s, k, st + 1, prev, pk);
    assert forall|j: int| st + 1 <= j < s.len() implies prev == base(#[trigger] s[j]) || base_before(
        prev,
        base(s[j]),
    ) by {
        lemma_sorted_bases(s, st, j);
    }
    lemma_max_leaves_props(s, k, st + 1, prev, pk);
    if ls.len() >= 2 && base(ls[0]) is Zero {
        assert(st + 1 < s.len());
        assert(!(base(s[st + 1]) is Zero));
        assert(ls[0] == add_offset(prev, k + pk));
        lemma_add_offset_parts(prev, k + pk);
        assert forall|j: int| st + 1 <= j < s.len() implies #[trigger] offset(s[j]) < pk by {
            assert(!(base(s[j]) is Zero) && offset(s[j]) < pk);
        }
        lemma_max_leaves_offsets(s, k, st + 1, prev, pk, pk);
    }
    lemma_chain_is_normal(ls);
}

/// Where a `Succ` stands directly above a `max`, in terms of base and
/// offset.
proof fn lemma_succ_over_max_base(x: SpecLevel)
    ensures
        succ_over_max(x) == (succ_over_max(base(x)) || (base(x) is Max && offset(x) >= 1)),
    decreases x,
{
    if let SpecLevel::Succ(u) = x {
        lemma_succ_over_max_base(*u);
    }
}

proof fn lemma_succ_over_max_offset(x: SpecLevel, n: nat)
    requires
        succ_over_max(x) || (x is Max && n >= 1),
    ensures
        succ_over_max(add_offset(x, n)),
    decreases n,
{
    assert(add_offset(x, 0) == x);
    if n > 1 || (n == 1 && succ_over_max(x)) {
        lemma_succ_over_max_offset(x, (n - 1) as nat);
    }
}

proof fn lemma_succ_over_max_chain(ls: Seq<SpecLevel>, m: int)
    requires
        0 <= m < ls.len(),
        succ_over_max(ls[m]),
    ensures
        succ_over_max(max_chain(ls)),
    decreases ls.len(),
{
    if ls.len() > 1 && m < ls.len() - 1 {
        let d = ls.drop_last();
        assert(d[m] == ls[m]);
        lemma_succ_over_max_chain(d, m);
    }
}

proof fn lemma_succ_over_max_flatten(l: SpecLevel) -> (i: int)
    requires
        succ_over_max(l),
    ensures
        0 <= i < flatten_max(l).len(),
        succ_over_max(flatten_max(l)[i]),
    decreases l,
{
    if let SpecLevel::Max(a, b) = l {
        if succ_over_max(*a) {
            let i = lemma_succ_over_max_flatten(*a);
            assert((flatten_max(*a) + flatten_max(*b))[i] == flatten_max(*a)[i]);
            i
        } else {
            let i = lemma_succ_over_max_flatten(*b);
            lemma_normal_leaves_flatten(*a);
            assert((flatten_max(*a) + flatten_max(*b))[flatten_max(*a).len() + i] == flatten_max(
                *b,
            )[i]);
            flatten_max(*a).len() + i
        }
    } else {
        0
    }
}

/// Folding sorted arguments, one with a `Succ` above a `max`, keeps such a
/// `Succ`.
proof fn lemma_mk_max_normal_keeps_succ_over_max(s: Seq<SpecLevel>, k: nat, i: int)
    requires
        s.len() >= 1,
        sorted_levels(s),
        0 <= i < s.len(),
        succ_over_max(s[i]),
    ensures
        succ_over_max(mk_max_normal(s, k)),
{
    lemma_mk_max_normal_chain(s, k);
    let st = max_start(s);
    lemma_succ_over_max_base(s[i]);
    lemma_base_offset(s[i]);
    if i < st {
        assert(base(s[i]) is Zero);
        assert(false);
    }
    let m = lemma_max_leaves_cover(s, k, st + 1, base(s[st]), offset(s[st]), i);
    let ls = max_leaves(s, k, st + 1, base(s[st]), offset(s[st]));
    lemma_succ_over_max_base(ls[m]);
    lemma_succ_over_max_chain(ls, m);
}

/// Putting `Succ`s on top of a normal form gives a normal form, unless it
/// puts them above a `max`.
proof fn lemma_offset_normal(x: SpecLevel, k: nat)
    requires
        is_normal(x) || succ_over_max(x),
    ensures
        is_normal(add_offset(x, k)) || succ_over_max(add_offset(x, k)),
{
    if succ_over_max(x) {
        lemma_succ_over_max_offset(x, k);
    } else if k > 0 {
        if x is Max {
            lemma_succ_over_max_offset(x, k);
        } else {
            lemma_normal_leaves_flatten(x);
            assert(flatten_max(x) == seq![x]);
            assert(normal_arg(x));
            lemma_base_offset(x);
            lemma_normal_arg_offset(x, offset(x) + k);
            lemma_add_offset_add(base(x), offset(x), k);
            lemma_normal_arg_is_normal(add_offset(base(x), offset(x) + k));
        }
    }
}

/// The normal form of every level is normal, unless it has a `Succ`
/// directly above a `max`.
pub proof fn lemma_normalize_is_normal(l: SpecLevel)
    ensures
        is_normal(normalize(l)) || succ_over_max(normalize(l)),
    decreases size(l), normalize_rank(l),
{
    if is_cheap(l) {
        lemma_cheap_base(l);
        lemma_base_offset(l);
        assert(normal_arg(l));
        lemma_normal_arg_is_normal(l);
    } else {
        let k = offset(l);
        lemma_base_offset(l);
        crate::level_normalize::lemma_not_cheap_base(l);
        match base(l) {
            SpecLevel::Max(l1, l2) => {
                lemma_max_args_normal(*l1);
                lemma_max_args_normal(*l2);
                let a = max_args(*l1);
                let b = max_args(*l2);
                let ab = a + b;
                lemma_sort_levels_sorted(ab);
                let t = sort_levels(ab);
                broadcast use vstd::seq_lib::group_to_multiset_ensures;

                if forall|j: int| 0 <= j < ab.len() ==> #[trigger] normal_arg(ab[j]) {
                    assert forall|j: int| 0 <= j < t.len() implies #[trigger] normal_arg(t[j]) by {
                        assert(t.to_multiset().count(t[j]) > 0);
                        assert(ab.contains(t[j]));
                    }
                    lemma_mk_max_normal_is_normal(t, k);
                } else {
                    let j = choose|j: int| 0 <= j < ab.len() && !#[trigger] normal_arg(ab[j]);
                    let bad = if j < a.len() {
                        assert(ab[j] == a[j]);
                        choose|i: int| 0 <= i < a.len() && #[trigger] succ_over_max(a[i])
                    } else {
                        assert(ab[j] == b[j - a.len()]);
                        a.len() + choose|i: int| 0 <= i < b.len() && #[trigger] succ_over_max(b[i])
                    };
                    assert(succ_over_max(ab[bad])) by {
                        if bad < a.len() {
                            assert(ab[bad] == a[bad]);
                        } else {
                            assert(ab[bad] == b[bad - a.len()]);
                        }
                    }
                    assert(t.contains(ab[bad])) by {
                        assert(ab.to_multiset().count(ab[bad]) > 0);
                    }
                    let i = choose|i: int| 0 <= i < t.len() && t[i] == ab[bad];
                    lemma_mk_max_normal_keeps_succ_over_max(t, k, i);
                }
            },
            SpecLevel::IMax(l1, l2) => {
                if never_zero(*l2) {
                    let mx = SpecLevel::Max(l1, l2);
                    lemma_normalize_is_normal(mx);
                    lemma_offset_normal(normalize(mx), k);
                } else {
                    lemma_normalize_is_normal(*l1);
                    lemma_normalize_is_normal(*l2);
                    let n1 = normalize(*l1);
                    let n2 = normalize(*l2);
                    let r = mk_imax(n1, n2);
                    if r == SpecLevel::IMax(Box::new(n1), Box::new(n2)) {
                        if succ_over_max(n1) || succ_over_max(n2) {
                            lemma_succ_over_max_offset(r, k);
                        } else {
                            lemma_normalize_never_zero(*l2);
                            lemma_add_offset_parts(r, k);
                            assert(normal_arg(add_offset(r, k)));
                            lemma_normal_arg_is_normal(add_offset(r, k));
                        }
                    } else if r is Zero {
                        lemma_add_offset_parts(r, k);
                        assert(normal_arg(add_offset(r, k)));
                        lemma_normal_arg_is_normal(add_offset(r, k));
                    } else {
                        lemma_offset_normal(r, k);
                    }
                }
            },
            _ => {},
        }
    }
}

/// The normalized arguments of every level are normal, unless one of them
/// has a `Succ` directly above a `max`.
pub proof fn lemma_max_args_normal(l: SpecLevel)
    ensures
        max_args(l).len() >= 1,
        (forall|i: int| 0 <= i < max_args(l).len() ==> #[trigger] normal_arg(max_args(l)[i]))
            || exists|i: int| 0 <= i < max_args(l).len() && #[trigger] succ_over_max(max_args(l)[i]),
    decreases size(l), 3nat,
{
    match l {
        SpecLevel::Max(x, y) => {
            lemma_max_args_normal(*x);
            lemma_max_args_normal(*y);
            let a = max_args(*x);
            let b = max_args(*y);
            let ab = a + b;
            if (forall|i: int| 0 <= i < a.len() ==> #[trigger] normal_arg(a[i])) && (forall|i: int|
                0 <= i < b.len() ==> #[trigger] normal_arg(b[i])) {
                assert forall|i: int| 0 <= i < ab.len() implies #[trigger] normal_arg(ab[i]) by {
                    if i < a.len() {
                        assert(ab[i] == a[i]);
                    } else {
                        assert(ab[i] == b[i - a.len()]);
                    }
                }
            } else if exists|i: int| 0 <= i < a.len() && #[trigger] succ_over_max(a[i]) {
                let i = choose|i: int| 0 <= i < a.len() && #[trigger] succ_over_max(a[i]);
                assert(ab[i] == a[i]);
            } else {
                let i = choose|i: int| 0 <= i < b.len() && #[trigger] succ_over_max(b[i]);
                assert(ab[a.len() + i] == b[i]);
            }
        },
        _ => {
            lemma_normalize_is_normal(l);
            let n = normalize(l);
            lemma_normal_leaves_flatten(n);
            if succ_over_max(n) {
                let i = lemma_succ_over_max_flatten(n);
            }
        },
    }
}

/// Normalization is idempotent wherever the normal form has no `Succ`
/// directly above a `max`: normalizing it again gives it back.
pub proof fn lemma_normalize_idempotent(l: SpecLevel)
    requires
        !succ_over_max(normalize(l)),
    ensures
        normalize(normalize(l)) == normalize(l),
{
    lemma_normalize_is_normal(l);
    lemma_normal_form_is_fixed(normalize(l));
}


/// `l` has no `imax`.
pub open spec fn imax_free(l: SpecLevel) -> bool
    decreases l,
{
    match l {
        SpecLevel::Succ(u) => imax_free(*u),
        SpecLevel::Max(a, b) => imax_free(*a) && imax_free(*b),
        SpecLevel::IMax(_, _) => false,
        _ => true,
    }
}

proof fn lemma_imax_free_base(l: SpecLevel)
    requires
        imax_free(l),
    ensures
        imax_free(base(l)),
    decreases l,
{
    if let SpecLevel::Succ(u) = l {
        lemma_imax_free_base(*u);
    }
}

/// The normal form of a level without `imax` is normal.
pub proof fn lemma_normalize_imax_free_is_normal(l: SpecLevel)
    requires
        imax_free(l),
    ensures
        is_normal(normalize(l)),
    decreases size(l), 1nat,
{
    if is_cheap(l) {
        lemma_cheap_base(l);
        lemma_base_offset(l);
        assert(normal_arg(l));
        lemma_normal_arg_is_normal(l);
    } else {
        let k = offset(l);
        lemma_base_offset(l);
        lemma_imax_free_base(l);
        crate::level_normalize::lemma_not_cheap_base(l);
        if let SpecLevel::Max(l1, l2) = base(l) {
            lemma_max_args_imax_free(*l1);
            lemma_max_args_imax_free(*l2);
            let a = max_args(*l1);
            let b = max_args(*l2);
            let ab = a + b;
            assert forall|j: int| 0 <= j < ab.len() implies #[trigger] normal_arg(ab[j]) by {
                if j < a.len() {
                    assert(ab[j] == a[j]);
                } else {
                    assert(ab[j] == b[j - a.len()]);
                }
            }
            lemma_sort_levels_sorted(ab);
            let t = sort_levels(ab);
            assert forall|j: int| 0 <= j < t.len() implies #[trigger] normal_arg(t[j]) by {
                broadcast use vstd::seq_lib::group_to_multiset_ensures;

                assert(t.to_multiset().count(t[j]) > 0);
                assert(ab.contains(t[j]));
            }
            lemma_mk_max_normal_is_normal(t, k);
        }
    }
}

/// The normalized arguments of a level without `imax` are normal.
pub proof fn lemma_max_args_imax_free(l: SpecLevel)
    requires
        imax_free(l),
    ensures
        max_args(l).len() >= 1,
        forall|i: int| 0 <= i < max_args(l).len() ==> #[trigger] normal_arg(max_args(l)[i]),
    decreases size(l), 3nat,
{
    match l {
        SpecLevel::Max(x, y) => {
            lemma_max_args_imax_free(*x);
            lemma_max_args_imax_free(*y);
            let a = max_args(*x);
            let b = max_args(*y);
            assert forall|i: int| 0 <= i < (a + b).len() implies #[trigger] normal_arg((a + b)[i]) by {
                if i < a.len() {
                    assert((a + b)[i] == a[i]);
                } else {
                    assert((a + b)[i] == b[i - a.len()]);
                }
            }
        },
        _ => {
            lemma_normalize_imax_free_is_normal(l);
            lemma_normal_leaves_flatten(normalize(l));
        },
    }
}

/// Normalization is idempotent on levels without `imax`.
pub proof fn lemma_normalize_idempotent_imax_free(l: SpecLevel)
    requires
        imax_free(l),
    ensures
        normalize(normalize(l)) == normalize(l),
{
    lemma_normalize_imax_free_is_normal(l);
    lemma_normal_form_is_fixed(normalize(l));
}

} // verus!
