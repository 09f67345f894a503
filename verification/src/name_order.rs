//! The total order on names used to sort parameters and metavariables.
use vstd::prelude::*;

use core::cmp::Ordering;

use crate::level::{DecodedName, SpecName};

verus! {

/// `a` comes strictly before `b` in lexicographic order (a proper prefix
/// comes first).
pub open spec fn bytes_before(a: Seq<u8>, b: Seq<u8>) -> bool
    decreases a.len(),
{
    if a.len() == 0 {
        b.len() > 0
    } else if b.len() == 0 {
        false
    } else if a[0] != b[0] {
        a[0] < b[0]
    } else {
        bytes_before(a.drop_first(), b.drop_first())
    }
}

/// Lexicographic comparison of byte strings.
pub open spec fn bytes_order(a: Seq<u8>, b: Seq<u8>) -> Ordering {
    if a == b {
        Ordering::Equal
    } else if bytes_before(a, b) {
        Ordering::Less
    } else {
        Ordering::Greater
    }
}

/// Comparison of two `u64`s.
pub open spec fn u64_order(a: u64, b: u64) -> Ordering {
    if a < b {
        Ordering::Less
    } else if a == b {
        Ordering::Equal
    } else {
        Ordering::Greater
    }
}

/// The order on names: `Anonymous` first; then parents are compared first;
/// on equal parents a numeric component comes before a string component,
/// numbers compare as numbers and strings as byte strings.
pub open spec fn name_order(a: SpecName, b: SpecName) -> Ordering
    decreases a,
{
    match (a, b) {
        (SpecName::Anonymous, SpecName::Anonymous) => Ordering::Equal,
        (SpecName::Anonymous, _) => Ordering::Less,
        (_, SpecName::Anonymous) => Ordering::Greater,
        (SpecName::Num(p1, i1), SpecName::Num(p2, i2)) => match name_order(*p1, *p2) {
            Ordering::Equal => u64_order(i1, i2),
            o => o,
        },
        (SpecName::Num(_, _), SpecName::Str(_, _)) => Ordering::Less,
        (SpecName::Str(_, _), SpecName::Num(_, _)) => Ordering::Greater,
        (SpecName::Str(p1, n1), SpecName::Str(p2, n2)) => match name_order(*p1, *p2) {
            Ordering::Equal => bytes_order(n1, n2),
            o => o,
        },
    }
}

/// `a` comes strictly before `b`.
pub open spec fn name_before(a: SpecName, b: SpecName) -> bool {
    name_order(a, b) == Ordering::Less
}

proof fn lemma_bytes_before_step(a: Seq<u8>, b: Seq<u8>, i: int)
    requires
        0 <= i <= a.len(),
        i <= b.len(),
        a.subrange(0, i) == b.subrange(0, i),
    ensures
        bytes_before(a, b) == bytes_before(a.subrange(i, a.len() as int), b.subrange(
            i,
            b.len() as int,
        )),
    decreases i,
{
    if i > 0 {
        assert(a[0] == a.subrange(0, i)[0]);
        assert(b[0] == b.subrange(0, i)[0]);
        assert(a.drop_first().subrange(0, i - 1) =~= a.subrange(1, i));
        assert(b.drop_first().subrange(0, i - 1) =~= b.subrange(1, i));
        assert(a.subrange(1, i) =~= a.subrange(0, i).drop_first());
        assert(b.subrange(1, i) =~= b.subrange(0, i).drop_first());
        lemma_bytes_before_step(a.drop_first(), b.drop_first(), i - 1);
        assert(a.drop_first().subrange(i - 1, a.len() - 1) =~= a.subrange(i, a.len() as int));
        assert(b.drop_first().subrange(i - 1, b.len() - 1) =~= b.subrange(i, b.len() as int));
    } else {
        assert(a.subrange(0, a.len() as int) =~= a);
        assert(b.subrange(0, b.len() as int) =~= b);
    }
}

/// Whether `a` comes strictly before `b` lexicographically, and whether
/// they are equal.
pub fn bytes_before_or_equal(a: &[u8], b: &[u8]) -> (r: (bool, bool))
    ensures
        r.0 == bytes_before(a@, b@),
        r.1 == (a@ == b@),
{
    let mut i: usize = 0;
    while i < a.len() && i < b.len()
        invariant
            i <= a@.len(),
            i <= b@.len(),
            a@.subrange(0, i as int) == b@.subrange(0, i as int),
        decreases a@.len() - i,
    {
        if a[i] != b[i] {
            proof {
                lemma_bytes_before_step(a@, b@, i as int);
                assert(a@.subrange(i as int, a@.len() as int)[0] == a@[i as int]);
                assert(b@.subrange(i as int, b@.len() as int)[0] == b@[i as int]);
                assert(a@[i as int] != b@[i as int]);
            }
            return (a[i] < b[i], false);
        }
        assert(a@.subrange(0, i + 1) =~= a@.subrange(0, i as int).push(a@[i as int]));
        assert(b@.subrange(0, i + 1) =~= b@.subrange(0, i as int).push(b@[i as int]));
        i = i + 1;
    }
    proof {
        lemma_bytes_before_step(a@, b@, i as int);
        if i == a@.len() && i == b@.len() {
            assert(a@ =~= a@.subrange(0, i as int));
            assert(b@ =~= b@.subrange(0, i as int));
        }
    }
    (i < b.len() && i == a.len(), i == a.len() && i == b.len())
}

/// Lexicographic comparison of two byte strings.
pub fn compare_bytes(a: &[u8], b: &[u8]) -> (r: Ordering)
    ensures
        r == bytes_order(a@, b@),
{
    let (before, equal) = bytes_before_or_equal(a, b);
    if equal {
        Ordering::Equal
    } else if before {
        Ordering::Less
    } else {
        Ordering::Greater
    }
}

impl DecodedName {
    /// Compares two names in the order of `name_order`.
    pub fn cmp_name(&self, other: &DecodedName) -> (r: Ordering)
        ensures
            r == name_order(self@, other@),
        decreases self,
    {
        match (self, other) {
            (DecodedName::Anonymous, DecodedName::Anonymous) => Ordering::Equal,
            (DecodedName::Anonymous, _) => Ordering::Less,
            (_, DecodedName::Anonymous) => Ordering::Greater,
            (DecodedName::Num(p1, i1), DecodedName::Num(p2, i2)) => match p1.cmp_name(p2) {
                Ordering::Equal => {
                    if *i1 < *i2 {
                        Ordering::Less
                    } else if *i1 == *i2 {
                        Ordering::Equal
                    } else {
                        Ordering::Greater
                    }
                },
                ord => ord,
            },
            (DecodedName::Num(_, _), DecodedName::Str(_, _)) => Ordering::Less,
            (DecodedName::Str(_, _), DecodedName::Num(_, _)) => Ordering::Greater,
            (DecodedName::Str(p1, n1), DecodedName::Str(p2, n2)) => match p1.cmp_name(p2) {
                Ordering::Equal => compare_bytes(n1.as_slice(), n2.as_slice()),
                ord => ord,
            },
        }
    }

    /// `self` comes strictly before `other`.
    pub fn name_lt(&self, other: &DecodedName) -> (r: bool)
        ensures
            r == name_before(self@, other@),
    {
        match self.cmp_name(other) {
            Ordering::Less => true,
            _ => false,
        }
    }
}


/// No byte string comes before itself.
pub proof fn lemma_bytes_before_irreflexive(a: Seq<u8>)
    ensures
        !bytes_before(a, a),
    decreases a.len(),
{
    if a.len() > 0 {
        lemma_bytes_before_irreflexive(a.drop_first());
    }
}

/// Of two different byte strings, one comes before the other, and not both
/// ways.
pub proof fn lemma_bytes_before_total(a: Seq<u8>, b: Seq<u8>)
    ensures
        a != b ==> (bytes_before(a, b) || bytes_before(b, a)),
        !(bytes_before(a, b) && bytes_before(b, a)),
    decreases a.len(),
{
    if a.len() > 0 && b.len() > 0 && a[0] == b[0] {
        lemma_bytes_before_total(a.drop_first(), b.drop_first());
        if a.drop_first() == b.drop_first() {
            assert(a =~= seq![a[0]] + a.drop_first());
            assert(b =~= seq![b[0]] + b.drop_first());
        }
    } else if a.len() == 0 && b.len() == 0 {
        assert(a =~= b);
    }
}

/// Coming before is transitive.
pub proof fn lemma_bytes_before_transitive(a: Seq<u8>, b: Seq<u8>, c: Seq<u8>)
    requires
        bytes_before(a, b),
        bytes_before(b, c),
    ensures
        bytes_before(a, c),
    decreases a.len(),
{
    if a.len() > 0 && b.len() > 0 && c.len() > 0 && a[0] == b[0] && b[0] == c[0] {
        lemma_bytes_before_transitive(a.drop_first(), b.drop_first(), c.drop_first());
    }
}


/// Byte strings compare equal exactly when they are equal, and one comes
/// before the other exactly when the other comes after it.
pub proof fn lemma_bytes_order_antisymmetric(a: Seq<u8>, b: Seq<u8>)
    ensures
        (bytes_order(a, b) == Ordering::Equal) == (a == b),
        (bytes_order(a, b) == Ordering::Less) == (bytes_order(b, a) == Ordering::Greater),
        (bytes_order(a, b) == Ordering::Greater) == (bytes_order(b, a) == Ordering::Less),
{
    lemma_bytes_before_total(a, b);
    lemma_bytes_before_irreflexive(a);
    lemma_bytes_before_irreflexive(b);
}

/// Names compare equal exactly when they are equal, and one comes before
/// the other exactly when the other comes after it.
pub proof fn lemma_name_order_antisymmetric(a: SpecName, b: SpecName)
    ensures
        (name_order(a, b) == Ordering::Equal) == (a == b),
        (name_order(a, b) == Ordering::Less) == (name_order(b, a) == Ordering::Greater),
        (name_order(a, b) == Ordering::Greater) == (name_order(b, a) == Ordering::Less),
    decreases a,
{
    match (a, b) {
        (SpecName::Num(p1, i1), SpecName::Num(p2, i2)) => {
            lemma_name_order_antisymmetric(*p1, *p2);
        },
        (SpecName::Str(p1, n1), SpecName::Str(p2, n2)) => {
            lemma_name_order_antisymmetric(*p1, *p2);
            lemma_bytes_order_antisymmetric(n1, n2);
        },
        _ => {},
    }
}

/// Coming before is transitive on names.
pub proof fn lemma_name_order_transitive(a: SpecName, b: SpecName, c: SpecName)
    requires
        name_order(a, b) == Ordering::Less,
        name_order(b, c) == Ordering::Less,
    ensures
        name_order(a, c) == Ordering::Less,
    decreases a,
{
    match (a, b, c) {
        (SpecName::Num(p1, i1), SpecName::Num(p2, i2), SpecName::Num(p3, i3)) => {
            lemma_name_order_antisymmetric(*p1, *p2);
            lemma_name_order_antisymmetric(*p2, *p3);
            lemma_name_order_antisymmetric(*p1, *p3);
            if name_order(*p1, *p2) == Ordering::Less && name_order(*p2, *p3) == Ordering::Less {
                lemma_name_order_transitive(*p1, *p2, *p3);
            }
        },
        (SpecName::Str(p1, n1), SpecName::Str(p2, n2), SpecName::Str(p3, n3)) => {
            lemma_name_order_antisymmetric(*p1, *p2);
            lemma_name_order_antisymmetric(*p2, *p3);
            lemma_name_order_antisymmetric(*p1, *p3);
            if name_order(*p1, *p2) == Ordering::Less && name_order(*p2, *p3) == Ordering::Less {
                lemma_name_order_transitive(*p1, *p2, *p3);
            }
            lemma_bytes_order_antisymmetric(n1, n2);
            lemma_bytes_order_antisymmetric(n2, n3);
            lemma_bytes_order_antisymmetric(n1, n3);
            if bytes_before(n1, n2) && bytes_before(n2, n3) {
                lemma_bytes_before_transitive(n1, n2, n3);
            }
        },
        (SpecName::Num(p1, _), SpecName::Num(p2, _), SpecName::Str(p3, _)) => {
            lemma_name_order_antisymmetric(*p1, *p2);
            lemma_name_order_antisymmetric(*p2, *p3);
            lemma_name_order_antisymmetric(*p1, *p3);
            if name_order(*p1, *p2) == Ordering::Less && name_order(*p2, *p3) == Ordering::Less {
                lemma_name_order_transitive(*p1, *p2, *p3);
            }
        },
        (SpecName::Num(p1, _), SpecName::Str(p2, _), SpecName::Str(p3, _)) => {
            lemma_name_order_antisymmetric(*p1, *p2);
            lemma_name_order_antisymmetric(*p2, *p3);
            lemma_name_order_antisymmetric(*p1, *p3);
            if name_order(*p1, *p2) == Ordering::Less && name_order(*p2, *p3) == Ordering::Less {
                lemma_name_order_transitive(*p1, *p2, *p3);
            }
        },
        (SpecName::Str(p1, _), SpecName::Num(p2, _), SpecName::Str(p3, _)) => {
            lemma_name_order_antisymmetric(*p1, *p2);
            lemma_name_order_antisymmetric(*p2, *p3);
            lemma_name_order_antisymmetric(*p1, *p3);
            if name_order(*p1, *p2) == Ordering::Less && name_order(*p2, *p3) == Ordering::Less {
                lemma_name_order_transitive(*p1, *p2, *p3);
            }
        },
        (SpecName::Num(p1, _), SpecName::Str(p2, _), SpecName::Num(p3, _)) => {
            lemma_name_order_antisymmetric(*p1, *p2);
            lemma_name_order_antisymmetric(*p2, *p3);
            lemma_name_order_antisymmetric(*p1, *p3);
            if name_order(*p1, *p2) == Ordering::Less && name_order(*p2, *p3) == Ordering::Less {
                lemma_name_order_transitive(*p1, *p2, *p3);
            }
        },
        (SpecName::Str(p1, _), SpecName::Num(p2, _), SpecName::Num(p3, _)) => {
            lemma_name_order_antisymmetric(*p1, *p2);
            lemma_name_order_antisymmetric(*p2, *p3);
            lemma_name_order_antisymmetric(*p1, *p3);
            if name_order(*p1, *p2) == Ordering::Less && name_order(*p2, *p3) == Ordering::Less {
                lemma_name_order_transitive(*p1, *p2, *p3);
            }
        },
        (SpecName::Str(p1, _), SpecName::Str(p2, _), SpecName::Num(p3, _)) => {
            lemma_name_order_antisymmetric(*p1, *p2);
            lemma_name_order_antisymmetric(*p2, *p3);
            lemma_name_order_antisymmetric(*p1, *p3);
            if name_order(*p1, *p2) == Ordering::Less && name_order(*p2, *p3) == Ordering::Less {
                lemma_name_order_transitive(*p1, *p2, *p3);
            }
        },
        _ => {},
    }
}

} // verus!
