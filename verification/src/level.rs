//! Universe levels and hierarchical names as plain, owned trees.
//!
//! `DecodedName` and `DecodedLevel` are the executable values; `SpecName`
//! and `SpecLevel` are their mathematical views, over which every contract
//! of the crate is stated.
use vstd::prelude::*;

verus! {

/// A hierarchical name: `Anonymous`, or a parent extended by a string
/// component (raw bytes) or by a numeric component.
#[derive(Debug)]
pub enum DecodedName {
    Anonymous,
    Str(Box<DecodedName>, Vec<u8>),
    Num(Box<DecodedName>, u64),
}

/// A universe level.
#[derive(Debug)]
pub enum DecodedLevel {
    Zero,
    Succ(Box<DecodedLevel>),
    Max(Box<DecodedLevel>, Box<DecodedLevel>),
    IMax(Box<DecodedLevel>, Box<DecodedLevel>),
    Param(DecodedName),
    MVar(DecodedName),
}

/// The mathematical value of a `DecodedName`.
pub enum SpecName {
    Anonymous,
    Str(Box<SpecName>, Seq<u8>),
    Num(Box<SpecName>, u64),
}

/// The mathematical value of a `DecodedLevel`.
pub enum SpecLevel {
    Zero,
    Succ(Box<SpecLevel>),
    Max(Box<SpecLevel>, Box<SpecLevel>),
    IMax(Box<SpecLevel>, Box<SpecLevel>),
    Param(SpecName),
    MVar(SpecName),
}

/// The constructor of a level.
#[derive(Copy, Clone, Debug, PartialEq, Eq, Structural)]
pub enum LevelKind {
    Zero,
    Succ,
    Max,
    IMax,
    Param,
    MVar,
}

/// The constructor of a name.
#[derive(Copy, Clone, Debug, PartialEq, Eq, Structural)]
pub enum NameKind {
    Anonymous,
    Str,
    Num,
}

pub open spec fn name_view(n: DecodedName) -> SpecName
    decreases n,
{
    match n {
        DecodedName::Anonymous => SpecName::Anonymous,
        DecodedName::Str(p, s) => SpecName::Str(Box::new(name_view(*p)), s@),
        DecodedName::Num(p, v) => SpecName::Num(Box::new(name_view(*p)), v),
    }
}

pub open spec fn level_view(l: DecodedLevel) -> SpecLevel
    decreases l,
{
    match l {
        DecodedLevel::Zero => SpecLevel::Zero,
        DecodedLevel::Succ(u) => SpecLevel::Succ(Box::new(level_view(*u))),
        DecodedLevel::Max(a, b) => SpecLevel::Max(Box::new(level_view(*a)), Box::new(level_view(*b))),
        DecodedLevel::IMax(a, b) => SpecLevel::IMax(
            Box::new(level_view(*a)),
            Box::new(level_view(*b)),
        ),
        DecodedLevel::Param(n) => SpecLevel::Param(name_view(n)),
        DecodedLevel::MVar(n) => SpecLevel::MVar(name_view(n)),
    }
}

impl View for DecodedName {
    type V = SpecName;

    open spec fn view(&self) -> SpecName {
        name_view(*self)
    }
}

impl View for DecodedLevel {
    type V = SpecLevel;

    open spec fn view(&self) -> SpecLevel {
        level_view(*self)
    }
}

pub open spec fn spec_name_kind(n: SpecName) -> NameKind {
    match n {
        SpecName::Anonymous => NameKind::Anonymous,
        SpecName::Str(..) => NameKind::Str,
        SpecName::Num(..) => NameKind::Num,
    }
}

pub open spec fn spec_level_kind(l: SpecLevel) -> LevelKind {
    match l {
        SpecLevel::Zero => LevelKind::Zero,
        SpecLevel::Succ(..) => LevelKind::Succ,
        SpecLevel::Max(..) => LevelKind::Max,
        SpecLevel::IMax(..) => LevelKind::IMax,
        SpecLevel::Param(..) => LevelKind::Param,
        SpecLevel::MVar(..) => LevelKind::MVar,
    }
}

/// Number of nodes of a level (names count as leaves).
pub open spec fn size(l: SpecLevel) -> nat
    decreases l,
{
    match l {
        SpecLevel::Succ(u) => 1 + size(*u),
        SpecLevel::Max(a, b) => 1 + size(*a) + size(*b),
        SpecLevel::IMax(a, b) => 1 + size(*a) + size(*b),
        _ => 1,
    }
}

/// Number of `Succ` nodes on top of the level.
pub open spec fn offset(l: SpecLevel) -> nat
    decreases l,
{
    match l {
        SpecLevel::Succ(u) => 1 + offset(*u),
        _ => 0,
    }
}

/// The level below its topmost `Succ` chain.
pub open spec fn base(l: SpecLevel) -> SpecLevel
    decreases l,
{
    match l {
        SpecLevel::Succ(u) => base(*u),
        _ => l,
    }
}

/// The largest number of `Succ` nodes on any root-to-leaf path.
pub open spec fn succ_depth(l: SpecLevel) -> nat
    decreases l,
{
    match l {
        SpecLevel::Succ(u) => 1 + succ_depth(*u),
        SpecLevel::Max(a, b) => if succ_depth(*a) >= succ_depth(*b) {
            succ_depth(*a)
        } else {
            succ_depth(*b)
        },
        SpecLevel::IMax(a, b) => if succ_depth(*a) >= succ_depth(*b) {
            succ_depth(*a)
        } else {
            succ_depth(*b)
        },
        _ => 0,
    }
}

/// `n` applications of `Succ` on top of `l`.
pub open spec fn add_offset(l: SpecLevel, n: nat) -> SpecLevel
    decreases n,
{
    if n == 0 {
        l
    } else {
        SpecLevel::Succ(Box::new(add_offset(l, (n - 1) as nat)))
    }
}

pub proof fn lemma_base_offset(l: SpecLevel)
    ensures
        add_offset(base(l), offset(l)) == l,
        base(l) !is Succ,
        size(base(l)) + offset(l) == size(l),
        succ_depth(base(l)) + offset(l) == succ_depth(l),
    decreases l,
{
    if let SpecLevel::Succ(u) = l {
        lemma_base_offset(*u);
        lemma_add_offset_succ(base(*u), offset(*u));
    }
}

pub proof fn lemma_add_offset_succ(l: SpecLevel, n: nat)
    ensures
        add_offset(l, n + 1) == SpecLevel::Succ(Box::new(add_offset(l, n))),
        add_offset(SpecLevel::Succ(Box::new(l)), n) == add_offset(l, n + 1),
    decreases n,
{
    if n > 0 {
        lemma_add_offset_succ(l, (n - 1) as nat);
    }
}

pub proof fn lemma_add_offset_parts(l: SpecLevel, n: nat)
    requires
        l !is Succ,
    ensures
        base(add_offset(l, n)) == l,
        offset(add_offset(l, n)) == n,
        succ_depth(add_offset(l, n)) == n + succ_depth(l),
        size(add_offset(l, n)) == n + size(l),
    decreases n,
{
    if n > 0 {
        lemma_add_offset_parts(l, (n - 1) as nat);
    }
}

pub proof fn lemma_size_positive(l: SpecLevel)
    ensures
        size(l) >= 1,
{
}

impl DecodedName {
    /// The constructor of this name.
    pub fn kind(&self) -> (k: NameKind)
        ensures
            k == spec_name_kind(self@),
    {
        match self {
            DecodedName::Anonymous => NameKind::Anonymous,
            DecodedName::Str(..) => NameKind::Str,
            DecodedName::Num(..) => NameKind::Num,
        }
    }

    /// Structural equality of two names.
    pub fn name_eq(&self, other: &DecodedName) -> (r: bool)
        ensures
            r == (self@ == other@),
        decreases self,
    {
        match (self, other) {
            (DecodedName::Anonymous, DecodedName::Anonymous) => true,
            (DecodedName::Str(p1, s1), DecodedName::Str(p2, s2)) => {
                let same = bytes_eq(s1.as_slice(), s2.as_slice());
                if !same {
                    return false;
                }
                let r = p1.name_eq(p2);
                proof {
                    if !r {
                        assert(name_view(**p1) != name_view(**p2));
                    }
                }
                r
            },
            (DecodedName::Num(p1, v1), DecodedName::Num(p2, v2)) => {
                if *v1 != *v2 {
                    return false;
                }
                p1.name_eq(p2)
            },
            _ => false,
        }
    }

    /// A copy of this name.
    pub fn copy_name(&self) -> (r: DecodedName)
        ensures
            r@ == self@,
        decreases self,
    {
        match self {
            DecodedName::Anonymous => DecodedName::Anonymous,
            DecodedName::Str(p, s) => {
                let p2 = p.copy_name();
                let s2 = vstd::slice::slice_to_vec(s.as_slice());
                DecodedName::Str(Box::new(p2), s2)
            },
            DecodedName::Num(p, v) => {
                let p2 = p.copy_name();
                DecodedName::Num(Box::new(p2), *v)
            },
        }
    }
}

/// Equality of two byte strings.
pub fn bytes_eq(a: &[u8], b: &[u8]) -> (r: bool)
    ensures
        r == (a@ == b@),
{
    if a.len() != b.len() {
        return false;
    }
    let mut i: usize = 0;
    while i < a.len()
        invariant
            a@.len() == b@.len(),
            i <= a@.len(),
            forall|j: int| 0 <= j < i ==> a@[j] == b@[j],
        decreases a@.len() - i,
    {
        if a[i] != b[i] {
            return false;
        }
        i = i + 1;
    }
    assert(a@ =~= b@);
    true
}

impl DecodedLevel {
    /// The constructor of this level.
    pub fn kind(&self) -> (k: LevelKind)
        ensures
            k == spec_level_kind(self@),
    {
        match self {
            DecodedLevel::Zero => LevelKind::Zero,
            DecodedLevel::Succ(..) => LevelKind::Succ,
            DecodedLevel::Max(..) => LevelKind::Max,
            DecodedLevel::IMax(..) => LevelKind::IMax,
            DecodedLevel::Param(..) => LevelKind::Param,
            DecodedLevel::MVar(..) => LevelKind::MVar,
        }
    }

    /// Structural equality of two levels.
    pub fn level_eq(&self, other: &DecodedLevel) -> (r: bool)
        ensures
            r == (self@ == other@),
        decreases self,
    {
        match (self, other) {
            (DecodedLevel::Zero, DecodedLevel::Zero) => true,
            (DecodedLevel::Succ(a), DecodedLevel::Succ(b)) => a.level_eq(b),
            (DecodedLevel::Max(a1, a2), DecodedLevel::Max(b1, b2)) => {
                if !a1.level_eq(b1) {
                    return false;
                }
                a2.level_eq(b2)
            },
            (DecodedLevel::IMax(a1, a2), DecodedLevel::IMax(b1, b2)) => {
                if !a1.level_eq(b1) {
                    return false;
                }
                a2.level_eq(b2)
            },
            (DecodedLevel::Param(n1), DecodedLevel::Param(n2)) => n1.name_eq(n2),
            (DecodedLevel::MVar(n1), DecodedLevel::MVar(n2)) => n1.name_eq(n2),
            _ => false,
        }
    }

    /// A copy of this level.
    pub fn copy_level(&self) -> (r: DecodedLevel)
        ensures
            r@ == self@,
        decreases self,
    {
        match self {
            DecodedLevel::Zero => DecodedLevel::Zero,
            DecodedLevel::Succ(u) => DecodedLevel::Succ(Box::new(u.copy_level())),
            DecodedLevel::Max(a, b) => DecodedLevel::Max(
                Box::new(a.copy_level()),
                Box::new(b.copy_level()),
            ),
            DecodedLevel::IMax(a, b) => DecodedLevel::IMax(
                Box::new(a.copy_level()),
                Box::new(b.copy_level()),
            ),
            DecodedLevel::Param(n) => DecodedLevel::Param(n.copy_name()),
            DecodedLevel::MVar(n) => DecodedLevel::MVar(n.copy_name()),
        }
    }
}

impl PartialEq for DecodedName {
    fn eq(&self, other: &Self) -> (r: bool) {
        self.name_eq(other)
    }
}

impl vstd::std_specs::cmp::PartialEqSpecImpl for DecodedName {
    open spec fn obeys_eq_spec() -> bool {
        true
    }

    open spec fn eq_spec(&self, other: &Self) -> bool {
        self@ == other@
    }
}

impl Eq for DecodedName {}

impl PartialEq for DecodedLevel {
    fn eq(&self, other: &Self) -> (r: bool) {
        self.level_eq(other)
    }
}

impl vstd::std_specs::cmp::PartialEqSpecImpl for DecodedLevel {
    open spec fn obeys_eq_spec() -> bool {
        true
    }

    open spec fn eq_spec(&self, other: &Self) -> bool {
        self@ == other@
    }
}

impl Eq for DecodedLevel {}

impl Clone for DecodedName {
    fn clone(&self) -> (r: Self)
        ensures
            r@ == self@,
    {
        self.copy_name()
    }
}

impl Clone for DecodedLevel {
    fn clone(&self) -> (r: Self)
        ensures
            r@ == self@,
    {
        self.copy_level()
    }
}

} // verus!
