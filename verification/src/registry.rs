//! The table of replay functions, by the fully qualified name of the
//! function whose corpus they replay.
use vstd::prelude::*;

use vstd::utf8::encode_utf8;

use crate::name_order::{
    bytes_before, bytes_before_or_equal, lemma_bytes_before_irreflexive,
    lemma_bytes_before_total, lemma_bytes_before_transitive,
};
use crate::record::Record;

verus! {

broadcast use vstd::utf8::encode_utf8_decode_utf8;

/// What replaying one record gave.
#[derive(Debug, PartialEq, Eq)]
pub enum ReplayOutcome {
    /// The replayed function agrees with the record.
    Match,
    /// The replayed function disagrees with the record, or the record
    /// could not be replayed as it stands.
    Diverged { detail: String },
    /// The record was not replayed.
    Skipped { reason: String },
}

/// Replays the records of one function's corpus.
pub trait ReplayFn: Send + Sync + 'static {
    fn replay(&self, record: &Record) -> ReplayOutcome;
}

/// Names are ordered by their UTF-8 bytes.
pub open spec fn name_before_name(a: Seq<char>, b: Seq<char>) -> bool {
    bytes_before(encode_utf8(a), encode_utf8(b))
}

/// The names are in strictly increasing order.
pub open spec fn names_sorted(ks: Seq<Seq<char>>) -> bool {
    forall|i: int, j: int| 0 <= i < j < ks.len() ==> name_before_name(#[trigger] ks[i], #[trigger] ks[j])
}

/// The names of a sequence of entries.
pub open spec fn entry_keys<F>(s: Seq<(String, F)>) -> Seq<Seq<char>> {
    s.map_values(|e: (String, F)| e.0@)
}

/// Replay functions by name, in the order of their names. Generic over
/// what is registered, which is a boxed `ReplayFn` unless said otherwise.
///
/// The entries are a vector kept sorted by name, each name once, rather
/// than a `BTreeMap<String, _>`: vstd's specification of `BTreeMap` proves
/// little about `String` keys, while the sorted vector lets `register` and
/// `get` state and prove exactly which entries there are and in what order,
/// the order of a `BTreeMap` over `String` (UTF-8 bytes).
pub struct Registry<F = Box<dyn ReplayFn>> {
    entries: Vec<(String, F)>,
}

impl<F> Registry<F> {
    /// The registered names, in increasing order.
    pub closed spec fn keys(&self) -> Seq<Seq<char>> {
        entry_keys(self.entries@)
    }

    /// The index of the entry named `k`.
    closed spec fn index_of(&self, k: Seq<char>) -> int {
        choose|i: int| 0 <= i < self.entries@.len() && self.entries@[i].0@ == k
    }

    /// The replay function registered under `k`.
    pub closed spec fn value_of(&self, k: Seq<char>) -> F {
        self.entries@[self.index_of(k)].1
    }

    #[verifier::type_invariant]
    spec fn sorted(self) -> bool {
        names_sorted(self.keys())
    }

    /// An empty registry.
    pub fn new() -> (r: Self)
        ensures
            r.keys() == Seq::<Seq<char>>::empty(),
    {
        let r = Registry { entries: Vec::new() };
        assert(r.keys() =~= Seq::<Seq<char>>::empty());
        r
    }

    proof fn lemma_value_at(&self, i: int)
        requires
            0 <= i < self.entries@.len(),
            names_sorted(self.keys()),
        ensures
            self.value_of(self.entries@[i].0@) == self.entries@[i].1,
            self.keys()[i] == self.entries@[i].0@,
    {
        let k = self.entries@[i].0@;
        assert(0 <= i < self.entries@.len() && self.entries@[i].0@ == k);
        let j = self.index_of(k);
        assert(0 <= j < self.entries@.len() && self.entries@[j].0@ == k);
        assert(self.keys()[j] == k);
        assert(self.keys()[i] == k);
        if j != i {
            lemma_bytes_before_irreflexive(encode_utf8(k));
            if j < i {
                assert(name_before_name(self.keys()[j], self.keys()[i]));
            } else {
                assert(name_before_name(self.keys()[i], self.keys()[j]));
            }
            assert(false);
        }
        assert(self.value_of(k) == self.entries@[j].1);
    }

    /// Registers `f` under `fqn`, in place of what was registered there.
    pub fn register(&mut self, fqn: &str, f: F)
        ensures
            final(self).keys().to_set() == old(self).keys().to_set().insert(fqn@),
            names_sorted(final(self).keys()),
            final(self).value_of(fqn@) == f,
            forall|k: Seq<char>|
                k != fqn@ && old(self).keys().contains(k) ==> #[trigger] final(self).value_of(k)
                    == old(self).value_of(k),
    {
        proof {
            use_type_invariant(&*self);
        }
        let ghost ks = self.keys();
        let key = fqn.as_bytes();
        let mut i: usize = 0;
        let mut found = false;
        while i < self.entries.len()
            invariant_except_break
                ks == self.keys(),
                self.entries@.len() == ks.len(),
                i <= self.entries@.len(),
                key@ == encode_utf8(fqn@),
                forall|j: int| 0 <= j < i ==> name_before_name(#[trigger] ks[j], fqn@),
                !found,
            ensures
                ks == self.keys(),
                self.entries@.len() == ks.len(),
                i <= self.entries@.len(),
                forall|j: int| 0 <= j < i ==> name_before_name(#[trigger] ks[j], fqn@),
                found ==> i < ks.len() && ks[i as int] == fqn@,
                !found ==> i == ks.len() || name_before_name(fqn@, ks[i as int]),
            decreases self.entries@.len() - i,
        {
            let ek = self.entries[i].0.as_str().as_bytes();
            proof {
                assert(ks[i as int] == self.entries@[i as int].0@);
            }
            let (before, equal) = bytes_before_or_equal(ek, key);
            if equal {
                proof {
                    assert(vstd::utf8::decode_utf8(encode_utf8(ks[i as int])) == ks[i as int]);
                    assert(vstd::utf8::decode_utf8(encode_utf8(fqn@)) == fqn@);
                }
                found = true;
                break ;
            }
            if !before {
                proof {
                    lemma_bytes_before_total(ek@, key@);
                }
                break ;
            }
            i = i + 1;
        }
        let ghost old_entries = self.entries@;
        let mut entries: Vec<(String, F)> = Vec::new();
        std::mem::swap(&mut entries, &mut self.entries);
        if found {
            let (name, _) = entries.remove(i);
            let ghost mid = entries@;
            entries.insert(i, (name, f));
            proof {
                assert(i < old_entries.len());
                assert(name@ == ks[i as int]);
                assert(mid =~= old_entries.remove(i as int));
                old_entries.remove_ensures(i as int);
                mid.insert_ensures(i as int, entries@[i as int]);
                assert(entries@ == mid.insert(i as int, entries@[i as int]));
                assert(entries@.len() == old_entries.len());
                assert forall|j: int| 0 <= j < entries@.len() implies #[trigger] entries@[j].0@ == ks[j] by {
                    if j < i {
                        assert(entries@[j] == mid[j]);
                        assert(mid[j] == old_entries[j]);
                    } else if j > i {
                        assert(entries@[j] == mid[j - 1]);
                        assert(mid[j - 1] == old_entries[j]);
                    }
                    assert(ks[j] == old_entries[j].0@);
                }
                assert(entry_keys(entries@) =~= ks);
            }
        } else {
            let name = fqn.to_owned();
            entries.insert(i, (name, f));
            proof {
                let nk = entry_keys(entries@);
                assert(nk =~= ks.insert(i as int, fqn@));
                assert forall|a: int, b: int| 0 <= a < b < nk.len() implies name_before_name(
                    #[trigger] nk[a],
                    #[trigger] nk[b],
                ) by {
                    if b < i {
                        assert(nk[a] == ks[a] && nk[b] == ks[b]);
                    } else if b == i {
                        assert(nk[a] == ks[a]);
                    } else if a == i {
                        assert(nk[b] == ks[b - 1]);
                        if b - 1 > i {
                            assert(name_before_name(ks[i as int], ks[b - 1]));
                            lemma_bytes_before_transitive(
                                encode_utf8(fqn@),
                                encode_utf8(ks[i as int]),
                                encode_utf8(ks[b - 1]),
                            );
                        }
                    } else if a < i {
                        assert(nk[a] == ks[a] && nk[b] == ks[b - 1]);
                        assert(name_before_name(ks[a], fqn@));
                        if b - 1 > i {
                            lemma_bytes_before_transitive(
                                encode_utf8(fqn@),
                                encode_utf8(ks[i as int]),
                                encode_utf8(ks[b - 1]),
                            );
                        }
                        lemma_bytes_before_transitive(
                            encode_utf8(ks[a]),
                            encode_utf8(fqn@),
                            encode_utf8(ks[b - 1]),
                        );
                    } else {
                        assert(nk[a] == ks[a - 1] && nk[b] == ks[b - 1]);
                    }
                }
            }
        }
        self.entries = entries;
        proof {
            if found {
                assert(self.keys().to_set() =~= ks.to_set().insert(fqn@));
            } else {
                let nk = self.keys();
                assert(nk =~= ks.insert(i as int, fqn@));
                assert forall|x: Seq<char>| #[trigger] nk.contains(x) <==> (ks.contains(x) || x == fqn@) by {
                    if nk.contains(x) {
                        let j = choose|j: int| 0 <= j < nk.len() && nk[j] == x;
                        if j < i {
                            assert(ks[j] == x);
                        } else if j > i {
                            assert(ks[j - 1] == x);
                        }
                    }
                    if ks.contains(x) {
                        let j = choose|j: int| 0 <= j < ks.len() && ks[j] == x;
                        if j < i {
                            assert(nk[j] == x);
                        } else {
                            assert(nk[j + 1] == x);
                        }
                    }
                    if x == fqn@ {
                        assert(nk[i as int] == x);
                    }
                }
                assert(self.keys().to_set() =~= ks.to_set().insert(fqn@));
            }
            self.lemma_value_at(i as int);
            assert forall|k: Seq<char>|
                k != fqn@ && ks.contains(k) implies #[trigger] self.value_of(k) == old(
                    self,
                ).value_of(k) by {
                let j = choose|j: int| 0 <= j < ks.len() && ks[j] == k;
                old(self).lemma_value_at(j);
                if found || j < i {
                    assert(self.entries@[j] == old_entries[j]);
                    self.lemma_value_at(j);
                } else {
                    assert(self.entries@[j + 1] == old_entries[j]);
                    self.lemma_value_at(j + 1);
                }
            }
        }
    }

    /// The replay function registered under `fqn`, if any.
    pub fn get(&self, fqn: &str) -> (r: Option<&F>)
        ensures
            r is Some <==> self.keys().contains(fqn@),
            r matches Some(f) ==> *f == self.value_of(fqn@),
    {
        proof {
            use_type_invariant(self);
        }
        let key = fqn.as_bytes();
        let mut i: usize = 0;
        while i < self.entries.len()
            invariant
                i <= self.entries@.len(),
                key@ == encode_utf8(fqn@),
                names_sorted(self.keys()),
                forall|j: int| 0 <= j < i ==> #[trigger] self.keys()[j] != fqn@,
            decreases self.entries@.len() - i,
        {
            let ek = self.entries[i].0.as_str().as_bytes();
            let (_, equal) = bytes_before_or_equal(ek, key);
            proof {
                assert(self.keys()[i as int] == self.entries@[i as int].0@);
                assert(vstd::utf8::decode_utf8(encode_utf8(self.keys()[i as int])) == self.keys()[i as int]);
                assert(vstd::utf8::decode_utf8(encode_utf8(fqn@)) == fqn@);
            }
            if equal {
                proof {
                    self.lemma_value_at(i as int);
                }
                return Some(&self.entries[i].1);
            }
            assert(self.keys()[i as int] == self.entries@[i as int].0@);
            i = i + 1;
        }
        None
    }

    /// The registered names, in increasing order.
    pub fn names(&self) -> (r: Vec<&str>)
        ensures
            r@.map_values(|s: &str| s@) == self.keys(),
    {
        let mut r: Vec<&str> = Vec::new();
        let mut i: usize = 0;
        while i < self.entries.len()
            invariant
                i <= self.entries@.len(),
                r@.len() == i,
                forall|j: int| 0 <= j < i ==> #[trigger] r@[j]@ == self.keys()[j],
            decreases self.entries@.len() - i,
        {
            r.push(self.entries[i].0.as_str());
            assert(self.keys()[i as int] == self.entries@[i as int].0@);
            i = i + 1;
        }
        assert(r@.map_values(|s: &str| s@) =~= self.keys());
        r
    }
}

impl<F> Default for Registry<F> {
    fn default() -> (r: Self)
        ensures
            r.keys() == Seq::<Seq<char>>::empty(),
    {
        Self::new()
    }
}

/// The registry of the replay functions that exist: none yet.
pub fn builtin() -> (r: Registry)
    ensures
        r.keys() == Seq::<Seq<char>>::empty(),
{
    Registry::new()
}

} // verus!
