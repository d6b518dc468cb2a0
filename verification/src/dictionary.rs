//! The dictionary builder: validates raw lines, converts each to its letter
//! signature, and deduplicates by signature so that anagrams and literal
//! duplicates collapse into a single entry.

use crate::word::{popcount, word_scan, ValidationError, Word};
use std::collections::HashMap;
use vstd::prelude::*;

verus! {

broadcast use vstd::std_specs::hash::group_hash_axioms;

/// The surface strings among `lines` that validate to the signature `m`, in
/// input order.
pub open spec fn surfaces_for(lines: Seq<Seq<char>>, m: u32) -> Seq<Seq<char>>
    decreases lines.len(),
{
    if lines.len() == 0 {
        Seq::empty()
    } else {
        let rest = surfaces_for(lines.drop_last(), m);
        if word_scan(lines.last()) == Ok::<u32, ValidationError>(m) {
            rest.push(lines.last())
        } else {
            rest
        }
    }
}

/// How many of `lines` fail validation.
pub open spec fn num_invalid(lines: Seq<Seq<char>>) -> int
    decreases lines.len(),
{
    if lines.len() == 0 {
        0
    } else {
        num_invalid(lines.drop_last()) + (if word_scan(lines.last()) is Err {
            1int
        } else {
            0int
        })
    }
}

/// How many of `lines` validate to some signature.
pub open spec fn num_valid(lines: Seq<Seq<char>>) -> int {
    lines.len() - num_invalid(lines)
}

/// Unfolds `surfaces_for` over a sequence extended by one line.
proof fn lemma_surfaces_for_snoc(lines: Seq<Seq<char>>, line: Seq<char>, m: u32)
    ensures
        surfaces_for(lines.push(line), m) == (if word_scan(line) == Ok::<u32, ValidationError>(m) {
            surfaces_for(lines, m).push(line)
        } else {
            surfaces_for(lines, m)
        }),
{
    assert(lines.push(line).drop_last() =~= lines);
    assert(lines.push(line).last() == line);
}

/// Unfolds `num_invalid` over a sequence extended by one line.
proof fn lemma_num_invalid_snoc(lines: Seq<Seq<char>>, line: Seq<char>)
    ensures
        num_invalid(lines.push(line)) == num_invalid(lines) + (if word_scan(line) is Err {
            1int
        } else {
            0int
        }),
{
    assert(lines.push(line).drop_last() =~= lines);
    assert(lines.push(line).last() == line);
}

/// Diagnostic counts reported by the builder: lines that failed validation,
/// distinct entries kept, and valid lines merged into an existing entry.
#[derive(Clone, Copy, Debug, PartialEq, Eq, Structural)]
pub struct BuildStats {
    /// Lines rejected by validation.
    pub ignored: usize,
    /// Distinct letter signatures kept.
    pub distinct: usize,
    /// Valid lines that were anagrams or duplicates of an earlier line.
    pub merged: usize,
}

/// An ordered collection of words with pairwise distinct letter signatures,
/// each carrying every surface spelling that produced its signature.
pub struct Dictionary {
    entries: Vec<Word>,
}

impl Dictionary {
    /// The entries, in the order the search indexes them.
    pub closed spec fn entries_seq(self) -> Seq<Word> {
        self.entries@
    }

    /// Number of entries.
    pub open spec fn num_entries(self) -> int {
        self.entries_seq().len() as int
    }

    /// The letter signature of the entry at position `i`.
    pub open spec fn mask_at(self, i: int) -> u32 {
        self.entries_seq()[i].mask()
    }

    /// Well-formedness: signatures are pairwise distinct, each has exactly
    /// five letters, and each entry keeps at least one surface spelling.
    pub open spec fn wf(self) -> bool {
        &&& forall|p: int, q: int|
            0 <= p < q < self.num_entries() ==> self.mask_at(p) != self.mask_at(q)
        &&& forall|i: int|
            0 <= i < self.num_entries() ==> popcount(#[trigger] self.mask_at(i)) == 5
                && self.mask_at(i) < 0x4000000
        &&& forall|i: int|
            0 <= i < self.num_entries() ==> (#[trigger] self.entries_seq()[i]).surfaces().len() > 0
    }

    /// The relation between a dictionary and the raw lines it was built
    /// from: an entry exists for a signature exactly when some line
    /// validates to it, and the entry holds exactly those lines' strings in
    /// input order.
    pub open spec fn built_from(self, lines: Seq<Seq<char>>) -> bool {
        &&& forall|j: int|
            0 <= j < self.num_entries() ==> (#[trigger] self.entries_seq()[j]).surfaces()
                == surfaces_for(lines, self.mask_at(j))
        &&& forall|m: u32|
            surfaces_for(lines, m).len() > 0 ==> exists|j: int|
                0 <= j < self.num_entries() && #[trigger] self.mask_at(j) == m
    }

    /// The set of letter signatures a dictionary holds.
    pub open spec fn signature_set(self) -> Set<u32> {
        Set::new(
            |m: u32|
                exists|i: int| 0 <= i < self.num_entries() && #[trigger] self.mask_at(i) == m,
        )
    }

    /// Number of entries, as a machine integer.
    pub fn len(&self) -> (n: usize)
        ensures
            n == self.num_entries(),
    {
        self.entries.len()
    }

    /// The entry at position `i`.
    pub fn entry(&self, i: usize) -> (w: &Word)
        requires
            i < self.num_entries(),
        ensures
            *w == self.entries_seq()[i as int],
    {
        &self.entries[i]
    }

    /// Builds the dictionary from raw lines: every line that validates is
    /// either a new entry or merged into the entry holding its signature;
    /// every line that fails validation is counted as ignored.
    pub fn build(lines: Vec<String>) -> (r: (Dictionary, BuildStats))
        ensures
            r.0.wf(),
            r.0.built_from(lines.deep_view()),
            r.1.ignored as int == num_invalid(lines.deep_view()),
            r.1.distinct as int == r.0.num_entries(),
            r.1.merged as int == num_valid(lines.deep_view()) - r.0.num_entries(),
    {
        let ghost lv = lines.deep_view();
        let mut entries: Vec<Word> = Vec::new();
        let mut index: HashMap<u32, usize> = HashMap::new();
        let mut ignored: usize = 0;
        let mut valid: usize = 0;
        let n = lines.len();
        for k in 0..n
            invariant
                n == lines@.len(),
                lv == lines.deep_view(),
                forall|p: int, q: int|
                    0 <= p < q < entries@.len() ==> (#[trigger] entries@[p]).mask() != (
                    #[trigger] entries@[q]).mask(),
                forall|i: int|
                    0 <= i < entries@.len() ==> popcount((#[trigger] entries@[i]).mask()) == 5
                        && entries@[i].mask() < 0x4000000 && entries@[i].surfaces().len() > 0,
                forall|j: int|
                    0 <= j < entries@.len() ==> (#[trigger] entries@[j]).surfaces()
                        == surfaces_for(lv.take(k as int), entries@[j].mask()),
                forall|m: u32| #![trigger index@.contains_key(m)]
                    index@.contains_key(m) <==> surfaces_for(lv.take(k as int), m).len() > 0,
                forall|m: u32| #[trigger]
                    index@.contains_key(m) ==> index@[m] < entries@.len()
                        && entries@[index@[m] as int].mask() == m,
                ignored as int == num_invalid(lv.take(k as int)),
                valid as int == num_valid(lv.take(k as int)),
                entries@.len() <= valid <= k,
        {
            let ghost pref = lv.take(k as int);
            let ghost line = lv[k as int];
            proof {
                assert(lv.take(k + 1) =~= pref.push(line));
                assert(line == lines@[k as int]@);
                lemma_num_invalid_snoc(pref, line);
                assert forall|m: u32| #![trigger surfaces_for(lv.take(k + 1), m)]
                    surfaces_for(lv.take(k + 1), m) == (if word_scan(line) == Ok::<
                        u32,
                        ValidationError,
                    >(m) {
                        surfaces_for(pref, m).push(line)
                    } else {
                        surfaces_for(pref, m)
                    }) by {
                    lemma_surfaces_for_snoc(pref, line, m);
                }
            }
            match Word::try_build(lines[k].clone()) {
                Ok(w) => {
                    valid = valid + 1;
                    let key = w.letters();
                    let existing = match index.get(&key) {
                        Some(j) => Some(*j),
                        None => None,
                    };
                    match existing {
                        Some(j) => {
                            let ghost old_entries = entries@;
                            proof {
                                assert(index@.contains_key(key) && index@[key] == j);
                                assert(old_entries[j as int].mask() == key);
                            }
                            entries[j].add_str(lines[k].clone());
                            proof {
                                assert(entries@ =~= old_entries.update(
                                    j as int,
                                    entries@[j as int],
                                ));
                                assert forall|jj: int| 0 <= jj < entries@.len() implies (
                                #[trigger] entries@[jj]).surfaces() == surfaces_for(
                                    lv.take(k + 1),
                                    entries@[jj].mask(),
                                ) by {
                                    if jj != j {
                                        assert(entries@[jj] == old_entries[jj]);
                                        assert(entries@[jj].mask() != key);
                                    }
                                }
                            }
                        },
                        None => {
                            let j = entries.len();
                            let ghost old_entries = entries@;
                            proof {
                                assert(!index@.contains_key(key));
                                assert(surfaces_for(pref, key).len() == 0);
                            }
                            index.insert(key, j);
                            entries.push(w);
                            proof {
                                assert forall|jj: int| 0 <= jj < entries@.len() implies (
                                #[trigger] entries@[jj]).surfaces() == surfaces_for(
                                    lv.take(k + 1),
                                    entries@[jj].mask(),
                                ) by {
                                    if jj < j {
                                        assert(entries@[jj] == old_entries[jj]);
                                        assert(entries@[jj].mask() != key);
                                    } else {
                                        assert(entries@[jj] == w);
                                        assert(w.surfaces() =~= surfaces_for(pref, key).push(
                                            line,
                                        ));
                                    }
                                }
                            }
                        },
                    }
                },
                Err(_) => {
                    ignored = ignored + 1;
                },
            }
        }
        proof {
            assert(lv.take(n as int) =~= lv);
            let d = Dictionary { entries };
            assert forall|m: u32| #![trigger surfaces_for(lv, m)]
                surfaces_for(lv, m).len() > 0 implies exists|j: int|
                0 <= j < d.num_entries() && #[trigger] d.mask_at(j) == m by {
                assert(index@.contains_key(m));
                let j = index@[m] as int;
                assert(0 <= j < d.num_entries() && d.mask_at(j) == m);
            }
        }
        let distinct = entries.len();
        let merged = valid - distinct;
        (Dictionary { entries }, BuildStats { ignored, distinct, merged })
    }
}

/// Law: building a dictionary from the same raw lines twice yields the same
/// set of letter signatures, whatever order the entries come in.
pub proof fn lemma_build_idempotent(d1: Dictionary, d2: Dictionary, lines: Seq<Seq<char>>)
    requires
        d1.wf(),
        d2.wf(),
        d1.built_from(lines),
        d2.built_from(lines),
    ensures
        d1.signature_set() == d2.signature_set(),
{
    assert forall|m: u32| d1.signature_set().contains(m) implies d2.signature_set().contains(
        m,
    ) by {
        let i = choose|i: int| 0 <= i < d1.num_entries() && #[trigger] d1.mask_at(i) == m;
        assert(d1.entries_seq()[i].surfaces() == surfaces_for(lines, m));
        assert(surfaces_for(lines, m).len() > 0);
    }
    assert forall|m: u32| d2.signature_set().contains(m) implies d1.signature_set().contains(
        m,
    ) by {
        let i = choose|i: int| 0 <= i < d2.num_entries() && #[trigger] d2.mask_at(i) == m;
        assert(d2.entries_seq()[i].surfaces() == surfaces_for(lines, m));
        assert(surfaces_for(lines, m).len() > 0);
    }
    assert(d1.signature_set() =~= d2.signature_set());
}

} // verus!
