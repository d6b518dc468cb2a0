//! The search engine: enumerates every 5-combination of dictionary entries
//! whose letter signatures are pairwise disjoint, visiting strictly
//! decreasing index tuples through five nested bounded loops and pruning a
//! branch as soon as a candidate shares a letter with the running union of
//! the prefix chosen so far.

use crate::dictionary::Dictionary;
use crate::word::{
    disjoint_masks, lemma_popcount_disjoint_union, lemma_union_disjoint, popcount, Word,
};
use vstd::prelude::*;

verus! {

/// One solution: five dictionary positions in strictly decreasing order
/// whose letter signatures are pairwise disjoint.
#[derive(Clone, Copy, Debug, PartialEq, Eq, Structural)]
pub struct Solution {
    /// The outermost (largest) dictionary position.
    pub i1: usize,
    /// The second position, below `i1`.
    pub i2: usize,
    /// The third position, below `i2`.
    pub i3: usize,
    /// The fourth position, below `i3`.
    pub i4: usize,
    /// The innermost (smallest) position, below `i4`.
    pub i5: usize,
}

/// What it means for `s` to be a solution over dictionary `d`: indices
/// strictly decrease, stay in bounds, and all ten pairs of letter
/// signatures are disjoint.
pub open spec fn is_solution(d: Dictionary, s: Solution) -> bool {
    &&& (s.i1 as int) < d.num_entries()
    &&& s.i2 < s.i1
    &&& s.i3 < s.i2
    &&& s.i4 < s.i3
    &&& s.i5 < s.i4
    &&& disjoint_masks(d.mask_at(s.i1 as int), d.mask_at(s.i2 as int))
    &&& disjoint_masks(d.mask_at(s.i1 as int), d.mask_at(s.i3 as int))
    &&& disjoint_masks(d.mask_at(s.i1 as int), d.mask_at(s.i4 as int))
    &&& disjoint_masks(d.mask_at(s.i1 as int), d.mask_at(s.i5 as int))
    &&& disjoint_masks(d.mask_at(s.i2 as int), d.mask_at(s.i3 as int))
    &&& disjoint_masks(d.mask_at(s.i2 as int), d.mask_at(s.i4 as int))
    &&& disjoint_masks(d.mask_at(s.i2 as int), d.mask_at(s.i5 as int))
    &&& disjoint_masks(d.mask_at(s.i3 as int), d.mask_at(s.i4 as int))
    &&& disjoint_masks(d.mask_at(s.i3 as int), d.mask_at(s.i5 as int))
    &&& disjoint_masks(d.mask_at(s.i4 as int), d.mask_at(s.i5 as int))
}

/// The order in which the nested enumeration visits index tuples: outermost
/// position first, then each inner position in turn.
pub open spec fn lex_before(a: Solution, b: Solution) -> bool {
    ||| a.i1 < b.i1
    ||| (a.i1 == b.i1 && (a.i2 < b.i2 || (a.i2 == b.i2 && (a.i3 < b.i3 || (a.i3 == b.i3 && (a.i4
        < b.i4 || (a.i4 == b.i4 && a.i5 < b.i5)))))))
}

/// Law: since a well-formed dictionary's signatures carry exactly five
/// letters each, a solution's five pairwise disjoint signatures union to
/// exactly twenty-five distinct letters.
pub proof fn lemma_solution_uses_25_letters(d: Dictionary, s: Solution)
    requires
        d.wf(),
        is_solution(d, s),
    ensures
        popcount(
            d.mask_at(s.i1 as int) | d.mask_at(s.i2 as int) | d.mask_at(s.i3 as int) | d.mask_at(
                s.i4 as int,
            ) | d.mask_at(s.i5 as int),
        ) == 25,
{
    let m1 = d.mask_at(s.i1 as int);
    let m2 = d.mask_at(s.i2 as int);
    let m3 = d.mask_at(s.i3 as int);
    let m4 = d.mask_at(s.i4 as int);
    let m5 = d.mask_at(s.i5 as int);
    lemma_popcount_disjoint_union(m1, m2);
    lemma_union_disjoint(m1, m2, m3);
    lemma_popcount_disjoint_union(m1 | m2, m3);
    lemma_union_disjoint(m1 | m2, m3, m4);
    lemma_union_disjoint(m1, m2, m4);
    lemma_popcount_disjoint_union(m1 | m2 | m3, m4);
    lemma_union_disjoint(m1 | m2 | m3, m4, m5);
    lemma_union_disjoint(m1 | m2, m3, m5);
    lemma_union_disjoint(m1, m2, m5);
    lemma_popcount_disjoint_union(m1 | m2 | m3 | m4, m5);
}

/// The set of all solutions a dictionary admits.
pub open spec fn solution_set(d: Dictionary) -> Set<Solution> {
    Set::new(|s: Solution| is_solution(d, s))
}

/// Law: a solution sequence that is sound, complete and free of repetition
/// — what `search` guarantees of what it returns — holds exactly one entry
/// per distinct qualifying combination: its length is the size of the set of
/// all solutions.
pub proof fn lemma_no_duplicate_combinations(d: Dictionary, sols: Seq<Solution>)
    requires
        forall|t: int| 0 <= t < sols.len() ==> is_solution(d, #[trigger] sols[t]),
        forall|s: Solution| is_solution(d, s) ==> sols.contains(s),
        forall|p: int, q: int| 0 <= p < q < sols.len() ==> sols[p] != sols[q],
    ensures
        solution_set(d).finite(),
        sols.len() == solution_set(d).len(),
{
    broadcast use vstd::seq_lib::seq_to_set_is_finite;

    assert(sols.no_duplicates());
    sols.unique_seq_to_set();
    assert forall|s: Solution| sols.to_set().contains(s) implies solution_set(d).contains(s) by {
        let t = choose|t: int| 0 <= t < sols.len() && sols[t] == s;
        assert(is_solution(d, sols[t]));
    }
    assert(sols.to_set() =~= solution_set(d));
}

/// The result of a search: either the dictionary was too small for any
/// 5-combination to exist and its entries are handed back for reporting, or
/// the complete solution sequence.
pub enum SearchOutcome {
    /// Fewer than five entries: no 5-combination exists by definition; the
    /// surviving entries are returned so the caller can list them.
    TooFewWords(Vec<Word>),
    /// Every solution, each combination exactly once.
    Solutions(Vec<Solution>),
}

/// The solution sequence an outcome carries: empty in the degenerate case.
pub open spec fn outcome_solutions(o: SearchOutcome) -> Seq<Solution> {
    match o {
        SearchOutcome::TooFewWords(_) => Seq::empty(),
        SearchOutcome::Solutions(v) => v@,
    }
}

/// The sub-search for a fixed outermost position `i1`: every solution whose
/// largest index is `i1`, each exactly once. The four inner loops are each
/// bounded by the previous position, and a candidate sharing a letter with
/// the running union of the prefix is skipped without descending further.
#[verifier::loop_isolation(false)]
pub fn search_outer(d: &Dictionary, i1: usize) -> (found: Vec<Solution>)
    requires
        4 <= i1 < d.num_entries(),
    ensures
        forall|t: int|
            0 <= t < found@.len() ==> is_solution(*d, #[trigger] found@[t]) && found@[t].i1 == i1,
        forall|s: Solution| is_solution(*d, s) && s.i1 == i1 ==> found@.contains(s),
        forall|p: int, q: int| 0 <= p < q < found@.len() ==> lex_before(#[trigger] found@[p], #[trigger] found@[q]),
{
    let mut found: Vec<Solution> = Vec::new();
    let m1 = d.entry(i1).letters();
    let u1 = m1;
    for i2 in 3..i1
        invariant
            forall|s: Solution| #[trigger]
                found@.contains(s) <==> is_solution(*d, s) && s.i1 == i1 && s.i2 < i2,
            forall|p: int, q: int| 0 <= p < q < found@.len() ==> lex_before(#[trigger] found@[p], #[trigger] found@[q]),
    {
        let m2 = d.entry(i2).letters();
        if u1 & m2 == 0 {
            let u2 = u1 | m2;
            for i3 in 2..i2
                invariant
                    forall|s: Solution| #[trigger]
                        found@.contains(s) <==> is_solution(*d, s) && s.i1 == i1 && (s.i2 < i2 || (
                        s.i2 == i2 && s.i3 < i3)),
                    forall|p: int, q: int| 0 <= p < q < found@.len() ==> lex_before(#[trigger] found@[p], #[trigger] found@[q]),
            {
                let m3 = d.entry(i3).letters();
                if u2 & m3 == 0 {
                    let u3 = u2 | m3;
                    for i4 in 1..i3
                        invariant
                            forall|s: Solution| #[trigger]
                                found@.contains(s) <==> is_solution(*d, s) && s.i1 == i1 && (s.i2
                                    < i2 || (s.i2 == i2 && (s.i3 < i3 || (s.i3 == i3 && s.i4
                                    < i4)))),
                            forall|p: int, q: int|
                                0 <= p < q < found@.len() ==> lex_before(#[trigger] found@[p], #[trigger] found@[q]),
                    {
                        let m4 = d.entry(i4).letters();
                        if u3 & m4 == 0 {
                            let u4 = u3 | m4;
                            for i5 in 0..i4
                                invariant
                                    forall|s: Solution| #[trigger]
                                        found@.contains(s) <==> is_solution(*d, s) && s.i1 == i1
                                            && (s.i2 < i2 || (s.i2 == i2 && (s.i3 < i3 || (s.i3
                                            == i3 && (s.i4 < i4 || (s.i4 == i4 && s.i5 < i5)))))),
                                    forall|p: int, q: int|
                                        0 <= p < q < found@.len() ==> lex_before(#[trigger] found@[p], #[trigger] found@[q]),
                            {
                                let m5 = d.entry(i5).letters();
                                if u4 & m5 == 0 {
                                    let snew = Solution { i1, i2, i3, i4, i5 };
                                    let ghost old_found = found@;
                                    found.push(snew);
                                    proof {
                                        lemma_union_disjoint(m1, m2, m3);
                                        lemma_union_disjoint(u2, m3, m4);
                                        lemma_union_disjoint(m1, m2, m4);
                                        lemma_union_disjoint(u3, m4, m5);
                                        lemma_union_disjoint(u2, m3, m5);
                                        lemma_union_disjoint(m1, m2, m5);
                                        assert(is_solution(*d, snew));
                                        assert(!old_found.contains(snew));
                                        assert forall|p: int|
                                            0 <= p < old_found.len() implies lex_before(
                                            old_found[p],
                                            snew,
                                        ) by {
                                            assert(old_found.contains(old_found[p]));
                                        }
                                        assert forall|s: Solution| #[trigger]
                                            found@.contains(s) <==> is_solution(*d, s) && s.i1
                                                == i1 && (s.i2 < i2 || (s.i2 == i2 && (s.i3 < i3
                                                || (s.i3 == i3 && (s.i4 < i4 || (s.i4 == i4
                                                && s.i5 < i5 + 1)))))) by {
                                            if found@.contains(s) {
                                                let t = choose|t: int|
                                                    0 <= t < found@.len() && found@[t] == s;
                                                if t < old_found.len() {
                                                    assert(old_found[t] == s);
                                                    assert(old_found.contains(s));
                                                } else {
                                                    assert(s == snew);
                                                }
                                            }
                                            if is_solution(*d, s) && s.i1 == i1 && (s.i2 < i2 || (
                                            s.i2 == i2 && (s.i3 < i3 || (s.i3 == i3 && (s.i4 < i4
                                                || (s.i4 == i4 && s.i5 < i5 + 1)))))) {
                                                if s == snew {
                                                    assert(found@[old_found.len() as int] == s);
                                                } else {
                                                    assert(old_found.contains(s));
                                                    let t = choose|t: int|
                                                        0 <= t < old_found.len() && old_found[t]
                                                            == s;
                                                    assert(found@[t] == s);
                                                }
                                            }
                                        }
                                    }
                                } else {
                                    proof {
                                        lemma_union_disjoint(u3, m4, m5);
                                        lemma_union_disjoint(u2, m3, m5);
                                        lemma_union_disjoint(m1, m2, m5);
                                    }
                                }
                            }
                        } else {
                            proof {
                                lemma_union_disjoint(u2, m3, m4);
                                lemma_union_disjoint(m1, m2, m4);
                            }
                        }
                    }
                } else {
                    proof {
                        lemma_union_disjoint(m1, m2, m3);
                    }
                }
            }
        }
    }
    proof {
        assert forall|t: int| 0 <= t < found@.len() implies is_solution(*d, #[trigger] found@[t])
            && found@[t].i1 == i1 by {
            assert(found@.contains(found@[t]));
        }
    }
    found
}

impl Dictionary {
    /// Runs the full search: with fewer than five entries the dictionary is
    /// degenerate and its entries are reported back; otherwise every
    /// 5-combination of entries with pairwise disjoint letter signatures is
    /// returned, each combination exactly once.
    #[verifier::loop_isolation(false)]
    pub fn search(&self) -> (out: SearchOutcome)
        ensures
            match out {
                SearchOutcome::TooFewWords(ws) => {
                    &&& self.num_entries() < 5
                    &&& ws@.len() == self.num_entries()
                    &&& forall|i: int|
                        0 <= i < ws@.len() ==> (#[trigger] ws@[i]).mask() == self.mask_at(i)
                            && ws@[i].surfaces() == self.entries_seq()[i].surfaces()
                },
                SearchOutcome::Solutions(sols) => {
                    &&& self.num_entries() >= 5
                    &&& forall|t: int| 0 <= t < sols@.len() ==> is_solution(*self, #[trigger] sols@[t])
                    &&& forall|s: Solution| is_solution(*self, s) ==> sols@.contains(s)
                    &&& forall|p: int, q: int|
                        0 <= p < q < sols@.len() ==> lex_before(
                            #[trigger] sols@[p],
                            #[trigger] sols@[q],
                        )
                    &&& forall|p: int, q: int| 0 <= p < q < sols@.len() ==> sols@[p] != sols@[q]
                },
            },
    {
        let n = self.len();
        if n < 5 {
            let mut ws: Vec<Word> = Vec::new();
            for i in 0..n
                invariant
                    ws@.len() == i,
                    forall|t: int|
                        0 <= t < i ==> (#[trigger] ws@[t]).mask() == self.mask_at(t)
                            && ws@[t].surfaces() == self.entries_seq()[t].surfaces(),
            {
                ws.push(self.entry(i).clone());
            }
            SearchOutcome::TooFewWords(ws)
        } else {
            let mut all: Vec<Solution> = Vec::new();
            for i1 in 4..n
                invariant
                    forall|s: Solution| #[trigger]
                        all@.contains(s) <==> is_solution(*self, s) && s.i1 < i1,
                    forall|p: int, q: int|
                        0 <= p < q < all@.len() ==> lex_before(
                            #[trigger] all@[p],
                            #[trigger] all@[q],
                        ),
            {
                let mut part = search_outer(self, i1);
                let ghost old_all = all@;
                let ghost partv = part@;
                all.append(&mut part);
                proof {
                    assert(all@ == old_all + partv);
                    assert forall|s: Solution| #[trigger]
                        all@.contains(s) <==> is_solution(*self, s) && s.i1 < i1 + 1 by {
                        if all@.contains(s) {
                            let t = choose|t: int| 0 <= t < all@.len() && all@[t] == s;
                            if t < old_all.len() {
                                assert(old_all[t] == s);
                                assert(old_all.contains(s));
                            } else {
                                assert(partv[t - old_all.len()] == s);
                            }
                        }
                        if is_solution(*self, s) && s.i1 < i1 + 1 {
                            if s.i1 < i1 {
                                assert(old_all.contains(s));
                                let t = choose|t: int|
                                    0 <= t < old_all.len() && old_all[t] == s;
                                assert(all@[t] == s);
                            } else {
                                assert(partv.contains(s));
                                let t = choose|t: int| 0 <= t < partv.len() && partv[t] == s;
                                assert(all@[old_all.len() + t] == s);
                            }
                        }
                    }
                    assert forall|p: int, q: int|
                        0 <= p < q < all@.len() implies lex_before(
                        #[trigger] all@[p],
                        #[trigger] all@[q],
                    ) by {
                        if p < old_all.len() && q >= old_all.len() {
                            assert(old_all.contains(old_all[p]));
                            assert(all@[p].i1 < i1);
                            assert(all@[q] == partv[q - old_all.len()]);
                        } else if p >= old_all.len() {
                            assert(all@[p] == partv[p - old_all.len()]);
                            assert(all@[q] == partv[q - old_all.len()]);
                        }
                    }
                }
            }
            proof {
                assert forall|s: Solution| is_solution(*self, s) implies all@.contains(s) by {
                    assert(s.i1 < n);
                }
                assert forall|t: int| 0 <= t < all@.len() implies is_solution(
                    *self,
                    #[trigger] all@[t],
                ) by {
                    assert(all@.contains(all@[t]));
                }
                assert forall|p: int, q: int| 0 <= p < q < all@.len() implies all@[p]
                    != all@[q] by {
                    assert(lex_before(all@[p], all@[q]));
                }
            }
            SearchOutcome::Solutions(all)
        }
    }
}

} // verus!
