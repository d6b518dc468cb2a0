//! The letter-set abstraction: a word is reduced to a 26-bit signature, one
//! bit per letter of the English alphabet, together with the surface strings
//! that produced it.

use vstd::prelude::*;
use vstd::std_specs::iter::IteratorSpec;
use vstd::string::StringExecFns;

verus! {

broadcast use vstd::string::group_string_axioms;

/// Why a raw string was rejected during word validation.
#[derive(Clone, Copy, Debug, PartialEq, Eq, Structural)]
pub enum ValidationError {
    /// The string contains a character outside `A-Za-z`.
    UnrecognizedCharacter,
    /// The string uses the same letter twice (case-insensitively).
    DuplicateLetter,
    /// The string does not resolve to exactly five distinct letters.
    WrongLength,
}

/// The letter index (0 for `a`/`A` through 25 for `z`/`Z`) of a character,
/// or `None` for characters outside `A-Za-z`.
pub open spec fn letter_index_spec(c: char) -> Option<int> {
    if 'a' as int <= c as int <= 'z' as int {
        Some(c as int - 'a' as int)
    } else if 'A' as int <= c as int <= 'Z' as int {
        Some(c as int - 'A' as int)
    } else {
        None
    }
}

/// Number of set bits of `m` among the `n` lowest bits.
pub open spec fn popcount_upto(m: u32, n: int) -> int
    decreases n,
{
    if n <= 0 {
        0
    } else {
        popcount_upto(m, n - 1) + (if (m >> ((n - 1) as u32)) & 1u32 == 1u32 {
            1int
        } else {
            0int
        })
    }
}

/// Number of set bits of `m`: the size of the letter set `m` stands for.
pub open spec fn popcount(m: u32) -> int {
    popcount_upto(m, 32)
}

/// The outcome of validating the character sequence `s` against an
/// accumulating letter set `mask` holding `count` letters so far: the first
/// failure in scan order wins, and a sixth distinct letter is rejected as
/// soon as it appears.
pub open spec fn scan_letters(s: Seq<char>, mask: u32, count: int) -> Result<u32, ValidationError>
    decreases s.len(),
{
    if s.len() == 0 {
        if count == 5 {
            Ok(mask)
        } else {
            Err(ValidationError::WrongLength)
        }
    } else {
        match letter_index_spec(s[0]) {
            None => Err(ValidationError::UnrecognizedCharacter),
            Some(idx) => {
                let bit = 1u32 << (idx as u32);
                if mask & bit != 0 {
                    Err(ValidationError::DuplicateLetter)
                } else if count >= 5 {
                    Err(ValidationError::WrongLength)
                } else {
                    scan_letters(s.drop_first(), mask | bit, count + 1)
                }
            },
        }
    }
}

/// The canonical validation of a raw word: either its 26-bit letter signature
/// or the error that rejects it.
pub open spec fn word_scan(s: Seq<char>) -> Result<u32, ValidationError> {
    scan_letters(s, 0, 0)
}

/// Maps a character to its letter index 0-25, case-insensitively; characters
/// outside `A-Za-z` have no mapping.
pub fn get_letter_index(letter: char) -> (r: Option<usize>)
    ensures
        match r {
            Some(i) => letter_index_spec(letter) == Some(i as int) && i < 26,
            None => letter_index_spec(letter) is None,
        },
{
    let code = letter as u32;
    if 97 <= code && code <= 122 {
        Some((code - 97) as usize)
    } else if 65 <= code && code <= 90 {
        Some((code - 65) as usize)
    } else {
        None
    }
}

/// The lower-case character carrying a letter index; inverse of
/// `get_letter_index` on indices 0-25.
pub fn get_letter(index: usize) -> (r: char)
    requires
        index < 26,
    ensures
        r as int == 'a' as int + index,
        letter_index_spec(r) == Some(index as int),
{
    (97 + index as u8) as char
}

/// Whether two letter signatures have no letter in common.
pub open spec fn disjoint_masks(a: u32, b: u32) -> bool {
    a & b == 0
}

/// Law: the union of letter signatures is commutative.
pub proof fn lemma_union_commutative(a: u32, b: u32)
    ensures
        (a | b) == (b | a),
{
    assert((a | b) == (b | a)) by (bit_vector);
}

/// Law: the disjointness test is symmetric.
pub proof fn lemma_disjoint_symmetric(a: u32, b: u32)
    ensures
        disjoint_masks(a, b) == disjoint_masks(b, a),
{
    assert((a & b == 0) == (b & a == 0)) by (bit_vector);
}

/// A signature is disjoint from a union exactly when it is disjoint from
/// both parts: the ground of the search's incremental pruning.
pub proof fn lemma_union_disjoint(a: u32, b: u32, c: u32)
    ensures
        disjoint_masks(a | b, c) <==> (disjoint_masks(a, c) && disjoint_masks(b, c)),
{
    assert(((a | b) & c == 0) == ((a & c == 0) && (b & c == 0))) by (bit_vector);
}

/// Bit-by-bit induction behind `lemma_popcount_disjoint_union`: a bit of the
/// union of two disjoint masks is set in exactly one of them.
proof fn lemma_popcount_upto_disjoint(a: u32, b: u32, n: int)
    requires
        a & b == 0,
        0 <= n <= 32,
    ensures
        popcount_upto(a | b, n) == popcount_upto(a, n) + popcount_upto(b, n),
    decreases n,
{
    if n > 0 {
        lemma_popcount_upto_disjoint(a, b, n - 1);
        let k = (n - 1) as u32;
        assert((((a | b) >> k) & 1u32 == 1u32) == (((a >> k) & 1u32 == 1u32) || ((b >> k) & 1u32
            == 1u32))) by (bit_vector);
        assert(!(((a >> k) & 1u32 == 1u32) && ((b >> k) & 1u32 == 1u32))) by (bit_vector)
            requires
                a & b == 0u32,
        ;
    }
}

/// Law: disjoint signatures contribute their letter counts additively to
/// their union.
pub proof fn lemma_popcount_disjoint_union(a: u32, b: u32)
    requires
        disjoint_masks(a, b),
    ensures
        popcount(a | b) == popcount(a) + popcount(b),
{
    lemma_popcount_upto_disjoint(a, b, 32);
}

/// A single set bit raised to a 26-bit mask keeps the mask within 26 bits and
/// raises its population count by one.
proof fn lemma_popcount_or_bit(m: u32, idx: u32)
    requires
        idx < 26,
        m & (1u32 << idx) == 0,
    ensures
        popcount(m | (1u32 << idx)) == popcount(m) + 1,
        m < 0x4000000 ==> (m | (1u32 << idx)) < 0x4000000,
{
    assert(popcount_upto(m | (1u32 << idx), 32) == popcount_upto(m, 32) + 1 && (m < 0x4000000
        ==> (m | (1u32 << idx)) < 0x4000000)) by (bit_vector)
        requires
            idx < 26,
            m & (1u32 << idx) == 0,
    ;
}

/// A successful scan that started from a mask of `count` bits inside the
/// 26-bit range ends with exactly five bits, still inside the 26-bit range.
proof fn lemma_scan_ok_bits(s: Seq<char>, mask: u32, count: int)
    requires
        0 <= count,
        popcount(mask) == count,
        mask < 0x4000000,
        scan_letters(s, mask, count) is Ok,
    ensures
        popcount(scan_letters(s, mask, count)->Ok_0) == 5,
        scan_letters(s, mask, count)->Ok_0 < 0x4000000,
    decreases s.len(),
{
    if s.len() == 0 {
    } else {
        match letter_index_spec(s[0]) {
            None => {},
            Some(idx) => {
                let bit = 1u32 << (idx as u32);
                if mask & bit != 0 {
                } else if count >= 5 {
                } else {
                    lemma_popcount_or_bit(mask, idx as u32);
                    lemma_scan_ok_bits(s.drop_first(), mask | bit, count + 1);
                }
            },
        }
    }
}

/// Whether a character maps to a letter.
pub open spec fn recognized(c: char) -> bool {
    letter_index_spec(c) is Some
}

/// The single-bit mask of a recognized character's letter.
pub open spec fn letter_bit(c: char) -> u32 {
    1u32 << (letter_index_spec(c)->0 as u32)
}

/// Distinct letters occupy distinct bits: raising one letter's bit cannot
/// make the mask hit another letter's bit.
proof fn lemma_extend_mask_misses(m: u32, a: u32, b: u32)
    requires
        a < 26,
        b < 26,
        a != b,
        m & (1u32 << b) == 0,
    ensures
        (m | (1u32 << a)) & (1u32 << b) == 0,
{
    assert((m | (1u32 << a)) & (1u32 << b) == 0) by (bit_vector)
        requires
            a < 26,
            b < 26,
            a != b,
            m & (1u32 << b) == 0,
    ;
}

/// A bit already hit stays hit when more bits are raised, and a raised bit
/// is hit.
proof fn lemma_or_keeps_hits(m: u32, a: u32, b: u32)
    requires
        a < 26,
        b < 26,
    ensures
        m & (1u32 << b) != 0 ==> (m | (1u32 << a)) & (1u32 << b) != 0,
        (m | (1u32 << a)) & (1u32 << a) != 0,
{
    assert((m & (1u32 << b) != 0 ==> (m | (1u32 << a)) & (1u32 << b) != 0) && ((m | (1u32 << a)) & (
    1u32 << a) != 0)) by (bit_vector)
        requires
            a < 26,
            b < 26,
    ;
}

/// Scanning a run of recognized, pairwise distinct letters that are all new
/// to the mask either completes with exactly five letters or fails as
/// `WrongLength`, depending only on how many letters there are in all.
proof fn lemma_scan_all_distinct(s: Seq<char>, mask: u32, count: int)
    requires
        0 <= count <= 5,
        forall|p: int| 0 <= p < s.len() ==> recognized(#[trigger] s[p]),
        forall|p: int, q: int|
            0 <= p < q < s.len() ==> letter_index_spec(s[p]) != letter_index_spec(s[q]),
        forall|p: int| 0 <= p < s.len() ==> mask & letter_bit(#[trigger] s[p]) == 0,
    ensures
        count + s.len() == 5 ==> scan_letters(s, mask, count) is Ok,
        count + s.len() != 5 ==> scan_letters(s, mask, count) == Err::<u32, ValidationError>(
            ValidationError::WrongLength,
        ),
    decreases s.len(),
{
    if s.len() > 0 {
        let c = s[0];
        let idx = letter_index_spec(c)->0;
        assert(0 <= idx < 26);
        if count < 5 {
            let t = s.drop_first();
            assert forall|p: int| 0 <= p < t.len() implies (mask | letter_bit(c)) & letter_bit(
                #[trigger] t[p],
            ) == 0 by {
                assert(t[p] == s[p + 1]);
                assert(letter_index_spec(s[0]) != letter_index_spec(s[p + 1]));
                lemma_extend_mask_misses(
                    mask,
                    idx as u32,
                    letter_index_spec(t[p])->0 as u32,
                );
            }
            lemma_scan_all_distinct(t, mask | letter_bit(c), count + 1);
        }
    }
}

/// Scanning a string whose position `i` holds the first unrecognized
/// character fails as `UnrecognizedCharacter`, as long as no duplicate and
/// no sixth letter comes before it.
proof fn lemma_scan_hits_unrecognized(s: Seq<char>, mask: u32, count: int, i: int)
    requires
        0 <= i < s.len(),
        0 <= count,
        count + i <= 5,
        !recognized(s[i]),
        forall|p: int| 0 <= p < i ==> recognized(#[trigger] s[p]),
        forall|p: int, q: int| 0 <= p < q < i ==> letter_index_spec(s[p]) != letter_index_spec(s[q]),
        forall|p: int| 0 <= p < i ==> mask & letter_bit(#[trigger] s[p]) == 0,
    ensures
        scan_letters(s, mask, count) == Err::<u32, ValidationError>(
            ValidationError::UnrecognizedCharacter,
        ),
    decreases i,
{
    if i > 0 {
        let c = s[0];
        let idx = letter_index_spec(c)->0;
        assert(0 <= idx < 26);
        let t = s.drop_first();
        assert(!recognized(t[i - 1]));
        assert forall|p: int| 0 <= p < i - 1 implies (mask | letter_bit(c)) & letter_bit(
            #[trigger] t[p],
        ) == 0 by {
            assert(t[p] == s[p + 1]);
            assert(letter_index_spec(s[0]) != letter_index_spec(s[p + 1]));
            lemma_extend_mask_misses(mask, idx as u32, letter_index_spec(t[p])->0 as u32);
        }
        lemma_scan_hits_unrecognized(t, mask | letter_bit(c), count + 1, i - 1);
    }
}

/// Scanning a string whose position `q` holds the first reused letter fails
/// as `DuplicateLetter`: the reused letter is either already in the mask or
/// repeats an earlier position, and nothing fails before it.
proof fn lemma_scan_hits_repeat(s: Seq<char>, mask: u32, count: int, q: int)
    requires
        0 <= q < s.len(),
        0 <= count,
        count + q <= 5,
        forall|p: int| 0 <= p <= q ==> recognized(#[trigger] s[p]),
        forall|p1: int, p2: int|
            0 <= p1 < p2 < q ==> letter_index_spec(s[p1]) != letter_index_spec(s[p2]),
        forall|p: int| 0 <= p < q ==> mask & letter_bit(#[trigger] s[p]) == 0,
        mask & letter_bit(s[q]) != 0 || exists|p: int|
            0 <= p < q && letter_index_spec(#[trigger] s[p]) == letter_index_spec(s[q]),
    ensures
        scan_letters(s, mask, count) == Err::<u32, ValidationError>(ValidationError::DuplicateLetter),
    decreases q,
{
    if q == 0 {
        assert(mask & letter_bit(s[0]) != 0);
    } else {
        let c = s[0];
        let idx = letter_index_spec(c)->0;
        assert(0 <= idx < 26);
        let t = s.drop_first();
        let mask2 = mask | letter_bit(c);
        assert forall|p: int| 0 <= p < q - 1 implies mask2 & letter_bit(#[trigger] t[p]) == 0 by {
            assert(t[p] == s[p + 1]);
            assert(letter_index_spec(s[0]) != letter_index_spec(s[p + 1]));
            lemma_extend_mask_misses(mask, idx as u32, letter_index_spec(t[p])->0 as u32);
        }
        let qidx = letter_index_spec(s[q])->0;
        assert(0 <= qidx < 26);
        assert(t[q - 1] == s[q]);
        if mask & letter_bit(s[q]) != 0 {
            lemma_or_keeps_hits(mask, idx as u32, qidx as u32);
            assert(mask2 & letter_bit(t[q - 1]) != 0);
        } else {
            let p = choose|p: int|
                0 <= p < q && letter_index_spec(#[trigger] s[p]) == letter_index_spec(s[q]);
            if p == 0 {
                lemma_or_keeps_hits(mask, idx as u32, qidx as u32);
                assert(mask2 & letter_bit(t[q - 1]) != 0);
            } else {
                assert(letter_index_spec(t[p - 1]) == letter_index_spec(t[q - 1]));
            }
        }
        lemma_scan_hits_repeat(t, mask2, count + 1, q - 1);
    }
}

/// Nothing is in the empty letter set.
proof fn lemma_empty_mask_hits_nothing()
    ensures
        forall|b: u32| 0u32 & b == 0u32,
{
    assert(forall|b: u32| 0u32 & b == 0u32) by (bit_vector);
}

/// Law: a raw string is rejected as `UnrecognizedCharacter` when its first
/// validation failure is a character outside `A-Za-z`: before position `i`
/// every character is a recognized letter, no letter repeats, and at most
/// five letters have been read.
pub proof fn lemma_unrecognized_character_rejected(s: Seq<char>, i: int)
    requires
        0 <= i < s.len(),
        i <= 5,
        !recognized(s[i]),
        forall|p: int| 0 <= p < i ==> recognized(#[trigger] s[p]),
        forall|p: int, q: int| 0 <= p < q < i ==> letter_index_spec(s[p]) != letter_index_spec(s[q]),
    ensures
        word_scan(s) == Err::<u32, ValidationError>(ValidationError::UnrecognizedCharacter),
{
    lemma_empty_mask_hits_nothing();
    lemma_scan_hits_unrecognized(s, 0, 0, i);
}

/// Law: a raw string is rejected as `DuplicateLetter` when its first
/// validation failure is a reused letter at position `q`: everything up to
/// and including `q` is a recognized letter, positions before `q` are
/// pairwise distinct, at most five letters come before, and some earlier
/// position carries the same letter as `q`.
pub proof fn lemma_duplicate_letter_rejected(s: Seq<char>, q: int)
    requires
        0 <= q < s.len(),
        q <= 5,
        forall|p: int| 0 <= p <= q ==> recognized(#[trigger] s[p]),
        forall|p1: int, p2: int|
            0 <= p1 < p2 < q ==> letter_index_spec(s[p1]) != letter_index_spec(s[p2]),
        exists|p: int| 0 <= p < q && letter_index_spec(#[trigger] s[p]) == letter_index_spec(s[q]),
    ensures
        word_scan(s) == Err::<u32, ValidationError>(ValidationError::DuplicateLetter),
{
    lemma_empty_mask_hits_nothing();
    lemma_scan_hits_repeat(s, 0, 0, q);
}

/// Law: a raw string of recognized, pairwise distinct letters is rejected
/// as `WrongLength` exactly when it does not hold five of them.
pub proof fn lemma_wrong_length_rejected(s: Seq<char>)
    requires
        s.len() != 5,
        forall|p: int| 0 <= p < s.len() ==> recognized(#[trigger] s[p]),
        forall|p: int, q: int|
            0 <= p < q < s.len() ==> letter_index_spec(s[p]) != letter_index_spec(s[q]),
    ensures
        word_scan(s) == Err::<u32, ValidationError>(ValidationError::WrongLength),
{
    lemma_empty_mask_hits_nothing();
    lemma_scan_all_distinct(s, 0, 0);
}

/// Law: validation owes success on exactly the strings of five recognized,
/// pairwise distinct letters.
pub proof fn lemma_valid_word_accepted(s: Seq<char>)
    requires
        s.len() == 5,
        forall|p: int| 0 <= p < s.len() ==> recognized(#[trigger] s[p]),
        forall|p: int, q: int|
            0 <= p < q < s.len() ==> letter_index_spec(s[p]) != letter_index_spec(s[q]),
    ensures
        word_scan(s) is Ok,
{
    lemma_empty_mask_hits_nothing();
    lemma_scan_all_distinct(s, 0, 0);
}

/// A word reduced to its letter signature: bit `i` of `letters` is set iff
/// letter `i` occurs in the word, and `string` holds every original surface
/// spelling that produced this signature.
#[derive(Debug)]
pub struct Word {
    string: Vec<String>,
    letters: u32,
}

/// The surface strings of `ss` joined with a comma-space separator.
pub open spec fn join_surfaces(ss: Seq<Seq<char>>) -> Seq<char>
    decreases ss.len(),
{
    if ss.len() == 0 {
        Seq::empty()
    } else if ss.len() == 1 {
        ss[0]
    } else {
        join_surfaces(ss.drop_last()) + ", "@ + ss.last()
    }
}

impl Word {
    /// The 26-bit letter signature of this word.
    pub closed spec fn mask(self) -> u32 {
        self.letters
    }

    /// The surface spellings collected for this signature, in insertion
    /// order.
    pub closed spec fn surfaces(self) -> Seq<Seq<char>> {
        self.string.deep_view()
    }

    /// A word with the given letter signature and no surface spelling.
    pub fn from_letters(l: u32) -> (w: Self)
        ensures
            w.mask() == l,
            w.surfaces() == Seq::<Seq<char>>::empty(),
    {
        let w = Word { string: Vec::new(), letters: l };
        proof {
            assert(w.surfaces() =~= Seq::<Seq<char>>::empty());
        }
        w
    }

    /// Validates a raw string: resolves each character to a letter
    /// case-insensitively, rejects a reused letter at once, rejects a sixth
    /// distinct letter at once, and rejects any other length at the end.
    /// On success the word carries the raw string as its only surface form.
    pub fn try_build(raw: String) -> (r: Result<Self, ValidationError>)
        ensures
            match r {
                Ok(w) => {
                    &&& word_scan(raw@) == Ok::<u32, ValidationError>(w.mask())
                    &&& w.surfaces() == seq![raw@]
                    &&& popcount(w.mask()) == 5
                    &&& w.mask() < 0x4000000
                },
                Err(e) => word_scan(raw@) == Err::<u32, ValidationError>(e),
            },
    {
        let mut mask: u32 = 0;
        let mut count: usize = 0;
        proof {
            assert(popcount_upto(0u32, 32) == 0) by (bit_vector);
        }
        let mut it = raw.as_str().chars();
        loop
            invariant
                scan_letters(it.remaining(), mask, count as int) == word_scan(raw@),
                popcount(mask) == count as int,
                mask < 0x4000000,
                count <= 5,
                it.decrease() is Some,
            ensures
                it.remaining().len() == 0,
                scan_letters(it.remaining(), mask, count as int) == word_scan(raw@),
                count == 5 ==> word_scan(raw@) == Ok::<u32, ValidationError>(mask),
                count < 5 ==> word_scan(raw@) == Err::<u32, ValidationError>(
                    ValidationError::WrongLength,
                ),
                popcount(mask) == count as int,
                mask < 0x4000000,
                count <= 5,
            decreases it.decrease()->0,
        {
            let ghost prev = it.remaining();
            match it.next() {
                None => {
                    break ;
                },
                Some(c) => {
                    assert(prev.len() > 0 && c == prev[0] && it.remaining() == prev.drop_first());
                    match get_letter_index(c) {
                        None => {
                            return Err(ValidationError::UnrecognizedCharacter);
                        },
                        Some(idx) => {
                            let bit: u32 = 1u32 << (idx as u32);
                            if mask & bit != 0 {
                                return Err(ValidationError::DuplicateLetter);
                            }
                            if count >= 5 {
                                return Err(ValidationError::WrongLength);
                            }
                            proof {
                                lemma_popcount_or_bit(mask, idx as u32);
                            }
                            mask = mask | bit;
                            count = count + 1;
                        },
                    }
                },
            }
        }
        if count < 5 {
            return Err(ValidationError::WrongLength);
        }
        let w = Word { string: vec![raw], letters: mask };
        proof {
            assert(w.surfaces() =~= seq![raw@]);
        }
        Ok(w)
    }

    /// Validates a raw string as `try_build` does, dropping the reason for a
    /// rejection.
    pub fn from_string(str: String) -> (r: Option<Self>)
        ensures
            match word_scan(str@) {
                Ok(m) => {
                    &&& r is Some
                    &&& r->0.mask() == m
                    &&& r->0.surfaces() == seq![str@]
                    &&& popcount(m) == 5
                },
                Err(_) => r is None,
            },
    {
        match Self::try_build(str) {
            Ok(w) => Some(w),
            Err(_) => None,
        }
    }

    /// Records one more surface spelling for this letter signature.
    pub fn add_str(&mut self, str: String)
        ensures
            final(self).mask() == old(self).mask(),
            final(self).surfaces() == old(self).surfaces().push(str@),
    {
        let ghost olds = self.string.deep_view();
        let ghost strv = str@;
        self.string.push(str);
        proof {
            assert(self.string.deep_view() =~= olds.push(strv));
        }
    }

    /// The raw letter signature, as the 26-bit mask itself.
    pub fn letters(&self) -> (l: u32)
        ensures
            l == self.mask(),
    {
        self.letters
    }

    /// A copy of this word's letter signature without its surface spellings.
    pub fn clone_letters(&self) -> (w: Self)
        ensures
            w.mask() == self.mask(),
            w.surfaces() == Seq::<Seq<char>>::empty(),
    {
        let w = Word { string: Vec::new(), letters: self.letters };
        proof {
            assert(w.surfaces() =~= Seq::<Seq<char>>::empty());
        }
        w
    }

    /// How many letters the two signatures have in common.
    pub fn num_shared_letters(&self, other: &Self) -> (c: u8)
        ensures
            c as int == popcount(self.mask() & other.mask()),
    {
        popcount_u32(self.letters & other.letters)
    }

    /// Whether the two signatures share at least one letter.
    pub fn shares_letters(&self, other: &Self) -> (r: bool)
        ensures
            r == ((self.mask() & other.mask()) != 0),
    {
        (self.letters & other.letters) != 0
    }

    /// Whether the two signatures have no letter in common.
    pub fn disjoint(&self, other: &Self) -> (r: bool)
        ensures
            r == ((self.mask() & other.mask()) == 0),
    {
        (self.letters & other.letters) == 0
    }

    /// The union of the two letter signatures, without surface spellings.
    pub fn combine_letters(&self, other: &Self) -> (w: Self)
        ensures
            w.mask() == (self.mask() | other.mask()),
            w.surfaces() == Seq::<Seq<char>>::empty(),
    {
        let w = Word { string: Vec::new(), letters: self.letters | other.letters };
        proof {
            assert(w.surfaces() =~= Seq::<Seq<char>>::empty());
        }
        w
    }

    /// How many letters this signature uses.
    pub fn bit_count(&self) -> (c: u8)
        ensures
            c as int == popcount(self.mask()),
    {
        popcount_u32(self.letters)
    }

    /// How many surface spellings this word carries.
    pub fn surface_count(&self) -> (n: usize)
        ensures
            n == self.surfaces().len(),
    {
        self.string.len()
    }

    /// The surface spelling at position `i`, in insertion order.
    pub fn surface_at(&self, i: usize) -> (s: &String)
        requires
            i < self.surfaces().len(),
        ensures
            s@ == self.surfaces()[i as int],
    {
        &self.string[i]
    }

    /// All surface spellings joined with a comma-space separator, for
    /// display.
    pub fn surface_line(&self) -> (r: String)
        ensures
            r@ == join_surfaces(self.surfaces()),
    {
        let mut out = String::new();
        let n = self.string.len();
        for i in 0..n
            invariant
                n == self.surfaces().len(),
                out@ == join_surfaces(self.surfaces().take(i as int)),
        {
            if i > 0 {
                out.append(", ");
            }
            out.append(self.string[i].as_str());
            proof {
                let ss = self.surfaces();
                assert(ss.take(i + 1).drop_last() =~= ss.take(i as int));
                assert(ss.take(i + 1).last() == ss[i as int]);
                if i == 0 {
                    assert(out@ =~= join_surfaces(ss.take(1)));
                } else {
                    assert(out@ =~= join_surfaces(ss.take(i + 1)));
                }
            }
        }
        proof {
            assert(self.surfaces().take(self.surfaces().len() as int) =~= self.surfaces());
        }
        out
    }
}

/// Counts the set bits of a 26-bit (or any 32-bit) mask.
fn popcount_u32(m: u32) -> (c: u8)
    ensures
        c as int == popcount(m),
{
    let mut c: u8 = 0;
    for i in 0..32u32
        invariant
            c as int == popcount_upto(m, i as int),
            c <= i,
    {
        if (m >> i) & 1 == 1 {
            c = c + 1;
        }
    }
    c
}

impl Clone for Word {
    /// A clone keeps both the letter signature and the surface spellings.
    fn clone(&self) -> (r: Self)
        ensures
            r.mask() == self.mask(),
            r.surfaces() == self.surfaces(),
    {
        let r = Word { string: self.string.clone(), letters: self.letters };
        proof {
            assert forall|i: int| 0 <= i < self.string@.len() implies r.string@[i]@
                == self.string@[i]@ by {
                assert(cloned::<String>(self.string@[i], r.string@[i]));
            }
            assert(r.surfaces() =~= self.surfaces());
        }
        r
    }
}

impl PartialEq for Word {
    /// Two words are equal exactly when their letter signatures are equal;
    /// surface spellings do not take part.
    fn eq(&self, other: &Self) -> bool {
        self.letters == other.letters
    }
}

impl Eq for Word {}

impl vstd::std_specs::cmp::PartialEqSpecImpl for Word {
    open spec fn obeys_eq_spec() -> bool {
        true
    }

    open spec fn eq_spec(&self, other: &Word) -> bool {
        self.mask() == other.mask()
    }
}

} // verus!
