//! The code assigner and the two mappings it yields: character to byte code
//! and its inverse. Codes are single bytes assigned contiguously from 0,
//! ranked by descending frequency; which of two equally frequent characters
//! comes first is left open.

use vstd::prelude::*;
use crate::alist::{alist_map, distinct_keys, lemma_alist_map_index, lemma_alist_map_dom,
    lemma_alist_map_dom_len};
use crate::errors::CodecError;
use crate::freq::FreqTable;

verus! {

/// The alphabet ceiling: a table with this many distinct characters (or
/// more) is rejected, so every assigned code stays strictly below 254.
pub const MAX_SYMBOLS: usize = 255;

/// A bijective mapping from character to single-byte code, produced by
/// [`build_mapping`]. The code of the pair at index `i` is `i` itself, so
/// codes are contiguous from 0 and no two characters share one.
pub struct CodeMapping {
    pairs: Vec<(char, u8)>,
}

impl View for CodeMapping {
    type V = Map<char, u8>;

    closed spec fn view(&self) -> Map<char, u8> {
        alist_map(self.pairs@)
    }
}

/// The inverse mapping from byte code back to character, derived from a
/// [`CodeMapping`] and consumed by the decoder. The byte of the pair at
/// index `i` is `i` itself.
pub struct ReverseMapping {
    pairs: Vec<(u8, char)>,
}

impl View for ReverseMapping {
    type V = Map<u8, char>;

    closed spec fn view(&self) -> Map<u8, char> {
        alist_map(self.pairs@)
    }
}

/// An injective map sends each bound key to a value from which `invert`
/// leads back to that key.
pub proof fn lemma_invert_entry<K, V>(m: Map<K, V>, k: K)
    requires
        m.is_injective(),
        m.dom().contains(k),
    ensures
        m.invert().dom().contains(m[k]),
        m.invert()[m[k]] == k,
{
    assert(m.contains_pair(k, m[k]));
    assert(m.contains_value(m[k]));
    let j = choose|j: K| m.contains_pair(j, m[k]);
    assert(m[j] == m[k]);
}

/// `invert` sends each of its bound keys back to a key of the original map
/// that maps to it.
pub proof fn lemma_invert_value<K, V>(m: Map<K, V>, v: V)
    requires
        m.invert().dom().contains(v),
    ensures
        m.dom().contains(m.invert()[v]),
        m[m.invert()[v]] == v,
{
    assert(m.contains_value(v));
    let k = choose|i: K| #[trigger] m.dom().contains(i) && m[i] == v;
    assert(m.contains_pair(k, v));
}

/// Bijection law: inverting an injective map twice gives the map back.
pub proof fn lemma_invert_involutive<K, V>(m: Map<K, V>)
    requires
        m.is_injective(),
    ensures
        m.invert().invert() == m,
{
    let mi = m.invert();
    m.lemma_invert_is_injective();
    assert forall|k: K| #[trigger] m.dom().contains(k) implies mi.invert().dom().contains(k)
        && mi.invert()[k] == m[k] by {
        lemma_invert_entry(m, k);
        lemma_invert_entry(mi, m[k]);
    }
    assert forall|k: K| #[trigger] mi.invert().dom().contains(k) implies m.dom().contains(k) by {
        assert(mi.contains_value(k));
        let b = choose|i: V| #[trigger] mi.dom().contains(i) && mi[i] == k;
        assert(m.contains_value(b));
        let c = choose|i: K| #[trigger] m.dom().contains(i) && m[i] == b;
        lemma_invert_entry(m, c);
        assert(mi[b] == c);
    }
    assert(mi.invert() =~= m);
}

impl CodeMapping {
    /// Codes equal their index, the characters are pairwise distinct, and
    /// the mapping stays under the alphabet ceiling.
    pub closed spec fn wf(&self) -> bool {
        &&& self.pairs@.len() < MAX_SYMBOLS as nat
        &&& distinct_keys(self.pairs@)
        &&& forall|i: int|
            0 <= i < self.pairs@.len() ==> (#[trigger] self.pairs@[i]).1 == i as u8
    }

    /// The number of characters the mapping binds.
    pub closed spec fn spec_len(&self) -> nat {
        self.pairs@.len()
    }

    /// A well-formed mapping is a bijection onto the codes `0..spec_len()`.
    pub proof fn lemma_view(&self)
        requires
            self.wf(),
        ensures
            self@.dom().finite(),
            self@.dom().len() == self.spec_len(),
            self@.is_injective(),
            forall|c: char|
                self@.dom().contains(c) ==> (#[trigger] self@[c]) < self.spec_len(),
    {
        lemma_alist_map_dom_len(self.pairs@);
        assert forall|c: char| self@.dom().contains(c) implies (#[trigger] self@[c])
            < self.spec_len() by {
            lemma_alist_map_dom(self.pairs@, c);
            let i = choose|i: int|
                0 <= i < self.pairs@.len() && (#[trigger] self.pairs@[i]).0 == c;
            lemma_alist_map_index(self.pairs@, i);
        }
        assert forall|a: char, b: char|
            a != b && self@.dom().contains(a) && self@.dom().contains(b) implies #[trigger] self@[a]
            != #[trigger] self@[b] by {
            lemma_alist_map_dom(self.pairs@, a);
            lemma_alist_map_dom(self.pairs@, b);
            let i = choose|i: int|
                0 <= i < self.pairs@.len() && (#[trigger] self.pairs@[i]).0 == a;
            let j = choose|j: int|
                0 <= j < self.pairs@.len() && (#[trigger] self.pairs@[j]).0 == b;
            lemma_alist_map_index(self.pairs@, i);
            lemma_alist_map_index(self.pairs@, j);
            assert(i != j);
        }
    }

    /// The number of characters the mapping binds.
    pub fn len(&self) -> (n: usize)
        ensures
            n == self.spec_len(),
    {
        self.pairs.len()
    }

    /// The code assigned to `c`, if `c` is bound.
    pub fn get(&self, c: char) -> (r: Option<u8>)
        requires
            self.wf(),
        ensures
            r is Some <==> self@.dom().contains(c),
            r matches Some(code) ==> code == self@[c],
    {
        let mut k: usize = 0;
        while k < self.pairs.len()
            invariant
                k <= self.pairs@.len(),
                self.wf(),
                forall|j: int| 0 <= j < k ==> (#[trigger] self.pairs@[j]).0 != c,
            decreases self.pairs@.len() - k,
        {
            if self.pairs[k].0 == c {
                proof {
                    lemma_alist_map_index(self.pairs@, k as int);
                }
                return Some(self.pairs[k].1);
            }
            k += 1;
        }
        proof {
            if self@.dom().contains(c) {
                lemma_alist_map_dom(self.pairs@, c);
            }
        }
        None
    }

    /// Derives the byte-to-character mapping: exactly the inverse of this
    /// bijection.
    pub fn reverse(&self) -> (r: ReverseMapping)
        requires
            self.wf(),
        ensures
            r.wf(),
            r.spec_len() == self.spec_len(),
            r@ == self@.invert(),
    {
        let mut rev: Vec<(u8, char)> = Vec::new();
        let n = self.pairs.len();
        let mut i: usize = 0;
        while i < n
            invariant
                i <= n,
                n == self.pairs@.len(),
                self.wf(),
                rev@.len() == i,
                forall|j: int|
                    0 <= j < i ==> (#[trigger] rev@[j]) == (self.pairs@[j].1, self.pairs@[j].0),
            decreases n - i,
        {
            let (c, code) = self.pairs[i];
            rev.push((code, c));
            i += 1;
        }
        let r = ReverseMapping { pairs: rev };
        proof {
            self.lemma_view();
            assert(forall|j: int|
                0 <= j < r.pairs@.len() ==> (#[trigger] r.pairs@[j]).0 == j as u8);
            assert forall|a: int, b: int| 0 <= a < b < r.pairs@.len() implies (
            #[trigger] r.pairs@[a]).1 != (#[trigger] r.pairs@[b]).1 by {
                assert(self.pairs@[a].0 != self.pairs@[b].0);
            }
            assert(r.wf());
            assert forall|b: u8| #[trigger] r@.dom().contains(b) implies self@.invert(
            ).dom().contains(b) && r@[b] == self@.invert()[b] by {
                lemma_alist_map_dom(r.pairs@, b);
                let j = choose|j: int|
                    0 <= j < r.pairs@.len() && (#[trigger] r.pairs@[j]).0 == b;
                lemma_alist_map_index(r.pairs@, j);
                lemma_alist_map_index(self.pairs@, j);
                assert(self@[self.pairs@[j].0] == b);
                lemma_invert_entry(self@, self.pairs@[j].0);
            }
            assert forall|b: u8| #[trigger] self@.invert().dom().contains(b) implies r@.dom(
            ).contains(b) by {
                assert(self@.contains_value(b));
                let c = choose|i: char| #[trigger] self@.dom().contains(i) && self@[i] == b;
                lemma_alist_map_dom(self.pairs@, c);
                let j = choose|j: int|
                    0 <= j < self.pairs@.len() && (#[trigger] self.pairs@[j]).0 == c;
                lemma_alist_map_index(self.pairs@, j);
                assert(r.pairs@[j].0 == b);
            }
            assert(r@ =~= self@.invert());
        }
        r
    }
}

/// Bijection law for code mappings: a valid mapping never sends two
/// distinct characters to the same byte, and deriving the reverse mapping
/// and then deriving its reverse yields the very map one started from.
pub proof fn lemma_reverse_involutive(m: CodeMapping)
    requires
        m.wf(),
    ensures
        m@.is_injective(),
        m@.invert().invert() == m@,
{
    m.lemma_view();
    lemma_invert_involutive(m@);
}

/// Converts a frequency table into a code mapping: the entries are ranked
/// by descending count (equal counts in an unspecified order) and the codes
/// 0, 1, 2, … are assigned in that order, so a strictly more frequent
/// character always receives a strictly smaller code. Fails with
/// `TooManyUniqueSymbols` exactly when the table holds `MAX_SYMBOLS`
/// distinct characters or more.
#[verifier::loop_isolation(false)]
pub fn build_mapping(freq: FreqTable) -> (r: Result<CodeMapping, CodecError>)
    requires
        freq.wf(),
    ensures
        r is Ok <==> freq.spec_len() < MAX_SYMBOLS as nat,
        r is Err ==> r == Err::<CodeMapping, CodecError>(CodecError::TooManyUniqueSymbols),
        r matches Ok(m) ==> {
            &&& m.wf()
            &&& m.spec_len() == freq.spec_len()
            &&& m@.dom() == freq@.dom()
            &&& m@.is_injective()
            &&& forall|a: char, b: char|
                freq@.dom().contains(a) && freq@.dom().contains(b) && freq@[a] > freq@[b]
                    ==> #[trigger] m@[a] < #[trigger] m@[b]
        },
{
    let ghost fview = freq@;
    let ghost flen = freq.spec_len();
    let mut rem: Vec<(char, usize)> = freq.into_pairs();
    if rem.len() >= MAX_SYMBOLS {
        return Err(CodecError::TooManyUniqueSymbols);
    }
    let n = rem.len();
    proof {
        assert forall|j: int|
            0 <= j < rem@.len() implies fview.dom().contains((#[trigger] rem@[j]).0) && fview[
            rem@[j].0] == rem@[j].1 by {
            lemma_alist_map_index(rem@, j);
        }
        assert forall|c: char| #[trigger] fview.dom().contains(c) implies exists|j: int|
            0 <= j < rem@.len() && (#[trigger] rem@[j]).0 == c by {
            lemma_alist_map_dom(rem@, c);
        }
    }
    let mut out: Vec<(char, u8)> = Vec::new();
    while rem.len() > 0
        invariant
            out@.len() + rem@.len() == n,
            distinct_keys(rem@),
            distinct_keys(out@),
            forall|j: int|
                0 <= j < rem@.len() ==> fview.dom().contains((#[trigger] rem@[j]).0) && fview[
                rem@[j].0] == rem@[j].1,
            forall|i: int| 0 <= i < out@.len() ==> fview.dom().contains((#[trigger] out@[i]).0),
            forall|i: int| 0 <= i < out@.len() ==> (#[trigger] out@[i]).1 == i as u8,
            forall|i: int, j: int|
                0 <= i < out@.len() && 0 <= j < rem@.len() ==> (#[trigger] out@[i]).0 != (
                #[trigger] rem@[j]).0,
            forall|c: char| #[trigger]
                fview.dom().contains(c) ==> (exists|i: int|
                    0 <= i < out@.len() && (#[trigger] out@[i]).0 == c) || (exists|j: int|
                    0 <= j < rem@.len() && (#[trigger] rem@[j]).0 == c),
            forall|i: int, j: int|
                0 <= i < j < out@.len() ==> fview[(#[trigger] out@[i]).0] >= fview[(
                #[trigger] out@[j]).0],
            forall|i: int, j: int|
                0 <= i < out@.len() && 0 <= j < rem@.len() ==> fview[(#[trigger] out@[i]).0] >= (
                #[trigger] rem@[j]).1,
        decreases rem@.len(),
    {
        let mut mi: usize = 0;
        let mut k: usize = 1;
        while k < rem.len()
            invariant
                0 < k <= rem@.len(),
                mi < k,
                forall|j: int| 0 <= j < k ==> (#[trigger] rem@[j]).1 <= rem@[mi as int].1,
            decreases rem@.len() - k,
        {
            if rem[k].1 > rem[mi].1 {
                mi = k;
            }
            k += 1;
        }
        let ghost rem0 = rem@;
        let ghost out0 = out@;
        let pair = rem.remove(mi);
        let code = out.len() as u8;
        out.push((pair.0, code));
        proof {
            rem0.remove_ensures(mi as int);
            assert(pair == rem0[mi as int]);
            assert(forall|j: int| 0 <= j < mi ==> rem@[j] == rem0[j]);
            assert(forall|j: int| mi <= j < rem@.len() ==> rem@[j] == rem0[j + 1]);
            assert(forall|i: int| 0 <= i < out0.len() ==> out@[i] == out0[i]);
            assert(out@[out0.len() as int] == (pair.0, code));
            assert forall|c: char| #[trigger] fview.dom().contains(c) implies (exists|i: int|
                0 <= i < out@.len() && (#[trigger] out@[i]).0 == c) || (exists|j: int|
                0 <= j < rem@.len() && (#[trigger] rem@[j]).0 == c) by {
                if exists|i: int| 0 <= i < out0.len() && (#[trigger] out0[i]).0 == c {
                    let i = choose|i: int| 0 <= i < out0.len() && (#[trigger] out0[i]).0 == c;
                    assert(out@[i].0 == c);
                } else {
                    let j = choose|j: int| 0 <= j < rem0.len() && (#[trigger] rem0[j]).0 == c;
                    if j == mi {
                        assert(out@[out0.len() as int].0 == c);
                    } else if j < mi {
                        assert(rem@[j].0 == c);
                    } else {
                        assert(rem@[j - 1].0 == c);
                    }
                }
            }
        }
    }
    let m = CodeMapping { pairs: out };
    proof {
        assert(m.wf());
        assert forall|c: char| #[trigger] m@.dom().contains(c) implies fview.dom().contains(c) by {
            lemma_alist_map_dom(m.pairs@, c);
        }
        assert forall|c: char| #[trigger] fview.dom().contains(c) implies m@.dom().contains(c) by {
            let i = choose|i: int| 0 <= i < m.pairs@.len() && (#[trigger] m.pairs@[i]).0 == c;
            lemma_alist_map_index(m.pairs@, i);
        }
        assert(m@.dom() =~= fview.dom());
        m.lemma_view();
        assert forall|a: char, b: char|
            fview.dom().contains(a) && fview.dom().contains(b) && fview[a] > fview[b] implies
            #[trigger] m@[a] < #[trigger] m@[b] by {
            let i = choose|i: int| 0 <= i < m.pairs@.len() && (#[trigger] m.pairs@[i]).0 == a;
            let j = choose|j: int| 0 <= j < m.pairs@.len() && (#[trigger] m.pairs@[j]).0 == b;
            lemma_alist_map_index(m.pairs@, i);
            lemma_alist_map_index(m.pairs@, j);
            assert(fview[m.pairs@[i].0] == fview[a]);
            assert(i != j);
            if i > j {
                assert(fview[m.pairs@[j].0] >= fview[m.pairs@[i].0]);
                assert(false);
            }
        }
    }
    Ok(m)
}

impl ReverseMapping {
    /// Bytes equal their index, the characters are pairwise distinct, and
    /// the mapping stays under the alphabet ceiling.
    pub closed spec fn wf(&self) -> bool {
        &&& self.pairs@.len() < MAX_SYMBOLS as nat
        &&& forall|i: int|
            0 <= i < self.pairs@.len() ==> (#[trigger] self.pairs@[i]).0 == i as u8
        &&& forall|i: int, j: int|
            0 <= i < j < self.pairs@.len() ==> (#[trigger] self.pairs@[i]).1 != (
            #[trigger] self.pairs@[j]).1
    }

    /// The number of byte codes the mapping binds.
    pub closed spec fn spec_len(&self) -> nat {
        self.pairs@.len()
    }

    /// The keys are distinct because each equals its index.
    proof fn lemma_distinct(&self)
        requires
            self.wf(),
        ensures
            distinct_keys(self.pairs@),
    {
    }

    /// A well-formed reverse mapping is injective and binds exactly the
    /// bytes below `spec_len()`.
    pub proof fn lemma_view(&self)
        requires
            self.wf(),
        ensures
            self@.dom().finite(),
            self@.dom().len() == self.spec_len(),
            self@.is_injective(),
            forall|b: u8| self@.dom().contains(b) <==> b < self.spec_len(),
    {
        self.lemma_distinct();
        lemma_alist_map_dom_len(self.pairs@);
        assert forall|b: u8| self@.dom().contains(b) <==> b < self.spec_len() by {
            if self@.dom().contains(b) {
                lemma_alist_map_dom(self.pairs@, b);
            }
            if b < self.spec_len() {
                assert(self.pairs@[b as int].0 == b);
            }
        }
        assert forall|a: u8, b: u8|
            a != b && self@.dom().contains(a) && self@.dom().contains(b) implies #[trigger] self@[a]
            != #[trigger] self@[b] by {
            lemma_alist_map_index(self.pairs@, a as int);
            lemma_alist_map_index(self.pairs@, b as int);
        }
    }

    /// The number of byte codes the mapping binds.
    pub fn len(&self) -> (n: usize)
        ensures
            n == self.spec_len(),
    {
        self.pairs.len()
    }

    /// The character a byte decodes to, if the byte is bound.
    pub fn get(&self, b: u8) -> (r: Option<char>)
        requires
            self.wf(),
        ensures
            r is Some <==> self@.dom().contains(b),
            r matches Some(c) ==> c == self@[b],
    {
        proof {
            self.lemma_distinct();
            self.lemma_view();
        }
        if (b as usize) < self.pairs.len() {
            proof {
                lemma_alist_map_index(self.pairs@, b as int);
            }
            Some(self.pairs[b as usize].1)
        } else {
            None
        }
    }

    /// Derives the character-to-byte mapping back from the inverse: exactly
    /// the inverse of this injective mapping.
    pub fn reverse(&self) -> (r: CodeMapping)
        requires
            self.wf(),
        ensures
            r.wf(),
            r.spec_len() == self.spec_len(),
            r@ == self@.invert(),
    {
        let mut fwd: Vec<(char, u8)> = Vec::new();
        let n = self.pairs.len();
        let mut i: usize = 0;
        while i < n
            invariant
                i <= n,
                n == self.pairs@.len(),
                self.wf(),
                fwd@.len() == i,
                forall|j: int|
                    0 <= j < i ==> (#[trigger] fwd@[j]) == (self.pairs@[j].1, self.pairs@[j].0),
            decreases n - i,
        {
            let (code, c) = self.pairs[i];
            fwd.push((c, code));
            i += 1;
        }
        let r = CodeMapping { pairs: fwd };
        proof {
            self.lemma_distinct();
            self.lemma_view();
            assert(forall|j: int|
                0 <= j < r.pairs@.len() ==> (#[trigger] r.pairs@[j]).1 == j as u8);
            assert(distinct_keys(r.pairs@));
            assert(r.wf());
            assert forall|c: char| #[trigger] r@.dom().contains(c) implies self@.invert(
            ).dom().contains(c) && r@[c] == self@.invert()[c] by {
                lemma_alist_map_dom(r.pairs@, c);
                let j = choose|j: int|
                    0 <= j < r.pairs@.len() && (#[trigger] r.pairs@[j]).0 == c;
                lemma_alist_map_index(r.pairs@, j);
                lemma_alist_map_index(self.pairs@, j);
                assert(self@[j as u8] == c);
                lemma_invert_entry(self@, j as u8);
            }
            assert forall|c: char| #[trigger] self@.invert().dom().contains(c) implies r@.dom(
            ).contains(c) by {
                assert(self@.contains_value(c));
                let b = choose|i: u8| #[trigger] self@.dom().contains(i) && self@[i] == c;
                lemma_alist_map_dom(self.pairs@, b);
                let j = choose|j: int|
                    0 <= j < self.pairs@.len() && (#[trigger] self.pairs@[j]).0 == b;
                lemma_alist_map_index(self.pairs@, j);
                assert(r.pairs@[j].0 == c);
            }
            assert(r@ =~= self@.invert());
        }
        r
    }
}

} // verus!
