//! The frequency counter: scans a text and produces a table mapping each
//! distinct character to the number of times it occurs.

use vstd::prelude::*;
use crate::alist::{alist_map, distinct_keys, lemma_alist_map_index, lemma_alist_map_dom,
    lemma_alist_map_dom_len};

verus! {

/// How often `c` occurs in `s`.
pub open spec fn count_of(s: Seq<char>, c: char) -> nat
    decreases s.len(),
{
    if s.len() == 0 {
        0
    } else {
        count_of(s.drop_last(), c) + (if s.last() == c {
            1nat
        } else {
            0nat
        })
    }
}

/// The frequency table of `s` as a map: each character that occurs in `s`
/// is bound to its occurrence count.
pub open spec fn freq_spec(s: Seq<char>) -> Map<char, usize> {
    Map::new(|c: char| s.contains(c), |c: char| count_of(s, c) as usize)
}

/// A table from character to occurrence count, built once by
/// [`build_freq_table`] and consumed by the code assigner.
pub struct FreqTable {
    pairs: Vec<(char, usize)>,
}

impl View for FreqTable {
    type V = Map<char, usize>;

    closed spec fn view(&self) -> Map<char, usize> {
        alist_map(self.pairs@)
    }
}

impl FreqTable {
    /// Each character is listed at most once.
    pub closed spec fn wf(&self) -> bool {
        distinct_keys(self.pairs@)
    }

    /// The number of distinct characters in the table.
    pub closed spec fn spec_len(&self) -> nat {
        self.pairs@.len()
    }

    /// Hands the table's entries over to the code assigner.
    pub(crate) fn into_pairs(self) -> (r: Vec<(char, usize)>)
        requires
            self.wf(),
        ensures
            distinct_keys(r@),
            alist_map(r@) == self@,
            r@.len() == self.spec_len(),
    {
        self.pairs
    }

    /// A well-formed table binds exactly `spec_len()` characters.
    pub proof fn lemma_dom_len(&self)
        requires
            self.wf(),
        ensures
            self@.dom().finite(),
            self@.dom().len() == self.spec_len(),
    {
        lemma_alist_map_dom_len(self.pairs@);
    }

    /// The number of distinct characters in the table.
    pub fn len(&self) -> (n: usize)
        ensures
            n == self.spec_len(),
    {
        self.pairs.len()
    }

    /// The occurrence count recorded for `c`, if `c` occurs at all.
    pub fn get(&self, c: char) -> (r: Option<usize>)
        requires
            self.wf(),
        ensures
            r is Some <==> self@.dom().contains(c),
            r matches Some(cnt) ==> cnt == self@[c],
    {
        match find_key(&self.pairs, c) {
            Some(k) => {
                proof {
                    lemma_alist_map_index(self.pairs@, k as int);
                }
                Some(self.pairs[k].1)
            },
            None => {
                proof {
                    if self@.dom().contains(c) {
                        lemma_alist_map_dom(self.pairs@, c);
                    }
                }
                None
            },
        }
    }
}

/// A character's occurrence count never exceeds the length of the text.
proof fn lemma_count_le_len(s: Seq<char>, c: char)
    ensures
        count_of(s, c) <= s.len(),
    decreases s.len(),
{
    if s.len() > 0 {
        lemma_count_le_len(s.drop_last(), c);
    }
}

/// A character occurs in a sequence exactly when its count is positive.
proof fn lemma_count_positive(s: Seq<char>, c: char)
    ensures
        s.contains(c) <==> count_of(s, c) > 0,
    decreases s.len(),
{
    if s.len() > 0 {
        lemma_count_positive(s.drop_last(), c);
        if s.last() == c {
            assert(s[s.len() - 1] == c);
        } else {
            assert(s.contains(c) <==> s.drop_last().contains(c)) by {
                if s.contains(c) {
                    let i = choose|i: int| 0 <= i < s.len() && s[i] == c;
                    assert(s.drop_last()[i] == c);
                }
                if s.drop_last().contains(c) {
                    let i = choose|i: int|
                        0 <= i < s.drop_last().len() && s.drop_last()[i] == c;
                    assert(s[i] == c);
                }
            }
        }
    }
}

/// Appending one occurrence of `c` raises the count of `c` by one and
/// leaves every other count unchanged.
proof fn lemma_count_push(s: Seq<char>, c: char, d: char)
    ensures
        count_of(s.push(c), d) == count_of(s, d) + (if d == c {
            1nat
        } else {
            0nat
        }),
{
    assert(s.push(c).drop_last() =~= s);
    assert(s.push(c).last() == c);
}

/// One counting step where `c` already has an entry: bumping that entry
/// tracks the frequency map of the text extended by `c`.
proof fn lemma_update_step(p0: Seq<(char, usize)>, k: int, prefix: Seq<char>, c: char, cnt: usize)
    requires
        distinct_keys(p0),
        0 <= k < p0.len(),
        p0[k] == (c, cnt),
        alist_map(p0) == freq_spec(prefix),
        cnt < usize::MAX,
        prefix.len() < usize::MAX,
    ensures
        distinct_keys(p0.update(k, (c, (cnt + 1) as usize))),
        alist_map(p0.update(k, (c, (cnt + 1) as usize))) == freq_spec(prefix.push(c)),
{
    let p1 = p0.update(k, (c, (cnt + 1) as usize));
    let prefix1 = prefix.push(c);
    assert(forall|j: int| 0 <= j < p1.len() ==> (#[trigger] p1[j]).0 == p0[j].0);
    assert(distinct_keys(p1));
    lemma_alist_map_index(p0, k);
    assert(prefix.contains(c));
    lemma_count_le_len(prefix, c);
    assert(cnt == count_of(prefix, c));
    assert forall|d: char| #[trigger] alist_map(p1).dom().contains(d) implies freq_spec(
        prefix1,
    ).dom().contains(d) && alist_map(p1)[d] == freq_spec(prefix1)[d] by {
        lemma_alist_map_dom(p1, d);
        let j = choose|j: int| 0 <= j < p1.len() && (#[trigger] p1[j]).0 == d;
        lemma_alist_map_index(p1, j);
        lemma_count_push(prefix, c, d);
        lemma_count_le_len(prefix1, d);
        if j == k {
            assert(d == c);
            assert(prefix1[prefix1.len() - 1] == c);
            assert(prefix1.contains(d));
            assert(alist_map(p1)[d] == cnt + 1);
            assert(freq_spec(prefix1)[d] == count_of(prefix1, d) as usize);
        } else {
            assert(p1[j] == p0[j]);
            assert(d != c);
            lemma_alist_map_index(p0, j);
            assert(alist_map(p0).dom().contains(d));
            assert(prefix.contains(d));
            let x = choose|x: int| 0 <= x < prefix.len() && prefix[x] == d;
            assert(prefix1[x] == d);
            assert(prefix1.contains(d));
            assert(alist_map(p1)[d] == p0[j].1 == count_of(prefix, d) as usize);
            assert(freq_spec(prefix1)[d] == count_of(prefix1, d) as usize);
        }
    }
    assert forall|d: char| #[trigger] freq_spec(prefix1).dom().contains(d) implies alist_map(
        p1,
    ).dom().contains(d) by {
        assert(prefix1.contains(d));
        if d == c {
            assert(0 <= k < p1.len() && p1[k].0 == d);
        } else {
            let x = choose|x: int| 0 <= x < prefix1.len() && prefix1[x] == d;
            assert(prefix[x] == d);
            assert(prefix.contains(d));
            assert(freq_spec(prefix).dom().contains(d));
            lemma_alist_map_dom(p0, d);
            let j = choose|j: int| 0 <= j < p0.len() && (#[trigger] p0[j]).0 == d;
            assert(0 <= j < p1.len() && p1[j].0 == d);
        }
    }
    assert(alist_map(p1).dom() =~= freq_spec(prefix1).dom());
    assert(alist_map(p1) =~= freq_spec(prefix1));
}

/// One counting step where `c` has no entry yet: appending `(c, 1)` tracks
/// the frequency map of the text extended by `c`.
proof fn lemma_push_step(p0: Seq<(char, usize)>, prefix: Seq<char>, c: char)
    requires
        distinct_keys(p0),
        forall|j: int| 0 <= j < p0.len() ==> (#[trigger] p0[j]).0 != c,
        alist_map(p0) == freq_spec(prefix),
        prefix.len() < usize::MAX,
    ensures
        distinct_keys(p0.push((c, 1usize))),
        alist_map(p0.push((c, 1usize))) == freq_spec(prefix.push(c)),
{
    let p1 = p0.push((c, 1usize));
    let prefix1 = prefix.push(c);
    assert(forall|j: int| 0 <= j < p0.len() ==> p1[j] == p0[j]);
    assert(p1[p0.len() as int] == (c, 1usize));
    assert(distinct_keys(p1));
    assert(!prefix.contains(c)) by {
        if prefix.contains(c) {
            assert(freq_spec(prefix).dom().contains(c));
            lemma_alist_map_dom(p0, c);
        }
    }
    lemma_count_positive(prefix, c);
    assert(count_of(prefix, c) == 0);
    assert forall|d: char| #[trigger] alist_map(p1).dom().contains(d) implies freq_spec(
        prefix1,
    ).dom().contains(d) && alist_map(p1)[d] == freq_spec(prefix1)[d] by {
        lemma_alist_map_dom(p1, d);
        let j = choose|j: int| 0 <= j < p1.len() && (#[trigger] p1[j]).0 == d;
        lemma_alist_map_index(p1, j);
        lemma_count_push(prefix, c, d);
        lemma_count_le_len(prefix1, d);
        if j == p0.len() {
            assert(d == c);
            assert(prefix1[prefix1.len() - 1] == c);
            assert(prefix1.contains(d));
            assert(alist_map(p1)[d] == 1usize);
            assert(freq_spec(prefix1)[d] == count_of(prefix1, d) as usize);
        } else {
            assert(p1[j] == p0[j]);
            assert(d != c);
            lemma_alist_map_index(p0, j);
            assert(prefix.contains(d));
            let x = choose|x: int| 0 <= x < prefix.len() && prefix[x] == d;
            assert(prefix1[x] == d);
            assert(prefix1.contains(d));
            assert(alist_map(p1)[d] == p0[j].1 == count_of(prefix, d) as usize);
            assert(freq_spec(prefix1)[d] == count_of(prefix1, d) as usize);
        }
    }
    assert forall|d: char| #[trigger] freq_spec(prefix1).dom().contains(d) implies alist_map(
        p1,
    ).dom().contains(d) by {
        assert(prefix1.contains(d));
        if d == c {
            assert(0 <= p0.len() < p1.len() && p1[p0.len() as int].0 == d);
        } else {
            let x = choose|x: int| 0 <= x < prefix1.len() && prefix1[x] == d;
            assert(prefix[x] == d);
            assert(prefix.contains(d));
            assert(freq_spec(prefix).dom().contains(d));
            lemma_alist_map_dom(p0, d);
            let j = choose|j: int| 0 <= j < p0.len() && (#[trigger] p0[j]).0 == d;
            assert(0 <= j < p1.len() && p1[j].0 == d);
        }
    }
    assert(alist_map(p1).dom() =~= freq_spec(prefix1).dom());
    assert(alist_map(p1) =~= freq_spec(prefix1));
}

/// The index of the pair carrying `c`, if one does.
fn find_key(pairs: &Vec<(char, usize)>, c: char) -> (r: Option<usize>)
    ensures
        match r {
            Some(k) => k < pairs@.len() && pairs@[k as int].0 == c,
            None => forall|j: int| 0 <= j < pairs@.len() ==> (#[trigger] pairs@[j]).0 != c,
        },
{
    let mut k: usize = 0;
    while k < pairs.len()
        invariant
            k <= pairs@.len(),
            forall|j: int| 0 <= j < k ==> (#[trigger] pairs@[j]).0 != c,
        decreases pairs@.len() - k,
    {
        if pairs[k].0 == c {
            return Some(k);
        }
        k += 1;
    }
    None
}

/// Counts how often each distinct character occurs in `s`. An empty text
/// yields an empty table; there is no failure case.
pub fn build_freq_table(s: &str) -> (t: FreqTable)
    ensures
        t.wf(),
        t@ == freq_spec(s@),
        t.spec_len() <= s@.len(),
{
    let n = s.unicode_len();
    let mut pairs: Vec<(char, usize)> = Vec::new();
    proof {
        assert(s@.take(0).len() == 0);
        assert(alist_map(pairs@) =~= freq_spec(s@.take(0)));
    }
    let mut i: usize = 0;
    while i < n
        invariant
            i <= n,
            n == s@.len(),
            distinct_keys(pairs@),
            pairs@.len() <= i,
            alist_map(pairs@) == freq_spec(s@.take(i as int)),
            forall|j: int| 0 <= j < pairs@.len() ==> (#[trigger] pairs@[j]).1 <= i,
        decreases n - i,
    {
        let ghost prefix = s@.take(i as int);
        let c = s.get_char(i);
        proof {
            assert(s@.take(i + 1) =~= prefix.push(c));
            assert(prefix.len() == i);
        }
        match find_key(&pairs, c) {
            Some(k) => {
                let ghost p0 = pairs@;
                let cnt = pairs[k].1;
                proof {
                    assert(p0[k as int].1 <= i);
                }
                pairs[k] = (c, cnt + 1);
                proof {
                    assert(p0[k as int] == (c, cnt));
                    lemma_update_step(p0, k as int, prefix, c, cnt);
                }
            },
            None => {
                let ghost p0 = pairs@;
                pairs.push((c, 1));
                proof {
                    lemma_push_step(p0, prefix, c);
                }
            },
        }
        i += 1;
    }
    proof {
        assert(s@.take(n as int) =~= s@);
    }
    FreqTable { pairs }
}

} // verus!
