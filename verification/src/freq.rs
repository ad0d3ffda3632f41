//! The frequency map: words with their occurrence counts, accumulation of
//! token sequences into such maps, and selection of the most frequent
//! entries.

use vstd::prelude::*;
use crate::text::{count_words_in_content, token_views, tokenize, tokens_of};

verus! {

/// How many of the most frequent words a report shows.
pub const TOP_WORDS_LIMIT: usize = 10;

/// A mapping from word to occurrence count, viewed as a mathematical map
/// from character sequences to counts. Words are unique.
pub struct FrequencyMap {
    words: Vec<String>,
    counts: Vec<usize>,
}

/// Whether some string in `ws` has exactly the characters `w`.
spec fn has_word(ws: Seq<String>, w: Seq<char>) -> bool {
    exists|i: int| 0 <= i < ws.len() && ws[i]@ == w
}

spec fn word_index(ws: Seq<String>, w: Seq<char>) -> int {
    choose|i: int| 0 <= i < ws.len() && ws[i]@ == w
}

/// Whether the pair of a word `w` and count `c` stands, as word and count,
/// at some index below `bound` of the word and count columns `ws` and `cs`.
spec fn entry_from(ws: Seq<String>, cs: Seq<usize>, w: Seq<char>, c: usize, bound: int) -> bool {
    exists|j: int| 0 <= j < bound && ws[j]@ == w && cs[j] == c
}

impl View for FrequencyMap {
    type V = Map<Seq<char>, nat>;

    closed spec fn view(&self) -> Map<Seq<char>, nat> {
        Map::new(
            |w: Seq<char>| has_word(self.words@, w),
            |w: Seq<char>| self.counts@[word_index(self.words@, w)] as nat,
        )
    }
}

impl FrequencyMap {
    /// Each word has a count, and no word appears twice.
    pub closed spec fn wf(&self) -> bool {
        &&& self.words@.len() == self.counts@.len()
        &&& forall|i: int, j: int|
            0 <= i < j < self.words@.len() ==> self.words@[i]@ != self.words@[j]@
    }

    /// Creates an empty frequency map.
    pub fn new() -> (m: FrequencyMap)
        ensures
            m.wf(),
            m@ == Map::<Seq<char>, nat>::empty(),
            m@.dom().len() == 0,
    {
        let m = FrequencyMap { words: Vec::new(), counts: Vec::new() };
        proof {
            assert(m@.dom() =~= Set::<Seq<char>>::empty());
            assert(m@ =~= Map::<Seq<char>, nat>::empty());
        }
        m
    }

    /// The number of distinct words in the map.
    pub fn len(&self) -> (n: usize)
        requires
            self.wf(),
        ensures
            n == self@.dom().len(),
    {
        proof {
            lemma_view_len(self);
        }
        self.words.len()
    }

    /// The count recorded for `word`, or zero when the word is absent.
    pub fn count_of(&self, word: &str) -> (c: usize)
        requires
            self.wf(),
        ensures
            c == if self@.dom().contains(word@) {
                self@[word@]
            } else {
                0nat
            },
    {
        match self.find_word(word) {
            Some(i) => {
                proof {
                    lemma_index_unique(self, i as int, word@);
                }
                self.counts[i]
            },
            None => 0,
        }
    }

    /// Adds one to `word`'s count, entering it with count one when absent.
    pub fn increment(&mut self, word: &str)
        requires
            old(self).wf(),
            old(self)@.dom().contains(word@) ==> old(self)@[word@] < usize::MAX,
        ensures
            final(self).wf(),
            final(self)@ == bump(old(self)@, word@),
    {
        match self.find_word(word) {
            Some(i) => {
                proof {
                    lemma_index_unique(self, i as int, word@);
                }
                let c = self.counts[i];
                self.counts[i] = c + 1;
                proof {
                    assert forall|w: Seq<char>| has_word(self.words@, w) implies self@[w] == bump(
                        old(self)@,
                        word@,
                    )[w] by {
                        let j = word_index(self.words@, w);
                        assert(0 <= j < self.words@.len() && self.words@[j]@ == w);
                        lemma_index_unique(old(self), j, w);
                        if w == word@ {
                            assert(j == i);
                        } else {
                            assert(j != i);
                            assert(self.counts@[j] == old(self).counts@[j]);
                        }
                    }
                    assert(self@ =~= bump(old(self)@, word@));
                }
            },
            None => {
                self.words.push(word.to_owned());
                self.counts.push(1);
                proof {
                    let n = old(self).words@.len() as int;
                    assert forall|i: int, j: int|
                        0 <= i < j < self.words@.len() implies self.words@[i]@
                        != self.words@[j]@ by {
                        if j < n {
                            assert(self.words@[i]@ == old(self).words@[i]@);
                            assert(self.words@[j]@ == old(self).words@[j]@);
                        } else {
                            assert(self.words@[j]@ == word@);
                            assert(self.words@[i]@ == old(self).words@[i]@);
                            assert(!has_word(old(self).words@, word@));
                        }
                    }
                    assert forall|w: Seq<char>| has_word(self.words@, w) implies (has_word(
                        old(self).words@,
                        w,
                    ) || w == word@) by {
                        let j = choose|j: int|
                            0 <= j < self.words@.len() && self.words@[j]@ == w;
                        if j < n {
                            assert(old(self).words@[j]@ == w);
                        }
                    }
                    assert forall|w: Seq<char>| has_word(self.words@, w) implies self@[w] == bump(
                        old(self)@,
                        word@,
                    )[w] by {
                        let j = word_index(self.words@, w);
                        assert(0 <= j < self.words@.len() && self.words@[j]@ == w);
                        lemma_index_unique(self, j, w);
                        if w == word@ {
                            assert(j == n);
                            assert(self.counts@[j] == 1);
                        } else {
                            assert(j < n);
                            assert(old(self).words@[j]@ == w);
                            lemma_index_unique(old(self), j, w);
                        }
                    }
                    assert forall|w: Seq<char>| has_word(old(self).words@, w) || w
                        == word@ implies has_word(self.words@, w) by {
                        if has_word(old(self).words@, w) {
                            let j = choose|j: int|
                                0 <= j < old(self).words@.len() && old(self).words@[j]@ == w;
                            assert(self.words@[j]@ == w);
                        } else {
                            assert(self.words@[n]@ == word@);
                        }
                    }
                    assert(self@ =~= bump(old(self)@, word@));
                }
            },
        }
    }

    /// Selects the `k` highest-count entries of the map: entries are taken
    /// in order until `k` are held, and after that each further entry
    /// replaces the held minimum only when its count is strictly greater,
    /// so an equal count never displaces an earlier word.
    pub fn select_top_k(&self, k: usize) -> (r: FrequencyMap)
        requires
            self.wf(),
        ensures
            r.wf(),
            is_top_selection(r@, self@, k as nat),
    {
        let n = self.words.len();
        let mut rw: Vec<String> = Vec::new();
        let mut rc: Vec<usize> = Vec::new();
        let mut i: usize = 0;
        while i < n
            invariant
                self.wf(),
                n == self.words@.len(),
                n == self.counts@.len(),
                i <= n,
                rw@.len() == rc@.len(),
                rw@.len() == (if k as int <= i as int {
                    k as int
                } else {
                    i as int
                }),
                forall|t: int| #![trigger rw@[t]]
                    0 <= t < rw@.len() ==> entry_from(
                        self.words@,
                        self.counts@,
                        rw@[t]@,
                        rc@[t],
                        i as int,
                    ),
                forall|t1: int, t2: int| #![trigger rw@[t1], rw@[t2]]
                    0 <= t1 < t2 < rw@.len() ==> rw@[t1]@ != rw@[t2]@,
                i <= k ==> forall|j: int|
                    0 <= j < i ==> has_word(rw@, (#[trigger] self.words@[j])@),
                forall|j: int, t: int| #![trigger self.words@[j], rc@[t]]
                    0 <= j < i && !has_word(rw@, self.words@[j]@) && 0 <= t < rc@.len()
                        ==> self.counts@[j] <= rc@[t],
            decreases n - i,
        {
            let c = self.counts[i];
            if rw.len() < k {
                let ghost old_rw = rw@;
                let ghost old_rc = rc@;
                rw.push(self.words[i].clone());
                rc.push(c);
                proof {
                    let v = rw@.len() - 1;
                    assert(rw@[v]@ == self.words@[i as int]@);
                    assert forall|t: int| 0 <= t < rw@.len() implies entry_from(
                        self.words@,
                        self.counts@,
                        rw@[t]@,
                        rc@[t],
                        i + 1,
                    ) by {
                        if t < v {
                            assert(rw@[t] == old_rw[t]);
                            assert(entry_from(self.words@, self.counts@, rw@[t]@, rc@[t], i as int));
                            let j = choose|j: int|
                                0 <= j < i && self.words@[j]@ == rw@[t]@ && self.counts@[j]
                                    == rc@[t];
                            assert(0 <= j < i + 1 && self.words@[j]@ == rw@[t]@ && self.counts@[j]
                                == rc@[t]);
                        } else {
                            assert(0 <= i < i + 1 && self.words@[i as int]@ == rw@[t]@
                                && self.counts@[i as int] == rc@[t]);
                        }
                    }
                    assert forall|t1: int, t2: int| 0 <= t1 < t2 < rw@.len() implies rw@[t1]@
                        != rw@[t2]@ by {
                        if t2 == v {
                            assert(entry_from(
                                self.words@,
                                self.counts@,
                                old_rw[t1]@,
                                old_rc[t1],
                                i as int,
                            ));
                            let j = choose|j: int|
                                0 <= j < i && self.words@[j]@ == old_rw[t1]@ && self.counts@[j]
                                    == old_rc[t1];
                            assert(self.words@[j]@ != self.words@[i as int]@);
                        }
                    }
                    assert(i + 1 <= k ==> forall|j: int|
                        0 <= j < i + 1 ==> has_word(rw@, (#[trigger] self.words@[j])@)) by {
                        if i + 1 <= k {
                            assert forall|j: int| 0 <= j < i + 1 implies has_word(
                                rw@,
                                (self.words@[j])@,
                            ) by {
                                if j < i {
                                    assert(has_word(old_rw, self.words@[j]@));
                                    let t = choose|t: int|
                                        0 <= t < old_rw.len() && old_rw[t]@ == self.words@[j]@;
                                    assert(rw@[t]@ == self.words@[j]@);
                                } else {
                                    assert(rw@[v]@ == self.words@[j]@);
                                }
                            }
                        }
                    }
                    assert forall|j: int, t: int|
                        0 <= j < i + 1 && !has_word(rw@, self.words@[j]@) && 0 <= t
                            < rc@.len() implies self.counts@[j] <= rc@[t] by {
                        assert(i + 1 <= k);
                        assert(has_word(rw@, self.words@[j]@));
                    }
                }
            } else if k > 0 {
                let mut min_idx: usize = 0;
                let mut t: usize = 1;
                while t < rc.len()
                    invariant
                        rc@.len() == rw@.len(),
                        1 <= t <= rc@.len(),
                        0 <= min_idx < t,
                        forall|u: int| 0 <= u < t ==> rc@[min_idx as int] <= #[trigger] rc@[u],
                    decreases rc@.len() - t,
                {
                    if rc[t] < rc[min_idx] {
                        min_idx = t;
                    }
                    t = t + 1;
                }
                let ghost old_rw = rw@;
                let ghost old_rc = rc@;
                if c > rc[min_idx] {
                    rw[min_idx] = self.words[i].clone();
                    rc[min_idx] = c;
                    proof {
                        let m = min_idx as int;
                        assert(rw@ == old_rw.update(m, self.words@[i as int]));
                        assert(rc@ == old_rc.update(m, self.counts@[i as int]));
                        assert forall|t0: int| 0 <= t0 < rw@.len() implies entry_from(
                            self.words@,
                            self.counts@,
                            rw@[t0]@,
                            rc@[t0],
                            i + 1,
                        ) by {
                            if t0 == m {
                                assert(0 <= i < i + 1 && self.words@[i as int]@ == rw@[t0]@
                                    && self.counts@[i as int] == rc@[t0]);
                            } else {
                                assert(rw@[t0] == old_rw[t0] && rc@[t0] == old_rc[t0]);
                                assert(entry_from(
                                    self.words@,
                                    self.counts@,
                                    old_rw[t0]@,
                                    old_rc[t0],
                                    i as int,
                                ));
                                let j = choose|j: int|
                                    0 <= j < i && self.words@[j]@ == old_rw[t0]@ && self.counts@[j]
                                        == old_rc[t0];
                                assert(0 <= j < i + 1 && self.words@[j]@ == rw@[t0]@
                                    && self.counts@[j] == rc@[t0]);
                            }
                        }
                        assert forall|t1: int, t2: int| 0 <= t1 < t2 < rw@.len() implies rw@[t1]@
                            != rw@[t2]@ by {
                            let other = if t1 == m {
                                t2
                            } else {
                                t1
                            };
                            if t1 == m || t2 == m {
                                assert(entry_from(
                                    self.words@,
                                    self.counts@,
                                    old_rw[other]@,
                                    old_rc[other],
                                    i as int,
                                ));
                                let j = choose|j: int|
                                    0 <= j < i && self.words@[j]@ == old_rw[other]@
                                        && self.counts@[j] == old_rc[other];
                                assert(self.words@[j]@ != self.words@[i as int]@);
                            } else {
                                assert(old_rw[t1]@ != old_rw[t2]@);
                            }
                        }
                        assert forall|j: int, t0: int|
                            0 <= j < i + 1 && !has_word(rw@, self.words@[j]@) && 0 <= t0
                                < rc@.len() implies self.counts@[j] <= rc@[t0] by {
                            if j == i {
                                assert(rw@[m]@ == self.words@[i as int]@);
                                assert(has_word(rw@, self.words@[j]@));
                            } else if has_word(old_rw, self.words@[j]@) {
                                let te = choose|te: int|
                                    0 <= te < old_rw.len() && old_rw[te]@ == self.words@[j]@;
                                if te != m {
                                    assert(rw@[te]@ == self.words@[j]@);
                                    assert(has_word(rw@, self.words@[j]@));
                                } else {
                                    assert(entry_from(
                                        self.words@,
                                        self.counts@,
                                        old_rw[te]@,
                                        old_rc[te],
                                        i as int,
                                    ));
                                    let je = choose|je: int|
                                        0 <= je < i && self.words@[je]@ == old_rw[te]@
                                            && self.counts@[je] == old_rc[te];
                                    assert(je == j) by {
                                        if je < j {
                                            assert(self.words@[je]@ != self.words@[j]@);
                                        } else if j < je {
                                            assert(self.words@[j]@ != self.words@[je]@);
                                        }
                                    }
                                    assert(self.counts@[j] == old_rc[m]);
                                    assert(old_rc[m] <= old_rc[t0]);
                                    if t0 == m {
                                        assert(rc@[t0] == self.counts@[i as int]);
                                        assert(old_rc[m] < self.counts@[i as int]);
                                    } else {
                                        assert(rc@[t0] == old_rc[t0]);
                                    }
                                }
                            } else {
                                assert(self.counts@[j] <= old_rc[m]);
                                if t0 == m {
                                    assert(rc@[t0] == self.counts@[i as int]);
                                } else {
                                    assert(self.counts@[j] <= old_rc[t0]);
                                }
                            }
                        }
                        assert(i + 1 > k);
                    }
                } else {
                    proof {
                        assert forall|j: int, t0: int|
                            0 <= j < i + 1 && !has_word(rw@, self.words@[j]@) && 0 <= t0
                                < rc@.len() implies self.counts@[j] <= rc@[t0] by {
                            if j == i {
                                assert(self.counts@[i as int] <= rc@[min_idx as int]);
                                assert(rc@[min_idx as int] <= rc@[t0]);
                            }
                        }
                    }
                }
            } else {
                proof {
                    assert(rw@.len() == 0);
                }
            }
            i = i + 1;
        }
        let r = FrequencyMap { words: rw, counts: rc };
        proof {
            lemma_view_len(self);
            lemma_view_len(&r);
            assert forall|w: Seq<char>| #[trigger]
                r@.dom().contains(w) implies self@.dom().contains(w) && r@[w] == self@[w] by {
                let t = choose|t: int| 0 <= t < r.words@.len() && r.words@[t]@ == w;
                lemma_index_unique(&r, t, w);
                assert(entry_from(self.words@, self.counts@, r.words@[t]@, r.counts@[t], n as int));
                let j = choose|j: int|
                    0 <= j < n && self.words@[j]@ == r.words@[t]@ && self.counts@[j]
                        == r.counts@[t];
                lemma_index_unique(self, j, w);
            }
            assert forall|w: Seq<char>, v: Seq<char>|
                self@.dom().contains(w) && !r@.dom().contains(w) && r@.dom().contains(
                    v,
                ) implies self@[w] <= r@[v] by {
                let j = choose|j: int| 0 <= j < self.words@.len() && self.words@[j]@ == w;
                lemma_index_unique(self, j, w);
                let t = choose|t: int| 0 <= t < r.words@.len() && r.words@[t]@ == v;
                lemma_index_unique(&r, t, v);
                assert(!has_word(r.words@, w));
                assert(self.counts@[j] <= r.counts@[t]);
            }
        }
        r
    }

    /// The largest count held by any word of the map, or zero when the map
    /// is empty.
    pub fn max_count(&self) -> (r: usize)
        requires
            self.wf(),
        ensures
            forall|w: Seq<char>| #[trigger] self@.dom().contains(w) ==> self@[w] <= r,
            r == 0 || exists|w: Seq<char>| #[trigger] self@.dom().contains(w) && self@[w] == r,
    {
        let mut r: usize = 0;
        let mut i: usize = 0;
        while i < self.counts.len()
            invariant
                i <= self.counts@.len(),
                self.wf(),
                forall|j: int| 0 <= j < i ==> #[trigger] self.counts@[j] <= r,
                r == 0 || exists|j: int| 0 <= j < i && #[trigger] self.counts@[j] == r,
            decreases self.counts@.len() - i,
        {
            if self.counts[i] > r {
                r = self.counts[i];
            }
            i = i + 1;
        }
        proof {
            assert forall|w: Seq<char>| #[trigger] self@.dom().contains(w) implies self@[w]
                <= r by {
                let j = choose|j: int| 0 <= j < self.words@.len() && self.words@[j]@ == w;
                lemma_index_unique(self, j, w);
            }
            if r != 0 {
                let j = choose|j: int| 0 <= j < i && self.counts@[j] == r;
                lemma_index_unique(self, j, self.words@[j]@);
                assert(self@.dom().contains(self.words@[j]@) && self@[self.words@[j]@] == r);
            }
        }
        r
    }

    /// The map's entries as word and count pairs, in insertion order.
    pub fn to_pairs(&self) -> (r: Vec<(String, usize)>)
        requires
            self.wf(),
        ensures
            r@.len() == self@.dom().len(),
            forall|t: int|
                0 <= t < r@.len() ==> self@.dom().contains((#[trigger] r@[t]).0@)
                    && self@[r@[t].0@] == r@[t].1,
            forall|t1: int, t2: int| #![trigger r@[t1], r@[t2]]
                0 <= t1 < t2 < r@.len() ==> r@[t1].0@ != r@[t2].0@,
    {
        proof {
            lemma_view_len(self);
        }
        let mut r: Vec<(String, usize)> = Vec::new();
        let mut i: usize = 0;
        while i < self.words.len()
            invariant
                self.wf(),
                i <= self.words@.len(),
                self.words@.len() == self.counts@.len(),
                r@.len() == i,
                forall|t: int|
                    0 <= t < i ==> (#[trigger] r@[t]).0 == self.words@[t] && r@[t].1
                        == self.counts@[t],
            decreases self.words@.len() - i,
        {
            r.push((self.words[i].clone(), self.counts[i]));
            i = i + 1;
        }
        proof {
            assert forall|t: int|
                0 <= t < r@.len() implies self@.dom().contains(r@[t].0@)
                && self@[r@[t].0@] == r@[t].1 by {
                lemma_index_unique(self, t, self.words@[t]@);
            }
        }
        r
    }

    /// The index of `word` among this map's words, if it is present.
    fn find_word(&self, word: &str) -> (r: Option<usize>)
        requires
            self.wf(),
        ensures
            match r {
                Some(i) => 0 <= i < self.words@.len() && self.words@[i as int]@ == word@,
                None => !has_word(self.words@, word@),
            },
    {
        let mut i: usize = 0;
        while i < self.words.len()
            invariant
                i <= self.words@.len(),
                forall|j: int| 0 <= j < i ==> #[trigger] self.words@[j]@ != word@,
            decreases self.words@.len() - i,
        {
            if str_eq(self.words[i].as_str(), word) {
                return Some(i);
            }
            i = i + 1;
        }
        None
    }
}

/// What the selector guarantees: the result is a sub-map of `m` holding
/// exactly min(k, |m|) entries, and no word left out of the result counts
/// strictly more than any word kept. Words tied at the boundary may be
/// kept or left out either way.
pub open spec fn is_top_selection(
    r: Map<Seq<char>, nat>,
    m: Map<Seq<char>, nat>,
    k: nat,
) -> bool {
    &&& r.dom().finite()
    &&& forall|w: Seq<char>| #[trigger]
        r.dom().contains(w) ==> m.dom().contains(w) && r[w] == m[w]
    &&& r.dom().len() == if k <= m.dom().len() {
        k
    } else {
        m.dom().len()
    }
    &&& forall|w: Seq<char>, v: Seq<char>|
        #![trigger m.dom().contains(w), r.dom().contains(v)]
        m.dom().contains(w) && !r.dom().contains(w) && r.dom().contains(v) ==> m[w] <= r[v]
}

/// A frequency map after one more sighting of the word `w`: its count grows
/// by one, or starts at one when the word is new.
pub open spec fn bump(m: Map<Seq<char>, nat>, w: Seq<char>) -> Map<Seq<char>, nat> {
    m.insert(
        w,
        if m.dom().contains(w) {
            m[w] + 1nat
        } else {
            1nat
        },
    )
}

/// The map after tallying every word of `toks` once, on top of `m`.
pub open spec fn add_tokens(m: Map<Seq<char>, nat>, toks: Seq<Seq<char>>) -> Map<Seq<char>, nat>
    decreases toks.len(),
{
    if toks.len() == 0 {
        m
    } else {
        bump(add_tokens(m, toks.drop_last()), toks.last())
    }
}

/// The word frequencies of a token sequence, starting from nothing.
pub open spec fn freq_of(toks: Seq<Seq<char>>) -> Map<Seq<char>, nat> {
    add_tokens(Map::empty(), toks)
}

/// Tallying adds at most one sighting per token: after `toks`, a word's
/// count exceeds what it started with by at most the number of tokens.
proof fn lemma_add_tokens_bound(m: Map<Seq<char>, nat>, toks: Seq<Seq<char>>, w: Seq<char>)
    ensures
        add_tokens(m, toks).dom().contains(w) ==> add_tokens(m, toks)[w] <= (if m.dom().contains(
            w,
        ) {
            m[w]
        } else {
            0nat
        }) + toks.len(),
    decreases toks.len(),
{
    if toks.len() > 0 {
        lemma_add_tokens_bound(m, toks.drop_last(), w);
    }
}

/// Selects the most frequent words of a map, at most `TOP_WORDS_LIMIT` of
/// them, consuming the map.
pub fn calculate_top_words(frequency_map: FrequencyMap) -> (r: FrequencyMap)
    requires
        frequency_map.wf(),
    ensures
        r.wf(),
        is_top_selection(r@, frequency_map@, TOP_WORDS_LIMIT as nat),
{
    frequency_map.select_top_k(TOP_WORDS_LIMIT)
}

/// Selects the most frequent words of the run-wide map, at most
/// `TOP_WORDS_LIMIT` of them, leaving the map as it was.
pub fn calculate_top_words_mut(total_frequency_map: &mut FrequencyMap) -> (r: FrequencyMap)
    requires
        old(total_frequency_map).wf(),
    ensures
        *final(total_frequency_map) == *old(total_frequency_map),
        r.wf(),
        is_top_selection(r@, old(total_frequency_map)@, TOP_WORDS_LIMIT as nat),
{
    total_frequency_map.select_top_k(TOP_WORDS_LIMIT)
}

/// Builds the frequency map of one file's content, tallies every word into
/// the run-wide map as well, and returns this file's most frequent words.
pub fn calculate_frequency(content: &str, total_frequency_map: &mut FrequencyMap) -> (top:
    FrequencyMap)
    requires
        old(total_frequency_map).wf(),
        forall|w: Seq<char>| #[trigger]
            old(total_frequency_map)@.dom().contains(w) ==> old(total_frequency_map)@[w]
                + tokens_of(content@).len() <= usize::MAX,
    ensures
        final(total_frequency_map).wf(),
        final(total_frequency_map)@ == add_tokens(
            old(total_frequency_map)@,
            tokens_of(content@),
        ),
        top.wf(),
        is_top_selection(top@, freq_of(tokens_of(content@)), TOP_WORDS_LIMIT as nat),
{
    let tokens = tokenize(content);
    let mut local = FrequencyMap::new();
    accumulate(&tokens, &mut local, total_frequency_map);
    calculate_top_words(local)
}

/// Like `calculate_frequency`, but first makes sure no run-wide count can
/// outgrow the machine's integer range. When some word's count could, the
/// run-wide map is left unchanged and `None` is returned; otherwise the
/// file is tallied and its most frequent words are returned.
pub fn process_content(content: &str, total_frequency_map: &mut FrequencyMap) -> (top: Option<
    FrequencyMap,
>)
    requires
        old(total_frequency_map).wf(),
    ensures
        final(total_frequency_map).wf(),
        match top {
            Some(t) => {
                &&& final(total_frequency_map)@ == add_tokens(
                    old(total_frequency_map)@,
                    tokens_of(content@),
                )
                &&& t.wf()
                &&& is_top_selection(t@, freq_of(tokens_of(content@)), TOP_WORDS_LIMIT as nat)
            },
            None => {
                &&& *final(total_frequency_map) == *old(total_frequency_map)
                &&& exists|w: Seq<char>| #[trigger]
                    old(total_frequency_map)@.dom().contains(w) && old(total_frequency_map)@[w]
                        + tokens_of(content@).len() > usize::MAX
            },
        },
{
    let words_in_content = count_words_in_content(content);
    let largest = total_frequency_map.max_count();
    if largest <= usize::MAX - words_in_content {
        Some(calculate_frequency(content, total_frequency_map))
    } else {
        None
    }
}

/// Tallies every token once into both the per-file map and the run-wide
/// map, as the one pass over a file's words does.
pub fn accumulate(tokens: &Vec<String>, local: &mut FrequencyMap, global: &mut FrequencyMap)
    requires
        old(local).wf(),
        old(global).wf(),
        forall|w: Seq<char>| #[trigger]
            old(local)@.dom().contains(w) ==> old(local)@[w] + tokens@.len() <= usize::MAX,
        forall|w: Seq<char>| #[trigger]
            old(global)@.dom().contains(w) ==> old(global)@[w] + tokens@.len() <= usize::MAX,
    ensures
        final(local).wf(),
        final(global).wf(),
        final(local)@ == add_tokens(old(local)@, token_views(tokens@)),
        final(global)@ == add_tokens(old(global)@, token_views(tokens@)),
{
    let ghost tv = token_views(tokens@);
    let n = tokens.len();
    let mut i: usize = 0;
    while i < n
        invariant
            i <= n,
            n == tokens@.len(),
            tv == token_views(tokens@),
            local.wf(),
            global.wf(),
            local@ == add_tokens(old(local)@, tv.subrange(0, i as int)),
            global@ == add_tokens(old(global)@, tv.subrange(0, i as int)),
            forall|w: Seq<char>| #[trigger]
                old(local)@.dom().contains(w) ==> old(local)@[w] + n <= usize::MAX,
            forall|w: Seq<char>| #[trigger]
                old(global)@.dom().contains(w) ==> old(global)@[w] + n <= usize::MAX,
        decreases n - i,
    {
        let ghost w = tokens@[i as int]@;
        proof {
            assert(tv.subrange(0, i + 1).drop_last() =~= tv.subrange(0, i as int));
            assert(tv.subrange(0, i + 1).last() == tv[i as int]);
            assert(tv[i as int] == w);
            lemma_add_tokens_bound(old(local)@, tv.subrange(0, i as int), w);
            lemma_add_tokens_bound(old(global)@, tv.subrange(0, i as int), w);
        }
        let word = &tokens[i];
        local.increment(word.as_str());
        global.increment(word.as_str());
        i = i + 1;
    }
    proof {
        assert(tv.subrange(0, n as int) =~= tv);
    }
}

/// Whether two string slices hold the same characters.
fn str_eq(a: &str, b: &str) -> (r: bool)
    ensures
        r == (a@ == b@),
{
    let la = a.unicode_len();
    let lb = b.unicode_len();
    if la != lb {
        proof {
            assert(a@.len() != b@.len());
        }
        return false;
    }
    let mut i: usize = 0;
    while i < la
        invariant
            i <= la,
            la == a@.len(),
            la == b@.len(),
            forall|j: int| 0 <= j < i ==> a@[j] == b@[j],
        decreases la - i,
    {
        if a.get_char(i) != b.get_char(i) {
            return false;
        }
        i = i + 1;
    }
    proof {
        assert(a@ =~= b@);
    }
    true
}

/// A word at index `i` of a well-formed map is the only one with its
/// characters, and the map's view sends it to the count at `i`.
proof fn lemma_index_unique(m: &FrequencyMap, i: int, w: Seq<char>)
    requires
        m.wf(),
        0 <= i < m.words@.len(),
        m.words@[i]@ == w,
    ensures
        word_index(m.words@, w) == i,
        m@.dom().contains(w),
        m@[w] == m.counts@[i] as nat,
{
    assert(has_word(m.words@, w));
    let j = word_index(m.words@, w);
    assert(0 <= j < m.words@.len() && m.words@[j]@ == w);
}

/// A well-formed map's view has exactly one entry per stored word.
proof fn lemma_view_len(m: &FrequencyMap)
    requires
        m.wf(),
    ensures
        m@.dom().finite(),
        m@.dom().len() == m.words@.len(),
{
    broadcast use vstd::seq_lib::seq_to_set_is_finite;

    let keys = m.words@.map_values(|t: String| t@);
    assert forall|w: Seq<char>| m@.dom().contains(w) implies keys.to_set().contains(w) by {
        let i = choose|i: int| 0 <= i < m.words@.len() && m.words@[i]@ == w;
        assert(keys[i] == w);
    }
    assert forall|w: Seq<char>| keys.to_set().contains(w) implies m@.dom().contains(w) by {
        let i = choose|i: int| 0 <= i < keys.len() && keys[i] == w;
        assert(m.words@[i]@ == w);
    }
    assert(m@.dom() =~= keys.to_set());
    assert(keys.no_duplicates()) by {
        assert forall|i: int, j: int|
            0 <= i < keys.len() && 0 <= j < keys.len() && i != j implies keys[i] != keys[j] by {
            if i < j {
                assert(m.words@[i]@ != m.words@[j]@);
            } else {
                assert(m.words@[j]@ != m.words@[i]@);
            }
        }
    }
    keys.unique_seq_to_set();
}

} // verus!
