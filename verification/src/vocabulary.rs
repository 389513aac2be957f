//! The correspondence between the symbols of a corpus and token ids.

use vstd::prelude::*;
use vstd::seq_lib::seq_to_set_is_finite;
use vstd::set_lib::lemma_len_subset;

verus! {

/// The number of token ids there are.
pub const MAX_SYMBOLS: usize = 256;

/// Each symbol is smaller than every later one.
pub open spec fn strictly_increasing(s: Seq<char>) -> bool {
    forall|i: int, j: int| 0 <= i < j < s.len() ==> s[i] < s[j]
}

/// The symbols of a corpus, in increasing order. The token id of a symbol
/// is its position, so symbols and ids correspond one to one.
pub struct Vocabulary {
    symbols: Vec<char>,
}

impl Vocabulary {
    /// The symbol of each token id.
    pub closed spec fn symbols(&self) -> Seq<char> {
        self.symbols@
    }

    /// The symbols are in increasing order, and there is an id for each.
    pub open spec fn wf(&self) -> bool {
        &&& strictly_increasing(self.symbols())
        &&& self.symbols().len() <= MAX_SYMBOLS
    }

    /// Every symbol of `s` is in the vocabulary.
    pub open spec fn covers(&self, s: Seq<char>) -> bool {
        forall|i: int| 0 <= i < s.len() ==> self.symbols().contains(#[trigger] s[i])
    }

    /// Every id of `ids` stands for a symbol.
    pub open spec fn valid(&self, ids: Seq<u8>) -> bool {
        forall|i: int| 0 <= i < ids.len() ==> (#[trigger] ids[i]) < self.symbols().len()
    }

    /// The ids of the symbols of `s`.
    pub open spec fn encoded(&self, s: Seq<char>) -> Seq<u8> {
        Seq::new(s.len(), |i: int| self.symbols().index_of(s[i]) as u8)
    }

    /// The symbols that `ids` stand for.
    pub open spec fn decoded(&self, ids: Seq<u8>) -> Seq<char> {
        Seq::new(ids.len(), |i: int| self.symbols()[ids[i] as int])
    }

    /// A symbol of the vocabulary has one position.
    pub proof fn lemma_position_unique(&self, i: int)
        requires
            self.wf(),
            0 <= i < self.symbols().len(),
        ensures
            self.symbols().index_of(self.symbols()[i]) == i,
    {
        let s = self.symbols();
        let j = s.index_of(s[i]);
        assert(0 <= j < s.len() && s[j] == s[i]);
        if j < i {
            assert(s[j] < s[i]);
        } else if i < j {
            assert(s[i] < s[j]);
        }
    }

    /// Decoding what was encoded gives the text back, for every text made
    /// of symbols of the vocabulary.
    pub proof fn lemma_round_trip(&self, s: Seq<char>)
        requires
            self.wf(),
            self.covers(s),
        ensures
            self.valid(self.encoded(s)),
            self.decoded(self.encoded(s)) == s,
    {
        let ids = self.encoded(s);
        assert forall|i: int| 0 <= i < s.len() implies (#[trigger] ids[i]) < self.symbols().len()
            && self.symbols()[ids[i] as int] == s[i] by {
            assert(self.symbols().contains(s[i]));
            let j = self.symbols().index_of(s[i]);
            assert(0 <= j < self.symbols().len() && self.symbols()[j] == s[i]);
        }
        assert(self.decoded(ids) =~= s);
    }

    /// Encoding what was decoded gives the ids back, for all ids that
    /// stand for symbols.
    pub proof fn lemma_round_trip_ids(&self, ids: Seq<u8>)
        requires
            self.wf(),
            self.valid(ids),
        ensures
            self.covers(self.decoded(ids)),
            self.encoded(self.decoded(ids)) == ids,
    {
        let s = self.decoded(ids);
        assert forall|i: int| 0 <= i < ids.len() implies self.symbols().contains(#[trigger] s[i])
            && self.symbols().index_of(s[i]) == ids[i] by {
            self.lemma_position_unique(ids[i] as int);
        }
        assert(self.encoded(s) =~= ids);
    }

    /// The vocabulary of a text: its distinct symbols, in increasing
    /// order. There is none where the text has more distinct symbols than
    /// there are token ids.
    pub fn build(text: &Vec<char>) -> (r: Option<Vocabulary>)
        ensures
            match r {
                Some(v) => {
                    &&& v.wf()
                    &&& forall|c: char| v.symbols().contains(c) <==> text@.contains(c)
                },
                None => text@.to_set().len() > MAX_SYMBOLS,
            },
    {
        let mut symbols: Vec<char> = Vec::new();
        let mut i: usize = 0;
        while i < text.len()
            invariant
                i <= text@.len(),
                strictly_increasing(symbols@),
                symbols@.len() <= MAX_SYMBOLS,
                forall|c: char| symbols@.contains(c) <==> text@.take(i as int).contains(c),
            decreases text@.len() - i,
        {
            let c = text[i];
            let mut p: usize = 0;
            while p < symbols.len() && symbols[p] < c
                invariant
                    p <= symbols@.len(),
                    forall|q: int| 0 <= q < p ==> symbols@[q] < c,
                decreases symbols@.len() - p,
            {
                p = p + 1;
            }
            let ghost before = symbols@;
            let ghost seen = text@.take(i as int);
            let ghost seen_next = text@.take(i + 1);
            proof {
                assert(seen_next == seen.push(c));
                assert forall|d: char| seen_next.contains(d) <==> (seen.contains(d) || d == c) by {
                    if seen.contains(d) {
                        let t = choose|t: int| 0 <= t < seen.len() && seen[t] == d;
                        assert(seen_next[t] == d);
                    }
                    if d == c {
                        assert(seen_next[i as int] == c);
                    }
                }
            }
            if p < symbols.len() && symbols[p] == c {
                assert(before.contains(c));
            } else {
                proof {
                    assert forall|q: int| p <= q < before.len() implies c < before[q] by {
                        if p < q {
                            assert(before[p as int] < before[q]);
                        }
                    }
                    assert(!before.contains(c));
                }
                if symbols.len() == MAX_SYMBOLS {
                    proof {
                        let more = before.push(c);
                        assert(more.no_duplicates());
                        more.unique_seq_to_set();
                        seq_to_set_is_finite(text@);
                        assert forall|d: char| more.to_set().contains(d) implies text@.to_set().contains(
                            d,
                        ) by {
                            assert(more.contains(d));
                            let t = choose|t: int| 0 <= t < more.len() && more[t] == d;
                            if t < before.len() {
                                assert(before.contains(d));
                            }
                            assert(seen_next.contains(d));
                            let u = choose|u: int| 0 <= u < seen_next.len() && seen_next[u] == d;
                            assert(text@[u] == d);
                        }
                        lemma_len_subset(more.to_set(), text@.to_set());
                    }
                    return None;
                }
                symbols.insert(p, c);
                proof {
                    let after = symbols@;
                    assert(after == before.insert(p as int, c));
                    assert(after[p as int] == c);
                    assert forall|a: int, b: int| 0 <= a < b < after.len() implies after[a] < after[b] by {
                        if b < p {
                            assert(before[a] < before[b]);
                        } else if b == p {
                        } else if a < p {
                            assert(before[a] < before[b - 1]);
                        } else if a == p {
                        } else {
                            assert(before[a - 1] < before[b - 1]);
                        }
                    }
                    assert forall|d: char| after.contains(d) <==> (before.contains(d) || d == c) by {
                        if before.contains(d) {
                            let t = choose|t: int| 0 <= t < before.len() && before[t] == d;
                            if t < p {
                                assert(after[t] == d);
                            } else {
                                assert(after[t + 1] == d);
                            }
                        }
                        if after.contains(d) {
                            let t = choose|t: int| 0 <= t < after.len() && after[t] == d;
                            if t < p {
                                assert(before[t] == d);
                            } else if t > p {
                                assert(before[t - 1] == d);
                            }
                        }
                    }
                }
            }
            i = i + 1;
        }
        assert(text@.take(i as int) == text@);
        Some(Vocabulary { symbols })
    }

    /// The number of symbols.
    pub fn len(&self) -> (n: usize)
        ensures
            n == self.symbols().len(),
    {
        self.symbols.len()
    }

    /// The position of a symbol, if it is in the vocabulary.
    pub fn position(&self, c: char) -> (r: Option<usize>)
        ensures
            match r {
                Some(i) => i < self.symbols().len() && self.symbols()[i as int] == c,
                None => !self.symbols().contains(c),
            },
    {
        let mut i: usize = 0;
        while i < self.symbols.len()
            invariant
                i <= self.symbols@.len(),
                forall|q: int| 0 <= q < i ==> self.symbols@[q] != c,
            decreases self.symbols@.len() - i,
        {
            if self.symbols[i] == c {
                return Some(i);
            }
            i = i + 1;
        }
        None
    }

    /// The token ids of a text. There are none where the text has a
    /// symbol that is not in the vocabulary.
    pub fn encode(&self, s: &Vec<char>) -> (r: Option<Vec<u8>>)
        requires
            self.wf(),
        ensures
            match r {
                Some(ids) => self.covers(s@) && ids@ == self.encoded(s@),
                None => !self.covers(s@),
            },
    {
        let mut ids: Vec<u8> = Vec::new();
        let mut i: usize = 0;
        while i < s.len()
            invariant
                i <= s@.len(),
                self.wf(),
                ids@.len() == i,
                forall|t: int| 0 <= t < i ==> self.symbols().contains(#[trigger] s@[t]),
                forall|t: int| 0 <= t < i ==> (#[trigger] ids@[t]) == self.symbols().index_of(s@[t]) as u8,
            decreases s@.len() - i,
        {
            match self.position(s[i]) {
                None => {
                    return None;
                },
                Some(at) => {
                    proof {
                        self.lemma_position_unique(at as int);
                    }
                    ids.push(at as u8);
                },
            }
            i = i + 1;
        }
        assert(ids@ =~= self.encoded(s@));
        Some(ids)
    }

    /// The text that token ids stand for. There is none where an id
    /// stands for no symbol.
    pub fn decode(&self, ids: &Vec<u8>) -> (r: Option<Vec<char>>)
        ensures
            match r {
                Some(s) => self.valid(ids@) && s@ == self.decoded(ids@),
                None => !self.valid(ids@),
            },
    {
        let mut s: Vec<char> = Vec::new();
        let mut i: usize = 0;
        while i < ids.len()
            invariant
                i <= ids@.len(),
                s@.len() == i,
                forall|t: int| 0 <= t < i ==> (#[trigger] ids@[t]) < self.symbols().len(),
                forall|t: int| 0 <= t < i ==> (#[trigger] s@[t]) == self.symbols()[ids@[t] as int],
            decreases ids@.len() - i,
        {
            let id = ids[i] as usize;
            if id >= self.symbols.len() {
                return None;
            }
            s.push(self.symbols[id]);
            i = i + 1;
        }
        assert(s@ =~= self.decoded(ids@));
        Some(s)
    }
}

} // verus!
