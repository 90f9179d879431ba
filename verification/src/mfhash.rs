//! The fingerprint type and its construction from a source string.

use vstd::prelude::*;
use crate::model::{
    build_spec, capped_count, distinct_chars, freq_pairs, insert_desc,
    lemma_distinct_chars_props, lemma_freq_pairs_distinct, lemma_freq_step_absent,
    lemma_freq_step_present, lemma_insert_desc_at, lemma_sort_desc_len, sort_desc,
};
use crate::imap::{imap_get, imap_insert, imap_into_vec, imap_new, index_map_entries};
use crate::codec::{
    decode_ok, decode_pairs, digit_char, digit_char_exec, digit_val, encode_spec, is_digit,
    string_push,
};

verus! {

/// Failure of the codec.
#[derive(Debug, Clone, Copy, PartialEq, Eq, Structural)]
pub enum MFHashError {
    /// An entry's count cannot be written as one decimal digit; `index` is
    /// the position of the first such entry.
    EncodingOverflow { index: usize },
    /// The text is not in chunked canonical form; `chunk` is the index of
    /// the first offending two-character chunk: the trailing unpaired
    /// character when the length is odd, else the first chunk whose second
    /// character is not a decimal digit.
    MalformedInput { chunk: usize },
}

/// A most-frequent-character fingerprint: the `(character, count)` pairs of
/// the source's most frequent characters, sorted by count descending with
/// ties in first-appearance order, together with the requested size.
#[derive(Debug, Clone)]
pub struct MFHash {
    entries: Vec<(char, u32)>,
    k: usize,
}

impl MFHash {
    /// The entry sequence, as contracts speak of it.
    pub closed spec fn spec_entries(&self) -> Seq<(char, u32)> {
        self.entries@
    }

    /// The requested size recorded alongside the entries.
    pub closed spec fn spec_size(&self) -> nat {
        self.k as nat
    }

    /// Builds the fingerprint of `source` with requested size `k`: counts
    /// every character (saturating at `u32::MAX`), sorts the distinct
    /// characters by count descending, stably so that equal counts keep
    /// first-appearance order, and keeps the first `k` entries.
    pub fn new(source: &str, k: usize) -> (r: MFHash)
        ensures
            r.spec_entries() == build_spec(source@, k as nat),
            r.spec_size() == k as nat,
    {
        let n = source.unicode_len();
        let mut m = imap_new(n);
        let mut i: usize = 0;
        proof {
            assert(source@.take(0) =~= Seq::<char>::empty());
        }
        while i < n
            invariant
                n == source@.len(),
                i <= n,
                index_map_entries(m) == freq_pairs(source@.take(i as int)),
            decreases n - i,
        {
            let ghost t = source@.take(i as int);
            let c = source.get_char(i);
            proof {
                lemma_freq_pairs_distinct(t);
                lemma_distinct_chars_props(t);
            }
            let cur = imap_get(&m, c);
            match cur {
                Some(v) => {
                    let ghost j: int = choose|j: int|
                        0 <= j < distinct_chars(t).len() && distinct_chars(t)[j] == c;
                    proof {
                        assert(distinct_chars(t).contains(c));
                        assert(freq_pairs(t)[j].0 == c);
                        assert forall|jj: int| 0 <= jj < j implies freq_pairs(t)[jj].0 != c by {
                            assert(distinct_chars(t)[jj] != distinct_chars(t)[j]);
                        }
                        assert(cur == Some(freq_pairs(t)[j].1));
                        assert(v == capped_count(t, c));
                    }
                    let nv = if v == u32::MAX {
                        v
                    } else {
                        v + 1
                    };
                    imap_insert(&mut m, c, nv);
                    proof {
                        assert(index_map_entries(m) == freq_pairs(t).update(j, (c, nv)));
                        lemma_freq_step_present(source@, i as int, j, nv);
                    }
                },
                None => {
                    imap_insert(&mut m, c, 1);
                    proof {
                        assert(!distinct_chars(t).contains(c));
                        lemma_freq_step_absent(source@, i as int);
                    }
                },
            }
            i += 1;
        }
        proof {
            assert(source@.take(n as int) =~= source@);
        }
        let pairs = imap_into_vec(m);
        let mut sorted: Vec<(char, u32)> = Vec::new();
        let mut idx: usize = 0;
        proof {
            assert(pairs@.take(0) =~= Seq::<(char, u32)>::empty());
        }
        while idx < pairs.len()
            invariant
                idx <= pairs@.len(),
                sorted@ == sort_desc(pairs@.take(idx as int)),
            decreases pairs@.len() - idx,
        {
            let p = pairs[idx];
            let mut j: usize = 0;
            while j < sorted.len() && sorted[j].1 >= p.1
                invariant
                    j <= sorted@.len(),
                    forall|t: int| 0 <= t < j ==> sorted@[t].1 >= p.1,
                decreases sorted@.len() - j,
            {
                j += 1;
            }
            proof {
                lemma_insert_desc_at(sorted@, p, j as int);
                assert(pairs@.take(idx as int + 1).drop_last() =~= pairs@.take(idx as int));
                assert(pairs@.take(idx as int + 1).last() == p);
                assert(sort_desc(pairs@.take(idx as int + 1)) == insert_desc(
                    sort_desc(pairs@.take(idx as int)),
                    p,
                ));
            }
            sorted.insert(j, p);
            idx += 1;
        }
        proof {
            assert(pairs@.take(pairs@.len() as int) =~= pairs@);
            lemma_sort_desc_len(freq_pairs(source@));
        }
        let len = sorted.len();
        let cut = if k < len {
            k
        } else {
            len
        };
        sorted.truncate(cut);
        proof {
            if k as int <= freq_pairs(source@).len() {
                assert(sorted@ == sort_desc(freq_pairs(source@)).take(k as int));
            } else {
                assert(sorted@ =~= sort_desc(freq_pairs(source@)));
            }
        }
        MFHash { entries: sorted, k }
    }

    /// Canonical textual encoding: each entry's character followed by the
    /// single decimal digit of its count. Every count must fit one decimal
    /// digit; `encode` is the checked form that reports the counts that do
    /// not.
    pub fn to_string(&self) -> (r: String)
        requires
            forall|i: int|
                0 <= i < self.spec_entries().len() ==> (#[trigger] self.spec_entries()[i]).1 <= 9,
        ensures
            r@ == encode_spec(self.spec_entries()),
    {
        let mut out = String::new();
        let mut i: usize = 0;
        proof {
            assert(self.entries@.take(0) =~= Seq::<(char, u32)>::empty());
        }
        while i < self.entries.len()
            invariant
                i <= self.entries@.len(),
                forall|m: int|
                    0 <= m < self.spec_entries().len() ==> (#[trigger] self.spec_entries()[m]).1
                        <= 9,
                out@ == encode_spec(self.entries@.take(i as int)),
            decreases self.entries@.len() - i,
        {
            let p = self.entries[i];
            proof {
                assert(self.spec_entries()[i as int].1 <= 9);
            }
            string_push(&mut out, p.0);
            let d = digit_char_exec(p.1);
            string_push(&mut out, d);
            proof {
                assert(self.entries@.take(i as int + 1).drop_last() =~= self.entries@.take(
                    i as int,
                ));
                assert(self.entries@.take(i as int + 1).last() == p);
                assert(out@ =~= encode_spec(self.entries@.take(i as int)) + seq![
                    p.0,
                    digit_char(p.1),
                ]);
            }
            i += 1;
        }
        proof {
            assert(self.entries@.take(self.entries@.len() as int) =~= self.entries@);
        }
        out
    }

    /// Checked canonical encoding: fails with `EncodingOverflow` naming the
    /// first entry whose count does not fit one decimal digit.
    pub fn encode(&self) -> (r: Result<String, MFHashError>)
        ensures
            r is Ok <==> (forall|i: int|
                0 <= i < self.spec_entries().len() ==> (#[trigger] self.spec_entries()[i]).1 <= 9),
            r matches Ok(s) ==> s@ == encode_spec(self.spec_entries()),
            forall|i: int|
                0 <= i < self.spec_entries().len() && (#[trigger] self.spec_entries()[i]).1 > 9 && (
                forall|j: int| 0 <= j < i ==> (#[trigger] self.spec_entries()[j]).1 <= 9) ==> r
                    == Err::<String, MFHashError>(
                    MFHashError::EncodingOverflow { index: i as usize },
                ),
    {
        let mut i: usize = 0;
        while i < self.entries.len()
            invariant
                i <= self.entries@.len(),
                forall|m: int| 0 <= m < i ==> (#[trigger] self.spec_entries()[m]).1 <= 9,
            decreases self.entries@.len() - i,
        {
            if self.entries[i].1 > 9 {
                proof {
                    assert(self.spec_entries()[i as int].1 > 9);
                }
                return Err(MFHashError::EncodingOverflow { index: i });
            }
            proof {
                assert(self.spec_entries()[i as int].1 <= 9);
            }
            i += 1;
        }
        Ok(self.to_string())
    }

    /// Parses canonical fingerprint text: consecutive `(character, digit)`
    /// chunks become the entries, in the order given, and the recorded size
    /// is the number of chunks. The parse is structural: it does not check
    /// that characters are distinct or that counts descend.
    pub fn decode(text: &str) -> (r: Result<MFHash, MFHashError>)
        ensures
            r is Ok <==> decode_ok(text@),
            r matches Ok(fp) ==> fp.spec_entries() == decode_pairs(text@) && fp.spec_size()
                == text@.len() / 2,
            text@.len() % 2 != 0 ==> r == Err::<MFHash, MFHashError>(
                MFHashError::MalformedInput { chunk: (text@.len() / 2) as usize },
            ),
            text@.len() % 2 == 0 ==> (forall|i: int|
                0 <= i < text@.len() / 2 && !is_digit(#[trigger] text@[2 * i + 1]) && (forall|
                    j: int,
                | 0 <= j < i ==> is_digit(#[trigger] text@[2 * j + 1])) ==> r == Err::<
                    MFHash,
                    MFHashError,
                >(MFHashError::MalformedInput { chunk: i as usize })),
    {
        let n = text.unicode_len();
        if n % 2 != 0 {
            return Err(MFHashError::MalformedInput { chunk: n / 2 });
        }
        let half = n / 2;
        let mut entries: Vec<(char, u32)> = Vec::new();
        let mut i: usize = 0;
        while i < half
            invariant
                n == text@.len(),
                n % 2 == 0,
                half == n / 2,
                i <= half,
                forall|j: int| 0 <= j < i ==> is_digit(#[trigger] text@[2 * j + 1]),
                entries@.len() == i as int,
                forall|m: int|
                    0 <= m < i ==> #[trigger] entries@[m] == (
                        text@[2 * m],
                        digit_val(text@[2 * m + 1]),
                    ),
            decreases half - i,
        {
            let c = text.get_char(2 * i);
            let d = text.get_char(2 * i + 1);
            let x = d as u32;
            if x < 48 || x > 57 {
                return Err(MFHashError::MalformedInput { chunk: i });
            }
            entries.push((c, x - 48));
            i += 1;
        }
        proof {
            assert(entries@ =~= decode_pairs(text@));
        }
        Ok(MFHash { entries, k: half })
    }

    /// The underlying `(character, count)` pairs, an immutable view.
    pub fn entries(&self) -> (r: &Vec<(char, u32)>)
        ensures
            r@ == self.spec_entries(),
    {
        &self.entries
    }

    /// The requested size the fingerprint was built with.
    pub fn requested_size(&self) -> (r: usize)
        ensures
            r as nat == self.spec_size(),
    {
        self.k
    }
}

} // verus!
