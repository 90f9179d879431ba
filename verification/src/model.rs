//! Mathematical model of fingerprint construction: character counting,
//! first-appearance ordering, and the stable descending sort by count.

use vstd::prelude::*;

verus! {

/// Number of occurrences of the character `c` in `s`.
pub open spec fn count_in(s: Seq<char>, c: char) -> nat
    decreases s.len(),
{
    if s.len() == 0 {
        0
    } else {
        count_in(s.drop_last(), c) + (if s.last() == c {
            1nat
        } else {
            0nat
        })
    }
}

/// Occurrence count clamped to `u32`: counting saturates at `u32::MAX`
/// rather than wrapping.
pub open spec fn capped_count(s: Seq<char>, c: char) -> u32 {
    if count_in(s, c) > u32::MAX {
        u32::MAX
    } else {
        count_in(s, c) as u32
    }
}

/// The distinct characters of `s`, in order of first appearance.
pub open spec fn distinct_chars(s: Seq<char>) -> Seq<char>
    decreases s.len(),
{
    if s.len() == 0 {
        Seq::empty()
    } else {
        let rest = distinct_chars(s.drop_last());
        if rest.contains(s.last()) {
            rest
        } else {
            rest.push(s.last())
        }
    }
}

/// No character appears twice in `s`.
pub open spec fn no_dup_chars(s: Seq<char>) -> bool {
    forall|i: int, j: int| 0 <= i < j < s.len() ==> s[i] != s[j]
}

/// No two entries share a character.
pub open spec fn distinct_keys(s: Seq<(char, u32)>) -> bool {
    forall|i: int, j: int| 0 <= i < j < s.len() ==> s[i].0 != s[j].0
}

/// Some entry of `s` carries the character `c`.
pub open spec fn has_key(s: Seq<(char, u32)>, c: char) -> bool {
    exists|i: int| 0 <= i < s.len() && s[i].0 == c
}

/// The `(character, count)` pairs of `s`, one per distinct character, in
/// first-appearance order.
pub open spec fn freq_pairs(s: Seq<char>) -> Seq<(char, u32)> {
    Seq::new(distinct_chars(s).len(), |i: int| (distinct_chars(s)[i], capped_count(s, distinct_chars(s)[i])))
}

proof fn lemma_count_in_zero(s: Seq<char>, c: char)
    ensures
        count_in(s, c) == 0 <==> !s.contains(c),
    decreases s.len(),
{
    if s.len() > 0 {
        lemma_count_in_zero(s.drop_last(), c);
        assert(s.contains(c) <==> (s.drop_last().contains(c) || s.last() == c)) by {
            if s.contains(c) {
                let i = choose|i: int| 0 <= i < s.len() && s[i] == c;
                if i < s.len() - 1 {
                    assert(s.drop_last()[i] == c);
                }
            }
            if s.drop_last().contains(c) {
                let i = choose|i: int| 0 <= i < s.drop_last().len() && s.drop_last()[i] == c;
                assert(s[i] == c);
            }
            if s.last() == c {
                assert(s[s.len() - 1] == c);
            }
        }
    }
}

pub proof fn lemma_distinct_chars_props(s: Seq<char>)
    ensures
        no_dup_chars(distinct_chars(s)),
        forall|c: char| distinct_chars(s).contains(c) <==> s.contains(c),
    decreases s.len(),
{
    if s.len() == 0 {
    } else {
        let t = s.drop_last();
        let rest = distinct_chars(t);
        lemma_distinct_chars_props(t);
        assert forall|c: char| s.contains(c) implies distinct_chars(s).contains(c) by {
            let i = choose|i: int| 0 <= i < s.len() && s[i] == c;
            if i < s.len() - 1 {
                assert(t[i] == c);
                assert(t.contains(c));
                let j = choose|j: int| 0 <= j < rest.len() && rest[j] == c;
                assert(distinct_chars(s)[j] == c);
            } else {
                assert(s.last() == c);
                if rest.contains(c) {
                    let j = choose|j: int| 0 <= j < rest.len() && rest[j] == c;
                    assert(distinct_chars(s)[j] == c);
                } else {
                    assert(distinct_chars(s)[rest.len() as int] == c);
                }
            }
        }
        assert forall|c: char| distinct_chars(s).contains(c) implies s.contains(c) by {
            let j = choose|j: int| 0 <= j < distinct_chars(s).len() && distinct_chars(s)[j] == c;
            if j < rest.len() {
                assert(rest[j] == c);
                assert(rest.contains(c));
                assert(t.contains(c));
                let i = choose|i: int| 0 <= i < t.len() && t[i] == c;
                assert(s[i] == c);
            } else {
                assert(c == s.last());
                assert(s[s.len() - 1] == c);
            }
        }
        if !rest.contains(s.last()) {
            assert forall|i: int, j: int|
                0 <= i < j < distinct_chars(s).len() implies distinct_chars(s)[i]
                != distinct_chars(s)[j] by {
                if j < rest.len() {
                } else {
                    assert(distinct_chars(s)[j] == s.last());
                    assert(rest[i] == distinct_chars(s)[i]);
                    if distinct_chars(s)[i] == s.last() {
                        assert(rest.contains(s.last()));
                    }
                }
            }
        }
    }
}

/// Appending one character to the source bumps that character's count by one
/// and leaves every other count unchanged.
proof fn lemma_count_in_push(s: Seq<char>, c: char, d: char)
    ensures
        count_in(s.push(c), d) == count_in(s, d) + (if d == c {
            1nat
        } else {
            0nat
        }),
{
    assert(s.push(c).drop_last() =~= s);
    assert(s.push(c).last() == c);
}

/// Inserts `p` behind every entry whose count is at least `p`'s, so that a
/// left-to-right pass yields a stable descending sort by count.
pub open spec fn insert_desc(s: Seq<(char, u32)>, p: (char, u32)) -> Seq<(char, u32)>
    decreases s.len(),
{
    if s.len() == 0 {
        seq![p]
    } else if s[0].1 >= p.1 {
        seq![s[0]] + insert_desc(s.drop_first(), p)
    } else {
        seq![p] + s
    }
}

/// Stable sort by count descending: equal counts keep their relative order.
pub open spec fn sort_desc(s: Seq<(char, u32)>) -> Seq<(char, u32)>
    decreases s.len(),
{
    if s.len() == 0 {
        Seq::empty()
    } else {
        insert_desc(sort_desc(s.drop_last()), s.last())
    }
}

proof fn lemma_insert_desc_len(s: Seq<(char, u32)>, p: (char, u32))
    ensures
        insert_desc(s, p).len() == s.len() + 1,
    decreases s.len(),
{
    if s.len() > 0 && s[0].1 >= p.1 {
        lemma_insert_desc_len(s.drop_first(), p);
    }
}

pub proof fn lemma_sort_desc_len(s: Seq<(char, u32)>)
    ensures
        sort_desc(s).len() == s.len(),
    decreases s.len(),
{
    if s.len() > 0 {
        lemma_sort_desc_len(s.drop_last());
        lemma_insert_desc_len(sort_desc(s.drop_last()), s.last());
    }
}

/// Inserting at the first position whose count is below `p`'s count is what
/// `insert_desc` does.
pub proof fn lemma_insert_desc_at(s: Seq<(char, u32)>, p: (char, u32), j: int)
    requires
        0 <= j <= s.len(),
        forall|m: int| 0 <= m < j ==> s[m].1 >= p.1,
        j < s.len() ==> s[j].1 < p.1,
    ensures
        insert_desc(s, p) == s.insert(j, p),
    decreases j,
{
    if j == 0 {
        if s.len() == 0 {
            assert(insert_desc(s, p) =~= s.insert(0, p));
        } else {
            assert(s[0].1 < p.1);
            assert(insert_desc(s, p) =~= s.insert(0, p));
        }
    } else {
        assert(s[0].1 >= p.1);
        lemma_insert_desc_at(s.drop_first(), p, j - 1);
        assert(seq![s[0]] + s.drop_first().insert(j - 1, p) =~= s.insert(j, p));
    }
}

/// Inserting an entry with a fresh character preserves key distinctness and
/// adds exactly that character to the key set.
proof fn lemma_insert_desc_keys(s: Seq<(char, u32)>, p: (char, u32))
    requires
        distinct_keys(s),
        !has_key(s, p.0),
    ensures
        distinct_keys(insert_desc(s, p)),
        forall|c: char| has_key(insert_desc(s, p), c) <==> has_key(s, c) || c == p.0,
    decreases s.len(),
{
    if s.len() == 0 {
        assert forall|c: char| has_key(insert_desc(s, p), c) implies has_key(s, c) || c
            == p.0 by {
            let i = choose|i: int| 0 <= i < insert_desc(s, p).len() && insert_desc(s, p)[i].0 == c;
            assert(insert_desc(s, p)[0] == p);
        }
        assert(insert_desc(s, p)[0] == p);
    } else if s[0].1 >= p.1 {
        let t = s.drop_first();
        assert(distinct_keys(t)) by {
            assert(forall|i: int, j: int|
                0 <= i < j < t.len() ==> t[i].0 == s[i + 1].0 && t[j].0 == s[j + 1].0);
        }
        assert(!has_key(t, p.0)) by {
            if has_key(t, p.0) {
                let i = choose|i: int| 0 <= i < t.len() && t[i].0 == p.0;
                assert(s[i + 1].0 == p.0);
            }
        }
        lemma_insert_desc_keys(t, p);
        let r = insert_desc(s, p);
        let ri = insert_desc(t, p);
        assert(r == seq![s[0]] + ri);
        lemma_insert_desc_len(t, p);
        assert forall|c: char| has_key(r, c) implies has_key(s, c) || c == p.0 by {
            let i = choose|i: int| 0 <= i < r.len() && r[i].0 == c;
            if i == 0 {
                assert(s[0].0 == c);
            } else {
                assert(ri[i - 1].0 == c);
                assert(has_key(ri, c));
                if has_key(t, c) {
                    let m = choose|m: int| 0 <= m < t.len() && t[m].0 == c;
                    assert(s[m + 1].0 == c);
                }
            }
        }
        assert forall|c: char| has_key(s, c) || c == p.0 implies has_key(r, c) by {
            if has_key(s, c) {
                let i = choose|i: int| 0 <= i < s.len() && s[i].0 == c;
                if i == 0 {
                    assert(r[0].0 == c);
                } else {
                    assert(t[i - 1].0 == c);
                    assert(has_key(t, c));
                    assert(has_key(ri, c));
                    let m = choose|m: int| 0 <= m < ri.len() && ri[m].0 == c;
                    assert(r[m + 1].0 == c);
                }
            } else {
                assert(has_key(ri, p.0));
                let m = choose|m: int| 0 <= m < ri.len() && ri[m].0 == p.0;
                assert(r[m + 1].0 == p.0);
            }
        }
        assert forall|i: int, j: int| 0 <= i < j < r.len() implies r[i].0 != r[j].0 by {
            if i == 0 {
                assert(r[j].0 == ri[j - 1].0);
                assert(has_key(ri, ri[j - 1].0));
                if r[0].0 == r[j].0 {
                    assert(has_key(s, s[0].0) || s[0].0 == p.0) by {
                        assert(s[0].0 == s[0].0);
                    }
                    if has_key(t, s[0].0) {
                        let m = choose|m: int| 0 <= m < t.len() && t[m].0 == s[0].0;
                        assert(s[m + 1].0 == s[0].0);
                    }
                }
            } else {
                assert(r[i].0 == ri[i - 1].0 && r[j].0 == ri[j - 1].0);
            }
        }
    } else {
        let r = insert_desc(s, p);
        assert(r == seq![p] + s);
        assert forall|c: char| has_key(r, c) implies has_key(s, c) || c == p.0 by {
            let i = choose|i: int| 0 <= i < r.len() && r[i].0 == c;
            if i > 0 {
                assert(s[i - 1].0 == c);
            }
        }
        assert forall|c: char| has_key(s, c) || c == p.0 implies has_key(r, c) by {
            if has_key(s, c) {
                let i = choose|i: int| 0 <= i < s.len() && s[i].0 == c;
                assert(r[i + 1].0 == c);
            } else {
                assert(r[0].0 == p.0);
            }
        }
        assert forall|i: int, j: int| 0 <= i < j < r.len() implies r[i].0 != r[j].0 by {
            if i == 0 {
                assert(r[j].0 == s[j - 1].0);
                if r[0].0 == r[j].0 {
                    assert(has_key(s, p.0));
                }
            } else {
                assert(r[i].0 == s[i - 1].0 && r[j].0 == s[j - 1].0);
            }
        }
    }
}

/// Sorting preserves key distinctness and the key set.
proof fn lemma_sort_desc_keys(s: Seq<(char, u32)>)
    requires
        distinct_keys(s),
    ensures
        distinct_keys(sort_desc(s)),
        forall|c: char| has_key(sort_desc(s), c) <==> has_key(s, c),
    decreases s.len(),
{
    if s.len() > 0 {
        let t = s.drop_last();
        assert(distinct_keys(t));
        lemma_sort_desc_keys(t);
        assert(!has_key(sort_desc(t), s.last().0)) by {
            if has_key(t, s.last().0) {
                let i = choose|i: int| 0 <= i < t.len() && t[i].0 == s.last().0;
                assert(s[i].0 == s[s.len() - 1].0);
            }
        }
        lemma_insert_desc_keys(sort_desc(t), s.last());
        assert forall|c: char| has_key(sort_desc(s), c) implies has_key(s, c) by {
            if has_key(t, c) {
                let i = choose|i: int| 0 <= i < t.len() && t[i].0 == c;
                assert(s[i].0 == c);
            } else {
                assert(s[s.len() - 1].0 == c);
            }
        }
        assert forall|c: char| has_key(s, c) implies has_key(sort_desc(s), c) by {
            let i = choose|i: int| 0 <= i < s.len() && s[i].0 == c;
            if i < s.len() - 1 {
                assert(t[i].0 == c);
                assert(has_key(t, c));
            }
        }
    }
}

/// Appending one character extends the distinct-character sequence exactly
/// when the character is new.
proof fn lemma_distinct_chars_push(s: Seq<char>, c: char)
    ensures
        distinct_chars(s.push(c)) == if distinct_chars(s).contains(c) {
            distinct_chars(s)
        } else {
            distinct_chars(s).push(c)
        },
{
    assert(s.push(c).drop_last() =~= s);
    assert(s.push(c).last() == c);
}

/// The entry sequence of the fingerprint built from `s` with requested size
/// `k`: the frequency pairs in first-appearance order, stably sorted by count
/// descending, truncated to at most `k` entries.
pub open spec fn build_spec(s: Seq<char>, k: nat) -> Seq<(char, u32)> {
    if k as int <= freq_pairs(s).len() {
        sort_desc(freq_pairs(s)).take(k as int)
    } else {
        sort_desc(freq_pairs(s))
    }
}

pub proof fn lemma_freq_pairs_distinct(s: Seq<char>)
    ensures
        distinct_keys(freq_pairs(s)),
        forall|c: char| has_key(freq_pairs(s), c) <==> distinct_chars(s).contains(c),
{
    lemma_distinct_chars_props(s);
    let fp = freq_pairs(s);
    let dc = distinct_chars(s);
    assert forall|c: char| has_key(fp, c) implies dc.contains(c) by {
        let i = choose|i: int| 0 <= i < fp.len() && fp[i].0 == c;
        assert(dc[i] == c);
    }
    assert forall|c: char| dc.contains(c) implies has_key(fp, c) by {
        let i = choose|i: int| 0 <= i < dc.len() && dc[i] == c;
        assert(fp[i].0 == c);
    }
}

/// One counting step over a character already seen: the frequency pairs are
/// updated in place at that character's position.
pub proof fn lemma_freq_step_present(s: Seq<char>, i: int, j: int, nv: u32)
    requires
        0 <= i < s.len(),
        0 <= j < distinct_chars(s.take(i)).len(),
        distinct_chars(s.take(i))[j] == s[i],
        nv == (if capped_count(s.take(i), s[i]) == u32::MAX {
            u32::MAX
        } else {
            (capped_count(s.take(i), s[i]) + 1) as u32
        }),
    ensures
        freq_pairs(s.take(i + 1)) == freq_pairs(s.take(i)).update(j, (s[i], nv)),
{
    let t = s.take(i);
    let t2 = s.take(i + 1);
    let c = s[i];
    let dc = distinct_chars(t);
    assert(t2 =~= t.push(c));
    lemma_distinct_chars_push(t, c);
    lemma_distinct_chars_props(t);
    assert(dc.contains(c));
    assert(distinct_chars(t2) == dc);
    assert forall|m: int| 0 <= m < dc.len() implies #[trigger] count_in(t2, dc[m]) == count_in(
        t,
        dc[m],
    ) + (if dc[m] == c {
        1nat
    } else {
        0nat
    }) by {
        lemma_count_in_push(t, c, dc[m]);
    }
    assert forall|m: int| 0 <= m < dc.len() && m != j implies #[trigger] dc[m] != c by {
        if dc[m] == c {
            assert(dc[m] == dc[j]);
        }
    }
    assert(freq_pairs(t2) =~= freq_pairs(t).update(j, (c, nv))) by {
        assert forall|m: int| 0 <= m < dc.len() implies freq_pairs(t2)[m] == freq_pairs(t).update(
            j,
            (c, nv),
        )[m] by {
            if m == j {
                assert(count_in(t2, c) == count_in(t, c) + 1);
                assert(capped_count(t2, c) == nv);
            } else {
                assert(dc[m] != c);
                assert(count_in(t2, dc[m]) == count_in(t, dc[m]));
            }
        }
    }
}

/// One counting step over a character not seen before: a fresh pair with
/// count one is appended.
pub proof fn lemma_freq_step_absent(s: Seq<char>, i: int)
    requires
        0 <= i < s.len(),
        !distinct_chars(s.take(i)).contains(s[i]),
    ensures
        freq_pairs(s.take(i + 1)) == freq_pairs(s.take(i)).push((s[i], 1)),
{
    let t = s.take(i);
    let t2 = s.take(i + 1);
    let c = s[i];
    let dc = distinct_chars(t);
    assert(t2 =~= t.push(c));
    lemma_distinct_chars_push(t, c);
    lemma_distinct_chars_props(t);
    assert(distinct_chars(t2) == dc.push(c));
    lemma_count_in_zero(t, c);
    assert(count_in(t, c) == 0);
    assert forall|m: int| 0 <= m < dc.len() implies #[trigger] count_in(t2, dc[m]) == count_in(
        t,
        dc[m],
    ) + (if dc[m] == c {
        1nat
    } else {
        0nat
    }) by {
        lemma_count_in_push(t, c, dc[m]);
    }
    lemma_count_in_push(t, c, c);
    assert(freq_pairs(t2) =~= freq_pairs(t).push((c, 1))) by {
        assert forall|m: int| 0 <= m < dc.len() + 1 implies freq_pairs(t2)[m] == freq_pairs(
            t,
        ).push((c, 1))[m] by {
            if m < dc.len() {
                assert(dc[m] != c) by {
                    if dc[m] == c {
                        assert(dc.contains(c));
                    }
                }
                assert(distinct_chars(t2)[m] == dc[m]);
                assert(count_in(t2, dc[m]) == count_in(t, dc[m]));
            } else {
                assert(distinct_chars(t2)[m] == c);
                assert(count_in(t2, c) == 1);
            }
        }
    }
}

/// A fingerprint asked to hold zero entries holds none, whatever the source.
pub proof fn lemma_build_zero(s: Seq<char>)
    ensures
        build_spec(s, 0).len() == 0,
{
    lemma_sort_desc_len(freq_pairs(s));
}

/// A requested size of at least the number of distinct characters yields one
/// entry per distinct character.
pub proof fn lemma_build_full(s: Seq<char>, k: nat)
    requires
        k >= distinct_chars(s).len(),
    ensures
        build_spec(s, k).len() == distinct_chars(s).len(),
{
    lemma_sort_desc_len(freq_pairs(s));
}

/// The fingerprint always holds the smaller of the requested size and the
/// number of distinct characters in the source.
pub proof fn lemma_build_len(s: Seq<char>, k: nat)
    ensures
        build_spec(s, k).len() == if k <= distinct_chars(s).len() {
            k
        } else {
            distinct_chars(s).len()
        },
{
    lemma_sort_desc_len(freq_pairs(s));
}

/// Counts never increase from one entry to the next.
pub open spec fn sorted_desc(s: Seq<(char, u32)>) -> bool {
    forall|i: int| 0 <= i < s.len() - 1 ==> (#[trigger] s[i]).1 >= s[i + 1].1
}

proof fn lemma_insert_desc_sorted(s: Seq<(char, u32)>, p: (char, u32))
    requires
        sorted_desc(s),
    ensures
        sorted_desc(insert_desc(s, p)),
    decreases s.len(),
{
    if s.len() == 0 {
    } else if s[0].1 >= p.1 {
        let t = s.drop_first();
        assert(sorted_desc(t)) by {
            assert(forall|i: int|
                0 <= i < t.len() - 1 ==> #[trigger] t[i] == s[i + 1] && t[i + 1] == s[i + 2]);
        }
        lemma_insert_desc_sorted(t, p);
        let r = insert_desc(s, p);
        let ri = insert_desc(t, p);
        lemma_insert_desc_len(t, p);
        assert(r == seq![s[0]] + ri);
        assert(s[0].1 >= ri[0].1) by {
            if t.len() == 0 {
                assert(ri[0] == p);
            } else if t[0].1 >= p.1 {
                assert(ri[0] == t[0]);
                assert(t[0] == s[1]);
            } else {
                assert(ri[0] == p);
            }
        }
        assert forall|i: int| 0 <= i < r.len() - 1 implies (#[trigger] r[i]).1 >= r[i + 1].1 by {
            if i == 0 {
                assert(r[1] == ri[0]);
            } else {
                assert(r[i] == ri[i - 1] && r[i + 1] == ri[i]);
            }
        }
    }
}

proof fn lemma_sort_desc_sorted(s: Seq<(char, u32)>)
    ensures
        sorted_desc(sort_desc(s)),
    decreases s.len(),
{
    if s.len() > 0 {
        lemma_sort_desc_sorted(s.drop_last());
        lemma_insert_desc_sorted(sort_desc(s.drop_last()), s.last());
    }
}

/// Entries of a built fingerprint are sorted by count descending.
pub proof fn lemma_build_sorted(s: Seq<char>, k: nat)
    ensures
        sorted_desc(build_spec(s, k)),
{
    lemma_sort_desc_sorted(freq_pairs(s));
    lemma_sort_desc_len(freq_pairs(s));
    let sorted = sort_desc(freq_pairs(s));
    let b = build_spec(s, k);
    assert forall|i: int| 0 <= i < b.len() - 1 implies (#[trigger] b[i]).1 >= b[i + 1].1 by {
        assert(b[i] == sorted[i] && b[i + 1] == sorted[i + 1]);
    }
}

proof fn lemma_insert_desc_contains_p(s: Seq<(char, u32)>, p: (char, u32))
    ensures
        insert_desc(s, p).contains(p),
    decreases s.len(),
{
    let r = insert_desc(s, p);
    if s.len() == 0 {
        assert(r[0] == p);
    } else if s[0].1 >= p.1 {
        lemma_insert_desc_contains_p(s.drop_first(), p);
        let ri = insert_desc(s.drop_first(), p);
        let m = choose|m: int| 0 <= m < ri.len() && ri[m] == p;
        assert(r[m + 1] == p);
    } else {
        assert(r[0] == p);
    }
}

proof fn lemma_insert_desc_elems(s: Seq<(char, u32)>, p: (char, u32))
    ensures
        forall|e: (char, u32)| insert_desc(s, p).contains(e) <==> s.contains(e) || e == p,
    decreases s.len(),
{
    let r = insert_desc(s, p);
    if s.len() == 0 {
        assert forall|e: (char, u32)| r.contains(e) implies s.contains(e) || e == p by {
            let i = choose|i: int| 0 <= i < r.len() && r[i] == e;
            assert(r[0] == p);
        }
        assert(r[0] == p);
    } else if s[0].1 >= p.1 {
        let t = s.drop_first();
        lemma_insert_desc_elems(t, p);
        let ri = insert_desc(t, p);
        lemma_insert_desc_len(t, p);
        assert(r == seq![s[0]] + ri);
        assert forall|e: (char, u32)| r.contains(e) implies s.contains(e) || e == p by {
            let i = choose|i: int| 0 <= i < r.len() && r[i] == e;
            if i == 0 {
                assert(s[0] == e);
            } else {
                assert(ri[i - 1] == e);
                assert(ri.contains(e));
                if t.contains(e) {
                    let m = choose|m: int| 0 <= m < t.len() && t[m] == e;
                    assert(s[m + 1] == e);
                }
            }
        }
        assert forall|e: (char, u32)| s.contains(e) || e == p implies r.contains(e) by {
            if s.contains(e) {
                let i = choose|i: int| 0 <= i < s.len() && s[i] == e;
                if i == 0 {
                    assert(r[0] == e);
                } else {
                    assert(t[i - 1] == e);
                    assert(t.contains(e));
                    assert(ri.contains(e));
                    let m = choose|m: int| 0 <= m < ri.len() && ri[m] == e;
                    assert(r[m + 1] == e);
                }
            } else {
                lemma_insert_desc_contains_p(t, p);
                let m = choose|m: int| 0 <= m < ri.len() && ri[m] == p;
                assert(r[m + 1] == p);
            }
        }
    } else {
        assert(r == seq![p] + s);
        assert forall|e: (char, u32)| r.contains(e) implies s.contains(e) || e == p by {
            let i = choose|i: int| 0 <= i < r.len() && r[i] == e;
            if i > 0 {
                assert(s[i - 1] == e);
            }
        }
        assert forall|e: (char, u32)| s.contains(e) || e == p implies r.contains(e) by {
            if s.contains(e) {
                let i = choose|i: int| 0 <= i < s.len() && s[i] == e;
                assert(r[i + 1] == e);
            } else {
                assert(r[0] == p);
            }
        }
    }
}

proof fn lemma_sort_desc_elems(s: Seq<(char, u32)>)
    ensures
        forall|e: (char, u32)| sort_desc(s).contains(e) <==> s.contains(e),
    decreases s.len(),
{
    if s.len() > 0 {
        let t = s.drop_last();
        lemma_sort_desc_elems(t);
        lemma_insert_desc_elems(sort_desc(t), s.last());
        assert forall|e: (char, u32)| sort_desc(s).contains(e) implies s.contains(e) by {
            if t.contains(e) {
                let i = choose|i: int| 0 <= i < t.len() && t[i] == e;
                assert(s[i] == e);
            } else {
                assert(s[s.len() - 1] == e);
            }
        }
        assert forall|e: (char, u32)| s.contains(e) implies sort_desc(s).contains(e) by {
            let i = choose|i: int| 0 <= i < s.len() && s[i] == e;
            if i < s.len() - 1 {
                assert(t[i] == e);
                assert(t.contains(e));
                assert(sort_desc(t).contains(e));
            } else {
                assert(s.last() == e);
                lemma_insert_desc_contains_p(sort_desc(t), s.last());
            }
        }
    }
}

/// Every entry of a built fingerprint pairs a character of the source with
/// that character's exact occurrence count (clamped to `u32`).
pub proof fn lemma_build_counts(s: Seq<char>, k: nat)
    ensures
        forall|m: int|
            0 <= m < build_spec(s, k).len() ==> s.contains((#[trigger] build_spec(s, k)[m]).0)
                && build_spec(s, k)[m].1 == capped_count(s, build_spec(s, k)[m].0),
{
    lemma_sort_desc_elems(freq_pairs(s));
    lemma_sort_desc_len(freq_pairs(s));
    lemma_distinct_chars_props(s);
    let sorted = sort_desc(freq_pairs(s));
    let b = build_spec(s, k);
    assert forall|m: int| 0 <= m < b.len() implies s.contains((#[trigger] b[m]).0) && b[m].1
        == capped_count(s, b[m].0) by {
        assert(b[m] == sorted[m]);
        assert(sorted.contains(sorted[m]));
        assert(freq_pairs(s).contains(sorted[m]));
        let i = choose|i: int| 0 <= i < freq_pairs(s).len() && freq_pairs(s)[i] == sorted[m];
        assert(freq_pairs(s)[i].0 == distinct_chars(s)[i]);
        assert(distinct_chars(s).contains(distinct_chars(s)[i]));
    }
}

/// Built fingerprints never carry the same character twice.
pub proof fn lemma_build_distinct(s: Seq<char>, k: nat)
    ensures
        distinct_keys(build_spec(s, k)),
{
    lemma_freq_pairs_distinct(s);
    lemma_sort_desc_keys(freq_pairs(s));
    lemma_sort_desc_len(freq_pairs(s));
    let sorted = sort_desc(freq_pairs(s));
    let b = build_spec(s, k);
    assert forall|i: int, j: int| 0 <= i < j < b.len() implies b[i].0 != b[j].0 by {
        assert(b[i] == sorted[i] && b[j] == sorted[j]);
    }
}

} // verus!
