//! The similarity score between two fingerprints.

use vstd::prelude::*;
use crate::model::{distinct_keys, has_key};
use crate::mfhash::MFHash;

verus! {

/// The count stored for `c` in `b`, at its first occurrence.
pub open spec fn lookup(b: Seq<(char, u32)>, c: char) -> Option<u32>
    decreases b.len(),
{
    if b.len() == 0 {
        None
    } else if b[0].0 == c {
        Some(b[0].1)
    } else {
        lookup(b.drop_first(), c)
    }
}

/// What one entry of the first fingerprint adds to the score: nothing when its
/// character is absent from the second; the count once when the two counts
/// agree; their sum otherwise.
pub open spec fn entry_score(p: (char, u32), b: Seq<(char, u32)>) -> nat {
    match lookup(b, p.0) {
        None => 0,
        Some(w) => if p.1 == w {
            p.1 as nat
        } else {
            (p.1 + w) as nat
        },
    }
}

/// The similarity score of two entry sequences: what each entry of the
/// first adds, summed.
pub open spec fn score_spec(a: Seq<(char, u32)>, b: Seq<(char, u32)>) -> nat
    decreases a.len(),
{
    if a.len() == 0 {
        0
    } else {
        score_spec(a.drop_last(), b) + entry_score(a.last(), b)
    }
}

/// The score clamped to `u32`: scoring saturates at `u32::MAX` rather than
/// wrapping.
pub open spec fn capped_score(a: Seq<(char, u32)>, b: Seq<(char, u32)>) -> u32 {
    if score_spec(a, b) > u32::MAX {
        u32::MAX
    } else {
        score_spec(a, b) as u32
    }
}

/// The counts of `a`, summed.
pub open spec fn sum_counts(a: Seq<(char, u32)>) -> nat
    decreases a.len(),
{
    if a.len() == 0 {
        0
    } else {
        sum_counts(a.drop_last()) + a.last().1 as nat
    }
}

proof fn lemma_lookup_absent(b: Seq<(char, u32)>, c: char)
    ensures
        lookup(b, c) is None <==> !has_key(b, c),
    decreases b.len(),
{
    if b.len() > 0 {
        if b[0].0 == c {
            assert(has_key(b, c));
        } else {
            lemma_lookup_absent(b.drop_first(), c);
            let t = b.drop_first();
            assert(has_key(b, c) <==> has_key(t, c)) by {
                if has_key(b, c) {
                    let i = choose|i: int| 0 <= i < b.len() && b[i].0 == c;
                    assert(t[i - 1].0 == c);
                }
                if has_key(t, c) {
                    let i = choose|i: int| 0 <= i < t.len() && t[i].0 == c;
                    assert(b[i + 1].0 == c);
                }
            }
        }
    }
}

proof fn lemma_lookup_at(b: Seq<(char, u32)>, i: int)
    requires
        distinct_keys(b),
        0 <= i < b.len(),
    ensures
        lookup(b, b[i].0) == Some(b[i].1),
    decreases b.len(),
{
    if i > 0 {
        let t = b.drop_first();
        assert(distinct_keys(t)) by {
            assert(forall|m: int, n: int|
                0 <= m < n < t.len() ==> t[m].0 == b[m + 1].0 && t[n].0 == b[n + 1].0);
        }
        assert(t[i - 1] == b[i]);
        lemma_lookup_at(t, i - 1);
    }
}

proof fn lemma_lookup_drop_last(b: Seq<(char, u32)>, c: char)
    requires
        b.len() > 0,
        b.last().0 != c,
    ensures
        lookup(b, c) == lookup(b.drop_last(), c),
    decreases b.len(),
{
    if b.len() == 1 {
        assert(b.drop_last() =~= Seq::<(char, u32)>::empty());
        assert(b.drop_first() =~= Seq::<(char, u32)>::empty());
    } else if b[0].0 == c {
        assert(b.drop_last()[0] == b[0]);
    } else {
        assert(b.drop_first().last() == b.last());
        lemma_lookup_drop_last(b.drop_first(), c);
        assert(b.drop_first().drop_last() =~= b.drop_last().drop_first());
        assert(b.drop_last()[0] == b[0]);
    }
}

proof fn lemma_score_empty(b: Seq<(char, u32)>, e: Seq<(char, u32)>)
    requires
        e.len() == 0,
    ensures
        score_spec(b, e) == 0,
    decreases b.len(),
{
    if b.len() > 0 {
        lemma_score_empty(b.drop_last(), e);
    }
}

/// Removing the last entry of the second fingerprint removes from the score
/// exactly the contribution its character made, when neither fingerprint
/// repeats a character.
proof fn lemma_score_drop_entry(b: Seq<(char, u32)>, a: Seq<(char, u32)>)
    requires
        distinct_keys(a),
        distinct_keys(b),
        a.len() > 0,
    ensures
        score_spec(b, a) == score_spec(b, a.drop_last()) + (match lookup(b, a.last().0) {
            None => 0nat,
            Some(w) => if w == a.last().1 {
                w as nat
            } else {
                (w + a.last().1) as nat
            },
        }),
    decreases b.len(),
{
    let c = a.last().0;
    let v = a.last().1;
    if b.len() == 0 {
    } else {
        let q = b.last();
        let bt = b.drop_last();
        assert(distinct_keys(bt));
        lemma_score_drop_entry(bt, a);
        lemma_lookup_at(a, a.len() - 1);
        assert(!has_key(a.drop_last(), c)) by {
            if has_key(a.drop_last(), c) {
                let i = choose|i: int| 0 <= i < a.drop_last().len() && a.drop_last()[i].0 == c;
                assert(a[i].0 == a[a.len() - 1].0);
            }
        }
        lemma_lookup_absent(a.drop_last(), c);
        if q.0 == c {
            lemma_lookup_at(b, b.len() - 1);
            assert(!has_key(bt, c)) by {
                if has_key(bt, c) {
                    let i = choose|i: int| 0 <= i < bt.len() && bt[i].0 == c;
                    assert(b[i].0 == b[b.len() - 1].0);
                }
            }
            lemma_lookup_absent(bt, c);
            assert(entry_score(q, a.drop_last()) == 0);
        } else {
            lemma_lookup_drop_last(b, c);
            lemma_lookup_drop_last(a, q.0);
            assert(entry_score(q, a) == entry_score(q, a.drop_last()));
        }
    }
}

/// The score is symmetric for fingerprints without duplicate characters:
/// swapping the two sides changes which entries drive the iteration, not any
/// per-character contribution.
pub proof fn lemma_score_symmetric(a: Seq<(char, u32)>, b: Seq<(char, u32)>)
    requires
        distinct_keys(a),
        distinct_keys(b),
    ensures
        score_spec(a, b) == score_spec(b, a),
    decreases a.len(),
{
    if a.len() == 0 {
        lemma_score_empty(b, a);
    } else {
        assert(distinct_keys(a.drop_last()));
        lemma_score_symmetric(a.drop_last(), b);
        lemma_score_drop_entry(b, a);
    }
}

proof fn lemma_score_against(x: Seq<(char, u32)>, a: Seq<(char, u32)>)
    requires
        distinct_keys(a),
        forall|i: int| 0 <= i < x.len() ==> a.contains(#[trigger] x[i]),
    ensures
        score_spec(x, a) == sum_counts(x),
    decreases x.len(),
{
    if x.len() > 0 {
        let t = x.drop_last();
        assert(forall|i: int| 0 <= i < t.len() ==> a.contains(#[trigger] t[i])) by {
            assert(forall|i: int| 0 <= i < t.len() ==> t[i] == x[i]);
        }
        lemma_score_against(t, a);
        assert(a.contains(x[x.len() - 1]));
        let i = choose|i: int| 0 <= i < a.len() && a[i] == x.last();
        lemma_lookup_at(a, i);
        assert(entry_score(x.last(), a) == x.last().1);
    }
}

/// Scoring a duplicate-free fingerprint against itself gives the sum of its
/// counts: every character matches itself with an equal count, which
/// contributes the count once, not twice.
pub proof fn lemma_score_self(a: Seq<(char, u32)>)
    requires
        distinct_keys(a),
    ensures
        score_spec(a, a) == sum_counts(a),
{
    assert(forall|i: int| 0 <= i < a.len() ==> a.contains(#[trigger] a[i]));
    lemma_score_against(a, a);
}

/// Looks up the count stored for `c`, at its first occurrence.
fn find_count(entries: &Vec<(char, u32)>, c: char) -> (r: Option<u32>)
    ensures
        r == lookup(entries@, c),
{
    let mut j: usize = 0;
    proof {
        assert(entries@.skip(0) =~= entries@);
    }
    while j < entries.len()
        invariant
            j <= entries@.len(),
            lookup(entries@, c) == lookup(entries@.skip(j as int), c),
        decreases entries@.len() - j,
    {
        let p = entries[j];
        proof {
            assert(entries@.skip(j as int)[0] == p);
        }
        if p.0 == c {
            return Some(p.1);
        }
        proof {
            assert(entries@.skip(j as int).drop_first() =~= entries@.skip(j as int + 1));
        }
        j += 1;
    }
    proof {
        assert(entries@.skip(entries@.len() as int) =~= Seq::<(char, u32)>::empty());
    }
    None
}

/// Similarity between two fingerprints: for each entry of the first whose
/// character also stands in the second, the count once when the two counts
/// are equal, else the sum of the two counts; all contributions summed,
/// saturating at `u32::MAX` rather than wrapping.
pub fn similarity(hash1: &MFHash, hash2: &MFHash) -> (r: u32)
    ensures
        r == capped_score(hash1.spec_entries(), hash2.spec_entries()),
{
    let e1 = hash1.entries();
    let e2 = hash2.entries();
    let mut acc: u32 = 0;
    let mut i: usize = 0;
    proof {
        assert(e1@.take(0) =~= Seq::<(char, u32)>::empty());
    }
    while i < e1.len()
        invariant
            i <= e1@.len(),
            acc == capped_score(e1@.take(i as int), e2@),
        decreases e1@.len() - i,
    {
        let p = e1[i];
        let found = find_count(e2, p.0);
        let add: u32 = match found {
            None => 0,
            Some(w) => if p.1 == w {
                p.1
            } else {
                if p.1 <= u32::MAX - w {
                    p.1 + w
                } else {
                    u32::MAX
                }
            },
        };
        proof {
            assert(add == if entry_score(p, e2@) > u32::MAX {
                u32::MAX
            } else {
                entry_score(p, e2@) as u32
            });
        }
        acc = if acc <= u32::MAX - add {
            acc + add
        } else {
            u32::MAX
        };
        proof {
            assert(e1@.take(i as int + 1).drop_last() =~= e1@.take(i as int));
            assert(e1@.take(i as int + 1).last() == p);
        }
        i += 1;
    }
    proof {
        assert(e1@.take(e1@.len() as int) =~= e1@);
    }
    acc
}

} // verus!
