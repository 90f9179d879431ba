//! Most-frequent-character fingerprints (MFHash) for strings, with a
//! canonical textual codec and a similarity score between fingerprints.

use vstd::prelude::*;

pub mod codec;
pub mod imap;
pub mod mfhash;
pub mod model;
pub mod similarity;

pub use mfhash::MFHash;
pub use mfhash::MFHashError;
pub use similarity::similarity;

use crate::model::build_spec;
use crate::similarity::capped_score;

verus! {

/// Capped distance: `limit - s`, saturating at zero when the score exceeds
/// the cap.
pub open spec fn capped_sub(limit: u32, s: u32) -> u32 {
    if s > limit {
        0
    } else {
        (limit - s) as u32
    }
}

/// Builds the fingerprints of the two strings with requested size `k` and
/// scores them. With a cap, the result is the bounded distance
/// `cap - score`, saturating at zero when the score exceeds the cap;
/// without one, the raw similarity score.
pub fn mkfs(string1: &str, string2: &str, k: usize, max_distance: Option<u32>) -> (r: u32)
    ensures
        max_distance is None ==> r == capped_score(
            build_spec(string1@, k as nat),
            build_spec(string2@, k as nat),
        ),
        max_distance matches Some(limit) ==> r == capped_sub(
            limit,
            capped_score(build_spec(string1@, k as nat), build_spec(string2@, k as nat)),
        ),
{
    let fp1 = MFHash::new(string1, k);
    let fp2 = MFHash::new(string2, k);
    let distance = similarity(&fp1, &fp2);
    match max_distance {
        Some(limit) => if distance > limit {
            0
        } else {
            limit - distance
        },
        None => distance,
    }
}

} // verus!
