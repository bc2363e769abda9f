//! Barcode correction against a whitelist. Barcodes are two-bit encoded
//! nucleotide sequences held in `u64`; an observed barcode is corrected to
//! a whitelisted one when it matches directly or sits within one base
//! substitution of it, and ambiguous matches are silently excluded from the
//! mapping rather than guessed. The search itself is external; its contract
//! states the mapping's shape over a base-mismatch distance.

use vstd::prelude::*;
use std::collections::HashMap;
use vstd::arithmetic::power2::pow2;
verus! {

/// The encoded value uses only the low `seq_len` two-bit bases.
pub open spec fn fits_base_len(v: u64, seq_len: usize) -> bool {
    (v as nat) < pow2(2 * seq_len as nat)
}

/// Number of differing two-bit bases among the low `len` bases of two
/// encoded sequences.
pub open spec fn base_mismatches(a: u64, b: u64, len: nat) -> int
    decreases len,
{
    if len == 0 {
        0
    } else {
        base_mismatches(a / 4, b / 4, (len - 1) as nat) + if a % 4 == b % 4 {
            0int
        } else {
            1int
        }
    }
}

/// Relies on bustools_cli's `build_correct_map`: each observed barcode that
/// equals a whitelist entry maps to itself; each other observed barcode
/// within one base substitution of exactly one whitelist entry maps to that
/// entry; one within a substitution of two or more entries is ambiguous and
/// left out, as is one near no entry. Inputs must encode at most 32 bases,
/// fit the stated length, and lie below `u64::MAX` (the distance
/// computation asserts strictly-below and would abort on the all-T 32-base
/// barcode).
#[verifier::external_body]
fn correct_map(observed: &Vec<u64>, whitelist: &Vec<u64>, seq_len: usize) -> (r: HashMap<
    u64,
    u64,
>)
    requires
        1 <= seq_len <= 32,
        forall|i: int| 0 <= i < observed@.len() ==> fits_base_len(#[trigger] observed@[i], seq_len),
        forall|i: int|
            0 <= i < whitelist@.len() ==> fits_base_len(#[trigger] whitelist@[i], seq_len),
        forall|i: int| 0 <= i < observed@.len() ==> (#[trigger] observed@[i]) < u64::MAX,
        forall|i: int| 0 <= i < whitelist@.len() ==> (#[trigger] whitelist@[i]) < u64::MAX,
    ensures
        forall|cb: u64| #[trigger] r@.contains_key(cb) ==> observed@.contains(cb),
        forall|cb: u64|
            observed@.contains(cb) && whitelist@.contains(cb) ==> #[trigger] r@.contains_key(cb)
                && r@[cb] == cb,
        forall|cb: u64|
            #[trigger] r@.contains_key(cb) ==> whitelist@.contains(r@[cb]) && base_mismatches(
                cb,
                r@[cb],
                seq_len as nat,
            ) <= 1,
        forall|cb: u64, w: u64|
            #![trigger observed@.contains(cb), whitelist@.contains(w)]
            observed@.contains(cb) && whitelist@.contains(w) && base_mismatches(
                cb,
                w,
                seq_len as nat,
            ) <= 1 && (forall|w2: u64|
                #[trigger] whitelist@.contains(w2) && base_mismatches(cb, w2, seq_len as nat)
                    <= 1 ==> w2 == w) ==> r@.contains_key(cb) && r@[cb] == w,
        forall|cb: u64, w1: u64, w2: u64|
            #![trigger observed@.contains(cb), whitelist@.contains(w1), whitelist@.contains(w2)]
            observed@.contains(cb) && !whitelist@.contains(cb) && whitelist@.contains(w1)
                && whitelist@.contains(w2) && w1 != w2 && base_mismatches(cb, w1, seq_len as nat)
                <= 1 && base_mismatches(cb, w2, seq_len as nat) <= 1 ==> !r@.contains_key(cb),
{
    let obs: std::collections::HashSet<u64> = observed.iter().copied().collect();
    let wl: std::collections::HashSet<u64> = whitelist.iter().copied().collect();
    bustools_cli::correct::build_correct_map(&obs, &wl, seq_len)
}

/// Build the correction mapping from observed barcodes to whitelisted
/// barcodes, over `seq_len`-base two-bit encodings. An observed barcode is
/// a key exactly when it can be corrected unambiguously: a direct whitelist
/// hit maps to itself, a barcode within one base substitution of exactly
/// one whitelist entry maps to that entry, and a barcode near two or more
/// entries, or near none, is silently absent — omission by policy, never an
/// error; callers treat absent barcodes as uncorrected.
pub fn correct_barcodes(observed: &Vec<u64>, whitelist: &Vec<u64>, seq_len: usize) -> (r: HashMap<
    u64,
    u64,
>)
    requires
        1 <= seq_len <= 32,
        forall|i: int| 0 <= i < observed@.len() ==> fits_base_len(#[trigger] observed@[i], seq_len),
        forall|i: int|
            0 <= i < whitelist@.len() ==> fits_base_len(#[trigger] whitelist@[i], seq_len),
        forall|i: int| 0 <= i < observed@.len() ==> (#[trigger] observed@[i]) < u64::MAX,
        forall|i: int| 0 <= i < whitelist@.len() ==> (#[trigger] whitelist@[i]) < u64::MAX,
    ensures
        forall|cb: u64| #[trigger] r@.contains_key(cb) ==> observed@.contains(cb),
        forall|cb: u64|
            observed@.contains(cb) && whitelist@.contains(cb) ==> #[trigger] r@.contains_key(cb)
                && r@[cb] == cb,
        forall|cb: u64|
            #[trigger] r@.contains_key(cb) ==> whitelist@.contains(r@[cb]) && base_mismatches(
                cb,
                r@[cb],
                seq_len as nat,
            ) <= 1,
        forall|cb: u64, w: u64|
            #![trigger observed@.contains(cb), whitelist@.contains(w)]
            observed@.contains(cb) && whitelist@.contains(w) && base_mismatches(
                cb,
                w,
                seq_len as nat,
            ) <= 1 && (forall|w2: u64|
                #[trigger] whitelist@.contains(w2) && base_mismatches(cb, w2, seq_len as nat)
                    <= 1 ==> w2 == w) ==> r@.contains_key(cb) && r@[cb] == w,
        forall|cb: u64, w1: u64, w2: u64|
            #![trigger observed@.contains(cb), whitelist@.contains(w1), whitelist@.contains(w2)]
            observed@.contains(cb) && !whitelist@.contains(cb) && whitelist@.contains(w1)
                && whitelist@.contains(w2) && w1 != w2 && base_mismatches(cb, w1, seq_len as nat)
                <= 1 && base_mismatches(cb, w2, seq_len as nat) <= 1 ==> !r@.contains_key(cb),
{
    correct_map(observed, whitelist, seq_len)
}

/// Look one observed barcode up in the correction mapping: its corrected
/// form, or nothing when it could not be corrected unambiguously.
pub fn corrected_for(map: &HashMap<u64, u64>, cb: u64) -> (r: Option<u64>)
    ensures
        r == if map@.contains_key(cb) {
            Some(map@[cb])
        } else {
            None::<u64>
        },
{
    match map.get(&cb) {
        Some(v) => Some(*v),
        None => None,
    }
}

} // verus!
