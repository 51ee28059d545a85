//! The codec's global laws, stated over the same spec functions its
//! contracts use.

use vstd::prelude::*;

use crate::codec::word_modulus;
use crate::model::{
    all_nonempty, encode_succeeds, lemma_walk_covers, lemma_walk_len, random_succeeds, short_walk,
    step_len_at, walk_len, word_valid, word_value, wrap,
};
use vstd::arithmetic::div_mod::lemma_small_mod;

verus! {

/// Round trip: a word that is well formed and denotes `num` — what `encode`
/// ensures of its output — is taken by `decode` back to exactly `num`, since
/// reduction modulo the register size leaves a representable value unchanged.
pub proof fn lemma_round_trip(
    w: Seq<char>,
    alphas: Seq<Seq<char>>,
    shift: int,
    end: int,
    num: u64,
)
    requires
        word_valid(w, alphas, shift, end),
        word_value(w, alphas, shift) == num as int,
    ensures
        word_value(w, alphas, shift) % word_modulus() == num as int,
{
    lemma_small_mod(num as nat, 0x1_0000_0000_0000_0000);
}

/// Empty-alphabet rejection: when some alphabet is empty and `end` reduces to
/// zero, the walk visits every alphabet before it may stop, so neither
/// `encode` nor `random` can succeed. (With a non-zero `end` a walk that
/// stops early may never reach the empty alphabet, so the claim is stated
/// for `end` zero only.)
pub proof fn lemma_empty_alphabet_rejected(
    num: int,
    alphas: Seq<Seq<char>>,
    shift: int,
    ml: int,
)
    requires
        alphas.len() >= 1,
        0 <= shift < alphas.len(),
        ml >= 1,
        exists|j: int| 0 <= j < alphas.len() && (#[trigger] alphas[j]).len() == 0,
    ensures
        !encode_succeeds(num, alphas, shift, 0, ml),
        !random_succeeds(alphas, shift, 0, ml),
{
    let n = alphas.len() as int;
    let j0 = choose|j: int| 0 <= j < alphas.len() && (#[trigger] alphas[j]).len() == 0;
    assert(!all_nonempty(alphas));
    assert(!short_walk(num, alphas, shift, 0, ml));
    lemma_walk_len(n, 0, ml);
    let lw = walk_len(n, 0, ml);
    assert(lw >= n) by {
        if lw < n {
            lemma_small_mod(lw as nat, n as nat);
        }
    }
    lemma_walk_covers(n, shift, 0, j0);
    let k0 = wrap(n - 1 + shift - j0, n);
    lemma_small_mod(k0 as nat, n as nat);
    assert(step_len_at(alphas, shift, 0, k0) == 0);
    assert(!random_succeeds(alphas, shift, 0, ml));
}


/// Validate agreement: `is_valid` and `decode` judge a word by the same
/// predicate, so `is_valid` answers true exactly when `decode` returns a
/// value. The premises are the two functions' own postconditions.
pub proof fn lemma_validate_agreement(
    r_valid: bool,
    r_decode: Result<u64, crate::codec::BananaError>,
    w: Seq<char>,
    alphas: Seq<Seq<char>>,
    shift: int,
    end: int,
)
    requires
        r_valid == word_valid(w, alphas, shift, end),
        r_decode.is_ok() <==> word_valid(w, alphas, shift, end),
    ensures
        r_valid == r_decode.is_ok(),
{
}

} // verus!
