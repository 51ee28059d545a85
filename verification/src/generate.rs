//! Random word generation: the same cyclic walk as `encode`, with each digit
//! drawn from a process-wide randomness source instead of a value.

use vstd::prelude::*;

use crate::alphabet::{get_alphabets, string_of};
use crate::codec::{add_mod, reversed_chars, BananaError, EncodeParams};
use crate::model::{
    cnext, cyc_add, lemma_cyc_add_mod, lemma_cyc_bounds, lemma_prev_walk_is_shift,
    lemma_rev_emitted, lemma_walk_idx_inj, lemma_walk_idx_step, lemma_walk_len, lemma_wrap_mod,
    random_succeeds, step_alpha, step_len, step_len_at, walk_idx, walk_len, word_valid,
};
use vstd::arithmetic::div_mod::{lemma_add_mod_noop, lemma_small_mod};

verus! {

/// Relies on `rand::random_range`: a uniform draw from `[0, bound)` by the
/// thread-local generator. Nothing is assumed of the result beyond its range;
/// the call panics only on an empty range, which the precondition rules out.
#[verifier::external_body]
fn draw_below(bound: usize) -> (r: usize)
    requires
        bound >= 1,
    ensures
        r < bound,
{
    rand::random_range(0..bound)
}

/// A word of the shape `encode` produces, every digit drawn at random: always
/// valid under the same parameters, with the fixed length `walk_len`. Fails
/// with `InvalidAlphabet` exactly when a step of that walk uses an empty
/// alphabet.
pub fn random(params: &EncodeParams) -> (r: Result<String, BananaError>)
    ensures
        r.is_ok() <==> random_succeeds(
            params.alphas(),
            params.shift(),
            params.end(),
            params.min_len(),
        ),
        match r {
            Ok(w) => {
                &&& word_valid(w@, params.alphas(), params.shift(), params.end())
                &&& w@.len() == walk_len(
                    params.alphas().len() as int,
                    params.end(),
                    params.min_len(),
                )
                &&& w@.len() >= params.min_len()
            },
            Err(e) => e == BananaError::InvalidAlphabet,
        },
{
    let alphabets = get_alphabets(&params.alphabets);
    let n = alphabets.len();
    let shift = match params.alphabet_shift {
        Some(s) => s % n,
        None => 0,
    };
    let end_ = match params.alphabet_end {
        Some(e) => e % n,
        None => 0,
    };
    let min_length = match params.min_length {
        Some(m) => if m < 1 {
            1
        } else {
            m
        },
        None => 1,
    };
    let ghost ga = params.alphas();
    proof {
        lemma_small_mod(0, n as nat);
    }
    assert(alphabets.deep_view() == ga);
    assert(ga.len() == n as int);
    assert(shift as int == params.shift());
    assert(end_ as int == params.end());
    assert(min_length as int == params.min_len());

    let stop = add_mod(n - 1, shift, n);
    let idx0 = add_mod(stop, end_, n);
    proof {
        lemma_wrap_mod(n - 1 + shift as int, n as int);
        lemma_wrap_mod(n - 1 + shift as int + end_ as int, n as int);
        lemma_add_mod_noop(n - 1 + shift as int, end_ as int, n as int);
        lemma_small_mod(end_ as nat, n as nat);
        lemma_small_mod(shift as nat, n as nat);
        lemma_walk_len(n as int, end_ as int, min_length as int);
    }
    assert(stop as int == walk_idx(n as int, shift as int, end_ as int, end_ as int));
    assert(idx0 as int == walk_idx(n as int, shift as int, end_ as int, 0));
    let ghost lw: int = walk_len(n as int, end_ as int, min_length as int);

    let mut idx: usize = idx0;
    let mut word: Vec<char> = Vec::new();
    let ghost mut c: int = 0;

    while idx != stop || word.len() < min_length
        invariant
            alphabets.deep_view() == ga,
            ga == params.alphas(),
            ga.len() == n as int,
            n >= 1,
            shift < n,
            end_ < n,
            shift as int == params.shift(),
            end_ as int == params.end(),
            min_length >= 1,
            min_length as int == params.min_len(),
            stop < n,
            stop as int == walk_idx(n as int, shift as int, end_ as int, end_ as int),
            idx < n,
            idx as int == walk_idx(n as int, shift as int, end_ as int, c),
            0 <= c < n,
            c == cyc_add(0, word@.len(), n as int),
            lw == walk_len(n as int, end_ as int, min_length as int),
            word@.len() <= lw,
            forall|k: int|
                0 <= k < word@.len() ==> step_alpha(
                    ga,
                    shift as int,
                    end_ as int,
                    cyc_add(0, k as nat, n as int),
                ).contains(#[trigger] word@[k]),
        decreases lw - word@.len(),
    {
        let ghost sh = shift as int;
        let ghost en = end_ as int;
        let ghost ni = n as int;
        proof {
            lemma_walk_len(ni, en, min_length as int);
            let m = word@.len() as int;
            if m == lw {
                lemma_cyc_add_mod(word@.len(), ni);
                assert(c == lw % ni);
                assert(c == en);
                assert(word@.len() >= min_length as nat);
                assert(false);
            }
        }
        let a_len_usize = alphabets[idx].len();
        proof {
            assert(ga[idx as int] == alphabets@[idx as int].deep_view());
            assert(ga[idx as int] =~= alphabets@[idx as int]@);
            assert(step_alpha(ga, sh, en, c) == ga[idx as int]);
            assert(step_len(ga, sh, en, c) == a_len_usize as int);
        }
        if a_len_usize == 0 {
            proof {
                let m = word@.len() as int;
                lemma_cyc_add_mod(word@.len(), ni);
                assert(step_len_at(ga, sh, en, m) == 0);
                assert(!random_succeeds(ga, sh, en, min_length as int));
            }
            return Err(BananaError::InvalidAlphabet);
        }
        let dig = draw_below(a_len_usize);
        let ch: char = alphabets[idx][dig];
        let ghost old_word = word@;
        let ghost old_c = c;
        let ghost old_idx = idx as int;
        word.push(ch);
        idx = if idx == 0 {
            n - 1
        } else {
            idx - 1
        };
        proof {
            let m: nat = old_word.len();
            c = cnext(old_c, ni);
            assert(word@ == old_word.push(ch));
            assert(cyc_add(0, (m + 1) as nat, ni) == cnext(cyc_add(0, m, ni), ni));
            assert(c == cyc_add(0, word@.len(), ni));
            assert(ch == ga[old_idx][dig as int]);
            assert(step_alpha(ga, sh, en, old_c)[dig as int] == ch);
            assert(step_alpha(ga, sh, en, old_c).contains(ch));
            assert forall|k: int|
                0 <= k < word@.len() implies step_alpha(
                ga,
                sh,
                en,
                cyc_add(0, k as nat, ni),
            ).contains(#[trigger] word@[k]) by {
                if k < m {
                    assert(word@[k] == old_word[k]);
                } else {
                    assert(word@[k] == ch);
                    assert(cyc_add(0, k as nat, ni) == old_c);
                }
            }
            lemma_walk_idx_step(ni, sh, en, old_c);
            assert(idx as int == walk_idx(ni, sh, en, c));
        }
    }
    let ghost sh = shift as int;
    let ghost en = end_ as int;
    let ghost ni = n as int;
    proof {
        let m: nat = word@.len();
        lemma_walk_idx_inj(ni, sh, en, c, en);
        assert(c == en);
        lemma_cyc_add_mod(m, ni);
        assert(m as int % ni == en);
        assert(m >= min_length as nat);
        assert(m as int >= lw);
        assert(m as int == lw);
        assert(m >= 1);
        let cm1 = cyc_add(0, (m - 1) as nat, ni);
        lemma_cyc_bounds(0, (m - 1) as nat, ni);
        assert(cyc_add(0, m, ni) == cnext(cyc_add(0, (m - 1) as nat, ni), ni));
        assert(cnext(cm1, ni) == en);
        lemma_prev_walk_is_shift(ni, sh, en, cm1);
        lemma_rev_emitted(word@, ga, sh, en, 0, sh);
        assert forall|k: int| 0 <= k < lw implies step_len_at(ga, sh, en, k) > 0 by {
            lemma_cyc_add_mod(k as nat, ni);
            assert(step_alpha(ga, sh, en, cyc_add(0, k as nat, ni)).contains(word@[k]));
            let alpha_k = step_alpha(ga, sh, en, cyc_add(0, k as nat, ni));
            assert(alpha_k.len() > 0);
        }
        assert(random_succeeds(ga, sh, en, min_length as int));
    }
    let rev = reversed_chars(&word);
    let out = string_of(rev);
    proof {
        assert(out@ == word@.reverse());
        assert(out@.len() == word@.len());
        assert(word_valid(out@, ga, sh, en));
    }
    Ok(out)
}

} // verus!
