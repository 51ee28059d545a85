//! The codec itself: `encode`, `decode` and `is_valid`, with the parameter
//! structs and the error type they share.

use vstd::prelude::*;

use crate::alphabet::{
    chars_of, distinct_alphabets, find_char, first_pos, get_alphabets, lemma_first_pos_at,
    resolved_alphabets, string_of, view_alphabets,
};
use crate::model::{
    all_nonempty, can_shrink, cdist, chars_ok, cnext, cyc_add, emitted_val, encode_succeeds,
    lemma_cyc_add_mod, lemma_cyc_bounds, lemma_emitted_snoc, lemma_mod_mul_add,
    lemma_prev_walk_is_shift, lemma_rev_emitted, lemma_step_prod_snoc, lemma_walk_covers,
    lemma_walk_idx_inj, lemma_walk_idx_step, lemma_wrap_mod, short_walk, step_alpha, step_len,
    step_len_at, step_prod, value_from, walk_idx, word_valid, word_value, wrap,
};
use vstd::arithmetic::div_mod::{lemma_add_mod_noop, lemma_div_is_strictly_smaller, lemma_fundamental_div_mod, lemma_small_mod};

verus! {

/// The two ways a call can fail: a word inconsistent with the configuration,
/// or a configuration whose walk reaches an empty alphabet.
#[derive(Debug, Clone, Copy, PartialEq, Eq, Structural)]
pub enum BananaError {
    InvalidBanana,
    InvalidAlphabet,
}

/// Parameters of `encode` and `random`. Absent fields take their defaults:
/// shift 0, end 0, minimum length 1, the built-in alphabets.
#[derive(Debug)]
pub struct EncodeParams {
    pub alphabet_shift: Option<usize>,
    pub alphabet_end: Option<usize>,
    pub min_length: Option<usize>,
    pub alphabets: Option<Vec<String>>,
}

/// Parameters of `decode` and `is_valid`. Absent fields take their defaults:
/// shift 0, end 0, the built-in alphabets.
#[derive(Debug)]
pub struct DecodeParams {
    pub alphabet_shift: Option<usize>,
    pub alphabet_end: Option<usize>,
    pub alphabets: Option<Vec<String>>,
}

/// One more than the largest encodable value: `decode` accumulates modulo
/// this, as a fixed-width register would.
pub open spec fn word_modulus() -> int {
    u64::MAX as int + 1
}

impl EncodeParams {
    /// The alphabets this call works with.
    pub open spec fn alphas(&self) -> Seq<Seq<char>> {
        resolved_alphabets(view_alphabets(&self.alphabets))
    }

    /// The shift parameter, reduced modulo the number of alphabets.
    pub open spec fn shift(&self) -> int {
        (match self.alphabet_shift {
            Some(s) => s as int,
            None => 0,
        }) % (self.alphas().len() as int)
    }

    /// The end parameter, reduced modulo the number of alphabets.
    pub open spec fn end(&self) -> int {
        (match self.alphabet_end {
            Some(e) => e as int,
            None => 0,
        }) % (self.alphas().len() as int)
    }

    /// The minimum word length, never below one.
    pub open spec fn min_len(&self) -> int {
        let m = match self.min_length {
            Some(m) => m as int,
            None => 1,
        };
        if m < 1 {
            1
        } else {
            m
        }
    }
}

impl Default for EncodeParams {
    fn default() -> (r: Self)
        ensures
            r.alphabet_shift is None,
            r.alphabet_end is None,
            r.min_length is None,
            r.alphabets is None,
    {
        EncodeParams {
            alphabet_shift: None,
            alphabet_end: None,
            min_length: None,
            alphabets: None,
        }
    }
}

impl DecodeParams {
    /// The alphabets this call works with.
    pub open spec fn alphas(&self) -> Seq<Seq<char>> {
        resolved_alphabets(view_alphabets(&self.alphabets))
    }

    /// The shift parameter, reduced modulo the number of alphabets.
    pub open spec fn shift(&self) -> int {
        (match self.alphabet_shift {
            Some(s) => s as int,
            None => 0,
        }) % (self.alphas().len() as int)
    }

    /// The end parameter, reduced modulo the number of alphabets.
    pub open spec fn end(&self) -> int {
        (match self.alphabet_end {
            Some(e) => e as int,
            None => 0,
        }) % (self.alphas().len() as int)
    }
}

impl Default for DecodeParams {
    fn default() -> (r: Self)
        ensures
            r.alphabet_shift is None,
            r.alphabet_end is None,
            r.alphabets is None,
    {
        DecodeParams { alphabet_shift: None, alphabet_end: None, alphabets: None }
    }
}

/// `(a + b) mod n` for `a, b` already below `n`, without overflow.
pub(crate) fn add_mod(a: usize, b: usize, n: usize) -> (r: usize)
    requires
        a < n,
        b < n,
    ensures
        r < n,
        r as int == (a + b) % (n as int),
{
    proof {
        lemma_wrap_mod(a + b, n as int);
    }
    if b >= n - a {
        b - (n - a)
    } else {
        a + b
    }
}

/// The characters of `v` in reverse order.
pub(crate) fn reversed_chars(v: &Vec<char>) -> (r: Vec<char>)
    ensures
        r@ == v@.reverse(),
{
    let n = v.len();
    let mut r: Vec<char> = Vec::new();
    let mut i: usize = 0;
    while i < n
        invariant
            0 <= i <= n,
            n == v@.len(),
            r@.len() == i as int,
            forall|k: int| 0 <= k < i ==> r@[k] == v@[n - 1 - k],
        decreases n - i,
    {
        r.push(v[n - 1 - i]);
        i += 1;
    }
    assert(r@ =~= v@.reverse());
    r
}

/// Whether `word` is consistent with the configuration: its character count
/// is congruent to `end` modulo the number of alphabets, and each character
/// occurs in the alphabet of its position.
pub fn is_valid(word: &str, params: &DecodeParams) -> (r: bool)
    ensures
        r == word_valid(word@, params.alphas(), params.shift(), params.end()),
{
    let alphabets = get_alphabets(&params.alphabets);
    let n = alphabets.len();
    let shift = match params.alphabet_shift {
        Some(s) => s % n,
        None => 0,
    };
    let end_ = match params.alphabet_end {
        Some(e) => e % n,
        None => 0,
    };
    let ghost ga = params.alphas();
    proof {
        lemma_small_mod(0, n as nat);
    }
    assert(alphabets.deep_view() == ga);
    assert(ga.len() == n as int);
    assert(shift as int == params.shift());
    assert(end_ as int == params.end());

    let chars = chars_of(word);
    if chars.len() % n != end_ {
        return false;
    }
    assert(word@.skip(0) =~= word@);
    let mut i: usize = 0;
    let mut idx: usize = shift;
    while i < chars.len()
        invariant
            alphabets.deep_view() == ga,
            ga.len() == n as int,
            n >= 1,
            chars@ == word@,
            0 <= i <= chars@.len(),
            idx < n,
            chars_ok(word@, ga, shift as int) <==> chars_ok(
                word@.skip(i as int),
                ga,
                idx as int,
            ),
            ga == params.alphas(),
            shift as int == params.shift(),
            end_ as int == params.end(),
        decreases chars@.len() - i,
    {
        assert(ga[idx as int] == alphabets@[idx as int].deep_view());
        assert(ga[idx as int] =~= alphabets@[idx as int]@);
        assert(word@.skip(i as int)[0] == word@[i as int]);
        assert(word@.skip(i as int).drop_first() =~= word@.skip(i as int + 1));
        match find_char(&alphabets[idx], chars[i]) {
            None => {
                assert(!chars_ok(word@.skip(i as int), ga, idx as int));
                return false;
            },
            Some(_) => {},
        }
        i += 1;
        idx = if idx + 1 == n {
            0
        } else {
            idx + 1
        };
    }
    assert(word@.skip(word@.len() as int) =~= Seq::<char>::empty());
    assert(chars_ok(word@, ga, shift as int));
    true
}

/// The value `word` denotes under the configuration, accumulated modulo
/// 2 to the 64th: the inverse of `encode` on every word it emits.
pub fn decode(word: &str, params: &DecodeParams) -> (r: Result<u64, BananaError>)
    ensures
        r.is_ok() <==> word_valid(word@, params.alphas(), params.shift(), params.end()),
        match r {
            Ok(v) => v as int == word_value(word@, params.alphas(), params.shift())
                % word_modulus(),
            Err(e) => e == BananaError::InvalidBanana,
        },
{
    let alphabets = get_alphabets(&params.alphabets);
    let n = alphabets.len();
    let shift = match params.alphabet_shift {
        Some(s) => s % n,
        None => 0,
    };
    let end_ = match params.alphabet_end {
        Some(e) => e % n,
        None => 0,
    };
    let ghost ga = params.alphas();
    proof {
        lemma_small_mod(0, n as nat);
    }
    assert(alphabets.deep_view() == ga);
    assert(ga.len() == n as int);
    assert(shift as int == params.shift());
    assert(end_ as int == params.end());

    let chars = chars_of(word);
    if chars.len() % n != end_ {
        return Err(BananaError::InvalidBanana);
    }
    assert(word@.skip(0) =~= word@);
    let mut v: u64 = 0;
    let ghost mut accg: int = 0;
    let mut i: usize = 0;
    let mut idx: usize = shift;
    while i < chars.len()
        invariant
            alphabets.deep_view() == ga,
            ga.len() == n as int,
            n >= 1,
            chars@ == word@,
            0 <= i <= chars@.len(),
            idx < n,
            ga == params.alphas(),
            shift as int == params.shift(),
            end_ as int == params.end(),
            chars_ok(word@, ga, shift as int) <==> chars_ok(
                word@.skip(i as int),
                ga,
                idx as int,
            ),
            value_from(word@.skip(i as int), ga, idx as int, accg) == word_value(
                word@,
                ga,
                shift as int,
            ),
            v as int == accg % word_modulus(),
        decreases chars@.len() - i,
    {
        assert(ga[idx as int] == alphabets@[idx as int].deep_view());
        assert(ga[idx as int] =~= alphabets@[idx as int]@);
        assert(word@.skip(i as int)[0] == word@[i as int]);
        assert(word@.skip(i as int).drop_first() =~= word@.skip(i as int + 1));
        match find_char(&alphabets[idx], chars[i]) {
            None => {
                assert(!chars_ok(word@.skip(i as int), ga, idx as int));
                return Err(BananaError::InvalidBanana);
            },
            Some(pos) => {
                let a_len: u64 = alphabets[idx].len() as u64;
                assert((v as int) * (a_len as int) + (pos as int) < u128::MAX as int + 1)
                    by (nonlinear_arith)
                    requires
                        v as int <= u64::MAX as int,
                        a_len as int <= u64::MAX as int,
                        pos as int <= u64::MAX as int,
                ;
                let wide: u128 = (v as u128) * (a_len as u128) + (pos as u128);
                let next: u64 = (wide % 0x1_0000_0000_0000_0000u128) as u64;
                proof {
                    let len_int = ga[idx as int].len() as int;
                    let p = first_pos(ga[idx as int], word@[i as int]);
                    assert(p == pos as int);
                    assert(wide as int == (accg % word_modulus()) * len_int + p);
                    lemma_mod_mul_add(accg, len_int, p, word_modulus());
                    assert(next as int == (accg * len_int + p) % word_modulus());
                    accg = accg * len_int + p;
                }
                v = next;
            },
        }
        i += 1;
        idx = if idx + 1 == n {
            0
        } else {
            idx + 1
        };
    }
    assert(word@.skip(word@.len() as int) =~= Seq::<char>::empty());
    assert(chars_ok(word@, ga, shift as int));
    assert(accg == word_value(word@, ga, shift as int));
    Ok(v)
}


/// The unique word that decodes back to `num` under the same configuration:
/// its length is at least the minimum length (never under one) and congruent
/// to `end` modulo the number of alphabets, and no shorter word qualifies.
/// Fails with `InvalidAlphabet` exactly when the walk reaches an empty
/// alphabet. A non-zero value is representable only when some alphabet has
/// length other than one; the precondition rules the remaining inputs out,
/// since no finite word could carry them.
pub fn encode(num: u64, params: &EncodeParams) -> (r: Result<String, BananaError>)
    requires
        num == 0 || can_shrink(params.alphas()),
    ensures
        r.is_ok() <==> encode_succeeds(
            num as int,
            params.alphas(),
            params.shift(),
            params.end(),
            params.min_len(),
        ),
        match r {
            Ok(w) => {
                &&& word_valid(w@, params.alphas(), params.shift(), params.end())
                &&& w@.len() >= params.min_len()
                &&& (distinct_alphabets(params.alphas()) ==> word_value(
                    w@,
                    params.alphas(),
                    params.shift(),
                ) == num as int)
                &&& (forall|m2: int|
                    params.min_len() <= m2 < w@.len() && #[trigger] (m2 % (
                    params.alphas().len() as int)) == params.end() ==> num as int >= step_prod(
                        params.alphas(),
                        params.shift(),
                        params.end(),
                        0,
                        m2 as nat,
                    ))
            },
            Err(e) => e == BananaError::InvalidAlphabet,
        },
{
    let alphabets = get_alphabets(&params.alphabets);
    let n = alphabets.len();
    let shift = match params.alphabet_shift {
        Some(s) => s % n,
        None => 0,
    };
    let end_ = match params.alphabet_end {
        Some(e) => e % n,
        None => 0,
    };
    let min_length = match params.min_length {
        Some(m) => if m < 1 {
            1
        } else {
            m
        },
        None => 1,
    };
    let ghost ga = params.alphas();
    proof {
        lemma_small_mod(0, n as nat);
    }
    assert(alphabets.deep_view() == ga);
    assert(ga.len() == n as int);
    assert(shift as int == params.shift());
    assert(end_ as int == params.end());
    assert(min_length as int == params.min_len());

    let stop = add_mod(n - 1, shift, n);
    let idx0 = add_mod(stop, end_, n);
    proof {
        lemma_wrap_mod(n - 1 + shift as int, n as int);
        lemma_wrap_mod(n - 1 + shift as int + end_ as int, n as int);
        lemma_add_mod_noop(n - 1 + shift as int, end_ as int, n as int);
        lemma_small_mod(end_ as nat, n as nat);
        lemma_small_mod(shift as nat, n as nat);
    }
    assert(stop as int == walk_idx(n as int, shift as int, end_ as int, end_ as int));
    assert(idx0 as int == walk_idx(n as int, shift as int, end_ as int, 0));

    let mut idx: usize = idx0;
    let mut v: u64 = num;
    let mut word: Vec<char> = Vec::new();
    let ghost mut c: int = 0;
    let ghost mut accg: int = 0;
    let ghost mut pg: int = 1;
    let ghost j_star: int = if can_shrink(ga) {
        choose|j: int| 0 <= j < ga.len() && (#[trigger] ga[j]).len() != 1
    } else {
        0
    };

    while v != 0 || idx != stop || word.len() < min_length
        invariant
            alphabets.deep_view() == ga,
            ga == params.alphas(),
            ga.len() == n as int,
            n >= 1,
            shift < n,
            end_ < n,
            shift as int == params.shift(),
            end_ as int == params.end(),
            min_length >= 1,
            min_length as int == params.min_len(),
            stop < n,
            stop as int == walk_idx(n as int, shift as int, end_ as int, end_ as int),
            idx < n,
            idx as int == walk_idx(n as int, shift as int, end_ as int, c),
            0 <= c < n,
            c == cyc_add(0, word@.len(), n as int),
            num == 0 || can_shrink(ga),
            num != 0 ==> 0 <= j_star < n && ga[j_star].len() != 1,
            v as int >= 0,
            num as int == (v as int) * pg + accg,
            pg >= 1,
            0 <= accg < pg,
            pg == step_prod(ga, shift as int, end_ as int, 0, word@.len()),
            forall|k: nat|
                k < word@.len() ==> step_len(
                    ga,
                    shift as int,
                    end_ as int,
                    #[trigger] cyc_add(0, k, n as int),
                ) > 0,
            forall|k: int|
                0 <= k < word@.len() ==> step_alpha(
                    ga,
                    shift as int,
                    end_ as int,
                    cyc_add(0, k as nat, n as int),
                ).contains(#[trigger] word@[k]),
            distinct_alphabets(ga) ==> accg == emitted_val(
                word@,
                ga,
                shift as int,
                end_ as int,
                0,
            ),
            short_walk(num as int, ga, shift as int, end_ as int, min_length as int)
                ==> word@.len() <= end_ as int,
            forall|m2: int|
                min_length as int <= m2 < word@.len() && #[trigger] (m2 % (n as int)) == end_ as int
                    ==> num as int >= step_prod(ga, shift as int, end_ as int, 0, m2 as nat),
        decreases
            v,
            (if v > 0 {
                cdist(j_star, idx as int, n as int)
            } else {
                0
            }),
            (n as int) * (if word@.len() < min_length as int {
                min_length as int - word@.len()
            } else {
                0
            }) + cdist(c, end_ as int, n as int),
    {
        let ghost sh = shift as int;
        let ghost en = end_ as int;
        let ghost ni = n as int;
        let a_len_usize = alphabets[idx].len();
        proof {
            assert(ga[idx as int] == alphabets@[idx as int].deep_view());
            assert(ga[idx as int] =~= alphabets@[idx as int]@);
            assert(step_alpha(ga, sh, en, c) == ga[idx as int]);
            assert(step_len(ga, sh, en, c) == a_len_usize as int);
        }
        if a_len_usize == 0 {
            proof {
                assert(ga[idx as int].len() == 0);
                assert(!all_nonempty(ga));
                let m = word@.len() as int;
                if short_walk(num as int, ga, sh, en, min_length as int) {
                    lemma_cyc_add_mod(word@.len(), ni);
                    if m < en {
                        lemma_small_mod(m as nat, n as nat);
                        assert(c == m);
                        assert(step_len_at(ga, sh, en, m) > 0);
                        assert(false);
                    } else {
                        assert(m == en);
                        lemma_small_mod(end_ as nat, n as nat);
                        assert(c == en);
                        assert(idx == stop);
                        assert(pg == step_prod(ga, sh, en, 0, end_ as nat));
                        assert(v as int == 0) by (nonlinear_arith)
                            requires
                                num as int == (v as int) * pg + accg,
                                0 <= accg < pg,
                                (num as int) < pg,
                                v as int >= 0,
                        ;
                        assert(word@.len() >= min_length as int);
                        assert(false);
                    }
                }
                assert(!encode_succeeds(num as int, ga, sh, en, min_length as int));
            }
            return Err(BananaError::InvalidAlphabet);
        }
        let a_len: u64 = a_len_usize as u64;
        let d: u64 = v % a_len;
        let dig: usize = d as usize;
        let ch: char = alphabets[idx][dig];
        let ghost old_v = v as int;
        let ghost old_word = word@;
        let ghost old_c = c;
        let ghost old_idx = idx as int;
        let ghost old_pg = pg;
        let ghost old_accg = accg;
        v = v / a_len;
        word.push(ch);
        idx = if idx == 0 {
            n - 1
        } else {
            idx - 1
        };
        proof {
            let m: nat = old_word.len();
            let len_i: int = a_len as int;
            lemma_fundamental_div_mod(old_v, len_i);
            assert(old_v == len_i * (v as int) + (d as int));
            assert(0 <= (d as int) < len_i);
            accg = old_accg + (d as int) * old_pg;
            pg = old_pg * len_i;
            c = cnext(old_c, ni);
            assert(word@ == old_word.push(ch));
            assert(word@.len() == m + 1);
            assert(cyc_add(0, (m + 1) as nat, ni) == cnext(cyc_add(0, m, ni), ni));
            assert(c == cyc_add(0, word@.len(), ni));
            lemma_step_prod_snoc(ga, sh, en, 0, m);
            assert(cyc_add(0, m, ni) == old_c);
            assert(pg == step_prod(ga, sh, en, 0, word@.len()));
            assert(num as int == (v as int) * pg + accg) by (nonlinear_arith)
                requires
                    num as int == old_v * old_pg + old_accg,
                    old_v == len_i * (v as int) + (d as int),
                    pg == old_pg * len_i,
                    accg == old_accg + (d as int) * old_pg,
            ;
            assert(0 <= accg < pg) by (nonlinear_arith)
                requires
                    0 <= old_accg < old_pg,
                    0 <= d as int <= len_i - 1,
                    pg == old_pg * len_i,
                    accg == old_accg + (d as int) * old_pg,
                    old_pg >= 1,
                    len_i >= 1,
            ;
            assert(pg >= 1) by (nonlinear_arith)
                requires
                    old_pg >= 1,
                    len_i >= 1,
                    pg == old_pg * len_i,
            ;
            assert forall|k: nat|
                k < word@.len() implies step_len(ga, sh, en, #[trigger] cyc_add(0, k, ni))
                > 0 by {
                if k == m {
                    assert(cyc_add(0, k, ni) == old_c);
                }
            }
            assert(ch == ga[old_idx][dig as int]);
            assert(step_alpha(ga, sh, en, old_c)[dig as int] == ch);
            assert(step_alpha(ga, sh, en, old_c).contains(ch));
            assert forall|k: int|
                0 <= k < word@.len() implies step_alpha(
                ga,
                sh,
                en,
                cyc_add(0, k as nat, ni),
            ).contains(#[trigger] word@[k]) by {
                if k < m {
                    assert(word@[k] == old_word[k]);
                } else {
                    assert(word@[k] == ch);
                    assert(cyc_add(0, k as nat, ni) == old_c);
                }
            }
            if crate::alphabet::distinct_alphabets(ga) {
                lemma_emitted_snoc(old_word, ch, ga, sh, en, 0);
                assert(crate::alphabet::distinct_chars(ga[old_idx]));
                assert forall|i2: int| 0 <= i2 < dig as int implies ga[old_idx][i2] != ga[old_idx][dig as int] by {}
                lemma_first_pos_at(ga[old_idx], dig as int);
                assert(first_pos(step_alpha(ga, sh, en, old_c), ch) == dig as int);
                assert(accg == emitted_val(word@, ga, sh, en, 0));
            }
            if short_walk(num as int, ga, sh, en, min_length as int) {
                if m as int == en {
                    lemma_small_mod(end_ as nat, n as nat);
                    lemma_cyc_add_mod(m, ni);
                    assert(old_c == en);
                    assert(old_idx == stop as int);
                    assert(old_pg == step_prod(ga, sh, en, 0, end_ as nat));
                    assert(old_v == 0) by (nonlinear_arith)
                        requires
                            num as int == old_v * old_pg + old_accg,
                            0 <= old_accg < old_pg,
                            (num as int) < old_pg,
                            old_v >= 0,
                    ;
                    assert(m >= min_length as nat);
                    assert(false);
                }
                assert(word@.len() <= en);
            }
            assert forall|m2: int|
                min_length as int <= m2 < word@.len() && #[trigger] (m2 % ni) == en implies num
                as int >= step_prod(ga, sh, en, 0, m2 as nat) by {
                if m2 == m as int {
                    lemma_cyc_add_mod(m, ni);
                    assert(old_c == en);
                    assert(old_idx == stop as int);
                    assert(old_v != 0);
                    assert(num as int >= old_pg) by (nonlinear_arith)
                        requires
                            num as int == old_v * old_pg + old_accg,
                            old_v >= 1,
                            old_pg >= 1,
                            old_accg >= 0,
                    ;
                }
            }
            lemma_walk_idx_step(ni, sh, en, old_c);
            assert(idx as int == walk_idx(ni, sh, en, c));
            // Termination facts.
            if old_v > 0 {
                if len_i >= 2 {
                    lemma_div_is_strictly_smaller(old_v, len_i);
                    assert((v as int) < old_v);
                } else {
                    assert(len_i == 1);
                    assert(d as int == 0);
                    assert(v as int == old_v) by (nonlinear_arith)
                        requires
                            old_v == len_i * (v as int) + (d as int),
                            len_i == 1,
                            d as int == 0,
                    ;
                    assert(num as int > 0) by (nonlinear_arith)
                        requires
                            num as int == old_v * old_pg + old_accg,
                            old_v >= 1,
                            old_pg >= 1,
                            old_accg >= 0,
                    ;
                    assert(ga[j_star].len() != 1);
                    assert(old_idx != j_star);
                    assert(cdist(j_star, idx as int, ni) == cdist(j_star, old_idx, ni) - 1);
                }
            } else {
                assert(old_v == 0);
                assert(v as int == 0) by (nonlinear_arith)
                    requires
                        old_v == 0,
                        old_v == len_i * (v as int) + (d as int),
                        0 <= (d as int) < len_i,
                        v as int >= 0,
                ;
                let m_int = old_word.len() as int;
                let ml_int = min_length as int;
                let a_old: int = if m_int < ml_int {
                    ml_int - m_int
                } else {
                    0
                };
                let a_new: int = if m_int + 1 < ml_int {
                    ml_int - (m_int + 1)
                } else {
                    0
                };
                if m_int < ml_int {
                    assert(ni * a_new == ni * a_old - ni) by (nonlinear_arith)
                        requires
                            a_new == a_old - 1,
                    ;
                } else {
                    assert(a_new == a_old);
                }
                if old_c == en {
                    assert(old_idx == stop as int);
                    assert(old_word.len() < min_length as nat);
                    assert(cdist(old_c, en, ni) == 0);
                    assert(cdist(c, en, ni) == ni - 1);
                } else {
                    assert(cdist(c, en, ni) == cdist(old_c, en, ni) - 1);
                }
            }
        }
    }
    let ghost sh = shift as int;
    let ghost en = end_ as int;
    let ghost ni = n as int;
    proof {
        let m: nat = word@.len();
        assert(v as int == 0);
        lemma_walk_idx_inj(ni, sh, en, c, en);
        assert(c == en);
        lemma_cyc_add_mod(m, ni);
        assert(m as int % ni == en);
        assert(m >= min_length as nat);
        assert(m >= 1);
        let cm1 = cyc_add(0, (m - 1) as nat, ni);
        lemma_cyc_bounds(0, (m - 1) as nat, ni);
        assert(cyc_add(0, m, ni) == cnext(cyc_add(0, (m - 1) as nat, ni), ni));
        assert(cnext(cm1, ni) == en);
        lemma_prev_walk_is_shift(ni, sh, en, cm1);
        lemma_rev_emitted(word@, ga, sh, en, 0, sh);
        if !all_nonempty(ga) {
            let j0 = choose|j: int| 0 <= j < ga.len() && !((#[trigger] ga[j]).len() > 0);
            if m >= n as nat {
                lemma_walk_covers(ni, sh, en, j0);
                let k0 = wrap(ni - 1 + sh + en - j0, ni);
                lemma_cyc_add_mod(k0 as nat, ni);
                lemma_small_mod(k0 as nat, n as nat);
                assert(cyc_add(0, k0 as nat, ni) == k0);
                assert(step_len(ga, sh, en, cyc_add(0, k0 as nat, ni)) > 0);
                assert(ga[j0].len() > 0);
                assert(false);
            }
            lemma_small_mod(m, n as nat);
            assert(m as int == en);
            assert(en >= 1);
            assert forall|k: int| 0 <= k < en implies step_len_at(ga, sh, en, k) > 0 by {
                lemma_small_mod(k as nat, n as nat);
                lemma_cyc_add_mod(k as nat, ni);
                assert(step_len(ga, sh, en, cyc_add(0, k as nat, ni)) > 0);
            }
            assert((num as int) < pg);
            assert(pg == step_prod(ga, sh, en, 0, en as nat));
            assert(short_walk(num as int, ga, sh, en, min_length as int));
        }
        assert(encode_succeeds(num as int, ga, sh, en, min_length as int));
    }
    let rev = reversed_chars(&word);
    let out = string_of(rev);
    proof {
        assert(out@ == word@.reverse());
        assert(out@.len() == word@.len());
        assert(word_valid(out@, ga, sh, en));
        if crate::alphabet::distinct_alphabets(ga) {
            assert(num as int == accg);
            assert(word_value(out@, ga, sh) == accg);
        }
    }
    Ok(out)
}


} // verus!
