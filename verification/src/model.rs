//! The mathematical model of the mixed-radix walk: which alphabet each walk
//! step and each word position uses, the value a word denotes, and when a
//! word is well formed.
//!
//! Throughout, `n` is the number of alphabets, `shift` and `end` are the
//! rotation parameters already reduced into `[0, n)`, and a "cycle position"
//! `c` counts walk steps (or word positions) modulo `n`.

use vstd::prelude::*;
use vstd::arithmetic::div_mod::{lemma_add_mod_noop, lemma_fundamental_div_mod, lemma_mod_multiples_vanish, lemma_mod_self_0, lemma_mod_sub_multiples_vanish, lemma_mul_mod_noop_left, lemma_small_mod};
use vstd::arithmetic::mul::{lemma_mul_is_associative, lemma_mul_is_commutative};

use crate::alphabet::first_pos;
use crate::alphabet::lemma_first_pos_props;

verus! {

/// The cyclic successor of `c` in `[0, n)`.
pub open spec fn cnext(c: int, n: int) -> int {
    if c + 1 >= n {
        0
    } else {
        c + 1
    }
}

/// `c` advanced `k` cyclic steps.
pub open spec fn cyc_add(c: int, k: nat, n: int) -> int
    decreases k,
{
    if k == 0 {
        c
    } else {
        cnext(cyc_add(c, (k - 1) as nat, n), n)
    }
}

/// Reduction of `a` into `[0, n)`, valid for `0 <= a < 3 * n`.
pub open spec fn wrap(a: int, n: int) -> int {
    if a < n {
        a
    } else if a < 2 * n {
        a - n
    } else {
        a - 2 * n
    }
}

/// The alphabet index the walk visits at cycle position `c`: the walk starts
/// at index `(n - 1 + shift + end) mod n` and steps backward through the
/// indices as `c` grows.
pub open spec fn walk_idx(n: int, shift: int, end: int, c: int) -> int {
    wrap(n - 1 + shift + end - c, n)
}

/// The alphabet the walk uses at cycle position `c`.
pub open spec fn step_alpha(alphas: Seq<Seq<char>>, shift: int, end: int, c: int) -> Seq<char> {
    alphas[walk_idx(alphas.len() as int, shift, end, c)]
}

/// The radix of the walk at cycle position `c`.
pub open spec fn step_len(alphas: Seq<Seq<char>>, shift: int, end: int, c: int) -> int {
    step_alpha(alphas, shift, end, c).len() as int
}

/// The radix of walk step `k`, for an arbitrary step count `k`.
pub open spec fn step_len_at(alphas: Seq<Seq<char>>, shift: int, end: int, k: int) -> int {
    step_len(alphas, shift, end, k % (alphas.len() as int))
}

/// The product of the radices of `m` walk steps starting at cycle position `c`.
pub open spec fn step_prod(alphas: Seq<Seq<char>>, shift: int, end: int, c: int, m: nat) -> int
    decreases m,
{
    if m == 0 {
        1
    } else {
        step_len(alphas, shift, end, c) * step_prod(
            alphas,
            shift,
            end,
            cnext(c, alphas.len() as int),
            (m - 1) as nat,
        )
    }
}

/// The value of a buffer of digit characters emitted by the walk, least
/// significant digit first, the first at cycle position `c`.
pub open spec fn emitted_val(
    buf: Seq<char>,
    alphas: Seq<Seq<char>>,
    shift: int,
    end: int,
    c: int,
) -> int
    decreases buf.len(),
{
    if buf.len() == 0 {
        0
    } else {
        first_pos(step_alpha(alphas, shift, end, c), buf[0]) + step_len(alphas, shift, end, c)
            * emitted_val(buf.drop_first(), alphas, shift, end, cnext(c, alphas.len() as int))
    }
}

/// The product of the radices of `m` word positions whose first position uses
/// alphabet index `wc`.
pub open spec fn wprod(alphas: Seq<Seq<char>>, wc: int, m: nat) -> int
    decreases m,
{
    if m == 0 {
        1
    } else {
        alphas[wc].len() * wprod(alphas, cnext(wc, alphas.len() as int), (m - 1) as nat)
    }
}

/// The value of the word `w` read most significant digit first, where `w[0]`
/// uses alphabet index `wc` and `acc` is the value already read.
pub open spec fn value_from(w: Seq<char>, alphas: Seq<Seq<char>>, wc: int, acc: int) -> int
    decreases w.len(),
{
    if w.len() == 0 {
        acc
    } else {
        value_from(
            w.drop_first(),
            alphas,
            cnext(wc, alphas.len() as int),
            acc * alphas[wc].len() + first_pos(alphas[wc], w[0]),
        )
    }
}

/// The mixed-radix value a word denotes: position `i` uses alphabet index
/// `(i + shift) mod n`, most significant digit first.
pub open spec fn word_value(w: Seq<char>, alphas: Seq<Seq<char>>, shift: int) -> int {
    value_from(w, alphas, shift, 0)
}

/// Every character of `w` occurs in the alphabet of its position, where
/// `w[0]` uses alphabet index `wc`.
pub open spec fn chars_ok(w: Seq<char>, alphas: Seq<Seq<char>>, wc: int) -> bool
    decreases w.len(),
{
    w.len() == 0 || (first_pos(alphas[wc], w[0]) >= 0 && chars_ok(
        w.drop_first(),
        alphas,
        cnext(wc, alphas.len() as int),
    ))
}

/// A word is well formed when its length is congruent to `end` modulo the
/// number of alphabets and each character occurs in the alphabet of its
/// position.
pub open spec fn word_valid(w: Seq<char>, alphas: Seq<Seq<char>>, shift: int, end: int) -> bool {
    &&& alphas.len() >= 1
    &&& w.len() as int % (alphas.len() as int) == end
    &&& chars_ok(w, alphas, shift)
}

/// No alphabet of the set is empty.
pub open spec fn all_nonempty(alphas: Seq<Seq<char>>) -> bool {
    forall|j: int| 0 <= j < alphas.len() ==> (#[trigger] alphas[j]).len() > 0
}

/// Some alphabet has a length other than one. A walk that still carries a
/// non-zero value shrinks it only at such an alphabet, so encoding a non-zero
/// value terminates exactly under this condition.
pub open spec fn can_shrink(alphas: Seq<Seq<char>>) -> bool {
    exists|j: int| 0 <= j < alphas.len() && (#[trigger] alphas[j]).len() != 1
}

/// The encoding walk can stop after `end` steps without ever reaching an
/// empty alphabet: the first `end` step alphabets are non-empty, `num` is
/// exhausted within them, and `end` steps already meet the length floor.
pub open spec fn short_walk(num: int, alphas: Seq<Seq<char>>, shift: int, end: int, ml: int) -> bool {
    &&& 1 <= end
    &&& ml <= end
    &&& forall|k: int| 0 <= k < end ==> step_len_at(alphas, shift, end, k) > 0
    &&& num < step_prod(alphas, shift, end, 0, end as nat)
}

/// Exactly when encoding returns a word rather than the empty-alphabet error:
/// either no alphabet is empty, or the walk stops before reaching one.
pub open spec fn encode_succeeds(
    num: int,
    alphas: Seq<Seq<char>>,
    shift: int,
    end: int,
    ml: int,
) -> bool {
    all_nonempty(alphas) || short_walk(num, alphas, shift, end, ml)
}

/// The length of a generated random word: the least count of walk steps that
/// is congruent to `end` modulo `n` and at least the length floor `ml >= 1`.
pub open spec fn walk_len(n: int, end: int, ml: int) -> int {
    if ml <= end {
        end
    } else {
        end + n * ((ml - end + n - 1) / n)
    }
}

/// Exactly when random generation returns a word: no step of its fixed-length
/// walk uses an empty alphabet.
pub open spec fn random_succeeds(alphas: Seq<Seq<char>>, shift: int, end: int, ml: int) -> bool {
    forall|k: int|
        0 <= k < walk_len(alphas.len() as int, end, ml) ==> step_len_at(alphas, shift, end, k) > 0
}


/// `cyc_add` keeps a cycle position inside `[0, n)`.
pub proof fn lemma_cyc_bounds(c: int, k: nat, n: int)
    requires
        n >= 1,
        0 <= c < n,
    ensures
        0 <= cyc_add(c, k, n) < n,
    decreases k,
{
    if k > 0 {
        lemma_cyc_bounds(c, (k - 1) as nat, n);
    }
}

/// Advancing first commutes with advancing last.
pub proof fn lemma_cyc_add_front(c: int, k: nat, n: int)
    requires
        n >= 1,
    ensures
        cyc_add(cnext(c, n), k, n) == cnext(cyc_add(c, k, n), n),
    decreases k,
{
    if k > 0 {
        lemma_cyc_add_front(c, (k - 1) as nat, n);
    }
}

/// Stepping `k` times from cycle position 0 lands on `k % n`.
pub proof fn lemma_cyc_add_mod(k: nat, n: int)
    requires
        n >= 1,
    ensures
        cyc_add(0, k, n) == k as int % n,
    decreases k,
{
    if k == 0 {
        lemma_small_mod(0, n as nat);
    } else {
        lemma_cyc_add_mod((k - 1) as nat, n);
        let r = (k - 1) as int % n;
        lemma_fundamental_div_mod(k - 1, n);
        let q = (k - 1) as int / n;
        lemma_mod_multiples_vanish(q, r + 1, n);
        assert(k as int == n * q + (r + 1));
        if r + 1 < n {
            lemma_small_mod((r + 1) as nat, n as nat);
        } else {
            lemma_mod_self_0(n);
        }
    }
}

/// `walk_idx` stays inside `[0, n)` and moves one index backward, cyclically,
/// as the cycle position advances.
pub proof fn lemma_walk_idx_step(n: int, shift: int, end: int, c: int)
    requires
        n >= 1,
        0 <= shift < n,
        0 <= end < n,
        0 <= c < n,
    ensures
        0 <= walk_idx(n, shift, end, c) < n,
        walk_idx(n, shift, end, cnext(c, n)) == (if walk_idx(n, shift, end, c) == 0 {
            n - 1
        } else {
            walk_idx(n, shift, end, c) - 1
        }),
{
}

/// Peeling the last step off a product of walk radices.
pub proof fn lemma_step_prod_snoc(alphas: Seq<Seq<char>>, shift: int, end: int, c: int, m: nat)
    requires
        alphas.len() >= 1,
        0 <= c < alphas.len(),
    ensures
        step_prod(alphas, shift, end, c, (m + 1) as nat) == step_prod(alphas, shift, end, c, m)
            * step_len(alphas, shift, end, cyc_add(c, m, alphas.len() as int)),
    decreases m,
{
    reveal_with_fuel(step_prod, 3);
    reveal_with_fuel(cyc_add, 3);
    let n = alphas.len() as int;
    if m == 0 {
    } else {
        lemma_step_prod_snoc(alphas, shift, end, cnext(c, n), (m - 1) as nat);
        lemma_cyc_add_front(c, (m - 1) as nat, n);
        let a = step_len(alphas, shift, end, c);
        let b = step_prod(alphas, shift, end, cnext(c, n), (m - 1) as nat);
        let d = step_len(alphas, shift, end, cyc_add(c, m, n));
        assert(a * (b * d) == (a * b) * d) by {
            lemma_mul_is_associative(a, b, d);
        }
    }
}

/// Appending one emitted digit adds its value scaled by the product of the
/// radices already consumed.
pub proof fn lemma_emitted_snoc(
    buf: Seq<char>,
    ch: char,
    alphas: Seq<Seq<char>>,
    shift: int,
    end: int,
    c: int,
)
    requires
        alphas.len() >= 1,
        0 <= c < alphas.len(),
    ensures
        emitted_val(buf.push(ch), alphas, shift, end, c) == emitted_val(buf, alphas, shift, end, c)
            + first_pos(
            step_alpha(alphas, shift, end, cyc_add(c, buf.len(), alphas.len() as int)),
            ch,
        ) * step_prod(alphas, shift, end, c, buf.len()),
    decreases buf.len(),
{
    reveal_with_fuel(step_prod, 3);
    reveal_with_fuel(emitted_val, 3);
    reveal_with_fuel(cyc_add, 3);
    let n = alphas.len() as int;
    if buf.len() == 0 {
        assert(buf.push(ch).drop_first() =~= buf);
        assert(buf.push(ch)[0] == ch);
    } else {
        assert(buf.push(ch).drop_first() =~= buf.drop_first().push(ch));
        assert(buf.push(ch)[0] == buf[0]);
        lemma_emitted_snoc(buf.drop_first(), ch, alphas, shift, end, cnext(c, n));
        lemma_cyc_add_front(c, (buf.len() - 1) as nat, n);
        let a = step_len(alphas, shift, end, c);
        let x = emitted_val(buf.drop_first(), alphas, shift, end, cnext(c, n));
        let p = first_pos(
            step_alpha(alphas, shift, end, cyc_add(c, buf.len(), n)),
            ch,
        );
        let q = step_prod(alphas, shift, end, cnext(c, n), (buf.len() - 1) as nat);
        assert(a * (x + p * q) == a * x + p * (a * q)) by (nonlinear_arith);
    }
}

/// The product of the radices of `m` word positions, read from their last
/// position's cycle view, equals the product of the same `m` walk steps.
pub proof fn lemma_wprod_step_prod(
    alphas: Seq<Seq<char>>,
    shift: int,
    end: int,
    c0: int,
    m: nat,
    wc: int,
)
    requires
        alphas.len() >= 1,
        0 <= shift < alphas.len(),
        0 <= end < alphas.len(),
        0 <= c0 < alphas.len(),
        m >= 1 ==> wc == walk_idx(
            alphas.len() as int,
            shift,
            end,
            cyc_add(c0, (m - 1) as nat, alphas.len() as int),
        ),
    ensures
        wprod(alphas, wc, m) == step_prod(alphas, shift, end, c0, m),
    decreases m,
{
    reveal_with_fuel(step_prod, 3);
    reveal_with_fuel(wprod, 3);
    reveal_with_fuel(cyc_add, 3);
    let n = alphas.len() as int;
    if m >= 1 {
        let cm1 = cyc_add(c0, (m - 1) as nat, n);
        lemma_cyc_bounds(c0, (m - 1) as nat, n);
        lemma_step_prod_snoc(alphas, shift, end, c0, (m - 1) as nat);
        if m == 1 {
            assert(wprod(alphas, wc, 1) == alphas[wc].len() * 1);
            assert(step_prod(alphas, shift, end, c0, 1) == 1 * step_len(alphas, shift, end, cm1));
        } else {
            let cm2 = cyc_add(c0, (m - 2) as nat, n);
            lemma_cyc_bounds(c0, (m - 2) as nat, n);
            lemma_walk_idx_step(n, shift, end, cm2);
            assert(cm1 == cnext(cm2, n));
            assert(cnext(wc, n) == walk_idx(n, shift, end, cm2));
            lemma_wprod_step_prod(alphas, shift, end, c0, (m - 1) as nat, cnext(wc, n));
            let a = alphas[wc].len() as int;
            let b = wprod(alphas, cnext(wc, n), (m - 1) as nat);
            assert(a * b == b * a) by {
                lemma_mul_is_commutative(a, b);
            }
        }
    }
}

/// The accumulator of `value_from` scales by the product of the remaining
/// radices.
pub proof fn lemma_value_from_acc(w: Seq<char>, alphas: Seq<Seq<char>>, wc: int, acc: int)
    requires
        alphas.len() >= 1,
    ensures
        value_from(w, alphas, wc, acc) == acc * wprod(alphas, wc, w.len()) + value_from(
            w,
            alphas,
            wc,
            0,
        ),
    decreases w.len(),
{
    let n = alphas.len() as int;
    if w.len() == 0 {
    } else {
        let a = alphas[wc].len() as int;
        let d = first_pos(alphas[wc], w[0]);
        lemma_value_from_acc(w.drop_first(), alphas, cnext(wc, n), acc * a + d);
        lemma_value_from_acc(w.drop_first(), alphas, cnext(wc, n), d);
        let q = wprod(alphas, cnext(wc, n), (w.len() - 1) as nat);
        let x = value_from(w.drop_first(), alphas, cnext(wc, n), 0);
        assert((acc * a + d) * q + x == acc * (a * q) + (d * q + x)) by (nonlinear_arith);
    }
}

/// Reading the reversed buffer as a word yields the value the walk emitted,
/// and every reversed character sits in the alphabet of its word position.
pub proof fn lemma_rev_emitted(
    buf: Seq<char>,
    alphas: Seq<Seq<char>>,
    shift: int,
    end: int,
    c0: int,
    wc: int,
)
    requires
        alphas.len() >= 1,
        0 <= shift < alphas.len(),
        0 <= end < alphas.len(),
        0 <= c0 < alphas.len(),
        buf.len() >= 1 ==> wc == walk_idx(
            alphas.len() as int,
            shift,
            end,
            cyc_add(c0, (buf.len() - 1) as nat, alphas.len() as int),
        ),
        forall|k: int|
            0 <= k < buf.len() ==> step_alpha(
                alphas,
                shift,
                end,
                cyc_add(c0, k as nat, alphas.len() as int),
            ).contains(#[trigger] buf[k]),
    ensures
        value_from(buf.reverse(), alphas, wc, 0) == emitted_val(buf, alphas, shift, end, c0),
        chars_ok(buf.reverse(), alphas, wc),
    decreases buf.len(),
{
    let n = alphas.len() as int;
    if buf.len() >= 1 {
        let m = buf.len() as int;
        let w = buf.reverse();
        let cm1 = cyc_add(c0, (m - 1) as nat, n);
        lemma_cyc_bounds(c0, (m - 1) as nat, n);
        lemma_walk_idx_step(n, shift, end, cm1);
        assert(w.len() == m);
        assert(w[0] == buf[m - 1]);
        assert(w.drop_first() =~= buf.drop_last().reverse());
        let last = buf[m - 1];
        let d = first_pos(alphas[wc], last);
        assert(step_alpha(alphas, shift, end, cm1) == alphas[wc]);
        assert(step_alpha(alphas, shift, end, cm1).contains(last));
        lemma_first_pos_props(alphas[wc], last);
        assert(d >= 0) by {
            let widx = choose|i: int| 0 <= i < alphas[wc].len() && alphas[wc][i] == last;
            if d == -1 {
                assert(alphas[wc][widx] != last);
            }
        }
        // The buffer without its most significant digit.
        let rest = buf.drop_last();
        assert(forall|k: int| 0 <= k < rest.len() ==> rest[k] == buf[k]);
        if m >= 2 {
            let cm2 = cyc_add(c0, (m - 2) as nat, n);
            lemma_cyc_bounds(c0, (m - 2) as nat, n);
            lemma_walk_idx_step(n, shift, end, cm2);
            assert(cm1 == cnext(cm2, n));
            assert(cnext(wc, n) == walk_idx(n, shift, end, cm2));
        }
        lemma_rev_emitted(rest, alphas, shift, end, c0, cnext(wc, n));
        lemma_value_from_acc(w.drop_first(), alphas, cnext(wc, n), d);
        lemma_wprod_step_prod(alphas, shift, end, c0, (m - 1) as nat, cnext(wc, n));
        assert(buf =~= rest.push(last));
        lemma_emitted_snoc(rest, last, alphas, shift, end, c0);
        let q = step_prod(alphas, shift, end, c0, (m - 1) as nat);
        let x = value_from(w.drop_first(), alphas, cnext(wc, n), 0);
        assert(value_from(w, alphas, wc, 0) == value_from(
            w.drop_first(),
            alphas,
            cnext(wc, n),
            0 * alphas[wc].len() + d,
        ));
        assert(0 * alphas[wc].len() == 0) by (nonlinear_arith);
        assert(value_from(w.drop_first(), alphas, cnext(wc, n), d) == d * q + x);
        assert(emitted_val(buf, alphas, shift, end, c0) == emitted_val(rest, alphas, shift, end, c0)
            + d * q);
    }
}

/// Every alphabet index is visited within the first `n` walk steps.
pub proof fn lemma_walk_covers(n: int, shift: int, end: int, j: int)
    requires
        n >= 1,
        0 <= shift < n,
        0 <= end < n,
        0 <= j < n,
    ensures
        0 <= wrap(n - 1 + shift + end - j, n) < n,
        walk_idx(n, shift, end, wrap(n - 1 + shift + end - j, n)) == j,
{
}

/// The generated word length is the least walk length compatible with `end`
/// and the length floor.
pub proof fn lemma_walk_len(n: int, end: int, ml: int)
    requires
        n >= 1,
        0 <= end < n,
        ml >= 1,
    ensures
        walk_len(n, end, ml) >= 1,
        walk_len(n, end, ml) >= ml,
        walk_len(n, end, ml) % n == end,
        forall|m: int| 0 <= m < walk_len(n, end, ml) ==> !(#[trigger] (m % n) == end && m >= ml),
{
    let lw = walk_len(n, end, ml);
    if ml <= end {
        lemma_small_mod(end as nat, n as nat);
        assert forall|m: int| 0 <= m < lw implies !(#[trigger] (m % n) == end && m >= ml) by {
            if m % n == end && m >= ml {
                lemma_small_mod(m as nat, n as nat);
            }
        }
    } else {
        let x = ml - end;
        let k = (x + n - 1) / n;
        lemma_fundamental_div_mod(x + n - 1, n);
        assert(n * k == x + n - 1 - ((x + n - 1) % n));
        assert(0 <= (x + n - 1) % n < n);
        assert(n * k >= x);
        assert(n * k <= x + n - 1);
        assert(k >= 1) by (nonlinear_arith)
            requires
                n * k >= x,
                x >= 1,
                n >= 1,
        ;
        assert(lw == end + n * k);
        lemma_mod_multiples_vanish(k, end, n);
        lemma_small_mod(end as nat, n as nat);
        assert(lw % n == end);
        assert forall|m: int| 0 <= m < lw implies !(#[trigger] (m % n) == end && m >= ml) by {
            if m % n == end && m >= ml {
                lemma_fundamental_div_mod(m, n);
                let q = m / n;
                assert(m == n * q + end);
                assert(n * q >= x) by (nonlinear_arith)
                    requires
                        m == n * q + end,
                        m >= ml,
                        x == ml - end,
                ;
                assert(q >= 1) by (nonlinear_arith)
                    requires
                        n * q >= x,
                        x >= 1,
                        n >= 1,
                ;
                assert(n * q < n * k) by (nonlinear_arith)
                    requires
                        m == n * q + end,
                        m < lw,
                        lw == end + n * k,
                ;
                assert(q < k) by (nonlinear_arith)
                    requires
                        n * q < n * k,
                        n >= 1,
                ;
                assert(n * q <= n * (k - 1)) by (nonlinear_arith)
                    requires
                        q <= k - 1,
                        n >= 1,
                ;
                assert(n * (k - 1) == n * k - n) by (nonlinear_arith);
                assert(m < ml);
            }
        }
    }
}

/// Accumulating one more digit commutes with reduction modulo `md`.
pub proof fn lemma_mod_mul_add(acc: int, len: int, d: int, md: int)
    requires
        md > 0,
    ensures
        ((acc % md) * len + d) % md == (acc * len + d) % md,
{
    lemma_mul_mod_noop_left(acc, len, md);
    lemma_add_mod_noop((acc % md) * len, d, md);
    lemma_add_mod_noop(acc * len, d, md);
    assert(((acc % md) * len) % md == (acc * len) % md);
}



/// Cyclic distance from `from` forward to `to`, both in `[0, n)`.
pub open spec fn cdist(from: int, to: int, n: int) -> int {
    if to >= from {
        to - from
    } else {
        to + n - from
    }
}

/// `wrap` agrees with `%` on its domain.
pub proof fn lemma_wrap_mod(a: int, n: int)
    requires
        n >= 1,
        0 <= a < 3 * n,
    ensures
        wrap(a, n) == a % n,
{
    if a < n {
        lemma_small_mod(a as nat, n as nat);
    } else if a < 2 * n {
        lemma_mod_sub_multiples_vanish(a, n);
        lemma_small_mod((a - n) as nat, n as nat);
    } else {
        lemma_mod_sub_multiples_vanish(a, n);
        lemma_mod_sub_multiples_vanish(a - n, n);
        lemma_small_mod((a - 2 * n) as nat, n as nat);
    }
}

/// Two cycle positions with the same walk index are equal.
pub proof fn lemma_walk_idx_inj(n: int, shift: int, end: int, c1: int, c2: int)
    requires
        n >= 1,
        0 <= shift < n,
        0 <= end < n,
        0 <= c1 < n,
        0 <= c2 < n,
        walk_idx(n, shift, end, c1) == walk_idx(n, shift, end, c2),
    ensures
        c1 == c2,
{
}

/// The walk step just before the one that closes a cycle at `end` uses the
/// alphabet of the word's first position.
pub proof fn lemma_prev_walk_is_shift(n: int, shift: int, end: int, cm1: int)
    requires
        n >= 1,
        0 <= shift < n,
        0 <= end < n,
        0 <= cm1 < n,
        cnext(cm1, n) == end,
    ensures
        walk_idx(n, shift, end, cm1) == shift,
{
}

} // verus!
