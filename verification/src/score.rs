//! Scoring: the mean of per-token weights over a token prefix. The mean
//! of counts / max over n tokens is the exact rational
//! (summed counts) / (max * n); it is kept that way and rendered with six
//! fractional digits, so no precision is lost before printing.

use vstd::prelude::*;
use crate::dict::WeightTable;
use crate::dict::keep_len;
use crate::tokenize::token_views;
use vstd::arithmetic::div_mod::lemma_div_multiples_vanish;
use vstd::arithmetic::div_mod::lemma_fundamental_div_mod_converse;
use vstd::arithmetic::div_mod::lemma_mod_multiples_basic;

verus! {

/// The weight numerator a table gives one token: its count when present,
/// 0 when absent (an absent token still counts toward the denominator).
pub open spec fn weight_count(m: Map<Seq<char>, u64>, w: Seq<char>) -> u64 {
    if m.contains_key(w) {
        m[w]
    } else {
        0u64
    }
}

/// The summed counts of a token sequence under a table mapping.
pub open spec fn sum_counts(m: Map<Seq<char>, u64>, toks: Seq<Seq<char>>) -> int
    decreases toks.len(),
{
    if toks.len() == 0 {
        0
    } else {
        sum_counts(m, toks.drop_last()) + weight_count(m, toks.last())
    }
}

/// 10^k, for the six fractional digits.
pub open spec fn pow10(k: nat) -> int
    decreases k,
{
    if k == 0 {
        1
    } else {
        10 * pow10((k - 1) as nat)
    }
}

proof fn lemma_pow10_pos(k: nat)
    ensures
        pow10(k) >= 1,
    decreases k,
{
    if k > 0 {
        lemma_pow10_pos((k - 1) as nat);
    }
}

proof fn lemma_pow10_mono(a: nat, b: nat)
    requires
        a <= b,
    ensures
        1 <= pow10(a) <= pow10(b),
    decreases b,
{
    lemma_pow10_pos(a);
    if a < b {
        lemma_pow10_mono(a, (b - 1) as nat);
        lemma_pow10_pos((b - 1) as nat);
    }
}

/// The score's six fractional digits as one integer in [0, 1000000]:
/// numer * 1000000 / denom, rounded half up.
pub open spec fn micro_of(numer: int, denom: int) -> int
    recommends
        1 <= denom,
{
    let scaled = numer * 1000000;
    if 2 * (scaled % denom) >= denom {
        scaled / denom + 1
    } else {
        scaled / denom
    }
}

/// A decimal digit as its character.
pub open spec fn spec_digit_char(d: int) -> char {
    if d == 0 {
        '0'
    } else if d == 1 {
        '1'
    } else if d == 2 {
        '2'
    } else if d == 3 {
        '3'
    } else if d == 4 {
        '4'
    } else if d == 5 {
        '5'
    } else if d == 6 {
        '6'
    } else if d == 7 {
        '7'
    } else if d == 8 {
        '8'
    } else {
        '9'
    }
}

/// The fixed-six-fraction-digit rendering of a score in [0, 1]:
/// "1.000000", or "0." followed by the six digits of micro_of.
pub open spec fn spec_fixed6(numer: int, denom: int) -> Seq<char>
    recommends
        1 <= denom,
        0 <= numer <= denom,
{
    let m = micro_of(numer, denom);
    if m == 1000000 {
        seq!['1', '.', '0', '0', '0', '0', '0', '0']
    } else {
        seq![
            '0',
            '.',
            spec_digit_char(m / 100000 % 10),
            spec_digit_char(m / 10000 % 10),
            spec_digit_char(m / 1000 % 10),
            spec_digit_char(m / 100 % 10),
            spec_digit_char(m / 10 % 10),
            spec_digit_char(m % 10),
        ]
    }
}

/// An exact readability score: the rational numer / denom in [0, 1], the
/// mean weight of the considered tokens.
#[derive(Debug)]
pub struct Score {
    numer: u128,
    denom: u128,
}

impl Score {
    /// The summed counts of the considered tokens.
    pub closed spec fn spec_numer(&self) -> u128 {
        self.numer
    }

    /// The shared divisor times the considered token count.
    pub closed spec fn spec_denom(&self) -> u128 {
        self.denom
    }

    /// A score is a valid rational in [0, 1].
    pub closed spec fn wf(&self) -> bool {
        1 <= self.denom && self.numer <= self.denom
    }

    /// The numerator, the summed raw counts.
    pub fn numer(&self) -> (r: u128)
        ensures
            r == self.spec_numer(),
    {
        self.numer
    }

    /// The denominator, max count times token count.
    pub fn denom(&self) -> (r: u128)
        ensures
            r == self.spec_denom(),
    {
        self.denom
    }

    /// Render the score with six fractional digits, rounded half up.
    pub fn to_fixed6(&self) -> (r: Vec<char>)
        requires
            self.wf(),
        ensures
            r@ == spec_fixed6(self.spec_numer() as int, self.spec_denom() as int),
    {
        let numer = self.numer;
        let denom = self.denom;
        let ghost scaled = (numer as int) * 1000000;
        let micro: u64 = if numer == denom {
            proof {
                lemma_div_multiples_vanish(1000000, denom as int);
                lemma_mod_multiples_basic(1000000, denom as int);
                assert(scaled == (denom as int) * 1000000);
                assert(scaled / (denom as int) == 1000000);
                assert(scaled % (denom as int) == 0);
            }
            1000000
        } else {
            let mut micro: u64 = 0;
            let mut rem: u128 = numer;
            let mut k: u64 = 0;
            proof {
                assert(pow10(0) == 1);
            }
            while k < 6
                invariant
                    1 <= denom,
                    numer < denom,
                    k <= 6,
                    rem < denom,
                    micro < pow10(k as nat),
                    pow10(k as nat) <= 1000000,
                    pow10(k as nat) * (numer as int) == (micro as int) * (denom as int) + (
                    rem as int),
                decreases 6 - k,
            {
                let (dg, r2) = div_digit(rem, denom);
                proof {
                    let p = pow10(k as nat);
                    let mi = micro as int;
                    let de = denom as int;
                    let nu = numer as int;
                    assert(pow10((k + 1) as nat) == 10 * p);
                    lemma_pow10_mono((k + 1) as nat, 6);
                    assert(pow10(6) == 1000000) by {
                        reveal_with_fuel(pow10, 7);
                    }
                    assert(10 * (p * nu) == 10 * (mi * de) + 10 * (rem as int));
                    assert(10 * (mi * de) == (10 * mi) * de) by (nonlinear_arith);
                    assert((10 * mi + dg as int) * de == (10 * mi) * de + (dg as int) * de)
                        by (nonlinear_arith);
                    assert(10 * (p * nu) == (10 * p) * nu) by (nonlinear_arith);
                    assert((10 * mi + dg as int) * de + (r2 as int) == (10 * p) * nu);
                }
                micro = micro * 10 + dg;
                rem = r2;
                k = k + 1;
            }
            proof {
                assert(pow10(6) == 1000000) by {
                    reveal_with_fuel(pow10, 7);
                }
                assert(scaled == (micro as int) * (denom as int) + (rem as int));
                lemma_fundamental_div_mod_converse(
                    scaled,
                    denom as int,
                    micro as int,
                    rem as int,
                );
            }
            if denom - rem <= rem {
                micro + 1
            } else {
                micro
            }
        };
        let mut out: Vec<char> = Vec::new();
        if micro == 1000000 {
            out.push('1');
            out.push('.');
            out.push('0');
            out.push('0');
            out.push('0');
            out.push('0');
            out.push('0');
            out.push('0');
        } else {
            out.push('0');
            out.push('.');
            out.push(digit_char(micro / 100000 % 10));
            out.push(digit_char(micro / 10000 % 10));
            out.push(digit_char(micro / 1000 % 10));
            out.push(digit_char(micro / 100 % 10));
            out.push(digit_char(micro / 10 % 10));
            out.push(digit_char(micro % 10));
        }
        proof {
            assert(out@ =~= spec_fixed6(self.spec_numer() as int, self.spec_denom() as int));
        }
        out
    }
}

/// One step of decimal long division: from a remainder `r` under `denom`,
/// the next digit and remainder, with 10 * r == digit * denom + rest. It
/// adds `r` nine times, reducing modulo `denom`, so no intermediate value
/// can overflow whatever the magnitudes.
fn div_digit(r: u128, denom: u128) -> (res: (u64, u128))
    requires
        1 <= denom,
        r < denom,
    ensures
        res.0 <= 9,
        res.1 < denom,
        10 * (r as int) == (res.0 as int) * (denom as int) + (res.1 as int),
{
    let mut d: u64 = 0;
    let mut acc: u128 = r;
    let mut k: u64 = 0;
    while k < 9
        invariant
            1 <= denom,
            r < denom,
            acc < denom,
            k <= 9,
            d <= k,
            (d as int) * (denom as int) + (acc as int) == (k as int + 1) * (r as int),
        decreases 9 - k,
    {
        proof {
            let di = d as int;
            let de = denom as int;
            let ki = k as int;
            let ri = r as int;
            assert((di + 1) * de == di * de + de) by (nonlinear_arith);
            assert((ki + 2) * ri == (ki + 1) * ri + ri) by (nonlinear_arith);
        }
        if acc >= denom - r {
            acc = acc - (denom - r);
            d = d + 1;
        } else {
            acc = acc + r;
        }
        k = k + 1;
    }
    (d, acc)
}

fn digit_char(d: u64) -> (c: char)
    requires
        d <= 9,
    ensures
        c == spec_digit_char(d as int),
{
    match d {
        0 => '0',
        1 => '1',
        2 => '2',
        3 => '3',
        4 => '4',
        5 => '5',
        6 => '6',
        7 => '7',
        8 => '8',
        _ => '9',
    }
}

/// Average the weights of the first min(N, length) tokens under a top-N
/// limit (all tokens otherwise): Some score with numerator the summed
/// counts and denominator max * count, or None when no token is
/// considered (empty text or N = 0), never a division by zero.
pub fn compute_readability(tokens: &Vec<String>, table: &WeightTable, top_n: Option<usize>) -> (r:
    Option<Score>)
    requires
        table.wf(),
    ensures
        ({
            let toks = token_views(tokens@).take(keep_len(tokens@.len(), top_n) as int);
            match r {
                None => toks.len() == 0,
                Some(sc) => {
                    &&& toks.len() > 0
                    &&& sc.wf()
                    &&& sc.spec_numer() == sum_counts(table@, toks)
                    &&& sc.spec_denom() == table.spec_max() * toks.len()
                },
            }
        }),
{
    let n = tokens.len();
    let m: usize = match top_n {
        Some(limit) => if limit < n {
            limit
        } else {
            n
        },
        None => n,
    };
    let ghost toks = token_views(tokens@).take(m as int);
    proof {
        assert(m as int == keep_len(tokens@.len(), top_n) as int);
    }
    if m == 0 {
        return None;
    }
    let max = table.max_count();
    let mut sum: u128 = 0;
    let mut i: usize = 0;
    proof {
        assert(toks.take(0) =~= Seq::<Seq<char>>::empty());
    }
    while i < m
        invariant
            i <= m <= tokens@.len(),
            toks == token_views(tokens@).take(m as int),
            table.wf(),
            max == table.spec_max(),
            max >= 1,
            sum == sum_counts(table@, toks.take(i as int)),
            sum <= (i as int) * (max as int),
        decreases m - i,
    {
        let c: u64 = match table.count_of(&tokens[i]) {
            Some(c) => c,
            None => 0,
        };
        proof {
            if table@.contains_key(tokens@[i as int]@) {
                table.lemma_counts_bounded(tokens@[i as int]@);
            }
            assert(toks[i as int] == tokens@[i as int]@);
            assert(c == weight_count(table@, toks[i as int]));
            assert(toks.take(i + 1).drop_last() =~= toks.take(i as int));
            assert(toks.take(i + 1).last() == toks[i as int]);
            let ii = i as int;
            let ma = max as int;
            assert((ii + 1) * ma == ii * ma + ma) by (nonlinear_arith);
            assert((ii + 1) * ma <= u128::MAX) by (nonlinear_arith)
                requires
                    0 <= ii + 1 <= u64::MAX as int + 1,
                    0 <= ma <= u64::MAX as int,
            ;
        }
        sum = sum + (c as u128);
        i = i + 1;
    }
    proof {
        assert(toks.take(m as int) =~= toks);
        let ma = max as int;
        let mi = m as int;
        assert(ma * mi <= u128::MAX && 1 <= ma * mi && mi * ma == ma * mi) by (nonlinear_arith)
            requires
                1 <= ma <= u64::MAX as int,
                1 <= mi <= u64::MAX as int,
        ;
    }
    let denom: u128 = (max as u128) * (m as u128);
    Some(Score { numer: sum, denom })
}

} // verus!

