//! Lowercase hexadecimal text for address values.
//!
//! The address types render as `TypeName(0x…)`. The digit sequence of a
//! value is pinned down by the spec functions here, and the builder is
//! proved to emit exactly that sequence.

use vstd::prelude::*;
use vstd::string::StringExecFns;

verus! {

/// The lowercase hexadecimal digit for a value below sixteen.
pub open spec fn spec_hex_digit(d: int) -> char {
    if d == 0 {
        '0'
    } else if d == 1 {
        '1'
    } else if d == 2 {
        '2'
    } else if d == 3 {
        '3'
    } else if d == 4 {
        '4'
    } else if d == 5 {
        '5'
    } else if d == 6 {
        '6'
    } else if d == 7 {
        '7'
    } else if d == 8 {
        '8'
    } else if d == 9 {
        '9'
    } else if d == 10 {
        'a'
    } else if d == 11 {
        'b'
    } else if d == 12 {
        'c'
    } else if d == 13 {
        'd'
    } else if d == 14 {
        'e'
    } else {
        'f'
    }
}

/// The hexadecimal digits of a positive value, most significant first;
/// empty for zero.
pub open spec fn spec_hex_digits(n: int) -> Seq<char>
    decreases n,
{
    if n <= 0 {
        Seq::<char>::empty()
    } else {
        spec_hex_digits(n / 16).push(spec_hex_digit(n % 16))
    }
}

/// The canonical text of a value: `0x` and its digits, with a single `0`
/// for zero.
pub open spec fn spec_hex_text(n: int) -> Seq<char> {
    seq!['0', 'x'] + (if n == 0 {
        seq!['0']
    } else {
        spec_hex_digits(n)
    })
}

/// The one-character slice holding a digit's character.
fn hex_digit_str(d: usize) -> (r: &'static str)
    requires
        d < 16,
    ensures
        r@ == seq![spec_hex_digit(d as int)],
{
    proof {
        reveal_strlit("0");
        reveal_strlit("1");
        reveal_strlit("2");
        reveal_strlit("3");
        reveal_strlit("4");
        reveal_strlit("5");
        reveal_strlit("6");
        reveal_strlit("7");
        reveal_strlit("8");
        reveal_strlit("9");
        reveal_strlit("a");
        reveal_strlit("b");
        reveal_strlit("c");
        reveal_strlit("d");
        reveal_strlit("e");
        reveal_strlit("f");
    }
    let r = if d == 0 {
        "0"
    } else if d == 1 {
        "1"
    } else if d == 2 {
        "2"
    } else if d == 3 {
        "3"
    } else if d == 4 {
        "4"
    } else if d == 5 {
        "5"
    } else if d == 6 {
        "6"
    } else if d == 7 {
        "7"
    } else if d == 8 {
        "8"
    } else if d == 9 {
        "9"
    } else if d == 10 {
        "a"
    } else if d == 11 {
        "b"
    } else if d == 12 {
        "c"
    } else if d == 13 {
        "d"
    } else if d == 14 {
        "e"
    } else {
        "f"
    };
    proof {
        assert(r@ =~= seq![spec_hex_digit(d as int)]);
    }
    r
}

/// Renders a value as `0x` followed by its lowercase hexadecimal digits.
#[verifier::spinoff_prover]
#[verifier::rlimit(100)]
pub fn hex_text(n: usize) -> (r: String)
    ensures
        r@ == spec_hex_text(n as int),
{
    let mut out = String::from_str("0x");
    proof {
        reveal_strlit("0x");
    }
    if n == 0 {
        out.append(hex_digit_str(0));
        proof {
            assert(out@ =~= spec_hex_text(0));
        }
        return out;
    }
    let ghost orig = n as int;
    let mut p: usize = 1;
    let ghost mut e: nat = 0;
    proof {
        vstd::arithmetic::power::lemma_pow0(16);
    }
    while p <= n / 16
        invariant
            n >= 1,
            1 <= p <= n,
            p == vstd::arithmetic::power::pow(16, e),
        decreases n - p,
    {
        proof {
            vstd::arithmetic::div_mod::lemma_fundamental_div_mod(n as int, 16);
            vstd::arithmetic::div_mod::lemma_mod_division_less_than_divisor(n as int, 16);
            vstd::arithmetic::power::lemma_pow_adds(16, e, 1);
            vstd::arithmetic::power::lemma_pow1(16);
            e = e + 1;
        }
        p = p * 16;
    }
    proof {
        vstd::arithmetic::div_mod::lemma_fundamental_div_mod(n as int, 16);
        vstd::arithmetic::div_mod::lemma_mod_division_less_than_divisor(n as int, 16);
        assert(orig < (p as int) * 16) by (nonlinear_arith)
            requires
                orig == 16 * (orig / 16) + orig % 16,
                orig / 16 <= (p as int) - 1,
                orig % 16 < 16,
        ;
        vstd::arithmetic::div_mod::lemma_small_mod(orig as nat, ((p as int) * 16) as nat);
        vstd::arithmetic::div_mod::lemma_basic_div(orig, (p as int) * 16);
        assert(out@ =~= seq!['0', 'x'] + spec_hex_digits(orig / ((p as int) * 16)));
    }
    let mut m = n;
    while p > 0
        invariant
            orig == n,
            n >= 1,
            p > 0 ==> p == vstd::arithmetic::power::pow(16, e),
            p > 0 ==> p <= orig && m == orig % ((p as int) * 16) && out@ == seq!['0', 'x']
                + spec_hex_digits(orig / ((p as int) * 16)),
            p == 0 ==> out@ == seq!['0', 'x'] + spec_hex_digits(orig),
        decreases p,
    {
        let ghost q = (orig / (p as int)) % 16;
        proof {
            vstd::arithmetic::div_mod::lemma_breakdown(orig, p as int, 16);
            vstd::arithmetic::div_mod::lemma_mod_division_less_than_divisor(orig, p as int);
            vstd::arithmetic::div_mod::lemma_div_pos_is_pos(orig, p as int);
            vstd::arithmetic::div_mod::lemma_fundamental_div_mod_converse(
                m as int,
                p as int,
                q,
                orig % (p as int),
            );
            assert((m as int) / (p as int) == q);
            assert(q < 16);
        }
        let d = m / p;
        let ghost out_pre = out@;
        out.append(hex_digit_str(d));
        proof {
            vstd::arithmetic::div_mod::lemma_div_denominator(orig, p as int, 16);
            assert((orig / (p as int)) / 16 == orig / ((p as int) * 16));
            assert(orig / (p as int) >= 1) by {
                vstd::arithmetic::div_mod::lemma_div_non_zero(orig, p as int);
            }
            assert(spec_hex_digits(orig / (p as int)) == spec_hex_digits(
                orig / ((p as int) * 16),
            ).push(spec_hex_digit(q)));
            assert(out@ =~= seq!['0', 'x'] + spec_hex_digits(orig / (p as int)));
            vstd::arithmetic::div_mod::lemma_mod_mod(orig, p as int, 16);
            assert((m as int) % (p as int) == orig % (p as int));
        }
        m = m % p;
        proof {
            if e == 0 {
                vstd::arithmetic::power::lemma_pow0(16);
                assert(p == 1);
                assert(orig / 1 == orig);
            } else {
                vstd::arithmetic::power::lemma_pow_adds(16, (e - 1) as nat, 1);
                vstd::arithmetic::power::lemma_pow1(16);
                assert(p == 16 * vstd::arithmetic::power::pow(16, (e - 1) as nat))
                    by (nonlinear_arith)
                    requires
                        p == vstd::arithmetic::power::pow(16, e),
                        vstd::arithmetic::power::pow(16, e) == vstd::arithmetic::power::pow(
                            16,
                            (e - 1) as nat,
                        ) * vstd::arithmetic::power::pow(16, 1),
                        vstd::arithmetic::power::pow(16, 1) == 16,
                ;
                vstd::arithmetic::div_mod::lemma_div_multiples_vanish(
                    vstd::arithmetic::power::pow(16, (e - 1) as nat),
                    16,
                );
                assert((p as int) / 16 == vstd::arithmetic::power::pow(16, (e - 1) as nat));
                e = (e - 1) as nat;
            }
        }
        p = p / 16;
    }
    out
}

} // verus!
