use vstd::prelude::*;
use vstd::arithmetic::div_mod::lemma_fundamental_div_mod;

verus! {

/// The byte that writes the digit `d` (0 through 15): `0`..`9`, then
/// lowercase `a`..`f`.
pub open spec fn digit_byte(d: int) -> u8 {
    if d < 10 {
        (48 + d) as u8
    } else {
        (87 + d) as u8
    }
}

/// Whether `b` is a digit byte of the given base (10 or 16; hexadecimal
/// digits use lowercase letters).
pub open spec fn is_digit_b(base: int, b: u8) -> bool {
    (48 <= b <= 57 && b - 48 < base) || (base == 16 && 97 <= b <= 102)
}

/// The value of a digit byte.
pub open spec fn digit_val(b: u8) -> int {
    if 48 <= b <= 57 {
        b - 48
    } else {
        b - 87
    }
}

/// The digits of `n` written in the given base, most significant first,
/// without leading zeroes (`0` itself is the single digit `0`).
pub open spec fn digits_of(base: int, n: int) -> Seq<u8>
    decreases n,
    via digits_of_dec
{
    if base < 2 || n < 0 {
        Seq::empty()
    } else if n < base {
        seq![digit_byte(n)]
    } else {
        digits_of(base, n / base) + seq![digit_byte(n % base)]
    }
}

#[via_fn]
proof fn digits_of_dec(base: int, n: int) {
    if !(base < 2 || n < 0) && n >= base {
        assert(n / base < n && n / base >= 0) by (nonlinear_arith)
            requires n >= base >= 2;
    }
}

/// The value of a digit string in the given base.
pub open spec fn val_of(base: int, ds: Seq<u8>) -> int
    decreases ds.len(),
{
    if ds.len() == 0 {
        0
    } else {
        val_of(base, ds.drop_last()) * base + digit_val(ds.last())
    }
}

/// Where the run of digit bytes of the given base that starts at `i` ends.
pub open spec fn run_end(base: int, s: Seq<u8>, i: int) -> int
    decreases s.len() - i,
{
    if i < s.len() && 0 <= i && is_digit_b(base, s[i]) {
        run_end(base, s, i + 1)
    } else {
        i
    }
}

/// `digits_of` writes only digit bytes, at least one of them, and `val_of`
/// reads the written number back.
pub proof fn lemma_digits_of(base: int, n: int)
    requires
        base == 10 || base == 16,
        0 <= n,
    ensures
        digits_of(base, n).len() >= 1,
        forall|k: int|
            0 <= k < digits_of(base, n).len() ==> is_digit_b(base, #[trigger] digits_of(base, n)[k]),
        val_of(base, digits_of(base, n)) == n,
    decreases n,
{
    if n < base {
        assert(digits_of(base, n) == seq![digit_byte(n)]);
        assert(digits_of(base, n).drop_last() =~= Seq::<u8>::empty());
        assert(digits_of(base, n).last() == digit_byte(n));
        assert(val_of(base, digits_of(base, n)) == val_of(base, Seq::<u8>::empty()) * base + digit_val(digit_byte(n)));
        assert(digit_val(digit_byte(n)) == n);
    } else {
        lemma_digits_of(base, n / base);
        let hi = digits_of(base, n / base);
        let d = digit_byte(n % base);
        assert(digits_of(base, n) == hi + seq![d]);
        assert((hi + seq![d]).drop_last() =~= hi);
        assert((hi + seq![d]).last() == d);
        lemma_fundamental_div_mod(n, base);
        assert(0 <= n % base < base) by (nonlinear_arith)
            requires base >= 2, n >= 0;
        assert(digit_val(d) == n % base);
        assert(val_of(base, digits_of(base, n)) == val_of(base, hi) * base + (n % base));
        assert(val_of(base, hi) * base == base * (n / base)) by (nonlinear_arith)
            requires val_of(base, hi) == n / base;
    }
}

/// A digit run that is followed by a non-digit (or by the end) ends exactly
/// at that point.
pub proof fn lemma_run_end_digits(base: int, s: Seq<u8>, i: int, j: int)
    requires
        0 <= i <= j <= s.len(),
        forall|k: int| i <= k < j ==> is_digit_b(base, #[trigger] s[k]),
        j == s.len() || !is_digit_b(base, s[j]),
    ensures
        run_end(base, s, i) == j,
    decreases j - i,
{
    if i < j {
        lemma_run_end_digits(base, s, i + 1, j);
    }
}

/// The run end never moves left, and never past the end.
pub proof fn lemma_run_end_bounds(base: int, s: Seq<u8>, i: int)
    requires
        0 <= i <= s.len(),
    ensures
        i <= run_end(base, s, i) <= s.len(),
        forall|k: int| i <= k < run_end(base, s, i) ==> is_digit_b(base, #[trigger] s[k]),
        run_end(base, s, i) < s.len() ==> !is_digit_b(base, s[run_end(base, s, i)]),
    decreases s.len() - i,
{
    if i < s.len() && is_digit_b(base, s[i]) {
        lemma_run_end_bounds(base, s, i + 1);
    }
}

/// The digit value of a byte, if the byte is a digit of the chosen base.
pub(crate) fn digit_of(b: u8, hex: bool) -> (r: Option<u8>)
    ensures
        r == (if is_digit_b(if hex { 16int } else { 10int }, b) {
            Some(digit_val(b) as u8)
        } else {
            None::<u8>
        }),
{
    if 48 <= b && b <= 57 {
        Some(b - 48)
    } else if hex && 97 <= b && b <= 102 {
        Some(b - 87)
    } else {
        None
    }
}

/// Append the digits of `n` in the chosen base.
pub fn render_num(n: u64, hex: bool, out: &mut Vec<u8>)
    ensures
        final(out)@ == old(out)@ + digits_of(if hex { 16int } else { 10int }, n as int),
    decreases n,
{
    let base: u64 = if hex { 16 } else { 10 };
    if n < base {
        let d: u8 = if n < 10 {
            48 + (n as u8)
        } else {
            87 + (n as u8)
        };
        out.push(d);
        proof {
            assert(out@ =~= old(out)@ + digits_of(base as int, n as int));
        }
    } else {
        proof {
            assert(n / base < n && n / base >= 0) by (nonlinear_arith)
                requires n >= base >= 2;
        }
        render_num(n / base, hex, out);
        let rem = n % base;
        let d: u8 = if rem < 10 {
            48 + (rem as u8)
        } else {
            87 + (rem as u8)
        };
        out.push(d);
        proof {
            assert(rem == n as int % base as int);
            assert(d == digit_byte(n as int % base as int));
            assert(out@ =~= old(out)@ + digits_of(base as int, n as int));
        }
    }
}

/// Parse the digit run that starts at `i`: its value and the index just
/// past it, or nothing when there is no digit there or the value does not
/// fit in 64 bits.
pub fn parse_num(s: &Vec<u8>, i: usize, hex: bool) -> (r: Option<(u64, usize)>)
    requires
        i <= s@.len(),
    ensures
        ({
            let base = if hex { 16int } else { 10int };
            let j = run_end(base, s@, i as int);
            let v = val_of(base, s@.subrange(i as int, j));
            if j == i {
                r == None::<(u64, usize)>
            } else if v <= u64::MAX {
                r == Some((v as u64, j as usize))
            } else {
                r == None::<(u64, usize)>
            }
        }),
        val_of(
            if hex { 16int } else { 10int },
            s@.subrange(i as int, run_end(if hex { 16int } else { 10int }, s@, i as int)),
        ) >= 0,
{
    let ghost base: int = if hex { 16int } else { 10int };
    let baseu: u64 = if hex { 16 } else { 10 };
    let mut k: usize = i;
    let mut acc: u64 = 0;
    let mut over: bool = false;
    let ghost mut tv: int = 0;
    proof {
        assert(s@.subrange(i as int, i as int) =~= Seq::<u8>::empty());
        lemma_run_end_bounds(base, s@, i as int);
    }
    loop
        invariant
            i <= k <= s@.len(),
            hex ==> base == 16 && baseu == 16,
            !hex ==> base == 10 && baseu == 10,
            run_end(base, s@, i as int) == run_end(base, s@, k as int),
            tv == val_of(base, s@.subrange(i as int, k as int)),
            over <==> tv > u64::MAX,
            !over ==> acc == tv,
        ensures
            i <= k <= s@.len(),
            run_end(base, s@, i as int) == run_end(base, s@, k as int),
            tv == val_of(base, s@.subrange(i as int, k as int)),
            over <==> tv > u64::MAX,
            !over ==> acc == tv,
            k == s@.len() || !is_digit_b(base, s@[k as int]),
        decreases s@.len() - k,
    {
        if k >= s.len() {
            break;
        }
        let b = s[k];
        match digit_of(b, hex) {
            None => {
                break;
            },
            Some(d) => {
                proof {
                    assert(run_end(base, s@, k as int) == run_end(base, s@, k as int + 1));
                    assert(s@.subrange(i as int, k as int + 1).drop_last() =~= s@.subrange(
                        i as int,
                        k as int,
                    ));
                    assert(s@.subrange(i as int, k as int + 1).last() == s@[k as int]);
                }
                let ghost tv_new: int = tv * baseu as int + d as int;
                proof {
                    if over {
                        assert(tv_new > u64::MAX) by (nonlinear_arith)
                            requires tv > u64::MAX, baseu >= 10, tv_new == tv * baseu + d, d >= 0;
                    }
                }
                if !over {
                    match acc.checked_mul(baseu) {
                        Some(m) => {
                            match m.checked_add(d as u64) {
                                Some(a) => {
                                    acc = a;
                                },
                                None => {
                                    over = true;
                                },
                            }
                        },
                        None => {
                            over = true;
                            proof {
                                assert(tv_new > u64::MAX) by (nonlinear_arith)
                                    requires
                                        acc * baseu > u64::MAX,
                                        tv == acc,
                                        tv_new == tv * baseu + d,
                                        d >= 0;
                            }
                        },
                    }
                }
                proof {
                    tv = tv_new;
                }
                k = k + 1;
            },
        }
    }
    proof {
        assert(run_end(base, s@, k as int) == k as int);
    }
    if k == i {
        None
    } else if over {
        None
    } else {
        Some((acc, k))
    }
}

} // verus!
