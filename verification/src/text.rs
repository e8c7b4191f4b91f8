//! Decimal text for numbers: plain, zero-padded, and seconds with three
//! decimals.
use vstd::prelude::*;

verus! {

/// The character of decimal digit `d`.
pub open spec fn digit_char(d: int) -> char {
    seq!['0', '1', '2', '3', '4', '5', '6', '7', '8', '9'][d]
}

/// The decimal digits of `n`, most significant first, without leading zeros
/// (`"0"` for zero).
pub open spec fn decimal(n: nat) -> Seq<char>
    decreases n,
{
    if n < 10 {
        seq![digit_char(n as int)]
    } else {
        decimal(n / 10).push(digit_char((n % 10) as int))
    }
}

/// The decimal digits of `n`, with zeros in front up to `width` characters.
pub open spec fn zero_padded(n: nat, width: nat) -> Seq<char> {
    let digits = decimal(n);
    if digits.len() >= width {
        digits
    } else {
        Seq::new((width - digits.len()) as nat, |i: int| '0') + digits
    }
}

/// `n / step` rounded to the nearest whole number, exact halves to the
/// even neighbour.
pub open spec fn round_half_even(n: nat, step: nat) -> nat {
    let q = n / step;
    let r = n % step;
    if 2 * r > step || (2 * r == step && q % 2 == 1) {
        q + 1
    } else {
        q
    }
}

/// `v` written with `decimals` decimals after rounding it to a whole number
/// of `step`s (exact halves to even): `v` stands for `v / (step *
/// 10^decimals)`. Negative values get a `-` in front.
///
/// This rounds the exact value. Rust's `{:.N}` formatting of an `f64` rounds
/// the binary value that the `f64` holds, also with exact halves to even, so
/// the two agree when an `f64` holds the value exactly (such as `0.125`);
/// on a half that an `f64` cannot hold they may differ: the `f64` nearest to
/// `0.0125` lies just above it, and Rust writes it as `0.013` where this
/// gives `0.012`.
pub open spec fn fixed_text(v: int, step: nat, decimals: nat) -> Seq<char> {
    let magnitude = if v < 0 {
        -v
    } else {
        v
    };
    let m = round_half_even(magnitude as nat, step) as int;
    let sign = if v < 0 {
        seq!['-']
    } else {
        Seq::<char>::empty()
    };
    sign + decimal((m / (pow10(decimals) as int)) as nat) + seq!['.'] + zero_padded(
        (m % (pow10(decimals) as int)) as nat,
        decimals,
    )
}

/// `us` microseconds as seconds with three decimals, rounded to the nearest
/// millisecond (exact halves to even).
pub open spec fn seconds_text(us: int) -> Seq<char> {
    fixed_text(us, 1000, 3)
}

/// Appends the decimal digits of `n` to `out`.
pub fn push_decimal(out: &mut String, n: u128)
    ensures
        final(out)@ == old(out)@ + decimal(n as nat),
    decreases n,
{
    if n >= 10 {
        push_decimal(out, n / 10);
    }
    let d = (n % 10) as usize;
    let digits = "0123456789";
    proof {
        reveal_strlit("0123456789");
    }
    let one = digits.substring_char(d, d + 1);
    assert(one@ =~= seq![digit_char(d as int)]);
    out.append(one);
    assert(decimal(n as nat) == if n < 10 {
        seq![digit_char(n as int)]
    } else {
        decimal((n / 10) as nat).push(digit_char((n % 10) as int))
    });
}

/// Number of decimal digits of `n`.
fn decimal_len(n: u128) -> (len: usize)
    ensures
        len == decimal(n as nat).len(),
        len <= 40,
    decreases n,
{
    if n < 10 {
        1
    } else {
        assert(n / 10 < n);
        let rest = decimal_len(n / 10);
        proof {
            lemma_decimal_len_bound(n as nat);
        }
        rest + 1
    }
}

/// Every number below 10^k has at most `k` digits; a `u128` has at most 40.
proof fn lemma_decimal_len_bound(n: nat)
    requires
        n <= u128::MAX,
    ensures
        decimal(n).len() <= 39,
{
    reveal_with_fuel(pow10, 40);
    assert(u128::MAX < pow10(39));
    lemma_decimal_len_below(n, 39);
}

proof fn lemma_decimal_len_below(n: nat, k: nat)
    requires
        k >= 1,
        n < pow10(k),
    ensures
        decimal(n).len() <= k,
    decreases k,
{
    if n >= 10 {
        assert(k > 1) by {
            if k == 1 {
                assert(pow10(1) == 10 * pow10(0));
            }
        }
        assert(pow10(k) == 10 * pow10((k - 1) as nat));
        assert(n / 10 < pow10((k - 1) as nat));
        lemma_decimal_len_below(n / 10, (k - 1) as nat);
    }
}

/// 10 to the power `k`.
pub open spec fn pow10(k: nat) -> nat
    decreases k,
{
    if k == 0 {
        1
    } else {
        10 * pow10((k - 1) as nat)
    }
}

/// Appends the digits of `n`, padded with zeros to `width` characters.
pub fn push_zero_padded(out: &mut String, n: u128, width: usize)
    ensures
        final(out)@ == old(out)@ + zero_padded(n as nat, width as nat),
{
    let len = decimal_len(n);
    let ghost start = out@;
    if len < width {
        let mut k: usize = len;
        while k < width
            invariant
                len <= k <= width,
                out@ == start + Seq::new((k - len) as nat, |i: int| '0'),
            decreases width - k,
        {
            let zero = "0";
            proof {
                reveal_strlit("0");
            }
            out.append(zero);
            assert(out@ =~= start + Seq::new((k + 1 - len) as nat, |i: int| '0'));
            k = k + 1;
        }
    }
    push_decimal(out, n);
    assert(out@ =~= start + zero_padded(n as nat, width as nat));
}

/// 10 to the power `k`, for `k` up to 38.
fn pow10_exec(k: u32) -> (p: u128)
    requires
        k <= 38,
    ensures
        p == pow10(k as nat),
{
    let mut p: u128 = 1;
    let mut i: u32 = 0;
    while i < k
        invariant
            i <= k <= 38,
            p == pow10(i as nat),
        decreases k - i,
    {
        proof {
            lemma_pow10_grows(i as nat, 38);
            lemma_pow10_38();
        }
        p = p * 10;
        i = i + 1;
    }
    p
}

proof fn lemma_pow10_38()
    ensures
        pow10(38) < u128::MAX,
{
    reveal_with_fuel(pow10, 40);
}

proof fn lemma_pow10_grows(i: nat, k: nat)
    requires
        i < k,
    ensures
        10 * pow10(i) <= pow10(k),
    decreases k,
{
    if i + 1 < k {
        lemma_pow10_grows(i, (k - 1) as nat);
    }
    lemma_pow10_positive((k - 1) as nat);
}

proof fn lemma_pow10_positive(k: nat)
    ensures
        pow10(k) >= 1,
    decreases k,
{
    if k > 0 {
        lemma_pow10_positive((k - 1) as nat);
    }
}

/// `v` written as described by `fixed_text`.
pub fn format_fixed(v: i128, step: u128, decimals: u32) -> (text: String)
    requires
        step > 0,
        decimals <= 38,
    ensures
        text@ == fixed_text(v as int, step as nat, decimals as nat),
{
    let magnitude: u128 = if v < 0 {
        (-(v + 1)) as u128 + 1
    } else {
        v as u128
    };
    let q = magnitude / step;
    let r = magnitude % step;
    assert(step * q + r == magnitude && 0 <= r < step) by {
        vstd::arithmetic::div_mod::lemma_fundamental_div_mod(magnitude as int, step as int);
        vstd::arithmetic::div_mod::lemma_mod_bound(magnitude as int, step as int);
    }
    let m = if r > step - r || (r == step - r && q % 2 == 1) {
        assert(q < u128::MAX) by {
            if step == 1 {
                assert(r == 0);
            } else {
                assert(step * q >= q * 2) by (nonlinear_arith)
                    requires
                        step >= 2,
                        q >= 0,
                ;
            }
        }
        q + 1
    } else {
        q
    };
    assert(m == round_half_even(magnitude as nat, step as nat));
    let p = pow10_exec(decimals);
    proof {
        lemma_pow10_positive(decimals as nat);
    }
    let mut text = String::new();
    if v < 0 {
        text.append("-");
    }
    push_decimal(&mut text, m / p);
    let dot = ".";
    proof {
        reveal_strlit(".");
    }
    text.append(dot);
    push_zero_padded(&mut text, m % p, decimals as usize);
    assert(text@ =~= fixed_text(v as int, step as nat, decimals as nat)) by {
        reveal_strlit("-");
    }
    text
}

/// `us` microseconds written as seconds with three decimals.
pub fn format_seconds(us: i128) -> (text: String)
    ensures
        text@ == seconds_text(us as int),
{
    format_fixed(us, 1000, 3)
}

/// The views of a list of strings.
pub open spec fn texts(v: Seq<String>) -> Seq<Seq<char>> {
    v.map_values(|s: String| s@)
}

/// Appends a copy of `s` to `args`.
pub fn push_text(args: &mut Vec<String>, s: &str)
    ensures
        texts(final(args)@) == texts(old(args)@).push(s@),
{
    args.push(s.to_owned());
    assert(texts(args@) =~= texts(old(args)@).push(s@));
}

/// Appends `s` to `args`.
pub fn push_string(args: &mut Vec<String>, s: String)
    ensures
        texts(final(args)@) == texts(old(args)@).push(s@),
{
    let ghost v = s@;
    args.push(s);
    assert(texts(args@) =~= texts(old(args)@).push(v));
}

} // verus!
