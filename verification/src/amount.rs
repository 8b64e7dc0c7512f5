//! Human-readable token amounts: decimal text with an optional point,
//! read into and written from base units of a token with a given number of
//! decimals.
use crate::uint::{
    decimal, digits_value, from_decimal_digits, is_digit, modulus, to_decimal, U256,
};
use vstd::prelude::*;
use vstd::string::*;

verus! {

/// Why a text is not an amount.
#[derive(Debug, Clone, Copy, PartialEq, Eq, Structural)]
pub enum AmountError {
    /// Nothing was given.
    Empty,
    /// A character other than digits and one point.
    Invalid,
    /// The amount reaches 2^256 base units.
    TooLarge,
}

/// Index of the first point in `s`, or -1.
pub open spec fn point_at(s: Seq<char>) -> int
    decreases s.len(),
{
    if s.len() == 0 {
        -1
    } else if point_at(s.drop_last()) >= 0 {
        point_at(s.drop_last())
    } else if s.last() == '.' {
        s.len() - 1
    } else {
        -1
    }
}

/// What comes before the first point (all of `s` without one).
pub open spec fn whole_part(s: Seq<char>) -> Seq<char> {
    if point_at(s) < 0 {
        s
    } else {
        s.take(point_at(s))
    }
}

/// What comes after the first point (nothing without one).
pub open spec fn frac_part(s: Seq<char>) -> Seq<char> {
    if point_at(s) < 0 {
        Seq::empty()
    } else {
        s.skip(point_at(s) + 1)
    }
}

/// Every character is a decimal digit.
pub open spec fn all_digits(s: Seq<char>) -> bool {
    forall|i: int| 0 <= i < s.len() ==> is_digit(#[trigger] s[i])
}

/// `n` zero digits.
pub open spec fn zeros(n: nat) -> Seq<char> {
    Seq::new(n, |i: int| '0')
}

/// The fraction digits cut, or padded with zeros, to exactly `d` digits.
pub open spec fn fixed_frac(frac: Seq<char>, d: nat) -> Seq<char> {
    Seq::new(d, |i: int| if i < frac.len() {
        frac[i]
    } else {
        '0'
    })
}

/// Base units written by `s` for a token with `d` decimals: the whole part
/// followed by the first `d` fraction digits (zeros where the fraction is
/// shorter). Digits beyond the `d`-th are dropped.
pub open spec fn amount_value(s: Seq<char>, d: nat) -> nat {
    digits_value(whole_part(s) + fixed_frac(frac_part(s), d))
}

/// Reads a decimal amount of a token with `decimals` decimals into base
/// units.
pub fn parse_amount(text: &str, decimals: u8) -> (r: Result<U256, AmountError>)
    ensures
        text@.len() == 0 ==> r == Err::<U256, AmountError>(AmountError::Empty),
        text@.len() > 0 && !(all_digits(whole_part(text@)) && all_digits(frac_part(text@))) ==> r
            == Err::<U256, AmountError>(AmountError::Invalid),
        text@.len() > 0 && all_digits(whole_part(text@)) && all_digits(frac_part(text@)) ==> match r {
            Ok(v) => v.val() == amount_value(text@, decimals as nat),
            Err(e) => e == AmountError::TooLarge && amount_value(text@, decimals as nat) >= modulus(),
        },
{
    let n = text.unicode_len();
    if n == 0 {
        return Err(AmountError::Empty);
    }
    let ghost s = text@;
    let mut i: usize = 0;
    let mut point: Option<usize> = None;
    while i < n && point.is_none()
        invariant
            n == s.len(),
            s == text@,
            i <= n,
            point.is_none() ==> point_at(s.take(i as int)) < 0,
            point matches Some(p) ==> p < n && p as int == point_at(s),
        decreases n - i + (if point.is_none() {
            1int
        } else {
            0int
        }),
    {
        proof {
            lemma_point_prefix(s, i as int);
        }
        if text.get_char(i) == '.' {
            point = Some(i);
            proof {
                assert(s.take(i + 1).drop_last() =~= s.take(i as int));
                lemma_point_extends(s, i + 1);
            }
        } else {
            proof {
                assert(s.take(i + 1).drop_last() =~= s.take(i as int));
            }
            i = i + 1;
        }
    }
    let (w_end, f_start) = match point {
        Some(p) => (p, p + 1),
        None => {
            proof {
                assert(s.take(n as int) =~= s);
            }
            (n, n)
        },
    };
    proof {
        assert(whole_part(s) =~= s.take(w_end as int));
        assert(frac_part(s) =~= s.skip(f_start as int));
    }
    let mut k: usize = 0;
    while k < n
        invariant
            n == s.len(),
            s == text@,
            w_end <= f_start <= n,
            whole_part(s) == s.take(w_end as int),
            frac_part(s) == s.skip(f_start as int),
            k <= n,
            forall|x: int| 0 <= x < k && (x < w_end || x >= f_start) ==> is_digit(#[trigger] s[x]),
        decreases n - k,
    {
        if k < w_end || k >= f_start {
            let c = text.get_char(k);
            if !('0' <= c && c <= '9') {
                proof {
                    if k < w_end {
                        assert(whole_part(s)[k as int] == c);
                    } else {
                        assert(frac_part(s)[k - f_start] == c);
                    }
                }
                return Err(AmountError::Invalid);
            }
        }
        k = k + 1;
    }
    proof {
        assert forall|x: int| 0 <= x < whole_part(s).len() implies is_digit(#[trigger] whole_part(s)[x]) by {
            assert(whole_part(s)[x] == s[x]);
        }
        assert forall|x: int| 0 <= x < frac_part(s).len() implies is_digit(#[trigger] frac_part(s)[x]) by {
            assert(frac_part(s)[x] == s[x + f_start]);
        }
    }
    let ghost target = whole_part(s) + fixed_frac(frac_part(s), decimals as nat);
    let mut combined = String::new();
    let mut j: usize = 0;
    while j < w_end
        invariant
            n == s.len(),
            s == text@,
            w_end <= n,
            j <= w_end,
            combined@ == s.take(j as int),
        decreases w_end - j,
    {
        combined.append(text.substring_char(j, j + 1));
        proof {
            assert(s.take(j + 1) =~= s.take(j as int) + s.subrange(j as int, j + 1));
        }
        j = j + 1;
    }
    let dec = decimals as usize;
    let mut t: usize = 0;
    proof {
        reveal_strlit("0");
    }
    while t < dec
        invariant
            n == s.len(),
            s == text@,
            w_end <= f_start <= n,
            t <= dec,
            dec == decimals as usize,
            whole_part(s) == s.take(w_end as int),
            frac_part(s) == s.skip(f_start as int),
            combined@ == whole_part(s) + fixed_frac(frac_part(s), decimals as nat).take(t as int),
            "0"@ == seq!['0'],
        decreases dec - t,
    {
        let ghost before = combined@;
        if t < n - f_start {
            combined.append(text.substring_char(f_start + t, f_start + t + 1));
            proof {
                assert(fixed_frac(frac_part(s), decimals as nat)[t as int] == s[f_start + t]);
            }
        } else {
            combined.append("0");
        }
        proof {
            assert(fixed_frac(frac_part(s), decimals as nat).take(t + 1) =~= fixed_frac(
                frac_part(s),
                decimals as nat,
            ).take(t as int).push(fixed_frac(frac_part(s), decimals as nat)[t as int]));
            assert(combined@ =~= whole_part(s) + fixed_frac(frac_part(s), decimals as nat).take(t + 1));
        }
        t = t + 1;
    }
    proof {
        assert(fixed_frac(frac_part(s), decimals as nat).take(dec as int) =~= fixed_frac(
            frac_part(s),
            decimals as nat,
        ));
        assert forall|x: int| 0 <= x < target.len() implies is_digit(#[trigger] target[x]) by {
            if x < whole_part(s).len() {
                assert(target[x] == whole_part(s)[x]);
            } else {
                let y = x - whole_part(s).len();
                assert(target[x] == fixed_frac(frac_part(s), decimals as nat)[y]);
                if y < frac_part(s).len() {
                    assert(is_digit(frac_part(s)[y]));
                }
            }
        }
    }
    let digits = combined.as_str();
    let len = digits.unicode_len();
    let mut z: usize = 0;
    proof {
        assert(target.skip(0) =~= target);
    }
    while z < len && digits.get_char(z) == '0'
        invariant
            digits@ == target,
            len == target.len(),
            z <= len,
            forall|x: int| 0 <= x < target.len() ==> is_digit(#[trigger] target[x]),
            digits_value(target.skip(z as int)) == digits_value(target),
        decreases len - z,
    {
        proof {
            assert(target.skip(z as int) =~= seq!['0'] + target.skip(z + 1));
            lemma_leading_zero(target.skip(z + 1));
        }
        z = z + 1;
    }
    let parsed = if z == len {
        proof {
            assert(target.skip(z as int) =~= Seq::<char>::empty());
            assert(digits_value(seq!['0']) == 0) by {
                assert(seq!['0'].drop_last() =~= Seq::<char>::empty());
            }
        }
        from_decimal_digits("0")
    } else {
        let repr = digits.substring_char(z, len);
        proof {
            assert(repr@ =~= target.skip(z as int));
        }
        from_decimal_digits(repr)
    };
    match parsed {
        Some(v) => Ok(v),
        None => Err(AmountError::TooLarge),
    }
}

/// A zero digit in front changes nothing.
proof fn lemma_leading_zero(t: Seq<char>)
    ensures
        digits_value(seq!['0'] + t) == digits_value(t),
    decreases t.len(),
{
    let s = seq!['0'] + t;
    if t.len() == 0 {
        assert(s.drop_last() =~= Seq::<char>::empty());
        assert(s.last() == '0');
        assert(digits_value(s) == digits_value(s.drop_last()) * 10 + crate::uint::digit_value('0'));
    } else {
        assert(s.drop_last() =~= seq!['0'] + t.drop_last());
        assert(s.last() == t.last());
        lemma_leading_zero(t.drop_last());
    }
}

/// The first point of a prefix is the first point of the whole, once found.
proof fn lemma_point_extends(s: Seq<char>, i: int)
    requires
        0 <= i <= s.len(),
        point_at(s.take(i)) >= 0,
    ensures
        point_at(s) == point_at(s.take(i)),
    decreases s.len() - i,
{
    if i < s.len() {
        assert(s.take(i + 1).drop_last() =~= s.take(i));
        lemma_point_extends(s, i + 1);
    } else {
        assert(s.take(i) =~= s);
    }
}

/// With no point in the first `i`, the first point lies at `i` or later.
proof fn lemma_point_prefix(s: Seq<char>, i: int)
    requires
        0 <= i < s.len(),
        point_at(s.take(i)) < 0,
    ensures
        s[i] == '.' ==> point_at(s.take(i + 1)) == i,
        s[i] != '.' ==> point_at(s.take(i + 1)) < 0,
{
    assert(s.take(i + 1).drop_last() =~= s.take(i));
}

/// Trailing zeros removed.
pub open spec fn strip_trailing_zeros(s: Seq<char>) -> Seq<char>
    decreases s.len(),
{
    if s.len() > 0 && s.last() == '0' {
        strip_trailing_zeros(s.drop_last())
    } else {
        s
    }
}

/// The digits `digits` of a base-unit amount written in whole tokens of `d`
/// decimals: a point put `d` places from the right, zeros added in front so
/// that at least one whole digit stands before it, trailing zeros of the
/// fraction dropped, and the point dropped with an empty fraction.
pub open spec fn point_text(digits: Seq<char>, d: nat) -> Seq<char> {
    let padded = if digits.len() <= d {
        zeros((d + 1 - digits.len()) as nat) + digits
    } else {
        digits
    };
    let whole = padded.take(padded.len() - d);
    let frac = strip_trailing_zeros(padded.skip(padded.len() - d));
    if frac.len() == 0 {
        whole
    } else {
        whole + seq!['.'] + frac
    }
}

/// Writes `value` base units of a token with `decimals` decimals as a
/// decimal amount of whole tokens.
pub fn format_amount(value: U256, decimals: u8) -> (r: String)
    ensures
        r@ == point_text(decimal(value.val()), decimals as nat),
{
    proof {
        reveal_strlit("0");
        reveal_strlit("0.");
        reveal_strlit(".");
    }
    let d = decimals as usize;
    if value.is_zero() {
        proof {
            lemma_zero_text(d as nat);
        }
        return String::from_str("0");
    }
    let s = to_decimal(value);
    let ghost ds = s@;
    let text = s.as_str();
    let len = text.unicode_len();
    if len <= d {
        let mut padded = String::new();
        let mut t: usize = 0;
        while t < d - len
            invariant
                len <= d,
                t <= d - len,
                padded@ == zeros(t as nat),
                "0"@ == seq!['0'],
            decreases d - len - t,
        {
            padded.append("0");
            proof {
                assert(zeros(t as nat).push('0') =~= zeros((t + 1) as nat));
            }
            t = t + 1;
        }
        padded.append(text);
        let ghost frac = zeros((d - len) as nat) + ds;
        proof {
            assert(padded@ == frac);
            let full = zeros((d + 1 - len) as nat) + ds;
            assert(full.take(full.len() - d) =~= seq!['0']);
            assert(full.skip(full.len() - d) =~= frac);
        }
        let p = padded.as_str();
        let end = trimmed_end(p);
        if end == 0 {
            String::from_str("0")
        } else {
            let mut out = String::from_str("0.");
            out.append(p.substring_char(0, end));
            proof {
                assert(out@ =~= seq!['0'] + seq!['.'] + strip_trailing_zeros(frac));
            }
            out
        }
    } else {
        let whole = text.substring_char(0, len - d);
        let frac = text.substring_char(len - d, len);
        let end = trimmed_end(frac);
        let mut out = String::from_str(whole);
        proof {
            assert(whole@ =~= ds.take(ds.len() - d));
            assert(frac@ =~= ds.skip(ds.len() - d));
        }
        if end > 0 {
            out.append(".");
            out.append(frac.substring_char(0, end));
            proof {
                assert(out@ =~= whole@ + seq!['.'] + strip_trailing_zeros(frac@));
            }
        }
        out
    }
}

/// Length of `s` without its trailing zeros.
fn trimmed_end(s: &str) -> (r: usize)
    ensures
        r <= s@.len(),
        s@.take(r as int) == strip_trailing_zeros(s@),
{
    let mut end = s.unicode_len();
    proof {
        assert(s@.take(end as int) =~= s@);
    }
    while end > 0 && s.get_char(end - 1) == '0'
        invariant
            end <= s@.len(),
            strip_trailing_zeros(s@.take(end as int)) == strip_trailing_zeros(s@),
        decreases end,
    {
        proof {
            assert(s@.take(end as int).drop_last() =~= s@.take(end - 1));
        }
        end = end - 1;
    }
    end
}

/// Zero is written "0" whatever the decimals.
proof fn lemma_zero_text(d: nat)
    ensures
        point_text(decimal(0), d) == seq!['0'],
{
    let ds = decimal(0);
    assert(ds == seq!['0']);
    lemma_strip_zeros(d);
    if d > 0 {
        let padded = zeros(d) + ds;
        assert(zeros((d + 1 - 1) as nat) == zeros(d));
        assert(padded.take(1) =~= seq!['0']);
        assert(padded.skip(1) =~= zeros(d));
    } else {
        assert(ds.take(1) =~= ds);
        assert(ds.skip(1) =~= zeros(0));
    }
}

proof fn lemma_strip_zeros(n: nat)
    ensures
        strip_trailing_zeros(zeros(n)) == Seq::<char>::empty(),
    decreases n,
{
    if n > 0 {
        assert(zeros(n).drop_last() =~= zeros((n - 1) as nat));
        lemma_strip_zeros((n - 1) as nat);
    } else {
        assert(zeros(0) =~= Seq::<char>::empty());
    }
}

/// The shortest decimal writing of `n` is digits, non-empty, and writes `n`.
proof fn lemma_decimal(n: nat)
    ensures
        decimal(n).len() >= 1,
        all_digits(decimal(n)),
        digits_value(decimal(n)) == n,
    decreases n,
{
    let c = crate::uint::digit_char(n % 10);
    assert(is_digit(c) && crate::uint::digit_value(c) == n % 10);
    if n >= 10 {
        lemma_decimal(n / 10);
        let s = decimal(n);
        assert(s == decimal(n / 10).push(c));
        assert(s.drop_last() =~= decimal(n / 10));
        assert forall|i: int| 0 <= i < s.len() implies is_digit(#[trigger] s[i]) by {
            if i < s.len() - 1 {
                assert(s[i] == decimal(n / 10)[i]);
            }
        }
        assert(s.last() == c);
        assert(n == (n / 10) * 10 + n % 10) by (nonlinear_arith);
        assert(digits_value(s) == digits_value(s.drop_last()) * 10 + crate::uint::digit_value(s.last()));
    } else {
        let s = decimal(n);
        assert(s.drop_last() =~= Seq::<char>::empty());
        assert(n % 10 == n);
        assert(digits_value(s) == digits_value(s.drop_last()) * 10 + crate::uint::digit_value(s.last()));
    }
}

/// Zero digits in front change nothing.
proof fn lemma_leading_zeros(k: nat, t: Seq<char>)
    ensures
        digits_value(zeros(k) + t) == digits_value(t),
    decreases k,
{
    if k > 0 {
        assert(zeros(k) + t =~= seq!['0'] + (zeros((k - 1) as nat) + t));
        lemma_leading_zero(zeros((k - 1) as nat) + t);
        lemma_leading_zeros((k - 1) as nat, t);
    } else {
        assert(zeros(0) + t =~= t);
    }
}

/// Stripping trailing zeros keeps a prefix and drops only zeros.
proof fn lemma_strip_prefix(s: Seq<char>)
    ensures
        strip_trailing_zeros(s).len() <= s.len(),
        strip_trailing_zeros(s) == s.take(strip_trailing_zeros(s).len() as int),
        forall|i: int| strip_trailing_zeros(s).len() <= i < s.len() ==> #[trigger] s[i] == '0',
    decreases s.len(),
{
    if s.len() > 0 && s.last() == '0' {
        lemma_strip_prefix(s.drop_last());
        let t = strip_trailing_zeros(s.drop_last());
        assert(t == s.drop_last().take(t.len() as int));
        assert(s.drop_last().take(t.len() as int) =~= s.take(t.len() as int));
        assert forall|i: int| t.len() <= i < s.len() implies #[trigger] s[i] == '0' by {
            if i < s.len() - 1 {
                assert(s[i] == s.drop_last()[i]);
            }
        }
    } else {
        assert(s.take(s.len() as int) =~= s);
    }
}

/// A text without a point has none.
proof fn lemma_no_point(s: Seq<char>)
    requires
        all_digits(s),
    ensures
        point_at(s) < 0,
    decreases s.len(),
{
    if s.len() > 0 {
        assert forall|i: int| 0 <= i < s.drop_last().len() implies is_digit(#[trigger] s.drop_last()[i]) by {
            assert(s.drop_last()[i] == s[i]);
        }
        lemma_no_point(s.drop_last());
        assert(is_digit(s[s.len() - 1]));
    }
}

/// The first point of `w . f` with `w` all digits stands right after `w`.
proof fn lemma_point_after(w: Seq<char>, f: Seq<char>)
    requires
        all_digits(w),
    ensures
        point_at(w + seq!['.'] + f) == w.len(),
    decreases f.len(),
{
    if f.len() == 0 {
        let t = w + seq!['.'] + f;
        assert(t.drop_last() =~= w);
        lemma_no_point(w);
    } else {
        let t = w + seq!['.'] + f;
        assert(t.drop_last() =~= w + seq!['.'] + f.drop_last());
        lemma_point_after(w, f.drop_last());
    }
}

/// Law: writing an amount and reading it back gives the amount. For every
/// value below 2^256 and every number of decimals, the text that
/// `format_amount` writes is one that `parse_amount` reads as that very
/// value: it is non-empty, digits stand on both sides of at most one
/// point, and the base units it writes are the value.
pub proof fn law_format_then_parse(v: nat, d: nat)
    requires
        v < modulus(),
    ensures
        ({
            let t = point_text(decimal(v), d);
            &&& t.len() > 0
            &&& all_digits(whole_part(t))
            &&& all_digits(frac_part(t))
            &&& amount_value(t, d) == v
        }),
{
    let ds = decimal(v);
    lemma_decimal(v);
    let padded = if ds.len() <= d {
        zeros((d + 1 - ds.len()) as nat) + ds
    } else {
        ds
    };
    assert(digits_value(padded) == v) by {
        if ds.len() <= d {
            lemma_leading_zeros((d + 1 - ds.len()) as nat, ds);
        }
    }
    assert(all_digits(padded)) by {
        if ds.len() <= d {
            assert forall|i: int| 0 <= i < padded.len() implies is_digit(#[trigger] padded[i]) by {
                let z = zeros((d + 1 - ds.len()) as nat);
                if i < z.len() {
                    assert(padded[i] == z[i]);
                } else {
                    assert(padded[i] == ds[i - z.len()]);
                }
            }
        }
    }
    assert(padded.len() >= d + 1);
    let k = padded.len() - d;
    let whole = padded.take(k);
    let fr = padded.skip(k);
    let f = strip_trailing_zeros(fr);
    let t = point_text(ds, d);
    assert(all_digits(whole)) by {
        assert forall|i: int| 0 <= i < whole.len() implies is_digit(#[trigger] whole[i]) by {
            assert(whole[i] == padded[i]);
        }
    }
    lemma_strip_prefix(fr);
    assert(all_digits(f)) by {
        assert forall|i: int| 0 <= i < f.len() implies is_digit(#[trigger] f[i]) by {
            assert(f[i] == fr[i]);
            assert(fr[i] == padded[k + i]);
        }
    }
    assert(fixed_frac(f, d) =~= fr) by {
        assert forall|i: int| 0 <= i < d implies #[trigger] fixed_frac(f, d)[i] == fr[i] by {
            if i < f.len() {
                assert(f[i] == fr.take(f.len() as int)[i]);
            } else {
                assert(fr[i] == '0');
            }
        }
    }
    assert(whole + fr =~= padded);
    if f.len() == 0 {
        assert(t == whole);
        lemma_no_point(whole);
        assert(whole_part(t) == whole);
        assert(frac_part(t) =~= Seq::<char>::empty());
        assert(f =~= Seq::<char>::empty());
    } else {
        assert(t == whole + seq!['.'] + f);
        lemma_point_after(whole, f);
        assert(whole_part(t) =~= whole);
        assert(frac_part(t) =~= f);
    }
    assert(whole_part(t) + fixed_frac(frac_part(t), d) == padded);
}

} // verus!
