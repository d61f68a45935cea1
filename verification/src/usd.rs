//! Fixed-point currency: an exact number of cents, parsed from decimal
//! strings and rendered with two fractional digits.

use vstd::prelude::*;

verus! {

/// Characters that a decimal amount may use as a decimal point or as a
/// thousands separator; both are discarded before the digits are read.
pub open spec fn is_sep_char(c: char) -> bool {
    c == '.' || c == ','
}

/// `s` with every separator character removed.
pub open spec fn stripped(s: Seq<char>) -> Seq<char>
    decreases s.len(),
{
    if s.len() == 0 {
        Seq::empty()
    } else if is_sep_char(s.last()) {
        stripped(s.drop_last())
    } else {
        stripped(s.drop_last()).push(s.last())
    }
}

pub open spec fn is_digit(c: char) -> bool {
    48 <= c as u32 <= 57
}

pub open spec fn digit_val(c: char) -> int {
    c as u32 - 48
}

pub open spec fn all_digits(s: Seq<char>) -> bool {
    forall|i: int| 0 <= i < s.len() ==> is_digit(#[trigger] s[i])
}

/// The number denoted by a string of decimal digits, most significant first.
pub open spec fn digits_val(s: Seq<char>) -> int
    decreases s.len(),
{
    if s.len() == 0 {
        0
    } else {
        digits_val(s.drop_last()) * 10 + digit_val(s.last())
    }
}

pub open spec fn has_sign(s: Seq<char>) -> bool {
    s.len() > 0 && (s[0] == '-' || s[0] == '+')
}

pub open spec fn int_digits(s: Seq<char>) -> Seq<char> {
    if has_sign(s) {
        s.skip(1)
    } else {
        s
    }
}

/// Whether `s` is an optionally signed, non-empty string of decimal digits.
pub open spec fn is_int_literal(s: Seq<char>) -> bool {
    int_digits(s).len() > 0 && all_digits(int_digits(s))
}

pub open spec fn int_literal_val(s: Seq<char>) -> int {
    if s.len() > 0 && s[0] == '-' {
        -digits_val(int_digits(s))
    } else {
        digits_val(int_digits(s))
    }
}

/// The number of cents denoted by a decimal amount string: separators are
/// discarded, the rest must be an integer literal whose value fits an `i64`.
pub open spec fn cents_of_str(s: Seq<char>) -> Option<int> {
    let t = stripped(s);
    if is_int_literal(t) && i64::MIN <= int_literal_val(t) <= i64::MAX {
        Some(int_literal_val(t))
    } else {
        None
    }
}

/// The decimal digits of `n`, most significant first, no leading zeros
/// (a lone zero for zero).
pub open spec fn dec_rep(n: nat) -> Seq<char>
    decreases n,
{
    if n < 10 {
        seq![digit_char(n as int)]
    } else {
        dec_rep(n / 10).push(digit_char(n as int % 10))
    }
}

pub open spec fn digit_char(d: int) -> char {
    if d == 0 {
        '0'
    } else if d == 1 {
        '1'
    } else if d == 2 {
        '2'
    } else if d == 3 {
        '3'
    } else if d == 4 {
        '4'
    } else if d == 5 {
        '5'
    } else if d == 6 {
        '6'
    } else if d == 7 {
        '7'
    } else if d == 8 {
        '8'
    } else {
        '9'
    }
}

pub open spec fn spaces(k: int) -> Seq<char>
    decreases k,
{
    if k <= 0 {
        Seq::empty()
    } else {
        spaces(k - 1).push(' ')
    }
}

pub open spec fn pad_left(s: Seq<char>, w: int) -> Seq<char> {
    spaces(w - s.len()) + s
}

pub open spec fn abs_val(v: int) -> nat {
    if v < 0 {
        (-v) as nat
    } else {
        v as nat
    }
}

/// The canonical two-decimal-place form of `v` cents: an optional minus
/// sign, the dollar digits, a point, and exactly two cent digits.
pub open spec fn usd_canonical(v: int) -> Seq<char> {
    let sign: Seq<char> = if v < 0 {
        seq!['-']
    } else {
        Seq::empty()
    };
    let mag = abs_val(v);
    sign + dec_rep(mag / 100) + seq!['.'] + seq![
        digit_char((mag % 100) as int / 10),
        digit_char((mag % 100) as int % 10),
    ]
}

/// Width to which an amount is right-aligned for column display.
pub open spec fn usd_display_width() -> int {
    12
}

/// The displayed form of `v` cents: the canonical form, right-aligned.
pub open spec fn usd_display(v: int) -> Seq<char> {
    pad_left(usd_canonical(v), usd_display_width())
}

pub open spec fn pow10(n: nat) -> int
    decreases n,
{
    if n == 0 {
        1
    } else {
        10 * pow10((n - 1) as nat)
    }
}

pub proof fn lemma_pow10_pos(n: nat)
    ensures
        pow10(n) >= 1,
    decreases n,
{
    if n > 0 {
        lemma_pow10_pos((n - 1) as nat);
    }
}

pub proof fn lemma_digits_val_nonneg(s: Seq<char>)
    requires
        all_digits(s),
    ensures
        digits_val(s) >= 0,
    decreases s.len(),
{
    if s.len() > 0 {
        assert(all_digits(s.drop_last())) by {
            assert(forall|i: int| 0 <= i < s.len() - 1 ==> s.drop_last()[i] == s[i]);
        }
        lemma_digits_val_nonneg(s.drop_last());
    }
}

/// A digit string's value splits at any cut into the prefix's value scaled
/// by a power of ten plus the suffix's value.
pub proof fn lemma_digits_val_split(s: Seq<char>, k: int)
    requires
        0 <= k <= s.len(),
    ensures
        digits_val(s) == digits_val(s.take(k)) * pow10((s.len() - k) as nat) + digits_val(
            s.skip(k),
        ),
    decreases s.len(),
{
    if k == s.len() {
        assert(s.take(k) =~= s);
        assert(s.skip(k) =~= Seq::empty());
    } else {
        let d = s.drop_last();
        lemma_digits_val_split(d, k);
        assert(d.take(k) =~= s.take(k));
        assert(s.skip(k).drop_last() =~= d.skip(k));
        assert(s.skip(k).len() > 0);
        assert(s.skip(k).last() == s.last());
        let p = pow10((d.len() - k) as nat);
        assert(pow10((s.len() - k) as nat) == 10 * p);
        assert(digits_val(s) == digits_val(d) * 10 + digit_val(s.last()));
        assert(digits_val(s.skip(k)) == digits_val(d.skip(k)) * 10 + digit_val(s.last()));
        assert(digits_val(d.take(k)) * p * 10 == digits_val(s.take(k)) * (10 * p)) by (nonlinear_arith)
            requires
                d.take(k) =~= s.take(k),
        ;
    }
}

/// Every digit of `n`'s decimal form is a digit, there is at least one,
/// and reading them back yields `n`.
pub proof fn lemma_dec_rep(n: nat)
    ensures
        all_digits(dec_rep(n)),
        dec_rep(n).len() >= 1,
        digits_val(dec_rep(n)) == n,
    decreases n,
{
    if n < 10 {
        assert(digits_val(dec_rep(n)) == digits_val(Seq::<char>::empty()) * 10 + digit_val(
            digit_char(n as int),
        )) by {
            assert(dec_rep(n).drop_last() =~= Seq::<char>::empty());
        }
    } else {
        lemma_dec_rep(n / 10);
        let r = dec_rep(n / 10);
        let c = digit_char(n as int % 10);
        assert(dec_rep(n) == r.push(c));
        assert(r.push(c).drop_last() =~= r);
        assert(digits_val(dec_rep(n)) == digits_val(r) * 10 + digit_val(c));
        assert(n == (n / 10) * 10 + n % 10) by (nonlinear_arith);
        assert(forall|i: int|
            0 <= i < dec_rep(n).len() ==> is_digit(#[trigger] dec_rep(n)[i])) by {
            assert(forall|i: int| 0 <= i < r.len() ==> dec_rep(n)[i] == r[i]);
        }
    }
}

/// Stripping separators distributes over concatenation.
pub proof fn lemma_stripped_concat(a: Seq<char>, b: Seq<char>)
    ensures
        stripped(a + b) == stripped(a) + stripped(b),
    decreases b.len(),
{
    if b.len() == 0 {
        assert(a + b =~= a);
        assert(stripped(a) + stripped(Seq::<char>::empty()) =~= stripped(a));
    } else {
        lemma_stripped_concat(a, b.drop_last());
        assert((a + b).drop_last() =~= a + b.drop_last());
        assert((a + b).last() == b.last());
        if is_sep_char(b.last()) {
            assert(stripped(b) == stripped(b.drop_last()));
        } else {
            assert(stripped(a) + stripped(b.drop_last()).push(b.last()) =~= (stripped(a)
                + stripped(b.drop_last())).push(b.last()));
        }
    }
}

/// A string of digits has no separators to strip.
pub proof fn lemma_stripped_digits(s: Seq<char>)
    requires
        all_digits(s),
    ensures
        stripped(s) == s,
    decreases s.len(),
{
    if s.len() > 0 {
        assert(all_digits(s.drop_last())) by {
            assert(forall|i: int| 0 <= i < s.len() - 1 ==> s.drop_last()[i] == s[i]);
        }
        lemma_stripped_digits(s.drop_last());
        assert(is_digit(s.last()));
        assert(s.drop_last().push(s.last()) =~= s);
    }
}

/// Digit-string values compose: appending `b` scales `a`'s value by
/// ten to the length of `b`.
pub proof fn lemma_digits_val_concat(a: Seq<char>, b: Seq<char>)
    ensures
        digits_val(a + b) == digits_val(a) * pow10(b.len()) + digits_val(b),
{
    lemma_digits_val_split(a + b, a.len() as int);
    assert((a + b).take(a.len() as int) =~= a);
    assert((a + b).skip(a.len() as int) =~= b);
}

/// Round trip: the canonical two-decimal rendering of any representable
/// cent count parses back to exactly that count.
pub proof fn lemma_usd_round_trip(v: int)
    requires
        i64::MIN <= v <= i64::MAX,
    ensures
        cents_of_str(usd_canonical(v)) == Some(v),
{
    let mag = abs_val(v);
    let dollars = dec_rep(mag / 100);
    let d1 = digit_char((mag % 100) as int / 10);
    let d2 = digit_char((mag % 100) as int % 10);
    let cc = seq![d1, d2];
    lemma_dec_rep(mag / 100);
    assert(is_digit(d1) && is_digit(d2));
    assert(all_digits(cc));
    let digits = dollars + cc;
    assert(all_digits(digits)) by {
        assert(forall|i: int|
            0 <= i < dollars.len() ==> #[trigger] digits[i] == dollars[i]);
        assert(forall|i: int|
            dollars.len() <= i < digits.len() ==> #[trigger] digits[i] == cc[
                i - dollars.len()]);
    }
    // the value of the digit part
    assert(digit_val(d1) == (mag % 100) as int / 10);
    assert(digit_val(d2) == (mag % 100) as int % 10);
    assert(digits_val(cc) == (mag % 100) as int) by {
        assert(cc.drop_last() =~= seq![d1]);
        assert(seq![d1].drop_last() =~= Seq::<char>::empty());
        assert(digits_val(Seq::<char>::empty()) == 0);
        assert(digits_val(seq![d1]) == digit_val(d1));
        assert(digits_val(cc) == digits_val(seq![d1]) * 10 + digit_val(d2));
    }
    lemma_digits_val_concat(dollars, cc);
    assert(pow10(0) == 1);
    assert(pow10(1) == 10);
    assert(pow10(2) == 100);
    assert(digits_val(digits) == (mag / 100) * 100 + (mag % 100));
    assert(digits_val(digits) == mag);
    // stripping the canonical form leaves sign and digits
    let sign: Seq<char> = if v < 0 {
        seq!['-']
    } else {
        Seq::empty()
    };
    let c = usd_canonical(v);
    assert(c == sign + dollars + seq!['.'] + cc);
    lemma_stripped_concat(sign + dollars + seq!['.'], cc);
    lemma_stripped_concat(sign + dollars, seq!['.']);
    lemma_stripped_concat(sign, dollars);
    lemma_stripped_digits(cc);
    lemma_stripped_digits(dollars);
    assert(stripped(Seq::<char>::empty()) =~= Seq::<char>::empty());
    assert(stripped(seq!['.']) =~= Seq::<char>::empty()) by {
        assert(seq!['.'].drop_last() =~= Seq::<char>::empty());
        assert(stripped(Seq::<char>::empty()) == Seq::<char>::empty());
    }
    assert(stripped(sign) == sign) by {
        if v < 0 {
            assert(seq!['-'].drop_last() =~= Seq::<char>::empty());
            assert(stripped(Seq::<char>::empty()) == Seq::<char>::empty());
            assert(!is_sep_char('-'));
            assert(stripped(seq!['-']) =~= Seq::<char>::empty().push('-'));
            assert(Seq::<char>::empty().push('-') =~= seq!['-']);
        }
    }
    let t = stripped(c);
    assert(t == sign + dollars + Seq::<char>::empty() + cc);
    assert(t =~= sign + digits);
    // the stripped form is an integer literal with value v
    if v < 0 {
        assert(t[0] == '-');
        assert(has_sign(t));
        assert(int_digits(t) =~= digits);
        assert(int_literal_val(t) == -digits_val(digits));
        assert(int_literal_val(t) == v);
    } else {
        assert(t =~= digits);
        assert(t[0] == dollars[0]);
        assert(is_digit(t[0]));
        assert(!has_sign(t));
        assert(int_digits(t) == t);
        assert(int_literal_val(t) == digits_val(digits));
        assert(int_literal_val(t) == v);
    }
    assert(is_int_literal(t));
}

/// `s` with every comma removed, the shape a caller sees before the
/// decimal point is considered.
pub open spec fn strip_commas(s: Seq<char>) -> Seq<char>
    decreases s.len(),
{
    if s.len() == 0 {
        Seq::empty()
    } else if s.last() == ',' {
        strip_commas(s.drop_last())
    } else {
        strip_commas(s.drop_last()).push(s.last())
    }
}

/// Removing the commas first does not change what stripping removes.
pub proof fn lemma_stripped_strip_commas(s: Seq<char>)
    ensures
        stripped(strip_commas(s)) == stripped(s),
    decreases s.len(),
{
    if s.len() > 0 {
        lemma_stripped_strip_commas(s.drop_last());
        let c = s.last();
        if c == ',' {
        } else {
            let x = strip_commas(s.drop_last());
            assert(strip_commas(s) == x.push(c));
            assert(x.push(c).drop_last() =~= x);
            assert(x.push(c).last() == c);
        }
    }
}

/// Equal code points mean equal characters.
proof fn lemma_char_code_inj(c: char, d: char)
    requires
        c as u32 == d as u32,
    ensures
        c == d,
{
}

/// Reading a digit character back from its value returns the same
/// character.
pub proof fn lemma_digit_char_val(c: char)
    requires
        is_digit(c),
    ensures
        digit_char(digit_val(c)) == c,
{
    let cu = c as u32;
    if cu == 48 {
        lemma_char_code_inj(c, '0');
    } else if cu == 49 {
        lemma_char_code_inj(c, '1');
    } else if cu == 50 {
        lemma_char_code_inj(c, '2');
    } else if cu == 51 {
        lemma_char_code_inj(c, '3');
    } else if cu == 52 {
        lemma_char_code_inj(c, '4');
    } else if cu == 53 {
        lemma_char_code_inj(c, '5');
    } else if cu == 54 {
        lemma_char_code_inj(c, '6');
    } else if cu == 55 {
        lemma_char_code_inj(c, '7');
    } else if cu == 56 {
        lemma_char_code_inj(c, '8');
    } else {
        lemma_char_code_inj(c, '9');
    }
}

/// A digit string that does not start with zero denotes at least one.
proof fn lemma_digits_val_first_nonzero(d: Seq<char>)
    requires
        d.len() >= 1,
        all_digits(d),
        d[0] != '0',
    ensures
        digits_val(d) >= 1,
{
    lemma_digits_val_split(d, 1);
    assert(d.take(1) =~= seq![d[0]]);
    assert(seq![d[0]].drop_last() =~= Seq::<char>::empty());
    assert(digits_val(Seq::<char>::empty()) == 0);
    assert(digits_val(seq![d[0]]) == digit_val(d[0]));
    assert(digits_val(d.take(1)) == digit_val(d[0]));
    assert(digit_val(d[0]) >= 1) by {
        if d[0] as u32 == 48 {
            lemma_char_code_inj(d[0], '0');
        }
    }
    assert(all_digits(d.skip(1))) by {
        assert(forall|i: int| 0 <= i < d.len() - 1 ==> d.skip(1)[i] == d[i + 1]);
    }
    lemma_digits_val_nonneg(d.skip(1));
    lemma_pow10_pos((d.len() - 1) as nat);
    let a = digit_val(d[0]);
    let p = pow10((d.len() - 1) as nat);
    assert(a * p >= 1) by (nonlinear_arith)
        requires
            a >= 1,
            p >= 1,
    ;
}

/// The decimal form is canonical: reading back a digit string without
/// a superfluous leading zero yields that very string.
pub proof fn lemma_dec_rep_canonical(d: Seq<char>)
    requires
        d.len() >= 1,
        all_digits(d),
        d.len() > 1 ==> d[0] != '0',
    ensures
        digits_val(d) >= 0,
        dec_rep(digits_val(d) as nat) == d,
    decreases d.len(),
{
    lemma_digits_val_nonneg(d);
    let v = digits_val(d);
    if d.len() == 1 {
        assert(d.drop_last() =~= Seq::<char>::empty());
        assert(digits_val(Seq::<char>::empty()) == 0);
        assert(v == digit_val(d[0]));
        lemma_digit_char_val(d[0]);
        assert(dec_rep(v as nat) =~= d);
    } else {
        let dl = d.drop_last();
        let c = d.last();
        assert(all_digits(dl)) by {
            assert(forall|i: int| 0 <= i < d.len() - 1 ==> dl[i] == d[i]);
        }
        assert(dl[0] == d[0]);
        lemma_dec_rep_canonical(dl);
        let vp = digits_val(dl);
        lemma_digits_val_first_nonzero(dl);
        assert(v == vp * 10 + digit_val(c));
        assert(is_digit(c));
        assert(0 <= digit_val(c) <= 9);
        assert(v >= 10) by (nonlinear_arith)
            requires
                vp >= 1,
                v == vp * 10 + digit_val(c),
                digit_val(c) >= 0,
        ;
        assert(v / 10 == vp && v % 10 == digit_val(c)) by (nonlinear_arith)
            requires
                v == vp * 10 + digit_val(c),
                0 <= digit_val(c) <= 9,
                vp >= 0,
        ;
        assert(dec_rep(v as nat) == dec_rep(vp as nat).push(digit_char(v % 10)));
        lemma_digit_char_val(c);
        assert(dec_rep(v as nat) =~= d);
    }
}

/// `t` is a canonical two-decimal string: an optional minus sign on a
/// nonzero amount, dollar digits without a superfluous leading zero, a
/// point, and exactly two cent digits.
pub open spec fn is_canonical_two_decimal(t: Seq<char>) -> bool {
    let u = if t.len() > 0 && t[0] == '-' {
        t.skip(1)
    } else {
        t
    };
    &&& u.len() >= 4
    &&& u[u.len() - 3] == '.'
    &&& all_digits(u.take(u.len() - 3))
    &&& all_digits(u.skip(u.len() - 2))
    &&& (u.len() > 4 ==> u[0] != '0')
    &&& (t.len() > 0 && t[0] == '-' ==> !(u[0] == '0' && u[u.len() - 2] == '0' && u[u.len()
        - 1] == '0'))
}

/// Formatting after parsing reproduces the input: for a decimal string
/// already in canonical two-decimal form once its comma separators are
/// removed, the displayed form, alignment padding aside, is exactly
/// the input without its commas. Inputs with a plus sign, superfluous
/// leading zeros, or a minus sign on zero re-render shorter instead.
pub proof fn lemma_parse_format_reproduces(s: Seq<char>, v: int)
    requires
        cents_of_str(s) == Some(v),
        is_canonical_two_decimal(strip_commas(s)),
    ensures
        usd_canonical(v) == strip_commas(s),
        usd_display(v) == pad_left(strip_commas(s), usd_display_width()),
{
    let t = strip_commas(s);
    let neg = t.len() > 0 && t[0] == '-';
    let u = if neg {
        t.skip(1)
    } else {
        t
    };
    let dollars = u.take(u.len() - 3);
    let d1 = u[u.len() - 2];
    let d2 = u[u.len() - 1];
    let cc = seq![d1, d2];
    assert(u.skip(u.len() - 2) =~= cc);
    assert(all_digits(dollars) && all_digits(cc));
    assert(u =~= dollars + seq!['.'] + cc);
    // what stripping leaves of t: the sign and the digits
    lemma_stripped_strip_commas(s);
    lemma_stripped_concat(dollars + seq!['.'], cc);
    lemma_stripped_concat(dollars, seq!['.']);
    lemma_stripped_digits(dollars);
    lemma_stripped_digits(cc);
    assert(stripped(Seq::<char>::empty()) =~= Seq::<char>::empty());
    assert(stripped(seq!['.']) =~= Seq::<char>::empty()) by {
        assert(seq!['.'].drop_last() =~= Seq::<char>::empty());
        assert(stripped(Seq::<char>::empty()) == Seq::<char>::empty());
    }
    assert(stripped(u) =~= dollars + cc);
    let w = stripped(t);
    if neg {
        assert(t =~= seq!['-'] + u);
        lemma_stripped_concat(seq!['-'], u);
        assert(stripped(seq!['-']) =~= seq!['-']) by {
            assert(seq!['-'].drop_last() =~= Seq::<char>::empty());
            assert(stripped(Seq::<char>::empty()) == Seq::<char>::empty());
            assert(!is_sep_char('-'));
            assert(stripped(seq!['-']) =~= Seq::<char>::empty().push('-'));
        }
        assert(w =~= seq!['-'] + (dollars + cc));
    } else {
        assert(w =~= dollars + cc);
    }
    // the value the digits denote
    let digits = dollars + cc;
    assert(all_digits(digits)) by {
        assert(forall|i: int|
            0 <= i < dollars.len() ==> #[trigger] digits[i] == dollars[i]);
        assert(forall|i: int|
            dollars.len() <= i < digits.len() ==> #[trigger] digits[i] == cc[i
                - dollars.len()]);
    }
    lemma_digits_val_concat(dollars, cc);
    assert(pow10(0) == 1);
    assert(pow10(1) == 10);
    assert(pow10(2) == 100);
    assert(digits_val(cc) == digit_val(d1) * 10 + digit_val(d2)) by {
        assert(cc.drop_last() =~= seq![d1]);
        assert(seq![d1].drop_last() =~= Seq::<char>::empty());
        assert(digits_val(Seq::<char>::empty()) == 0);
        assert(digits_val(seq![d1]) == digit_val(d1));
    }
    let ccv = digits_val(cc);
    assert(0 <= ccv <= 99) by {
        assert(is_digit(d1) && is_digit(d2));
    }
    let dv = digits_val(dollars);
    lemma_digits_val_nonneg(dollars);
    let x = digits_val(digits);
    assert(x == dv * 100 + ccv);
    // the parsed value is the signed digit value
    assert(stripped(s) == w);
    if neg {
        assert(w[0] == '-');
        assert(has_sign(w));
        assert(int_digits(w) =~= digits);
    } else {
        assert(w =~= digits);
        assert(w[0] == dollars[0]);
        assert(is_digit(w[0]));
        assert(!has_sign(w)) by {
            if w[0] as u32 == 45 {
                lemma_char_code_inj(w[0], '-');
            }
            if w[0] as u32 == 43 {
                lemma_char_code_inj(w[0], '+');
            }
        }
        assert(int_digits(w) == w);
    }
    assert(is_int_literal(w));
    assert(v == int_literal_val(w));
    // a signed canonical string denotes a strictly negative amount
    if neg {
        assert(x >= 1) by {
            if dollars.len() > 1 || dollars[0] != '0' {
                if dollars.len() > 1 {
                    assert(u[0] != '0');
                    assert(dollars[0] == u[0]);
                }
                lemma_digits_val_first_nonzero(dollars);
                assert(dv * 100 >= 100) by (nonlinear_arith)
                    requires
                        dv >= 1,
                ;
            } else {
                assert(u[0] == dollars[0]);
                assert(d1 != '0' || d2 != '0');
                assert(digit_val(d1) >= 1 || digit_val(d2) >= 1) by {
                    if d1 as u32 == 48 {
                        lemma_char_code_inj(d1, '0');
                    }
                    if d2 as u32 == 48 {
                        lemma_char_code_inj(d2, '0');
                    }
                }
                assert(dv * 100 >= 0) by (nonlinear_arith)
                    requires
                        dv >= 0,
                ;
            }
        }
        assert(v == -x);
        assert(v < 0);
    } else {
        assert(v == x);
        assert(v >= 0);
    }
    // the canonical rendering of that amount is the input itself
    let mag = abs_val(v);
    assert(mag == x);
    assert(mag / 100 == dv && mag % 100 == ccv) by (nonlinear_arith)
        requires
            mag == dv * 100 + ccv,
            0 <= ccv <= 99,
            dv >= 0,
    ;
    assert(dollars.len() > 1 ==> dollars[0] != '0') by {
        if dollars.len() > 1 {
            assert(u[0] != '0');
            assert(dollars[0] == u[0]);
        }
    }
    lemma_dec_rep_canonical(dollars);
    assert(dec_rep((mag / 100) as nat) == dollars);
    assert((mag % 100) as int / 10 == digit_val(d1) && (mag % 100) as int % 10 == digit_val(
        d2,
    )) by (nonlinear_arith)
        requires
            mag % 100 == digit_val(d1) * 10 + digit_val(d2),
            0 <= digit_val(d1) <= 9,
            0 <= digit_val(d2) <= 9,
    ;
    lemma_digit_char_val(d1);
    lemma_digit_char_val(d2);
    assert(usd_canonical(v) =~= t);
    assert(usd_display(v) == pad_left(strip_commas(s), usd_display_width()));
}

/// Formatting after parsing reproduces the canonical two-decimal form
/// of the input: the display is the canonical rendering of the parsed
/// amount, right-aligned, and that rendering denotes the same amount
/// as the original string did.
pub proof fn lemma_format_parse_round_trip(s: Seq<char>, v: int)
    requires
        cents_of_str(s) == Some(v),
    ensures
        usd_display(v) == pad_left(usd_canonical(v), usd_display_width()),
        cents_of_str(usd_canonical(v)) == cents_of_str(s),
{
    lemma_usd_round_trip(v);
}

/// The one-character string for the digit `d`.
fn digit_str(d: u64) -> (r: &'static str)
    requires
        d < 10,
    ensures
        r@ =~= seq![digit_char(d as int)],
{
    proof {
        reveal_strlit("0");
        reveal_strlit("1");
        reveal_strlit("2");
        reveal_strlit("3");
        reveal_strlit("4");
        reveal_strlit("5");
        reveal_strlit("6");
        reveal_strlit("7");
        reveal_strlit("8");
        reveal_strlit("9");
    }
    match d {
        0 => "0",
        1 => "1",
        2 => "2",
        3 => "3",
        4 => "4",
        5 => "5",
        6 => "6",
        7 => "7",
        8 => "8",
        _ => "9",
    }
}

/// Appends the decimal digits of `n`, most significant first.
pub(crate) fn push_dec(n: u64, out: &mut String)
    ensures
        final(out)@ == old(out)@ + dec_rep(n as nat),
    decreases n,
{
    if n < 10 {
        out.append(digit_str(n));
        proof {
            assert(out@ =~= old(out)@ + dec_rep(n as nat));
        }
    } else {
        push_dec(n / 10, out);
        out.append(digit_str(n % 10));
        proof {
            assert(out@ =~= old(out)@ + dec_rep(n as nat));
        }
    }
}

/// Appends `k` spaces.
pub(crate) fn push_spaces(k: usize, out: &mut String)
    ensures
        final(out)@ == old(out)@ + spaces(k as int),
{
    let mut i: usize = 0;
    while i < k
        invariant
            i <= k,
            out@ == old(out)@ + spaces(i as int),
        decreases k - i,
    {
        out.append(" ");
        proof {
            reveal_strlit(" ");
            assert(out@ =~= old(out)@ + spaces(i + 1));
        }
        i += 1;
    }
}

/// Once some prefix of a digit string exceeds a bound, the whole string
/// does too.
pub proof fn lemma_prefix_too_big(digs: Seq<char>, j: int, lo: int)
    requires
        0 <= j <= digs.len(),
        all_digits(digs.take(j)),
        digits_val(digs.take(j)) > lo,
        lo >= 0,
    ensures
        all_digits(digs) ==> digits_val(digs) > lo,
{
    if all_digits(digs) {
        lemma_digits_val_split(digs, j);
        assert(all_digits(digs.skip(j))) by {
            assert(forall|i: int|
                0 <= i < digs.len() - j ==> digs.skip(j)[i] == digs[i + j]);
        }
        lemma_digits_val_nonneg(digs.skip(j));
        lemma_pow10_pos((digs.len() - j) as nat);
        let a = digits_val(digs.take(j));
        let p = pow10((digs.len() - j) as nat);
        assert(a * p >= a) by (nonlinear_arith)
            requires
                a >= 0,
                p >= 1,
        ;
    }
}

/// Reading one more digit multiplies the prefix value by ten and adds it.
pub proof fn lemma_digit_step(digs: Seq<char>, j: int)
    requires
        0 <= j < digs.len(),
        all_digits(digs.take(j)),
        is_digit(digs[j]),
    ensures
        all_digits(digs.take(j + 1)),
        digits_val(digs.take(j + 1)) == digits_val(digs.take(j)) * 10 + digit_val(digs[j]),
{
    assert(digs.take(j + 1).drop_last() =~= digs.take(j));
    assert(digs.take(j + 1).last() == digs[j]);
    assert(forall|q: int| 0 <= q < j + 1 ==> #[trigger] digs.take(j + 1)[q] == digs[q]);
    assert(forall|q: int| 0 <= q < j ==> #[trigger] digs.take(j)[q] == digs[q]);
}

/// Error for a string that does not denote a valid decimal amount.
#[derive(Clone, Copy, Debug, PartialEq, Eq, Structural)]
pub struct ParseError;

/// An amount of money as an exact, signed count of cents.
#[derive(Clone, Copy, Debug, PartialEq, Eq, Structural)]
pub struct Usd {
    cents: i64,
}

impl View for Usd {
    type V = int;

    closed spec fn view(&self) -> int {
        self.cents as int
    }
}

/// Every amount is a representable count of cents.
pub broadcast proof fn lemma_usd_in_range(u: Usd)
    ensures
        i64::MIN <= #[trigger] u@ <= i64::MAX,
{
}

impl Default for Usd {
    /// Zero cents.
    fn default() -> (r: Usd)
        ensures
            r@ == 0,
    {
        Usd { cents: 0 }
    }
}

impl Usd {
    /// An amount holding exactly `cents` cents.
    pub fn new(cents: i64) -> (r: Usd)
        ensures
            r@ == cents as int,
    {
        Usd { cents }
    }

    pub fn cents(&self) -> (r: i64)
        ensures
            r as int == self@,
    {
        self.cents
    }

    /// Parses a decimal amount: separator characters (point and comma) are
    /// discarded and the rest must be an optionally signed digit string
    /// denoting a cent count that fits the representation.
    #[verifier::rlimit(60)]
    pub fn from_str(s: &str) -> (r: Result<Usd, ParseError>)
        ensures
            match r {
                Ok(u) => cents_of_str(s@) == Some(u@),
                Err(_) => cents_of_str(s@) is None,
            },
    {
        let n = s.unicode_len();
        let mut t: Vec<char> = Vec::new();
        let mut i: usize = 0;
        while i < n
            invariant
                i <= n,
                n == s@.len(),
                t@ == stripped(s@.take(i as int)),
            decreases n - i,
        {
            let c = s.get_char(i);
            proof {
                assert(s@.take(i + 1).drop_last() =~= s@.take(i as int));
            }
            if !(c == '.' || c == ',') {
                t.push(c);
            }
            i += 1;
        }
        proof {
            assert(s@.take(n as int) =~= s@);
        }
        let m = t.len();
        let has_sgn = m > 0 && (t[0] == '-' || t[0] == '+');
        let neg = m > 0 && t[0] == '-';
        let start: usize = if has_sgn {
            1
        } else {
            0
        };
        proof {
            assert(int_digits(t@) =~= t@.skip(start as int));
        }
        if m == start {
            return Err(ParseError);
        }
        let ghost digs = int_digits(t@);
        let mut mag: u64 = 0;
        let mut k: usize = start;
        while k < m
            invariant
                start <= k <= m,
                start < m,
                m == t@.len(),
                t@ == stripped(s@),
                digs == int_digits(t@),
                digs == t@.skip(start as int),
                all_digits(digs.take(k - start)),
                mag == digits_val(digs.take(k - start)),
            decreases m - k,
        {
            let c = t[k];
            let cu = c as u32;
            proof {
                assert(digs[k - start] == t@[k as int]);
            }
            if cu < 48 || cu > 57 {
                proof {
                    assert(!is_digit(digs[k - start]));
                    assert(!all_digits(digs));
                    assert(!is_int_literal(t@));
                }
                return Err(ParseError);
            }
            let d = (cu - 48) as u64;
            proof {
                lemma_digit_step(digs, k - start);
                assert(digit_val(digs[k - start]) == d as int);
            }
            let stepped = match mag.checked_mul(10) {
                Some(x) => x.checked_add(d),
                None => None,
            };
            match stepped {
                Some(y) => {
                    mag = y;
                },
                None => {
                    proof {
                        assert(digits_val(digs.take(k - start + 1)) > 9223372036854775808);
                        lemma_prefix_too_big(digs, k - start + 1, 9223372036854775808);
                    }
                    return Err(ParseError);
                },
            }
            k += 1;
        }
        proof {
            assert(digs.take(m - start) =~= digs);
        }
        if neg {
            if mag <= 9223372036854775807u64 {
                Ok(Usd { cents: -(mag as i64) })
            } else if mag == 9223372036854775808u64 {
                Ok(Usd { cents: i64::MIN })
            } else {
                Err(ParseError)
            }
        } else {
            if mag <= 9223372036854775807u64 {
                Ok(Usd { cents: mag as i64 })
            } else {
                Err(ParseError)
            }
        }
    }

    /// Exact sum; `None` when the sum leaves the representable range.
    pub fn checked_add(self, other: Usd) -> (r: Option<Usd>)
        ensures
            match r {
                Some(u) => u@ == self@ + other@,
                None => !(i64::MIN <= self@ + other@ <= i64::MAX),
            },
    {
        match self.cents.checked_add(other.cents) {
            Some(c) => Some(Usd { cents: c }),
            None => None,
        }
    }

    /// Renders the amount in its canonical two-decimal-place form,
    /// right-aligned to the display width.
    pub fn format(&self) -> (r: String)
        ensures
            r@ == usd_display(self@),
    {
        let cents = self.cents;
        let mut body = String::new();
        let mag: u64;
        if cents < 0 {
            body.append("-");
            proof {
                reveal_strlit("-");
                assert(body@ =~= seq!['-']);
            }
            if cents == i64::MIN {
                mag = 9223372036854775808u64;
            } else {
                mag = (-cents) as u64;
            }
        } else {
            mag = cents as u64;
        }
        proof {
            assert(mag == abs_val(self@));
        }
        push_dec(mag / 100, &mut body);
        body.append(".");
        proof {
            reveal_strlit(".");
        }
        let frac = mag % 100;
        body.append(digit_str(frac / 10));
        body.append(digit_str(frac % 10));
        proof {
            assert(body@ =~= usd_canonical(self@));
        }
        let blen = body.as_str().unicode_len();
        let mut r = String::new();
        if blen < 12 {
            push_spaces(12 - blen, &mut r);
        }
        r.append(body.as_str());
        proof {
            assert(r@ =~= usd_display(self@));
        }
        r
    }

    /// Exact scaling by a unit count; `None` when the product leaves the
    /// representable range.
    pub fn checked_mul_units(self, n: u32) -> (r: Option<Usd>)
        ensures
            match r {
                Some(u) => u@ == self@ * n as int,
                None => !(i64::MIN <= self@ * n as int <= i64::MAX),
            },
    {
        match self.cents.checked_mul(n as i64) {
            Some(c) => Some(Usd { cents: c }),
            None => None,
        }
    }
}

} // verus!
