//! Text building blocks of the report layouts: decimal numbers, amounts in
//! dollars and cents, percentages, column alignment and truncation.

use vstd::prelude::*;
use vstd::utf8::{decode_utf8, encode_utf8, is_char_boundary};

verus! {

/// The ten decimal digits.
pub open spec fn digits() -> Seq<char> {
    seq!['0', '1', '2', '3', '4', '5', '6', '7', '8', '9']
}

/// Decimal text of a natural number, without leading zeros.
pub open spec fn dec_text(n: nat) -> Seq<char>
    decreases n,
{
    if n < 10 {
        seq![digits()[n as int]]
    } else {
        dec_text(n / 10) + seq![digits()[(n % 10) as int]]
    }
}

/// `n` spaces (none for a negative count).
pub open spec fn spaces(n: int) -> Seq<char> {
    Seq::new(if n > 0 { n as nat } else { 0 }, |i: int| ' ')
}

/// `s` right-aligned in a column of `width` characters (`{:>width}`).
pub open spec fn align_right(s: Seq<char>, width: int) -> Seq<char> {
    spaces(width - s.len()) + s
}

/// `s` left-aligned in a column of `width` characters (`{:<width}`).
pub open spec fn align_left(s: Seq<char>, width: int) -> Seq<char> {
    s + spaces(width - s.len())
}

/// `num / den` rounded to the nearest integer, halves to the even one.
pub open spec fn round_half_even(num: int, den: int) -> int {
    let q = num / den;
    let r = num % den;
    if r > den - r || (r == den - r && q % 2 == 1) {
        q + 1
    } else {
        q
    }
}

pub open spec fn magnitude(v: int) -> int {
    if v < 0 { -v } else { v }
}

/// Two-digit text of a number below 100.
pub open spec fn two_digits(n: int) -> Seq<char> {
    seq![digits()[n / 10], digits()[n % 10]]
}

/// The dollars-and-cents text of an amount in micro-dollars, with a minus
/// sign when it is negative. The exact amount is rounded to the nearest cent,
/// an exact half cent to the even cent: `5000` micro-dollars gives `0.00`.
/// (Printing a binary float with `{:.2}` rounds the float's own value, which
/// for a half cent lies a little above or below it, so it may go either way.)
pub open spec fn money_text(micros: int) -> Seq<char> {
    let cents = round_half_even(magnitude(micros), 10000);
    (if micros < 0 { seq!['-'] } else { Seq::empty() }) + dec_text((cents / 100) as nat) + seq![
        '.',
    ] + two_digits(cents % 100)
}

/// The same with a sign in front of every amount, `+` for the non-negative
/// ones; rounded as `money_text` rounds.
pub open spec fn signed_money_text(micros: int) -> Seq<char> {
    if micros < 0 {
        money_text(micros)
    } else {
        seq!['+'] + money_text(micros)
    }
}

/// The one-character text of a digit.
fn digit_string(d: u128) -> (s: String)
    requires
        d < 10,
    ensures
        s@ == seq![digits()[d as int]],
{
    let lit = "0123456789";
    proof {
        reveal_strlit("0123456789");
    }
    assert(lit@ =~= digits());
    let one = lit.substring_char(d as usize, d as usize + 1);
    assert(one@ =~= seq![digits()[d as int]]);
    String::from_str(one)
}

/// Decimal text of `n`.
pub fn decimal(n: u128) -> (s: String)
    ensures
        s@ == dec_text(n as nat),
{
    let mut m = n;
    let mut out = String::new();
    while m >= 10
        invariant
            dec_text(n as nat) == dec_text(m as nat) + out@,
        decreases m,
    {
        let d = m % 10;
        let ghost old_out = out@;
        out = digit_string(d).concat(out.as_str());
        assert(dec_text(m as nat) == dec_text((m / 10) as nat) + seq![digits()[(m % 10) as int]]);
        assert(dec_text((m / 10) as nat) + out@ =~= dec_text((m / 10) as nat) + seq![
            digits()[(m % 10) as int],
        ] + old_out);
        m = m / 10;
    }
    let s = digit_string(m).concat(out.as_str());
    s
}

/// `n` spaces.
fn space_string(n: usize) -> (s: String)
    ensures
        s@ == spaces(n as int),
{
    let blank = " ";
    proof {
        reveal_strlit(" ");
    }
    let mut s = String::new();
    let mut i: usize = 0;
    while i < n
        invariant
            i <= n,
            blank@ == seq![' '],
            s@ =~= spaces(i as int),
        decreases n - i,
    {
        s.append(blank);
        i = i + 1;
    }
    s
}

/// `s` right-aligned in a column of `width` characters.
pub fn pad_left(s: &str, width: usize) -> (r: String)
    ensures
        r@ == align_right(s@, width as int),
{
    let n = s.unicode_len();
    let fill = if n < width {
        width - n
    } else {
        0
    };
    let r = space_string(fill).concat(s);
    assert(r@ =~= align_right(s@, width as int));
    r
}

/// `s` left-aligned in a column of `width` characters.
pub fn pad_right(s: &str, width: usize) -> (r: String)
    ensures
        r@ == align_left(s@, width as int),
{
    let n = s.unicode_len();
    let fill = if n < width {
        width - n
    } else {
        0
    };
    let pad = space_string(fill);
    let r = String::from_str(s).concat(pad.as_str());
    assert(r@ =~= align_left(s@, width as int));
    r
}

/// The size of an amount.
fn magnitude_of(v: i128) -> (m: u128)
    ensures
        m == magnitude(v as int),
{
    if v < 0 {
        ((-(v + 1)) as u128) + 1
    } else {
        v as u128
    }
}

/// `num / den` rounded to the nearest integer, halves to the even one.
fn rounded_quotient(num: u128, den: u128) -> (q: u128)
    requires
        den > 0,
    ensures
        q == round_half_even(num as int, den as int),
{
    let q = num / den;
    let r = num % den;
    if r > den - r || (r == den - r && q % 2 == 1) {
        assert(q + 1 <= u128::MAX) by (nonlinear_arith)
            requires
                q == num / den,
                r == num % den,
                den > 0,
                2 * r >= den,
                num <= u128::MAX,
        ;
        q + 1
    } else {
        q
    }
}

/// Dollars and cents of an amount in micro-dollars: the exact amount rounded
/// to the cent, half cents to the even cent (see `money_text`).
pub fn money(micros: i128) -> (s: String)
    ensures
        s@ == money_text(micros as int),
{
    let a = magnitude_of(micros);
    let cents = rounded_quotient(a, 10000);
    let sign = if micros < 0 {
        "-"
    } else {
        ""
    };
    proof {
        reveal_strlit("-");
        reveal_strlit("");
        reveal_strlit(".");
    }
    let whole = decimal(cents / 100);
    let c = cents % 100;
    let tens = digit_string(c / 10);
    let ones = digit_string(c % 10);
    let s = String::from_str(sign).concat(whole.as_str()).concat(".").concat(tens.as_str()).concat(
        ones.as_str(),
    );
    assert(s@ =~= money_text(micros as int));
    s
}

/// Dollars and cents with a sign in front, `+` when not negative, rounded
/// as `money` rounds.
pub fn signed_money(micros: i128) -> (s: String)
    ensures
        s@ == signed_money_text(micros as int),
{
    if micros < 0 {
        money(micros)
    } else {
        proof {
            reveal_strlit("+");
        }
        let s = String::from_str("+").concat(money(micros).as_str());
        assert(s@ =~= signed_money_text(micros as int));
        s
    }
}

/// The value of `100 * part / whole` is negative.
pub open spec fn percent_is_negative(part: int, whole: int) -> bool {
    part != 0 && (part < 0) != (whole < 0)
}

/// Tenths of the size of the percentage `100 * part / whole`, rounded.
pub open spec fn percent_tenths(part: int, whole: int) -> int {
    round_half_even(1000 * magnitude(part), magnitude(whole))
}

/// The percentage `100 * part / whole` with one decimal. The exact value is
/// rounded to the nearest tenth, an exact half tenth to the even tenth, so
/// `12.25` percent gives `12.2` (a binary float printed with `{:.1}` may go
/// either way on such a half).
pub open spec fn percent_text(part: int, whole: int) -> Seq<char> {
    let t = percent_tenths(part, whole);
    (if percent_is_negative(part, whole) {
        seq!['-']
    } else {
        Seq::empty()
    }) + dec_text((t / 10) as nat) + seq!['.', digits()[t % 10]]
}

/// The same with a sign in front of every value, `+` for the non-negative
/// ones; rounded as `percent_text` rounds.
pub open spec fn signed_percent_text(part: int, whole: int) -> Seq<char> {
    if percent_is_negative(part, whole) {
        percent_text(part, whole)
    } else {
        seq!['+'] + percent_text(part, whole)
    }
}

/// `times * r` split into whole multiples of `w` and the rest, computed
/// without ever exceeding `2 * w`.
fn scaled_split(r: u128, w: u128, times: u128) -> (res: (u128, u128))
    requires
        r <= w,
        0 < w <= 0x8000_0000_0000_0000_0000_0000_0000_0000,
    ensures
        res.0 <= times,
        res.1 < w,
        times * r == res.0 * w + res.1,
{
    let mut t: u128 = 0;
    let mut d: u128 = 0;
    let mut k: u128 = 0;
    while k < times
        invariant
            r <= w,
            0 < w,
            w <= 0x8000_0000_0000_0000_0000_0000_0000_0000,
            k <= times,
            d <= k,
            t < w,
            k * r == d * w + t,
        decreases times - k,
    {
        let ghost t_old = t;
        let ghost d_old = d;
        t = t + r;
        if t >= w {
            t = t - w;
            d = d + 1;
        }
        assert((k + 1) * r == d * w + t) by (nonlinear_arith)
            requires
                k * r == d_old * w + t_old,
                (t == t_old + r && d == d_old) || (t == t_old + r - w && d == d_old + 1),
        ;
        k = k + 1;
    }
    (d, t)
}

/// The next decimal digit of a fraction `r / w` below one: `10 * r` split
/// into whole multiples of `w` and the rest.
fn next_digit(r: u128, w: u128) -> (res: (u128, u128))
    requires
        r < w,
        w <= 0x8000_0000_0000_0000_0000_0000_0000_0000,
    ensures
        res.0 < 10,
        res.1 < w,
        10 * r == res.0 * w + res.1,
{
    let (d, t) = scaled_split(r, w, 10);
    assert(d < 10) by (nonlinear_arith)
        requires
            10 * r == d * w + t,
            r < w,
            0 <= t,
    ;
    (d, t)
}

proof fn lemma_dec_hundreds(q: nat, w: nat)
    requires
        q > 0,
        w < 100,
    ensures
        dec_text(100 * q + w) == dec_text(q) + two_digits(w as int),
{
    let n = 100 * q + w;
    vstd::arithmetic::div_mod::lemma_fundamental_div_mod_converse(
        n as int,
        10,
        (10 * q + w / 10) as int,
        (w % 10) as int,
    );
    let m = 10 * q + w / 10;
    vstd::arithmetic::div_mod::lemma_fundamental_div_mod_converse(m as int, 10, q as int, (w / 10) as int);
    assert(dec_text(n) == dec_text(n / 10) + seq![digits()[(n % 10) as int]]);
    assert(dec_text(m) == dec_text(m / 10) + seq![digits()[(m % 10) as int]]);
    assert(dec_text(n) =~= dec_text(q) + two_digits(w as int));
}

/// The percentage `100 * part / whole` with one decimal: the exact value
/// rounded to the tenth, half tenths to the even tenth (see `percent_text`).
pub fn percent(part: i128, whole: i128) -> (s: String)
    requires
        whole != 0,
    ensures
        s@ == percent_text(part as int, whole as int),
{
    let p = magnitude_of(part);
    let w = magnitude_of(whole);
    let q0 = p / w;
    let r0 = p % w;
    let (d1, r1) = next_digit(r0, w);
    let (d2, r2) = next_digit(r1, w);
    let (d3, r3) = next_digit(r2, w);
    let dv = 100 * d1 + 10 * d2 + d3;
    let ghost t0 = 1000 * q0 + dv;
    proof {
        vstd::arithmetic::div_mod::lemma_fundamental_div_mod(p as int, w as int);
        assert(p == w * q0 + r0);
        assert(1000 * (p as int) == t0 * w + r3) by (nonlinear_arith)
            requires
                p == w * q0 + r0,
                10 * r0 == d1 * w + r1,
                10 * r1 == d2 * w + r2,
                10 * r2 == d3 * w + r3,
                t0 == 1000 * q0 + 100 * d1 + 10 * d2 + d3,
        ;
        vstd::arithmetic::div_mod::lemma_fundamental_div_mod_converse(
            1000 * (p as int),
            w as int,
            t0,
            r3 as int,
        );
        vstd::arithmetic::div_mod::lemma_fundamental_div_mod_converse(
            t0,
            2,
            500 * q0 + 50 * d1 + 5 * d2 + d3 / 2,
            (d3 % 2) as int,
        );
    }
    let bump: u128 = if r3 > w - r3 || (r3 == w - r3 && d3 % 2 == 1) {
        1
    } else {
        0
    };
    let u = dv + bump;
    let v = u / 10;
    let big = q0 + v / 100;
    let small = v % 100;
    let ghost t = t0 + bump;
    proof {
        assert(t == percent_tenths(part as int, whole as int));
        vstd::arithmetic::div_mod::lemma_fundamental_div_mod_converse(
            t,
            10,
            100 * q0 + v,
            (u % 10) as int,
        );
        assert(100 * q0 + v == 100 * big + small);
        if big > 0 {
            lemma_dec_hundreds(big as nat, small as nat);
        }
        reveal_strlit("-");
        reveal_strlit("");
        reveal_strlit(".");
    }
    let sign = if part != 0 && (part < 0) != (whole < 0) {
        "-"
    } else {
        ""
    };
    let head = if big == 0 {
        decimal(small)
    } else {
        decimal(big).concat(digit_string(small / 10).as_str()).concat(
            digit_string(small % 10).as_str(),
        )
    };
    let s = String::from_str(sign).concat(head.as_str()).concat(".").concat(
        digit_string(u % 10).as_str(),
    );
    assert(s@ =~= percent_text(part as int, whole as int));
    s
}

/// The percentage with a sign in front, `+` when not negative, rounded as
/// `percent` rounds.
pub fn signed_percent(part: i128, whole: i128) -> (s: String)
    requires
        whole != 0,
    ensures
        s@ == signed_percent_text(part as int, whole as int),
{
    if part != 0 && (part < 0) != (whole < 0) {
        percent(part, whole)
    } else {
        proof {
            reveal_strlit("+");
        }
        let s = String::from_str("+").concat(percent(part, whole).as_str());
        assert(s@ =~= signed_percent_text(part as int, whole as int));
        s
    }
}

/// The cut of `truncate` for a limit of `max` bytes.
pub open spec fn truncation_cut(max: int) -> int {
    if max > 0 { max - 1 } else { 0 }
}

/// `s` when its UTF-8 form has at most `max` bytes, else the text of its
/// first `max - 1` bytes followed by an ellipsis.
pub open spec fn truncated_text(s: Seq<char>, max: int) -> Seq<char> {
    if encode_utf8(s).len() <= max {
        s
    } else {
        decode_utf8(encode_utf8(s).subrange(0, truncation_cut(max))).push('\u{2026}')
    }
}

/// `s` when it has at most `max` bytes, else its first `max - 1` bytes
/// followed by an ellipsis.
pub fn truncate(s: &str, max: usize) -> (r: String)
    requires
        encode_utf8(s@).len() <= usize::MAX,
        encode_utf8(s@).len() <= max || is_char_boundary(encode_utf8(s@), truncation_cut(max as int)),
    ensures
        r@ == truncated_text(s@, max as int),
        encode_utf8(s@).len() <= max ==> r@ == s@,
        encode_utf8(s@).len() > max ==> r@.len() > 0 && r@.last() == '\u{2026}' && encode_utf8(
            r@.drop_last(),
        ) == encode_utf8(s@).subrange(0, truncation_cut(max as int)),
{
    if s.len() <= max {
        String::from_str(s)
    } else {
        let cut = if max > 0 {
            max - 1
        } else {
            0
        };
        let (head, _rest) = s.split_at(cut);
        let ellipsis = "\u{2026}";
        proof {
            reveal_strlit("\u{2026}");
        }
        let r = String::from_str(head).concat(ellipsis);
        assert(ellipsis@ =~= seq!['\u{2026}']);
        assert(r@ =~= head@.push('\u{2026}'));
        assert(r@.drop_last() =~= head@);
        assert(encode_utf8(head@) =~= encode_utf8(s@).subrange(0, cut as int));
        proof {
            vstd::utf8::encode_utf8_decode_utf8(head@);
        }
        r
    }
}

/// The encoding of two texts one after the other is the two encodings one
/// after the other.
proof fn lemma_encode_concat(a: Seq<char>, b: Seq<char>)
    ensures
        encode_utf8(a + b) == encode_utf8(a) + encode_utf8(b),
    decreases a.len(),
{
    if a.len() > 0 {
        lemma_encode_concat(a.drop_first(), b);
        assert((a + b).drop_first() =~= a.drop_first() + b);
        assert((a + b)[0] == a[0]);
        assert(encode_utf8(a + b) =~= encode_utf8(a) + encode_utf8(b));
    } else {
        assert(a + b =~= b);
        assert(encode_utf8(a) + encode_utf8(b) =~= encode_utf8(b));
    }
}

/// Truncating twice to the same limit is truncating once, and the first
/// result can be truncated again (it is short enough or its cut falls on a
/// character boundary).
pub proof fn law_truncate_idempotent(s: Seq<char>, max: int)
    requires
        max >= 0,
        encode_utf8(s).len() <= max || is_char_boundary(encode_utf8(s), truncation_cut(max)),
    ensures
        truncated_text(truncated_text(s, max), max) == truncated_text(s, max),
        encode_utf8(truncated_text(s, max)).len() <= max || is_char_boundary(
            encode_utf8(truncated_text(s, max)),
            truncation_cut(max),
        ),
{
    if encode_utf8(s).len() > max {
        let cut = truncation_cut(max);
        let bytes = encode_utf8(s);
        let b = bytes.subrange(0, cut);
        let head = decode_utf8(b);
        let tail = seq!['\u{2026}'];
        let t = head.push('\u{2026}');
        vstd::utf8::encode_utf8_valid_utf8(s);
        vstd::utf8::valid_utf8_split(bytes, cut);
        vstd::utf8::decode_utf8_encode_utf8(b);
        assert(encode_utf8(head) == b);
        assert(t =~= head + tail);
        lemma_encode_concat(head, tail);
        assert(tail.drop_first() =~= Seq::<char>::empty());
        vstd::utf8::char_is_scalar('\u{2026}');
        assert(('\u{2026}' as u32) == 0x2026u32);
        let e = encode_utf8(tail);
        assert(tail[0] == '\u{2026}');
        assert(encode_utf8(tail.drop_first()) =~= Seq::<u8>::empty());
        assert(e == vstd::utf8::encode_scalar(tail[0] as u32) + encode_utf8(tail.drop_first()));
        assert(e =~= vstd::utf8::encode_scalar(0x2026u32));
        assert(e.len() == 3);
        let et = encode_utf8(t);
        assert(et =~= b + e);
        assert(et.len() > max);
        assert(et.subrange(0, cut) =~= b);
        vstd::utf8::encode_utf8_decode_utf8(head);
        assert(truncated_text(t, max) == t);
        vstd::utf8::encode_utf8_valid_utf8(t);
        assert(et[cut] == e[0]);
        let lead = e[0];
        assert(lead == vstd::utf8::leading_byte_width_3(0x2026u32));
        assert(!vstd::utf8::is_continuation_byte(lead)) by (bit_vector)
            requires
                lead == vstd::utf8::leading_byte_width_3(0x2026u32),
        ;
        vstd::utf8::is_char_boundary_iff_not_is_continuation_byte(et, cut);
    }
}

/// Decimal text is made of digits only.
proof fn lemma_dec_text_digits(n: nat)
    ensures
        forall|i: int| 0 <= i < dec_text(n).len() ==> digits().contains(#[trigger] dec_text(n)[i]),
        dec_text(n).len() > 0,
    decreases n,
{
    if n < 10 {
        assert(digits().contains(digits()[n as int]));
    } else {
        lemma_dec_text_digits(n / 10);
        let d = digits()[(n % 10) as int];
        assert(digits().contains(d));
        assert forall|i: int| 0 <= i < dec_text(n).len() implies digits().contains(
            #[trigger] dec_text(n)[i],
        ) by {
            if i < dec_text(n / 10).len() {
                assert(dec_text(n)[i] == dec_text(n / 10)[i]);
            } else {
                assert(dec_text(n)[i] == d);
            }
        }
    }
}

/// The text of an amount carries a minus sign exactly when the amount is
/// negative, and then only in front.
pub proof fn law_money_text_sign(micros: int)
    ensures
        money_text(micros).len() > 0,
        (money_text(micros)[0] == '-') == (micros < 0),
        money_text(micros).contains('-') == (micros < 0),
{
    let cents = round_half_even(magnitude(micros), 10000);
    assert(cents >= 0) by {
        vstd::arithmetic::div_mod::lemma_div_pos_is_pos(magnitude(micros), 10000);
    }
    let whole = dec_text((cents / 100) as nat);
    let frac = two_digits(cents % 100);
    lemma_dec_text_digits((cents / 100) as nat);
    let body = whole + seq!['.'] + frac;
    assert(!digits().contains('-')) by {
        if digits().contains('-') {
            let k = choose|k: int| 0 <= k < digits().len() && digits()[k] == '-';
        }
    }
    assert forall|i: int| 0 <= i < body.len() implies #[trigger] body[i] != '-' by {
        if i < whole.len() {
            assert(body[i] == whole[i]);
        } else if i > whole.len() {
            assert(frac[0] == digits()[(cents % 100) / 10]);
            assert(frac[1] == digits()[(cents % 100) % 10]);
        }
    }
    if micros < 0 {
        assert(money_text(micros) =~= seq!['-'] + body);
        assert(money_text(micros)[0] == '-');
    } else {
        assert(money_text(micros) =~= body);
        assert(!money_text(micros).contains('-'));
    }
}

/// Rounding to the nearest multiple: the result is within half a step.
pub proof fn law_round_half_even_is_nearest(num: int, den: int)
    requires
        num >= 0,
        den > 0,
    ensures
        round_half_even(num, den) >= 0,
        2 * (num - round_half_even(num, den) * den) <= den,
        2 * (round_half_even(num, den) * den - num) <= den,
{
    vstd::arithmetic::div_mod::lemma_fundamental_div_mod(num, den);
    vstd::arithmetic::div_mod::lemma_div_pos_is_pos(num, den);
    let q = num / den;
    let r = num % den;
    assert((q + 1) * den == q * den + den) by (nonlinear_arith);
    assert(num == q * den + r) by (nonlinear_arith)
        requires
            num == den * q + r,
    ;
}

/// A percentage is shown as the nearest tenth: `percent_tenths(part, whole)`
/// tenths lie within half a tenth of `100 * |part| / |whole|`.
pub proof fn law_percent_is_nearest_tenth(part: int, whole: int)
    requires
        whole != 0,
    ensures
        percent_tenths(part, whole) >= 0,
        2 * (1000 * magnitude(part) - percent_tenths(part, whole) * magnitude(whole)) <= magnitude(
            whole,
        ),
        2 * (percent_tenths(part, whole) * magnitude(whole) - 1000 * magnitude(part)) <= magnitude(
            whole,
        ),
{
    law_round_half_even_is_nearest(1000 * magnitude(part), magnitude(whole));
}

/// The eight block characters of a sparkline, lowest first.
pub open spec fn blocks() -> Seq<char> {
    seq!['\u{2581}', '\u{2582}', '\u{2583}', '\u{2584}', '\u{2585}', '\u{2586}', '\u{2587}', '\u{2588}']
}

/// The largest value, and zero if all are below it.
pub open spec fn peak(values: Seq<i128>) -> int
    decreases values.len(),
{
    if values.len() == 0 {
        0
    } else {
        let rest = peak(values.drop_last());
        if values.last() > rest {
            values.last() as int
        } else {
            rest
        }
    }
}

/// Block level of `v` against the peak `m`: `7 * v / m` rounded, halves up;
/// non-positive values and a non-positive peak give the lowest level.
pub open spec fn spark_level(v: int, m: int) -> int {
    if m <= 0 || v <= 0 {
        0
    } else {
        let q = (7 * v) / m;
        let r = (7 * v) % m;
        if 2 * r >= m {
            q + 1
        } else {
            q
        }
    }
}

/// One block per value, scaled to the peak.
pub open spec fn sparkline_text(values: Seq<i128>) -> Seq<char> {
    Seq::new(values.len(), |i: int| blocks()[spark_level(values[i] as int, peak(values))])
}

proof fn lemma_peak_bounds(values: Seq<i128>)
    ensures
        peak(values) >= 0,
        forall|i: int| 0 <= i < values.len() ==> values[i] <= peak(values),
        peak(values) <= i128::MAX,
    decreases values.len(),
{
    if values.len() > 0 {
        lemma_peak_bounds(values.drop_last());
        assert forall|i: int| 0 <= i < values.len() implies values[i] <= peak(values) by {
            if i < values.len() - 1 {
                assert(values.drop_last()[i] == values[i]);
            }
        }
    }
}

/// Scaling every value by the same positive factor scales the peak by it.
proof fn lemma_peak_scaled(values: Seq<i128>, scaled: Seq<i128>, k: int)
    requires
        k > 0,
        scaled.len() == values.len(),
        forall|i: int| 0 <= i < values.len() ==> #[trigger] scaled[i] == k * values[i],
    ensures
        peak(scaled) == k * peak(values),
    decreases values.len(),
{
    if values.len() > 0 {
        let n = values.len() - 1;
        assert forall|i: int| 0 <= i < n implies #[trigger] scaled.drop_last()[i] == k
            * values.drop_last()[i] by {
            assert(scaled[i] == k * values[i]);
        }
        lemma_peak_scaled(values.drop_last(), scaled.drop_last(), k);
        let p = peak(values.drop_last());
        let v = values.last() as int;
        assert(scaled.last() == k * v);
        assert((v > p) == (k * v > k * p)) by (nonlinear_arith)
            requires
                k > 0,
        ;
    }
}

/// The block level of a value against a peak does not change when both are
/// scaled by the same positive factor.
proof fn lemma_spark_level_scaled(v: int, m: int, k: int)
    requires
        k > 0,
    ensures
        spark_level(k * v, k * m) == spark_level(v, m),
{
    assert((m <= 0) == (k * m <= 0) && (v <= 0) == (k * v <= 0)) by (nonlinear_arith)
        requires
            k > 0,
    ;
    if m > 0 && v > 0 {
        let q = (7 * v) / m;
        let r = (7 * v) % m;
        vstd::arithmetic::div_mod::lemma_fundamental_div_mod(7 * v, m);
        assert(7 * (k * v) == q * (k * m) + k * r && 0 <= k * r < k * m) by (nonlinear_arith)
            requires
                k > 0,
                m > 0,
                7 * v == m * q + r,
                0 <= r < m,
        ;
        vstd::arithmetic::div_mod::lemma_fundamental_div_mod_converse(
            7 * (k * v),
            k * m,
            q,
            k * r,
        );
        assert((2 * (k * r) >= k * m) == (2 * r >= m)) by (nonlinear_arith)
            requires
                k > 0,
        ;
    }
}

/// A sparkline shows each value against the largest: multiplying every
/// value by the same positive factor leaves it unchanged.
pub proof fn law_sparkline_ignores_scale(values: Seq<i128>, scaled: Seq<i128>, k: int)
    requires
        k > 0,
        scaled.len() == values.len(),
        forall|i: int| 0 <= i < values.len() ==> #[trigger] scaled[i] == k * values[i],
    ensures
        sparkline_text(scaled) == sparkline_text(values),
{
    lemma_peak_scaled(values, scaled, k);
    assert forall|i: int| 0 <= i < values.len() implies spark_level(
        #[trigger] scaled[i] as int,
        peak(scaled),
    ) == spark_level(values[i] as int, peak(values)) by {
        lemma_spark_level_scaled(values[i] as int, peak(values), k);
    }
    assert(sparkline_text(scaled) =~= sparkline_text(values));
}

/// Block `i` of a sparkline is the `i`-th of the eight block characters from
/// U+2581 up.
proof fn lemma_block_codes()
    ensures
        forall|i: int| 0 <= i < 8 ==> #[trigger] (blocks()[i] as u32) == 0x2581 + i,
{
    assert(('\u{2581}' as u32) == 0x2581);
    assert(('\u{2582}' as u32) == 0x2582);
    assert(('\u{2583}' as u32) == 0x2583);
    assert(('\u{2584}' as u32) == 0x2584);
    assert(('\u{2585}' as u32) == 0x2585);
    assert(('\u{2586}' as u32) == 0x2586);
    assert(('\u{2587}' as u32) == 0x2587);
    assert(('\u{2588}' as u32) == 0x2588);
}

/// The level of a positive value not above the peak is `7 * v / m` rounded
/// half up, written as one floor division.
proof fn lemma_spark_level_floor(v: int, m: int)
    requires
        0 < v <= m,
    ensures
        spark_level(v, m) == (14 * v + m) / (2 * m),
        0 <= spark_level(v, m) <= 7,
{
    let q = (7 * v) / m;
    let r = (7 * v) % m;
    vstd::arithmetic::div_mod::lemma_fundamental_div_mod(7 * v, m);
    if 2 * r >= m {
        assert(14 * v + m == (q + 1) * (2 * m) + (2 * r - m)) by (nonlinear_arith)
            requires
                7 * v == m * q + r,
        ;
        vstd::arithmetic::div_mod::lemma_fundamental_div_mod_converse(
            14 * v + m,
            2 * m,
            q + 1,
            2 * r - m,
        );
    } else {
        assert(14 * v + m == q * (2 * m) + (2 * r + m)) by (nonlinear_arith)
            requires
                7 * v == m * q + r,
        ;
        vstd::arithmetic::div_mod::lemma_fundamental_div_mod_converse(
            14 * v + m,
            2 * m,
            q,
            2 * r + m,
        );
    }
    vstd::arithmetic::div_mod::lemma_div_is_ordered(14 * v + m, 15 * m, 2 * m);
    assert((15 * m) / (2 * m) == 7) by {
        vstd::arithmetic::div_mod::lemma_fundamental_div_mod_converse(15 * m, 2 * m, 7, m);
    }
    vstd::arithmetic::div_mod::lemma_div_pos_is_pos(14 * v + m, 2 * m);
}

/// Levels grow with the value, and stay within the eight blocks.
proof fn lemma_spark_level_monotone(a: int, b: int, m: int)
    requires
        a <= b <= m,
    ensures
        0 <= spark_level(a, m) <= spark_level(b, m) <= 7,
{
    if m > 0 && b > 0 {
        lemma_spark_level_floor(b, m);
        if a > 0 {
            lemma_spark_level_floor(a, m);
            vstd::arithmetic::div_mod::lemma_div_is_ordered(14 * a + m, 14 * b + m, 2 * m);
        }
    }
}

/// A sparkline rises with the values: a value no larger than another gets a
/// block no higher, every block is one of U+2581..U+2588, a value that is
/// not positive gets the lowest, and a positive value no other value exceeds
/// gets the full block U+2588.
pub proof fn law_sparkline_is_monotone(values: Seq<i128>)
    ensures
        sparkline_text(values).len() == values.len(),
        forall|i: int, j: int|
            0 <= i < values.len() && 0 <= j < values.len() && values[i] <= values[j] ==> (
            #[trigger] sparkline_text(values)[i] as u32) <= (#[trigger] sparkline_text(values)[j] as u32),
        forall|i: int|
            0 <= i < values.len() ==> 0x2581 <= (#[trigger] sparkline_text(values)[i] as u32) <= 0x2588,
        forall|i: int|
            0 <= i < values.len() && values[i] <= 0 ==> #[trigger] sparkline_text(values)[i] == '\u{2581}',
        forall|i: int|
            0 <= i < values.len() && values[i] > 0 && (forall|j: int|
                0 <= j < values.len() ==> values[j] <= values[i]) ==> #[trigger] sparkline_text(
                values,
            )[i] == '\u{2588}',
{
    lemma_peak_bounds(values);
    lemma_block_codes();
    let m = peak(values);
    let t = sparkline_text(values);
    assert forall|i: int| 0 <= i < values.len() implies 0 <= spark_level(
        #[trigger] values[i] as int,
        m,
    ) <= 7 by {
        lemma_spark_level_monotone(values[i] as int, values[i] as int, m);
    }
    assert forall|i: int, j: int|
        0 <= i < values.len() && 0 <= j < values.len() && values[i] <= values[j] implies (
        #[trigger] t[i] as u32) <= (#[trigger] t[j] as u32) by {
        lemma_spark_level_monotone(values[i] as int, values[j] as int, m);
    }
    assert forall|i: int| 0 <= i < values.len() implies 0x2581 <= (#[trigger] t[i] as u32) <= 0x2588 by {
        lemma_spark_level_monotone(values[i] as int, values[i] as int, m);
    }
    assert forall|i: int| 0 <= i < values.len() && values[i] <= 0 implies #[trigger] t[i] == '\u{2581}' by {}
    assert forall|i: int|
        0 <= i < values.len() && values[i] > 0 && (forall|j: int|
            0 <= j < values.len() ==> values[j] <= values[i]) implies #[trigger] t[i] == '\u{2588}' by {
        lemma_peak_is_a_value(values);
        let k = choose|k: int| 0 <= k < values.len() && values[k] == m;
        assert(values[k] <= values[i]);
        assert(values[i] as int == m);
        lemma_spark_level_floor(m, m);
        vstd::arithmetic::div_mod::lemma_fundamental_div_mod_converse(14 * m + m, 2 * m, 7, m);
    }
}

/// A positive peak is one of the values.
proof fn lemma_peak_is_a_value(values: Seq<i128>)
    ensures
        peak(values) > 0 ==> exists|k: int| 0 <= k < values.len() && values[k] == peak(values),
    decreases values.len(),
{
    if values.len() > 0 {
        lemma_peak_is_a_value(values.drop_last());
        if peak(values) > 0 && peak(values) == peak(values.drop_last()) {
            let k = choose|k: int|
                0 <= k < values.drop_last().len() && values.drop_last()[k] == peak(values.drop_last());
            assert(values[k] == peak(values));
        } else if peak(values) > 0 {
            assert(values[values.len() - 1] == peak(values));
        }
    }
}

/// A row of block characters showing each value against the largest one.
pub fn sparkline(values: &[i128]) -> (s: String)
    ensures
        s@ == sparkline_text(values@),
        s@.len() == values.len(),
{
    let n = values.len();
    let mut m: i128 = 0;
    let mut i: usize = 0;
    assert(values@.take(0) =~= Seq::<i128>::empty());
    while i < n
        invariant
            n == values.len(),
            i <= n,
            m == peak(values@.take(i as int)),
        decreases n - i,
    {
        assert(values@.take(i + 1).drop_last() =~= values@.take(i as int));
        if values[i] > m {
            m = values[i];
        }
        i = i + 1;
    }
    assert(values@.take(n as int) =~= values@);
    proof {
        lemma_peak_bounds(values@);
    }
    let bars = "\u{2581}\u{2582}\u{2583}\u{2584}\u{2585}\u{2586}\u{2587}\u{2588}";
    proof {
        reveal_strlit("\u{2581}\u{2582}\u{2583}\u{2584}\u{2585}\u{2586}\u{2587}\u{2588}");
    }
    assert(bars@ =~= blocks());
    let mut s = String::new();
    let mut j: usize = 0;
    while j < n
        invariant
            n == values.len(),
            j <= n,
            m == peak(values@),
            m >= 0,
            forall|x: int| 0 <= x < n ==> values[x] <= m,
            bars@ == blocks(),
            s@ =~= sparkline_text(values@).take(j as int),
        decreases n - j,
    {
        let v = values[j];
        let level: usize = if m <= 0 || v <= 0 {
            0
        } else {
            let (q, r) = scaled_split(v as u128, m as u128, 7);
            proof {
                vstd::arithmetic::div_mod::lemma_fundamental_div_mod_converse(
                    7 * v,
                    m as int,
                    q as int,
                    r as int,
                );
            }
            let up = r >= m as u128 - r;
            assert(q < 7 || r == 0) by (nonlinear_arith)
                requires
                    7 * v == q * m + r,
                    v <= m,
                    0 <= r,
                    q <= 7,
                    m > 0,
            ;
            if up && q < 7 {
                (q + 1) as usize
            } else {
                q as usize
            }
        };
        assert(level == spark_level(v as int, m as int));
        let one = bars.substring_char(level, level + 1);
        assert(one@ =~= seq![blocks()[level as int]]);
        s.append(one);
        j = j + 1;
    }
    assert(sparkline_text(values@).take(n as int) =~= sparkline_text(values@));
    s
}

} // verus!
