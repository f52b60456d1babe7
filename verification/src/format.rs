use vstd::prelude::*;
use vstd::arithmetic::div_mod::{
    lemma_div_denominator,
    lemma_div_is_ordered_by_denominator,
    lemma_fundamental_div_mod,
};

verus! {

/// Bytes in one KiB, MiB and GiB.
pub const KIB: u64 = 1024;
pub const MIB: u64 = 1048576;
pub const GIB: u64 = 1073741824;

/// 2^53: every integer below this is represented exactly by an `f64`.
pub const F64_EXACT: u64 = 9007199254740992;

/// The ASCII digit for `d` (meaningful for `d < 10`).
pub open spec fn digit_char(d: nat) -> char {
    (d + 48) as char
}

/// The decimal notation of `n`, without sign or leading zeros.
pub open spec fn decimal(n: nat) -> Seq<char>
    decreases n,
{
    if n < 10 {
        seq![digit_char(n)]
    } else {
        decimal(n / 10).push(digit_char(n % 10))
    }
}

/// `2^e`.
pub open spec fn pow2(e: nat) -> nat
    decreases e,
{
    if e == 0 {
        1
    } else {
        2 * pow2((e - 1) as nat)
    }
}

/// `num / den` rounded to the nearest integer, ties going to the even one.
pub open spec fn round_half_even(num: nat, den: nat) -> nat {
    let q = num / den;
    let r = num % den;
    if 2 * r > den || (2 * r == den && q % 2 == 1) {
        q + 1
    } else {
        q
    }
}

/// How many low bits of `b` do not fit in the 53-bit significand of an `f64`.
pub open spec fn f64_excess_bits(b: nat) -> nat
    decreases b,
{
    if b < F64_EXACT {
        0
    } else {
        1 + f64_excess_bits(b / 2)
    }
}

/// The value of `b as f64`: `b` rounded to the nearest number with a
/// 53-bit significand, ties to even.
pub open spec fn f64_value(b: nat) -> nat {
    let p = pow2(f64_excess_bits(b));
    round_half_even(b, p) * p
}

/// A number of tenths written with exactly one decimal, as in `12.3`.
pub open spec fn one_decimal(tenths: nat) -> Seq<char> {
    decimal(tenths / 10) + seq!['.'] + decimal(tenths % 10)
}

/// `b / unit` with one decimal, computed on `b as f64` and rounded to the
/// nearest tenth, ties to even.
pub open spec fn scaled_text(b: nat, unit: nat) -> Seq<char> {
    one_decimal(round_half_even(10 * f64_value(b), unit))
}

/// The label of a byte count: GiB, MiB or KiB with one decimal from 1 GiB,
/// 1 MiB and 1 KiB up, plain bytes below.
pub open spec fn bytes_text(b: nat) -> Seq<char> {
    if b >= GIB {
        scaled_text(b, GIB as nat) + seq![' ', 'G', 'i', 'B']
    } else if b >= MIB {
        scaled_text(b, MIB as nat) + seq![' ', 'M', 'i', 'B']
    } else if b >= KIB {
        scaled_text(b, KIB as nat) + seq![' ', 'K', 'i', 'B']
    } else {
        decimal(b) + seq![' ', 'B']
    }
}

/// The label of an uptime: days, hours and minutes from one day up,
/// hours and minutes from one hour up, minutes and seconds below.
pub open spec fn uptime_text(secs: nat) -> Seq<char> {
    let days = secs / 86400;
    let hours = (secs % 86400) / 3600;
    let minutes = (secs % 3600) / 60;
    if days > 0 {
        decimal(days) + seq!['d', ' '] + decimal(hours) + seq!['h', ' '] + decimal(minutes) + seq!['m']
    } else if hours > 0 {
        decimal(hours) + seq!['h', ' '] + decimal(minutes) + seq!['m']
    } else {
        decimal(minutes) + seq!['m', ' '] + decimal(secs % 60) + seq!['s']
    }
}

/// The number that a string of ASCII digits denotes.
pub open spec fn digits_value(s: Seq<char>) -> int
    decreases s.len(),
{
    if s.len() == 0 {
        0
    } else {
        10 * digits_value(s.drop_last()) + (s.last() as int - 48)
    }
}

/// `decimal(n)` is a string of digits, with no leading zero unless it is
/// `"0"`, that denotes `n`.
pub proof fn lemma_decimal_denotes(n: nat)
    ensures
        digits_value(decimal(n)) == n,
        decimal(n).len() >= 1,
        n >= 10 ==> decimal(n).len() >= 2,
        forall|i: int| 0 <= i < decimal(n).len() ==> '0' <= #[trigger] decimal(n)[i] <= '9',
        decimal(n).len() > 1 ==> decimal(n)[0] != '0',
    decreases n,
{
    let d = n % 10;
    assert(digit_char(d) as int == d + 48);
    if n < 10 {
        assert(decimal(n).drop_last() =~= Seq::<char>::empty());
        assert(decimal(n).last() == digit_char(n));
        assert(digits_value(decimal(n)) == 10 * digits_value(Seq::<char>::empty()) + (digit_char(n) as int - 48));
    } else {
        lemma_decimal_denotes(n / 10);
        lemma_fundamental_div_mod(n as int, 10);
        let p = decimal(n / 10);
        assert(decimal(n).drop_last() =~= p);
        assert(decimal(n).last() == digit_char(d));
        assert(digits_value(decimal(n)) == 10 * digits_value(p) + (digit_char(d) as int - 48));
        assert(digits_value(decimal(n)) == 10 * (n / 10) + n % 10);
        assert forall|i: int| 0 <= i < decimal(n).len() implies '0' <= #[trigger] decimal(n)[i] <= '9' by {
            if i < p.len() {
                assert(decimal(n)[i] == p[i]);
            }
        }
        assert(decimal(n)[0] == p[0]);
        if p.len() == 1 {
            assert(n / 10 < 10);
            assert(digit_char(n / 10) as int == n / 10 + 48);
        }
    }
}

/// The rounded quotient is the nearest integer to `num / den`: it is off
/// by at most one half, and exactly halfway it is the even neighbour.
pub proof fn lemma_round_half_even_is_nearest(num: nat, den: nat)
    requires
        den > 0,
    ensures
        -(den as int) <= 2 * (round_half_even(num, den) * den - num) <= den,
        2 * (round_half_even(num, den) * den - num) == den || 2 * (round_half_even(num, den) * den
            - num) == -(den as int) ==> round_half_even(num, den) % 2 == 0,
{
    lemma_fundamental_div_mod(num as int, den as int);
    let q = num / den;
    let r = num % den;
    assert((q + 1) * den == q * den + den) by (nonlinear_arith);
    assert(q * den == den * q) by (nonlinear_arith);
}

/// The three parts of an uptime label recompose the uptime: whole days,
/// then hours below a day, minutes below an hour and seconds below a minute.
pub proof fn lemma_uptime_parts(secs: nat)
    ensures
        (secs / 86400) * 86400 + ((secs % 86400) / 3600) * 3600 + ((secs % 3600) / 60) * 60
            + secs % 60 == secs,
        (secs % 86400) / 3600 < 24,
        (secs % 3600) / 60 < 60,
{
    lemma_fundamental_div_mod(secs as int, 86400);
    lemma_fundamental_div_mod(secs as int, 3600);
    lemma_fundamental_div_mod(secs as int, 60);
    lemma_fundamental_div_mod((secs % 86400) as int, 3600);
    lemma_fundamental_div_mod((secs % 3600) as int, 60);
    assert((secs % 86400) % 3600 == secs % 3600) by {
        vstd::arithmetic::div_mod::lemma_mod_mod(secs as int, 3600, 24);
    }
    assert((secs % 3600) % 60 == secs % 60) by {
        vstd::arithmetic::div_mod::lemma_mod_mod(secs as int, 60, 60);
    }
}

/// What an uptime label says: from one day up it shows whole days,
/// hours below a day and minutes below an hour that add up to the uptime
/// less under a minute; from one hour up, hours and minutes the same way;
/// below an hour, minutes and seconds that add up to it exactly.
pub proof fn lemma_uptime_label_recomposes(secs: nat)
    ensures
        secs >= 86400 ==> exists|d: nat, h: nat, m: nat|
            #![trigger decimal(d), decimal(h), decimal(m)]
            h < 24 && m < 60 && d * 86400 + h * 3600 + m * 60 <= secs < d * 86400 + h * 3600 + m
                * 60 + 60 && uptime_text(secs) == decimal(d) + seq!['d', ' '] + decimal(h) + seq![
                'h',
                ' ',
            ] + decimal(m) + seq!['m'],
        3600 <= secs < 86400 ==> exists|h: nat, m: nat|
            #![trigger decimal(h), decimal(m)]
            m < 60 && h * 3600 + m * 60 <= secs < h * 3600 + m * 60 + 60 && uptime_text(secs)
                == decimal(h) + seq!['h', ' '] + decimal(m) + seq!['m'],
        secs < 3600 ==> exists|m: nat, sec: nat|
            #![trigger decimal(m), decimal(sec)]
            sec < 60 && m * 60 + sec == secs && uptime_text(secs) == decimal(m) + seq!['m', ' ']
                + decimal(sec) + seq!['s'],
{
    lemma_uptime_parts(secs);
    let d = secs / 86400;
    let h = (secs % 86400) / 3600;
    let m = (secs % 3600) / 60;
    let sec = secs % 60;
    if secs >= 86400 {
        assert(d > 0);
        assert(uptime_text(secs) == decimal(d) + seq!['d', ' '] + decimal(h) + seq!['h', ' ']
            + decimal(m) + seq!['m']);
    } else if secs >= 3600 {
        assert(d == 0);
        assert(h == secs / 3600);
        assert(h > 0);
        assert(uptime_text(secs) == decimal(h) + seq!['h', ' '] + decimal(m) + seq!['m']);
    } else {
        assert(d == 0);
        assert(h == 0);
        assert(uptime_text(secs) == decimal(m) + seq!['m', ' '] + decimal(sec) + seq!['s']);
    }
}

/// `2^e` grows with `e`.
proof fn lemma_pow2_monotone(a: nat, b: nat)
    requires
        a <= b,
    ensures
        1 <= pow2(a) <= pow2(b),
    decreases b,
{
    if b > 0 {
        if a < b {
            lemma_pow2_monotone(a, (b - 1) as nat);
        } else {
            lemma_pow2_monotone((b - 1) as nat, (b - 1) as nat);
        }
    }
}

proof fn lemma_excess_bits_bound(b: nat, k: nat)
    requires
        b < F64_EXACT * pow2(k),
    ensures
        f64_excess_bits(b) <= k,
    decreases k,
{
    if b >= F64_EXACT {
        assert(k > 0) by {
            if k == 0 {
                assert(pow2(0) == 1);
            }
        }
        assert(pow2(k) == 2 * pow2((k - 1) as nat));
        assert(b / 2 < F64_EXACT * pow2((k - 1) as nat)) by (nonlinear_arith)
            requires
                b < F64_EXACT * (2 * pow2((k - 1) as nat)),
        ;
        lemma_excess_bits_bound(b / 2, (k - 1) as nat);
    }
}

/// What `b as f64` is worth: `b` itself below 2^53, and for any `u64`
/// never more than 1024 away from `b`.
pub proof fn lemma_f64_value_close(b: nat)
    requires
        b <= u64::MAX,
    ensures
        b < F64_EXACT ==> f64_value(b) == b,
        -1024 <= f64_value(b) - b <= 1024,
{
    reveal_with_fuel(pow2, 12);
    assert(pow2(11) == 2048);
    lemma_excess_bits_bound(b, 11);
    let e = f64_excess_bits(b);
    lemma_pow2_monotone(e, 11);
    let p = pow2(e);
    lemma_round_half_even_is_nearest(b, p);
    if b < F64_EXACT {
        assert(e == 0);
        assert(p == 1);
        assert(round_half_even(b, 1) == b);
    }
}

/// What a byte label says: below 1 KiB the exact count with `" B"`;
/// from 1 KiB, 1 MiB and 1 GiB up a number `q.r` with one decimal
/// followed by the unit, where `q.r` is the byte count (as an `f64`) in
/// that unit rounded to the nearest tenth.
pub proof fn lemma_bytes_label_meaning(b: nat)
    requires
        b <= u64::MAX,
    ensures
        b < 1024 ==> bytes_text(b) == decimal(b) + seq![' ', 'B'],
        1024 <= b < 1048576 ==> exists|q: nat, r: nat|
            #![trigger decimal(q), decimal(r)]
            r < 10 && (2 * ((10 * q + r) * 1024 - 10 * b) == 1024 || 2 * ((10 * q + r) * 1024 - 10 * b) == -1024 ==> r % 2 == 0)
                && -1024 <= 2 * ((10 * q + r) * 1024 - 10 * b) <= 1024 && bytes_text(b)
                == decimal(q) + seq!['.'] + decimal(r) + seq![' ', 'K', 'i', 'B'],
        1048576 <= b < 1073741824 ==> exists|q: nat, r: nat|
            #![trigger decimal(q), decimal(r)]
            r < 10 && (2 * ((10 * q + r) * 1048576 - 10 * b) == 1048576 || 2 * ((10 * q + r) * 1048576 - 10 * b) == -1048576 ==> r % 2 == 0)
                && -1048576 <= 2 * ((10 * q + r) * 1048576 - 10 * b) <= 1048576 && bytes_text(b)
                == decimal(q) + seq!['.'] + decimal(r) + seq![' ', 'M', 'i', 'B'],
        1073741824 <= b ==> exists|q: nat, r: nat|
            #![trigger decimal(q), decimal(r)]
            r < 10 && (2 * ((10 * q + r) * 1073741824 - 10 * f64_value(b)) == 1073741824 || 2 * ((10 * q + r) * 1073741824 - 10 * f64_value(b)) == -1073741824 ==> r % 2 == 0)
                && -1073741824 <= 2 * ((10 * q + r) * 1073741824 - 10 * f64_value(b))
                <= 1073741824 && bytes_text(b) == decimal(q) + seq!['.'] + decimal(r) + seq![
                ' ',
                'G',
                'i',
                'B',
            ],
{
    lemma_f64_value_close(b);
    let v = f64_value(b);
    let unit: nat = if b >= GIB { GIB as nat } else if b >= MIB { MIB as nat } else { KIB as nat };
    let t = round_half_even(10 * v, unit);
    lemma_round_half_even_is_nearest(10 * v, unit);
    lemma_fundamental_div_mod(t as int, 10);
    let q = t / 10;
    let r = t % 10;
    assert(t == 10 * q + r);
    if b >= KIB {
        assert(bytes_text(b) == one_decimal(t) + if b >= GIB {
            seq![' ', 'G', 'i', 'B']
        } else if b >= MIB {
            seq![' ', 'M', 'i', 'B']
        } else {
            seq![' ', 'K', 'i', 'B']
        });
        assert(one_decimal(t) == decimal(q) + seq!['.'] + decimal(r));
    }
}

fn digit_str(d: u128) -> (s: &'static str)
    requires
        d < 10,
    ensures
        s@ == seq![digit_char(d as nat)],
{
    if d == 0 {
        proof { reveal_strlit("0"); }
        "0"
    } else if d == 1 {
        proof { reveal_strlit("1"); }
        "1"
    } else if d == 2 {
        proof { reveal_strlit("2"); }
        "2"
    } else if d == 3 {
        proof { reveal_strlit("3"); }
        "3"
    } else if d == 4 {
        proof { reveal_strlit("4"); }
        "4"
    } else if d == 5 {
        proof { reveal_strlit("5"); }
        "5"
    } else if d == 6 {
        proof { reveal_strlit("6"); }
        "6"
    } else if d == 7 {
        proof { reveal_strlit("7"); }
        "7"
    } else if d == 8 {
        proof { reveal_strlit("8"); }
        "8"
    } else {
        proof { reveal_strlit("9"); }
        "9"
    }
}

/// Appends the decimal notation of `n` to `s`.
pub fn push_decimal(s: &mut String, n: u128)
    ensures
        final(s)@ == old(s)@ + decimal(n as nat),
    decreases n,
{
    if n >= 10 {
        push_decimal(s, n / 10);
    }
    s.append(digit_str(n % 10));
    proof {
        assert(s@ =~= old(s)@ + decimal(n as nat));
    }
}


/// Appends `lit` to `s`.
pub(crate) fn push_text(s: &mut String, lit: &str)
    ensures
        final(s)@ == old(s)@ + lit@,
{
    s.append(lit);
}

/// `num / den` rounded to the nearest integer, ties to even.
fn div_round_half_even(num: u128, den: u128) -> (r: u128)
    requires
        den > 0,
        num < u128::MAX,
    ensures
        r == round_half_even(num as nat, den as nat),
        r <= num / den + 1,
{
    let q = num / den;
    let rem = num % den;
    if rem > den - rem || (rem == den - rem && q % 2 == 1) {
        q + 1
    } else {
        q
    }
}

/// The value of `b as f64`, computed exactly on integers.
fn to_f64_value(b: u64) -> (v: u128)
    ensures
        v == f64_value(b as nat),
        v <= 2 * (b as nat) + 1,
{
    let bb = b as u128;
    let mut m: u128 = bb;
    let mut p: u128 = 1;
    let ghost mut e: nat = 0;
    while m >= F64_EXACT as u128
        invariant
            p == pow2(e),
            p > 0,
            p <= bb || m == bb,
            m == bb / p,
            bb <= u64::MAX,
            f64_excess_bits(bb as nat) == e + f64_excess_bits(m as nat),
        decreases m,
    {
        proof {
            lemma_div_denominator(bb as int, p as int, 2);
            if p > bb {
                assert(bb / p == 0) by {
                    vstd::arithmetic::div_mod::lemma_basic_div(bb as int, p as int);
                }
            }
        }
        m = m / 2;
        p = p * 2;
        proof {
            e = e + 1;
            if p > bb {
                assert(bb / p == 0) by {
                    vstd::arithmetic::div_mod::lemma_basic_div(bb as int, p as int);
                }
            }
        }
    }
    let q = bb / p;
    let rem = bb % p;
    proof {
        lemma_fundamental_div_mod(bb as int, p as int);
        assert(q == m);
    }
    let r = div_round_half_even(bb, p);
    proof {
        assert(r * p <= bb + p) by (nonlinear_arith)
            requires
                r <= q + 1,
                bb == p * q + rem,
                rem >= 0,
                p > 0,
        ;
        assert(p <= bb || p == 1);
    }
    r * p
}

/// `b / unit` written with one decimal, as `{:.1}` writes `b as f64 / unit as f64`.
fn push_scaled(s: &mut String, b: u64, unit: u64)
    requires
        unit >= KIB,
    ensures
        final(s)@ == old(s)@ + scaled_text(b as nat, unit as nat),
{
    let v = to_f64_value(b);
    let t = div_round_half_even(10 * v, unit as u128);
    push_decimal(s, t / 10);
    proof { reveal_strlit("."); }
    push_text(s, ".");
    push_decimal(s, t % 10);
    proof {
        assert(s@ =~= old(s)@ + scaled_text(b as nat, unit as nat));
    }
}

/// A human-readable label for a byte count: `"1.5 GiB"`, `"12.0 MiB"`,
/// `"1.0 KiB"` or `"512 B"`.
pub fn format_bytes(bytes: u64) -> (label: String)
    ensures
        label@ == bytes_text(bytes as nat),
        bytes < 1024 ==> label@ == decimal(bytes as nat) + seq![' ', 'B'],
        1024 <= bytes < 1048576 ==> exists|q: nat, r: nat|
            #![trigger decimal(q), decimal(r)]
            r < 10 && (2 * ((10 * q + r) * 1024 - 10 * bytes) == 1024 || 2 * ((10 * q + r) * 1024 - 10 * bytes) == -1024 ==> r % 2 == 0)
                && -1024 <= 2 * ((10 * q + r) * 1024 - 10 * bytes) <= 1024 && label@ == decimal(q)
                + seq!['.'] + decimal(r) + seq![' ', 'K', 'i', 'B'],
        1048576 <= bytes < 1073741824 ==> exists|q: nat, r: nat|
            #![trigger decimal(q), decimal(r)]
            r < 10 && (2 * ((10 * q + r) * 1048576 - 10 * bytes) == 1048576 || 2 * ((10 * q + r) * 1048576 - 10 * bytes) == -1048576 ==> r % 2 == 0)
                && -1048576 <= 2 * ((10 * q + r) * 1048576 - 10 * bytes) <= 1048576 && label@
                == decimal(q) + seq!['.'] + decimal(r) + seq![' ', 'M', 'i', 'B'],
        1073741824 <= bytes ==> exists|q: nat, r: nat|
            #![trigger decimal(q), decimal(r)]
            r < 10 && (2 * ((10 * q + r) * 1073741824 - 10 * f64_value(bytes as nat)) == 1073741824 || 2 * ((10 * q + r) * 1073741824 - 10 * f64_value(bytes as nat)) == -1073741824 ==> r % 2 == 0)
                && -1073741824 <= 2 * ((10 * q + r) * 1073741824 - 10 * f64_value(bytes as nat))
                <= 1073741824 && label@ == decimal(q) + seq!['.'] + decimal(r) + seq![
                ' ',
                'G',
                'i',
                'B',
            ],
{
    let mut s = String::new();
    if bytes >= GIB {
        push_scaled(&mut s, bytes, GIB);
        proof { reveal_strlit(" GiB"); }
        push_text(&mut s, " GiB");
    } else if bytes >= MIB {
        push_scaled(&mut s, bytes, MIB);
        proof { reveal_strlit(" MiB"); }
        push_text(&mut s, " MiB");
    } else if bytes >= KIB {
        push_scaled(&mut s, bytes, KIB);
        proof { reveal_strlit(" KiB"); }
        push_text(&mut s, " KiB");
    } else {
        push_decimal(&mut s, bytes as u128);
        proof { reveal_strlit(" B"); }
        push_text(&mut s, " B");
    }
    proof {
        assert(s@ =~= bytes_text(bytes as nat));
        lemma_bytes_label_meaning(bytes as nat);
    }
    s
}

/// A human-readable label for an uptime in seconds: `"2d 3h 4m"`,
/// `"3h 4m"` or `"4m 5s"`.
pub fn format_uptime(secs: u64) -> (label: String)
    ensures
        label@ == uptime_text(secs as nat),
        secs >= 86400 ==> exists|d: nat, h: nat, m: nat|
            #![trigger decimal(d), decimal(h), decimal(m)]
            h < 24 && m < 60 && d * 86400 + h * 3600 + m * 60 <= secs < d * 86400 + h * 3600 + m
                * 60 + 60 && label@ == decimal(d) + seq!['d', ' '] + decimal(h) + seq!['h', ' ']
                + decimal(m) + seq!['m'],
        3600 <= secs < 86400 ==> exists|h: nat, m: nat|
            #![trigger decimal(h), decimal(m)]
            m < 60 && h * 3600 + m * 60 <= secs < h * 3600 + m * 60 + 60 && label@ == decimal(h)
                + seq!['h', ' '] + decimal(m) + seq!['m'],
        secs < 3600 ==> exists|m: nat, sec: nat|
            #![trigger decimal(m), decimal(sec)]
            sec < 60 && m * 60 + sec == secs && label@ == decimal(m) + seq!['m', ' '] + decimal(sec)
                + seq!['s'],
{
    let days = secs / 86400;
    let hours = (secs % 86400) / 3600;
    let minutes = (secs % 3600) / 60;
    let mut s = String::new();
    if days > 0 {
        push_decimal(&mut s, days as u128);
        proof { reveal_strlit("d "); }
        push_text(&mut s, "d ");
        push_decimal(&mut s, hours as u128);
        proof { reveal_strlit("h "); }
        push_text(&mut s, "h ");
        push_decimal(&mut s, minutes as u128);
        proof { reveal_strlit("m"); }
        push_text(&mut s, "m");
    } else if hours > 0 {
        push_decimal(&mut s, hours as u128);
        proof { reveal_strlit("h "); }
        push_text(&mut s, "h ");
        push_decimal(&mut s, minutes as u128);
        proof { reveal_strlit("m"); }
        push_text(&mut s, "m");
    } else {
        push_decimal(&mut s, minutes as u128);
        proof { reveal_strlit("m "); }
        push_text(&mut s, "m ");
        push_decimal(&mut s, (secs % 60) as u128);
        proof { reveal_strlit("s"); }
        push_text(&mut s, "s");
    }
    proof {
        assert(s@ =~= uptime_text(secs as nat));
        lemma_uptime_label_recomposes(secs as nat);
    }
    s
}

} // verus!
