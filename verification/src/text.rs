//! Character and decimal-text helpers shared by type-string parsing,
//! path rendering and name resolution.

use vstd::prelude::*;

verus! {

/// The character for one decimal digit.
pub open spec fn digit_char(d: int) -> char {
    if d == 0 {
        '0'
    } else if d == 1 {
        '1'
    } else if d == 2 {
        '2'
    } else if d == 3 {
        '3'
    } else if d == 4 {
        '4'
    } else if d == 5 {
        '5'
    } else if d == 6 {
        '6'
    } else if d == 7 {
        '7'
    } else if d == 8 {
        '8'
    } else {
        '9'
    }
}

/// The value of one decimal digit character, `None` for any other character.
pub open spec fn char_digit(c: char) -> Option<u16> {
    if c == '0' {
        Some(0u16)
    } else if c == '1' {
        Some(1u16)
    } else if c == '2' {
        Some(2u16)
    } else if c == '3' {
        Some(3u16)
    } else if c == '4' {
        Some(4u16)
    } else if c == '5' {
        Some(5u16)
    } else if c == '6' {
        Some(6u16)
    } else if c == '7' {
        Some(7u16)
    } else if c == '8' {
        Some(8u16)
    } else if c == '9' {
        Some(9u16)
    } else {
        None
    }
}

pub open spec fn is_digit_char(c: char) -> bool {
    char_digit(c) is Some
}

pub open spec fn all_digits(s: Seq<char>) -> bool {
    forall|i: int| 0 <= i < s.len() ==> is_digit_char(#[trigger] s[i])
}

/// The numeric value of a digit string, read left to right.
pub open spec fn digits_val(s: Seq<char>) -> nat
    decreases s.len(),
{
    if s.len() == 0 {
        0
    } else {
        (digits_val(s.drop_last()) * 10 + char_digit(s.last())->Some_0) as nat
    }
}

/// The digit string that a decimal integer formats to, with no padding.
pub open spec fn dec_digits(n: nat) -> Seq<char>
    decreases n,
{
    if n < 10 {
        seq![digit_char(n as int)]
    } else {
        dec_digits(n / 10).push(digit_char((n % 10) as int))
    }
}

/// The digit string of a path slot under four-digit zero padding: the
/// minimum-width rule pads below 10000 and prints larger values in full.
pub open spec fn pad4(n: u16) -> Seq<char> {
    if n < 10000 {
        seq![
            digit_char(n as int / 1000),
            digit_char((n as int / 100) % 10),
            digit_char((n as int / 10) % 10),
            digit_char(n as int % 10),
        ]
    } else {
        dec_digits(n as nat)
    }
}

/// The value of an unsigned digit string, bounded to sixteen bits.
pub open spec fn u16_of_digits(body: Seq<char>) -> Option<u16> {
    if body.len() > 0 && all_digits(body) && digits_val(body) <= u16::MAX {
        Some(digits_val(body) as u16)
    } else {
        None
    }
}

/// What `str::parse::<u16>` accepts: an optional leading plus sign, then one
/// or more decimal digits whose value fits in sixteen bits.
pub open spec fn spec_parse_u16(s: Seq<char>) -> Option<u16> {
    if s.len() > 0 && s[0] == '+' {
        u16_of_digits(s.skip(1))
    } else {
        u16_of_digits(s)
    }
}

/// The value of an unsigned digit string under a sign, bounded to
/// thirty-two signed bits.
pub open spec fn i32_of_digits(body: Seq<char>, negative: bool) -> Option<i32> {
    if body.len() > 0 && all_digits(body) {
        if negative && digits_val(body) <= 0x8000_0000 {
            Some((-(digits_val(body) as int)) as i32)
        } else if !negative && digits_val(body) <= i32::MAX {
            Some(digits_val(body) as i32)
        } else {
            None
        }
    } else {
        None
    }
}

/// What `str::parse::<i32>` accepts: an optional sign, then one or more
/// decimal digits whose signed value fits in thirty-two bits.
pub open spec fn spec_parse_i32(s: Seq<char>) -> Option<i32> {
    if s.len() > 0 && s[0] == '-' {
        i32_of_digits(s.skip(1), true)
    } else if s.len() > 0 && s[0] == '+' {
        i32_of_digits(s.skip(1), false)
    } else {
        i32_of_digits(s, false)
    }
}

/// Extending a digit string on the right never lowers its value.
pub proof fn lemma_digits_val_prefix_le(s: Seq<char>, n: int)
    requires
        0 <= n <= s.len(),
    ensures
        digits_val(s.take(n)) <= digits_val(s),
    decreases s.len() - n,
{
    if n < s.len() {
        lemma_digits_val_prefix_le(s, n + 1);
        assert(s.take(n + 1).drop_last() =~= s.take(n));
        assert(digits_val(s.take(n)) <= digits_val(s.take(n + 1)));
    } else {
        assert(s.take(n) =~= s);
    }
}

/// One exec step of `digits_val`: the value after reading one more digit.
pub proof fn lemma_digits_val_step(s: Seq<char>, n: int)
    requires
        0 <= n < s.len(),
    ensures
        digits_val(s.take(n + 1)) == digits_val(s.take(n)) * 10 + char_digit(
            s[n],
        )->Some_0,
{
    assert(s.take(n + 1).drop_last() =~= s.take(n));
    assert(s.take(n + 1).last() == s[n]);
}

/// Parse the character range `[from, to)` of `s` as `str::parse::<u16>` would.
pub fn parse_u16_range(s: &str, from: usize, to: usize) -> (r: Option<u16>)
    requires
        from <= to <= s@.len(),
    ensures
        r == spec_parse_u16(s@.subrange(from as int, to as int)),
{
    let ghost whole = s@.subrange(from as int, to as int);
    let mut i: usize = from;
    if i < to && s.get_char(i) == '+' {
        i = i + 1;
    }
    let ghost body = s@.subrange(i as int, to as int);
    proof {
        if whole.len() > 0 && whole[0] == '+' {
            assert(whole.skip(1) =~= body);
        } else {
            assert(whole =~= body);
        }
    }
    let start = i;
    if i == to {
        return None;
    }
    let mut val: u16 = 0;
    while i < to
        invariant
            from <= start <= i <= to <= s@.len(),
            whole == s@.subrange(from as int, to as int),
            body == s@.subrange(start as int, to as int),
            spec_parse_u16(whole) == u16_of_digits(body),
            all_digits(body.take(i - start)),
            val == digits_val(body.take(i - start)),
            digits_val(body.take(i - start)) <= u16::MAX,
        decreases to - i,
    {
        let c = s.get_char(i);
        assert(c == body[i - start]);
        let d = match c {
            '0' => 0u16,
            '1' => 1u16,
            '2' => 2u16,
            '3' => 3u16,
            '4' => 4u16,
            '5' => 5u16,
            '6' => 6u16,
            '7' => 7u16,
            '8' => 8u16,
            '9' => 9u16,
            _ => {
                proof {
                    assert(!is_digit_char(body[i - start]));
                }
                return None;
            },
        };
        assert(char_digit(body[i - start]) == Some(d));
        if val > (u16::MAX - d) / 10 {
            proof {
                lemma_digits_val_step(body, i - start);
                lemma_digits_val_prefix_le(body, i - start + 1);
                assert(10 * ((u16::MAX - d) / 10) + (u16::MAX - d) % 10 == u16::MAX - d);
                assert(val * 10 + d > u16::MAX);
                assert(digits_val(body) > u16::MAX);
            }
            return None;
        }
        proof {
            lemma_digits_val_step(body, i - start);
        }
        val = val * 10 + d;
        i = i + 1;
    }
    proof {
        assert(body.take(to - start) =~= body);
    }
    Some(val)
}

/// Parse a whole string as `str::parse::<u16>` would.
pub fn parse_u16_str(s: &str) -> (r: Option<u16>)
    ensures
        r == spec_parse_u16(s@),
{
    let n = s.unicode_len();
    let r = parse_u16_range(s, 0, n);
    proof {
        assert(s@.subrange(0, n as int) =~= s@);
    }
    r
}

/// Reading back the character of a digit gives the digit.
pub proof fn lemma_char_digit_inverse(d: int)
    requires
        0 <= d < 10,
    ensures
        char_digit(digit_char(d)) == Some(d as u16),
{
    if d == 0 {
        assert(char_digit('0') == Some(0u16));
    } else if d == 1 {
        assert(char_digit('1') == Some(1u16));
    } else if d == 2 {
        assert(char_digit('2') == Some(2u16));
    } else if d == 3 {
        assert(char_digit('3') == Some(3u16));
    } else if d == 4 {
        assert(char_digit('4') == Some(4u16));
    } else if d == 5 {
        assert(char_digit('5') == Some(5u16));
    } else if d == 6 {
        assert(char_digit('6') == Some(6u16));
    } else if d == 7 {
        assert(char_digit('7') == Some(7u16));
    } else if d == 8 {
        assert(char_digit('8') == Some(8u16));
    } else {
        assert(char_digit('9') == Some(9u16));
    }
}

/// An unpadded decimal rendering is digits only and parses back to its
/// value.
pub proof fn lemma_dec_digits_val(n: nat)
    ensures
        dec_digits(n).len() >= 1,
        all_digits(dec_digits(n)),
        digits_val(dec_digits(n)) == n,
    decreases n,
{
    if n < 10 {
        lemma_char_digit_inverse(n as int);
        assert(dec_digits(n) =~= seq![digit_char(n as int)]);
        assert(dec_digits(n).drop_last() =~= Seq::<char>::empty());
        assert(digits_val(Seq::<char>::empty()) == 0);
    } else {
        lemma_char_digit_inverse((n % 10) as int);
        lemma_dec_digits_val(n / 10);
        let s = dec_digits(n);
        assert(s =~= dec_digits(n / 10).push(digit_char((n % 10) as int)));
        assert(s.drop_last() =~= dec_digits(n / 10));
        assert(s.last() == digit_char((n % 10) as int));
        assert forall|i: int| 0 <= i < s.len() implies is_digit_char(#[trigger] s[i]) by {
            if i < s.len() - 1 {
                assert(s[i] == dec_digits(n / 10)[i]);
            }
        }
    }
}

/// A rendered path slot parses back to its value, whatever its width.
pub proof fn lemma_parse_pad4(k: u16)
    ensures
        pad4(k).len() >= 4 || k >= 10000,
        k < 10000 ==> pad4(k).len() == 4,
        all_digits(pad4(k)),
        spec_parse_u16(pad4(k)) == Some(k),
    decreases k,
{
    if k < 10000 {
        let d3 = k as int / 1000;
        let d2 = (k as int / 100) % 10;
        let d1 = (k as int / 10) % 10;
        let d0 = k as int % 10;
        let s = pad4(k);
        assert(s =~= seq![digit_char(d3), digit_char(d2), digit_char(d1), digit_char(d0)]);
        assert(s.drop_last() =~= seq![digit_char(d3), digit_char(d2), digit_char(d1)]);
        assert(s.drop_last().drop_last() =~= seq![digit_char(d3), digit_char(d2)]);
        assert(s.drop_last().drop_last().drop_last() =~= seq![digit_char(d3)]);
        assert(s.drop_last().drop_last().drop_last().drop_last() =~= Seq::<char>::empty());
        lemma_char_digit_inverse(d3);
        lemma_char_digit_inverse(d2);
        lemma_char_digit_inverse(d1);
        lemma_char_digit_inverse(d0);
        assert(digits_val(Seq::<char>::empty()) == 0);
        assert(digits_val(seq![digit_char(d3)]) == d3);
        assert(digits_val(seq![digit_char(d3), digit_char(d2)]) == d3 * 10 + d2);
        assert(digits_val(seq![digit_char(d3), digit_char(d2), digit_char(d1)]) == (d3 * 10 + d2)
            * 10 + d1);
        assert(digits_val(s) == ((d3 * 10 + d2) * 10 + d1) * 10 + d0);
        assert(1000 * d3 + 100 * d2 + 10 * d1 + d0 == k as int) by (nonlinear_arith)
            requires
                d3 == k as int / 1000,
                d2 == (k as int / 100) % 10,
                d1 == (k as int / 10) % 10,
                d0 == k as int % 10,
                0 <= k < 10000,
        ;
        assert(s[0] != '+');
    } else {
        lemma_dec_digits_val(k as nat);
        assert(pad4(k) == dec_digits(k as nat));
        assert(pad4(k)[0] != '+');
    }
}

/// Parse the character range `[from, to)` of `s` as `str::parse::<i32>` would.
pub fn parse_i32_range(s: &str, from: usize, to: usize) -> (r: Option<i32>)
    requires
        from <= to <= s@.len(),
    ensures
        r == spec_parse_i32(s@.subrange(from as int, to as int)),
{
    let ghost whole = s@.subrange(from as int, to as int);
    let mut i: usize = from;
    let mut negative: bool = false;
    if i < to {
        let c0 = s.get_char(i);
        if c0 == '-' {
            negative = true;
            i = i + 1;
        } else if c0 == '+' {
            i = i + 1;
        }
    }
    let ghost body = s@.subrange(i as int, to as int);
    proof {
        if whole.len() > 0 && (whole[0] == '-' || whole[0] == '+') {
            assert(whole.skip(1) =~= body);
        } else {
            assert(whole =~= body);
        }
    }
    let start = i;
    if i == to {
        return None;
    }
    let ghost bound_sp: nat = if negative {
        0x8000_0000
    } else {
        0x7fff_ffff
    };
    let bound: u32 = if negative {
        0x8000_0000
    } else {
        0x7fff_ffff
    };
    let mut val: u32 = 0;
    while i < to
        invariant
            from <= start <= i <= to <= s@.len(),
            whole == s@.subrange(from as int, to as int),
            body == s@.subrange(start as int, to as int),
            spec_parse_i32(whole) == i32_of_digits(body, negative),
            bound == bound_sp,
            bound_sp == if negative { 0x8000_0000 as nat } else { 0x7fff_ffff as nat },
            all_digits(body.take(i - start)),
            val == digits_val(body.take(i - start)),
            digits_val(body.take(i - start)) <= bound_sp,
        decreases to - i,
    {
        let c = s.get_char(i);
        assert(c == body[i - start]);
        let d = match c {
            '0' => 0u32,
            '1' => 1u32,
            '2' => 2u32,
            '3' => 3u32,
            '4' => 4u32,
            '5' => 5u32,
            '6' => 6u32,
            '7' => 7u32,
            '8' => 8u32,
            '9' => 9u32,
            _ => {
                proof {
                    assert(!is_digit_char(body[i - start]));
                }
                return None;
            },
        };
        assert(char_digit(body[i - start]) == Some(d as u16));
        if val > (bound - d) / 10 {
            proof {
                lemma_digits_val_step(body, i - start);
                lemma_digits_val_prefix_le(body, i - start + 1);
                assert(10 * ((bound - d) / 10) + (bound - d) % 10 == bound - d);
                assert(val * 10 + d > bound_sp);
                assert(digits_val(body) > bound_sp);
            }
            return None;
        }
        proof {
            lemma_digits_val_step(body, i - start);
        }
        val = val * 10 + d;
        i = i + 1;
    }
    proof {
        assert(body.take(to - start) =~= body);
    }
    if negative {
        if val == 0x8000_0000 {
            Some(i32::MIN)
        } else {
            Some(0i32 - (val as i32))
        }
    } else {
        Some(val as i32)
    }
}

/// The one-character string for one decimal digit.
pub fn digit_str(d: u32) -> (r: &'static str)
    requires
        d < 10,
    ensures
        r@ == seq![digit_char(d as int)],
{
    match d {
        0 => {
            proof {
                reveal_strlit("0");
                assert("0"@ =~= seq![digit_char(0)]);
            }
            "0"
        },
        1 => {
            proof {
                reveal_strlit("1");
                assert("1"@ =~= seq![digit_char(1)]);
            }
            "1"
        },
        2 => {
            proof {
                reveal_strlit("2");
                assert("2"@ =~= seq![digit_char(2)]);
            }
            "2"
        },
        3 => {
            proof {
                reveal_strlit("3");
                assert("3"@ =~= seq![digit_char(3)]);
            }
            "3"
        },
        4 => {
            proof {
                reveal_strlit("4");
                assert("4"@ =~= seq![digit_char(4)]);
            }
            "4"
        },
        5 => {
            proof {
                reveal_strlit("5");
                assert("5"@ =~= seq![digit_char(5)]);
            }
            "5"
        },
        6 => {
            proof {
                reveal_strlit("6");
                assert("6"@ =~= seq![digit_char(6)]);
            }
            "6"
        },
        7 => {
            proof {
                reveal_strlit("7");
                assert("7"@ =~= seq![digit_char(7)]);
            }
            "7"
        },
        8 => {
            proof {
                reveal_strlit("8");
                assert("8"@ =~= seq![digit_char(8)]);
            }
            "8"
        },
        _ => {
            proof {
                reveal_strlit("9");
                assert("9"@ =~= seq![digit_char(9)]);
            }
            "9"
        },
    }
}

/// Append the unpadded decimal rendering of `n` to `out`.
pub fn append_dec_u32(out: &mut String, n: u32)
    ensures
        final(out)@ == old(out)@ + dec_digits(n as nat),
    decreases n,
{
    if n < 10 {
        out.append(digit_str(n));
        proof {
            assert(old(out)@ + seq![digit_char(n as int)] =~= old(out)@ + dec_digits(n as nat));
        }
    } else {
        append_dec_u32(out, n / 10);
        out.append(digit_str(n % 10));
        proof {
            assert(old(out)@ + dec_digits((n / 10) as nat) + seq![
                digit_char((n % 10) as int),
            ] =~= old(out)@ + dec_digits(n as nat));
        }
    }
}

/// Append the four-digit zero-padded rendering of a path slot to `out`.
pub fn append_pad4(out: &mut String, n: u16)
    ensures
        final(out)@ == old(out)@ + pad4(n),
{
    if n < 10000 {
        let n32 = n as u32;
        out.append(digit_str(n32 / 1000));
        out.append(digit_str((n32 / 100) % 10));
        out.append(digit_str((n32 / 10) % 10));
        out.append(digit_str(n32 % 10));
        proof {
            assert(old(out)@ + seq![digit_char(n as int / 1000)] + seq![
                digit_char((n as int / 100) % 10),
            ] + seq![digit_char((n as int / 10) % 10)] + seq![
                digit_char(n as int % 10),
            ] =~= old(out)@ + pad4(n));
        }
    } else {
        append_dec_u32(out, n as u32);
    }
}

/// Whether the characters of `s` from `offset` on are exactly `t`.
pub fn suffix_eq(s: &str, offset: usize, t: &str) -> (r: bool)
    requires
        offset <= s@.len(),
    ensures
        r == (s@.skip(offset as int) == t@),
{
    let slen = s.unicode_len();
    let tlen = t.unicode_len();
    if slen - offset != tlen {
        proof {
            assert(s@.skip(offset as int).len() != t@.len());
        }
        return false;
    }
    let mut k: usize = 0;
    while k < tlen
        invariant
            s@.len() <= usize::MAX,
            offset + tlen <= s@.len(),
            tlen == t@.len(),
            k <= tlen,
            forall|j: int| 0 <= j < k ==> s@[offset + j] == t@[j],
        decreases tlen - k,
    {
        if s.get_char(offset + k) != t.get_char(k) {
            proof {
                assert(s@.skip(offset as int)[k as int] != t@[k as int]);
            }
            return false;
        }
        k = k + 1;
    }
    proof {
        assert(s@.skip(offset as int) =~= t@);
    }
    true
}

/// Whether two strings are equal, character for character.
pub fn str_eq(s: &str, t: &str) -> (r: bool)
    ensures
        r == (s@ == t@),
{
    let r = suffix_eq(s, 0, t);
    proof {
        assert(s@.skip(0) =~= s@);
    }
    r
}

/// Whether the characters of `s` in `[from, to)` are exactly `t`.
pub fn range_eq(s: &str, from: usize, to: usize, t: &str) -> (r: bool)
    requires
        from <= to <= s@.len(),
    ensures
        r == (s@.subrange(from as int, to as int) == t@),
{
    let tlen = t.unicode_len();
    if to - from != tlen {
        proof {
            assert(s@.subrange(from as int, to as int).len() != t@.len());
        }
        return false;
    }
    let mut k: usize = 0;
    while k < tlen
        invariant
            from + tlen == to,
            to <= s@.len(),
            tlen == t@.len(),
            k <= tlen,
            forall|j: int| 0 <= j < k ==> s@[from + j] == t@[j],
        decreases tlen - k,
    {
        if s.get_char(from + k) != t.get_char(k) {
            proof {
                assert(s@.subrange(from as int, to as int)[k as int] != t@[k as int]);
            }
            return false;
        }
        k = k + 1;
    }
    proof {
        assert(s@.subrange(from as int, to as int) =~= t@);
    }
    true
}

/// Whether `t` followed by a dot stands at `offset` in `s`.
pub fn prefix_dot_at(s: &str, offset: usize, t: &str) -> (r: bool)
    requires
        offset <= s@.len(),
    ensures
        r == (offset + t@.len() + 1 <= s@.len() && s@.subrange(
            offset as int,
            offset + t@.len(),
        ) == t@ && s@[offset + t@.len()] == '.'),
{
    let slen = s.unicode_len();
    let tlen = t.unicode_len();
    if slen - offset <= tlen {
        return false;
    }
    let mut k: usize = 0;
    while k < tlen
        invariant
            s@.len() <= usize::MAX,
            offset + tlen + 1 <= s@.len(),
            tlen == t@.len(),
            k <= tlen,
            forall|j: int| 0 <= j < k ==> s@[offset + j] == t@[j],
        decreases tlen - k,
    {
        if s.get_char(offset + k) != t.get_char(k) {
            proof {
                assert(s@.subrange(offset as int, offset + t@.len())[k as int] != t@[k as int]);
            }
            return false;
        }
        k = k + 1;
    }
    if s.get_char(offset + tlen) != '.' {
        return false;
    }
    proof {
        assert(s@.subrange(offset as int, offset + t@.len()) =~= t@);
    }
    true
}

/// The position of the first occurrence of `c` in `s`.
pub open spec fn find_first(s: Seq<char>, c: char) -> Option<int>
    decreases s.len(),
{
    if s.len() == 0 {
        None
    } else if s[0] == c {
        Some(0)
    } else {
        match find_first(s.skip(1), c) {
            Some(i) => Some(i + 1),
            None => None,
        }
    }
}

/// The position of the last occurrence of `c` in `s`.
pub open spec fn find_last(s: Seq<char>, c: char) -> Option<int>
    decreases s.len(),
{
    if s.len() == 0 {
        None
    } else if s.last() == c {
        Some(s.len() - 1)
    } else {
        find_last(s.drop_last(), c)
    }
}

pub proof fn lemma_find_first(s: Seq<char>, c: char)
    ensures
        match find_first(s, c) {
            Some(i) => 0 <= i < s.len() && s[i] == c && forall|j: int|
                0 <= j < i ==> s[j] != c,
            None => forall|j: int| 0 <= j < s.len() ==> s[j] != c,
        },
    decreases s.len(),
{
    if s.len() > 0 && s[0] != c {
        lemma_find_first(s.skip(1), c);
        assert forall|j: int| 1 <= j < s.len() implies s[j] == s.skip(1)[j - 1] by {}
    }
}

pub proof fn lemma_find_last(s: Seq<char>, c: char)
    ensures
        match find_last(s, c) {
            Some(i) => 0 <= i < s.len() && s[i] == c && forall|j: int|
                i < j < s.len() ==> s[j] != c,
            None => forall|j: int| 0 <= j < s.len() ==> s[j] != c,
        },
    decreases s.len(),
{
    if s.len() > 0 && s.last() != c {
        lemma_find_last(s.drop_last(), c);
        assert forall|j: int| 0 <= j < s.len() - 1 implies s.drop_last()[j] == s[j] by {}
    }
}

/// Scan for the first occurrence of `c` in `s`.
pub fn find_char(s: &str, c: char) -> (r: Option<usize>)
    ensures
        match r {
            Some(k) => find_first(s@, c) == Some(k as int),
            None => find_first(s@, c) is None,
        },
{
    let n = s.unicode_len();
    let mut k: usize = 0;
    while k < n
        invariant
            n == s@.len(),
            k <= n,
            forall|j: int| 0 <= j < k ==> s@[j] != c,
        decreases n - k,
    {
        if s.get_char(k) == c {
            proof {
                lemma_find_first(s@, c);
            }
            return Some(k);
        }
        k = k + 1;
    }
    proof {
        lemma_find_first(s@, c);
    }
    None
}

/// Scan for the last occurrence of `c` in `s`.
pub fn rfind_char(s: &str, c: char) -> (r: Option<usize>)
    ensures
        match r {
            Some(k) => find_last(s@, c) == Some(k as int),
            None => find_last(s@, c) is None,
        },
{
    let n = s.unicode_len();
    let mut k: usize = n;
    while k > 0
        invariant
            n == s@.len(),
            k <= n,
            forall|j: int| k <= j < n ==> s@[j] != c,
        decreases k,
    {
        k = k - 1;
        if s.get_char(k) == c {
            proof {
                lemma_find_last(s@, c);
            }
            return Some(k);
        }
    }
    proof {
        lemma_find_last(s@, c);
    }
    None
}

/// The characters that trimming removes: the Unicode white-space set that
/// `str::trim` strips.
pub open spec fn is_space(c: char) -> bool {
    ||| c == '\x09'
    ||| c == '\x0a'
    ||| c == '\x0b'
    ||| c == '\x0c'
    ||| c == '\x0d'
    ||| c == ' '
    ||| c == '\u{85}'
    ||| c == '\u{a0}'
    ||| c == '\u{1680}'
    ||| c == '\u{2000}'
    ||| c == '\u{2001}'
    ||| c == '\u{2002}'
    ||| c == '\u{2003}'
    ||| c == '\u{2004}'
    ||| c == '\u{2005}'
    ||| c == '\u{2006}'
    ||| c == '\u{2007}'
    ||| c == '\u{2008}'
    ||| c == '\u{2009}'
    ||| c == '\u{200a}'
    ||| c == '\u{2028}'
    ||| c == '\u{2029}'
    ||| c == '\u{202f}'
    ||| c == '\u{205f}'
    ||| c == '\u{3000}'
}

/// Whether `c` is trimmed from the ends of a type string.
pub fn is_space_char(c: char) -> (r: bool)
    ensures
        r == is_space(c),
{
    c == '\x09' || c == '\x0a' || c == '\x0b' || c == '\x0c' || c == '\x0d' || c == ' ' || c
        == '\u{85}' || c == '\u{a0}' || c == '\u{1680}' || c == '\u{2000}' || c == '\u{2001}' || c
        == '\u{2002}' || c == '\u{2003}' || c == '\u{2004}' || c == '\u{2005}' || c == '\u{2006}'
        || c == '\u{2007}' || c == '\u{2008}' || c == '\u{2009}' || c == '\u{200a}' || c
        == '\u{2028}' || c == '\u{2029}' || c == '\u{202f}' || c == '\u{205f}' || c == '\u{3000}'
}

/// The number of leading whitespace characters.
pub open spec fn space_prefix_len(s: Seq<char>) -> int
    decreases s.len(),
{
    if s.len() > 0 && is_space(s[0]) {
        1 + space_prefix_len(s.skip(1))
    } else {
        0
    }
}

/// The end of the string once trailing whitespace is dropped.
pub open spec fn nonspace_end(s: Seq<char>) -> int
    decreases s.len(),
{
    if s.len() > 0 && is_space(s.last()) {
        nonspace_end(s.drop_last())
    } else {
        s.len() as int
    }
}

/// What `str::trim` leaves: the string with leading and trailing
/// whitespace removed.
pub open spec fn spec_trim(s: Seq<char>) -> Seq<char> {
    let a = space_prefix_len(s);
    let b = nonspace_end(s);
    if a >= b {
        Seq::empty()
    } else {
        s.subrange(a, b)
    }
}

pub proof fn lemma_space_prefix_len(s: Seq<char>)
    ensures
        0 <= space_prefix_len(s) <= s.len(),
        forall|j: int| 0 <= j < space_prefix_len(s) ==> is_space(#[trigger] s[j]),
        space_prefix_len(s) < s.len() ==> !is_space(s[space_prefix_len(s)]),
    decreases s.len(),
{
    if s.len() > 0 && is_space(s[0]) {
        lemma_space_prefix_len(s.skip(1));
        assert forall|j: int| 1 <= j < space_prefix_len(s) implies is_space(#[trigger] s[j]) by {
            assert(s[j] == s.skip(1)[j - 1]);
        }
    }
}

pub proof fn lemma_nonspace_end(s: Seq<char>)
    ensures
        0 <= nonspace_end(s) <= s.len(),
        forall|j: int| nonspace_end(s) <= j < s.len() ==> is_space(#[trigger] s[j]),
        nonspace_end(s) > 0 ==> !is_space(s[nonspace_end(s) - 1]),
    decreases s.len(),
{
    if s.len() > 0 && is_space(s.last()) {
        lemma_nonspace_end(s.drop_last());
        assert forall|j: int| 0 <= j < s.len() - 1 implies s.drop_last()[j] == s[j] by {}
    }
}

/// The trimmed copy of the character range `[from, to)` of `s`.
pub fn trim_substring(s: &str, from: usize, to: usize) -> (r: String)
    requires
        from <= to <= s@.len(),
    ensures
        r@ == spec_trim(s@.subrange(from as int, to as int)),
{
    let ghost sub = s@.subrange(from as int, to as int);
    let mut a: usize = from;
    while a < to && is_space_char(s.get_char(a))
        invariant
            from <= a <= to <= s@.len(),
            sub == s@.subrange(from as int, to as int),
            forall|j: int| 0 <= j < a - from ==> is_space(#[trigger] sub[j]),
        decreases to - a,
    {
        a = a + 1;
    }
    let mut b: usize = to;
    while b > a && is_space_char(s.get_char(b - 1))
        invariant
            from <= a <= b <= to <= s@.len(),
            sub == s@.subrange(from as int, to as int),
            forall|j: int| b - from <= j < to - from ==> is_space(#[trigger] sub[j]),
        decreases b,
    {
        b = b - 1;
    }
    let piece = s.substring_char(a, b);
    let r = piece.to_owned();
    proof {
        lemma_space_prefix_len(sub);
        lemma_nonspace_end(sub);
        let sa = space_prefix_len(sub);
        let sb = nonspace_end(sub);
        if a < to && b > a {
            assert(!is_space(sub[a - from]));
            assert(!is_space(sub[b - from - 1]));
            assert(sa == a - from);
            assert(sb == b - from);
            assert(r@ =~= spec_trim(sub));
        } else {
            assert(a == b);
            if sa < sb {
                assert(!is_space(sub[sa]));
                assert(is_space(sub[sa]));
            }
            assert(r@ =~= spec_trim(sub));
        }
    }
    r
}

} // verus!
