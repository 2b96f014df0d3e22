//! Character-level helpers shared by the line-oriented parsers: splitting a
//! source into lines, trimming, whitespace tokenisation, and parsing decimal
//! and hexadecimal integers.

use vstd::prelude::*;
use vstd::string::StrSliceExecFns;

verus! {

/// The whitespace characters recognised by the parsers.
pub open spec fn is_space_char(c: char) -> bool {
    c == ' ' || c == '\t' || c == '\r' || c == '\n' || c == '\u{b}' || c == '\u{c}'
}

pub fn is_space(c: char) -> (r: bool)
    ensures
        r == is_space_char(c),
{
    c == ' ' || c == '\t' || c == '\r' || c == '\n' || c == '\u{b}' || c == '\u{c}'
}

/// Copies the characters of a string slice into a vector.
pub fn to_chars(s: &str) -> (r: Vec<char>)
    ensures
        r@ == s@,
{
    let n = s.unicode_len();
    let mut v: Vec<char> = Vec::new();
    let mut i: usize = 0;
    while i < n
        invariant
            i <= n,
            n == s@.len(),
            v@ == s@.take(i as int),
        decreases n - i,
    {
        v.push(s.get_char(i));
        i = i + 1;
        proof {
            assert(v@ =~= s@.take(i as int));
        }
    }
    proof {
        assert(s@.take(n as int) =~= s@);
    }
    v
}

/// The lines of a character sequence, split on newline characters. A source
/// with no newline is one line; a trailing newline contributes a final empty
/// line. The result is never empty.
pub open spec fn lines_of(s: Seq<char>) -> Seq<Seq<char>>
    decreases s.len(),
{
    if s.len() == 0 {
        seq![Seq::<char>::empty()]
    } else if s.last() == '\n' {
        lines_of(s.drop_last()).push(Seq::<char>::empty())
    } else {
        let l = lines_of(s.drop_last());
        l.update(l.len() - 1, l.last().push(s.last()))
    }
}

/// Splits a character vector into the index ranges of its lines.
pub fn split_lines(chars: &Vec<char>) -> (r: Vec<(usize, usize)>)
    ensures
        r@.map_values(|p: (usize, usize)| chars@.subrange(p.0 as int, p.1 as int)) == lines_of(
            chars@,
        ),
        forall|k: int| 0 <= k < r@.len() ==> (#[trigger] r@[k]).0 <= r@[k].1 <= chars@.len(),
{
    let n = chars.len();
    let mut out: Vec<(usize, usize)> = Vec::new();
    let mut start: usize = 0;
    let mut i: usize = 0;
    proof {
        assert(out@.map_values(|p: (usize, usize)| chars@.subrange(p.0 as int, p.1 as int)).push(
            chars@.subrange(0, 0),
        ) =~~= lines_of(chars@.take(0)));
    }
    while i < n
        invariant
            start <= i <= n,
            n == chars@.len(),
            out@.map_values(|p: (usize, usize)| chars@.subrange(p.0 as int, p.1 as int)).push(
                chars@.subrange(start as int, i as int),
            ) == lines_of(chars@.take(i as int)),
            forall|k: int| 0 <= k < out@.len() ==> (#[trigger] out@[k]).0 <= out@[k].1 <= i,
        decreases n - i,
    {
        let ghost pre = chars@.take(i as int);
        let ghost cur = chars@.take(i as int + 1);
        proof {
            assert(cur.drop_last() =~= pre);
            assert(cur.last() == chars@[i as int]);
        }
        let ghost m = out@.map_values(
            |p: (usize, usize)| chars@.subrange(p.0 as int, p.1 as int),
        );
        if chars[i] == '\n' {
            out.push((start, i));
            proof {
                assert(out@.map_values(
                    |p: (usize, usize)| chars@.subrange(p.0 as int, p.1 as int),
                ) =~= m.push(chars@.subrange(start as int, i as int)));
                assert(lines_of(cur) == lines_of(pre).push(Seq::<char>::empty()));
                assert(chars@.subrange(i as int + 1, i as int + 1) =~= Seq::<char>::empty());
            }
            start = i + 1;
        } else {
            proof {
                let l = lines_of(pre);
                assert(l == m.push(chars@.subrange(start as int, i as int)));
                assert(l.len() == m.len() + 1);
                assert(lines_of(cur) == l.update(l.len() - 1, l.last().push(chars@[i as int])));
                assert(chars@.subrange(start as int, i as int).push(chars@[i as int])
                    =~= chars@.subrange(start as int, i as int + 1));
                assert(l.update(l.len() - 1, chars@.subrange(start as int, i as int + 1)) =~= m.push(
                    chars@.subrange(start as int, i as int + 1),
                ));
            }
        }
        i = i + 1;
    }
    proof {
        assert(chars@.take(n as int) =~= chars@);
    }
    out.push((start, n));
    proof {
        assert(out@.map_values(|p: (usize, usize)| chars@.subrange(p.0 as int, p.1 as int))
            =~= out@.drop_last().map_values(
            |p: (usize, usize)| chars@.subrange(p.0 as int, p.1 as int),
        ).push(chars@.subrange(start as int, n as int)));
    }
    out
}

/// A sequence with its leading whitespace removed.
pub open spec fn trim_front(s: Seq<char>) -> Seq<char>
    decreases s.len(),
{
    if s.len() > 0 && is_space_char(s.first()) {
        trim_front(s.drop_first())
    } else {
        s
    }
}

/// A sequence with its trailing whitespace removed.
pub open spec fn trim_back(s: Seq<char>) -> Seq<char>
    decreases s.len(),
{
    if s.len() > 0 && is_space_char(s.last()) {
        trim_back(s.drop_last())
    } else {
        s
    }
}

/// A sequence with whitespace removed from both ends.
pub open spec fn trim_spec(s: Seq<char>) -> Seq<char> {
    trim_back(trim_front(s))
}

/// Narrows the range `[lo, hi)` of `chars` to its trimmed core.
pub fn trim_range(chars: &Vec<char>, lo: usize, hi: usize) -> (r: (usize, usize))
    requires
        lo <= hi <= chars@.len(),
    ensures
        lo <= r.0 <= r.1 <= hi,
        chars@.subrange(r.0 as int, r.1 as int) == trim_spec(
            chars@.subrange(lo as int, hi as int),
        ),
{
    let ghost orig = chars@.subrange(lo as int, hi as int);
    let mut a = lo;
    let mut b = hi;
    while a < b && is_space(chars[a])
        invariant
            lo <= a <= b <= hi <= chars@.len(),
            b == hi,
            trim_front(chars@.subrange(a as int, b as int)) == trim_front(orig),
        decreases b - a,
    {
        proof {
            let s = chars@.subrange(a as int, b as int);
            assert(s.first() == chars@[a as int]);
            assert(s.drop_first() =~= chars@.subrange(a as int + 1, b as int));
        }
        a = a + 1;
    }
    proof {
        let s = chars@.subrange(a as int, b as int);
        if s.len() > 0 {
            assert(s.first() == chars@[a as int]);
        }
        assert(trim_front(s) == s);
    }
    let ghost fronted = chars@.subrange(a as int, b as int);
    while b > a && is_space(chars[b - 1])
        invariant
            lo <= a <= b <= hi <= chars@.len(),
            trim_back(chars@.subrange(a as int, b as int)) == trim_back(fronted),
            trim_front(orig) == fronted,
        decreases b - a,
    {
        proof {
            let s = chars@.subrange(a as int, b as int);
            assert(s.last() == chars@[b as int - 1]);
            assert(s.drop_last() =~= chars@.subrange(a as int, b as int - 1));
        }
        b = b - 1;
    }
    proof {
        let s = chars@.subrange(a as int, b as int);
        if s.len() > 0 {
            assert(s.last() == chars@[b as int - 1]);
        }
        assert(trim_back(s) == s);
    }
    (a, b)
}

/// How many times `c` occurs in `s`.
pub open spec fn count_char(s: Seq<char>, c: char) -> nat
    decreases s.len(),
{
    if s.len() == 0 {
        0
    } else {
        count_char(s.drop_last(), c) + if s.last() == c {
            1nat
        } else {
            0nat
        }
    }
}

/// The index of the first occurrence of `c` in `s` (the length of `s` when
/// `c` does not occur).
pub open spec fn first_index_of(s: Seq<char>, c: char) -> int
    decreases s.len(),
{
    if s.len() == 0 {
        0
    } else if s.first() == c {
        0
    } else {
        1 + first_index_of(s.drop_first(), c)
    }
}

pub proof fn lemma_first_index_of_at(s: Seq<char>, c: char, j: int)
    requires
        0 <= j < s.len(),
        s[j] == c,
        forall|k: int| 0 <= k < j ==> s[k] != c,
    ensures
        first_index_of(s, c) == j,
    decreases j,
{
    if j == 0 {
    } else {
        assert(s.first() != c);
        assert(s.drop_first()[j - 1] == c);
        assert(forall|k: int| 0 <= k < j - 1 ==> s.drop_first()[k] != c);
        lemma_first_index_of_at(s.drop_first(), c, j - 1);
    }
}

/// Counts occurrences of `c` within `[lo, hi)` and reports the first one.
pub fn scan_char(chars: &Vec<char>, lo: usize, hi: usize, c: char) -> (r: (usize, usize))
    requires
        lo <= hi <= chars@.len(),
    ensures
        r.0 == count_char(chars@.subrange(lo as int, hi as int), c),
        r.0 > 0 ==> lo <= r.1 < hi && r.1 - lo == first_index_of(
            chars@.subrange(lo as int, hi as int),
            c,
        ),
{
    let mut cnt: usize = 0;
    let mut first: usize = lo;
    let mut i = lo;
    while i < hi
        invariant
            lo <= i <= hi <= chars@.len(),
            cnt == count_char(chars@.subrange(lo as int, i as int), c),
            cnt <= i - lo,
            cnt > 0 ==> lo <= first < i && chars@[first as int] == c && forall|k: int|
                lo <= k < first ==> chars@[k] != c,
            cnt == 0 ==> forall|k: int| lo <= k < i ==> chars@[k] != c,
        decreases hi - i,
    {
        proof {
            let cur = chars@.subrange(lo as int, i as int + 1);
            assert(cur.drop_last() =~= chars@.subrange(lo as int, i as int));
            assert(cur.last() == chars@[i as int]);
        }
        if chars[i] == c {
            if cnt == 0 {
                first = i;
            }
            cnt = cnt + 1;
        }
        i = i + 1;
    }
    proof {
        if cnt > 0 {
            let s = chars@.subrange(lo as int, hi as int);
            assert(s[first as int - lo] == c);
            assert(forall|k: int| 0 <= k < first - lo ==> s[k] != c);
            lemma_first_index_of_at(s, c, first as int - lo);
        }
    }
    (cnt, first)
}

/// The maximal whitespace-separated tokens of `s`, in order.
pub open spec fn tokens_of(s: Seq<char>) -> Seq<Seq<char>>
    decreases s.len(),
{
    if s.len() == 0 {
        Seq::empty()
    } else {
        let pre = tokens_of(s.drop_last());
        let c = s.last();
        if is_space_char(c) {
            pre
        } else if s.len() >= 2 && !is_space_char(s[s.len() - 2]) {
            pre.update(pre.len() - 1, pre.last().push(c))
        } else {
            pre.push(seq![c])
        }
    }
}

/// Splits the range `[lo, hi)` of `chars` into the index ranges of its
/// whitespace-separated tokens.
pub fn split_tokens(chars: &Vec<char>, lo: usize, hi: usize) -> (r: Vec<(usize, usize)>)
    requires
        lo <= hi <= chars@.len(),
    ensures
        r@.map_values(|p: (usize, usize)| chars@.subrange(p.0 as int, p.1 as int)) == tokens_of(
            chars@.subrange(lo as int, hi as int),
        ),
        forall|k: int| 0 <= k < r@.len() ==> lo <= (#[trigger] r@[k]).0 < r@[k].1 <= hi,
{
    let mut out: Vec<(usize, usize)> = Vec::new();
    let mut i = lo;
    proof {
        assert(out@.map_values(|p: (usize, usize)| chars@.subrange(p.0 as int, p.1 as int))
            =~~= tokens_of(chars@.subrange(lo as int, lo as int)));
    }
    while i < hi
        invariant
            lo <= i <= hi <= chars@.len(),
            out@.map_values(|p: (usize, usize)| chars@.subrange(p.0 as int, p.1 as int))
                == tokens_of(chars@.subrange(lo as int, i as int)),
            forall|k: int| 0 <= k < out@.len() ==> lo <= (#[trigger] out@[k]).0 < out@[k].1 <= i,
            i > lo && !is_space_char(chars@[i as int - 1]) ==> out@.len() >= 1
                && out@.last().1 == i,
        decreases hi - i,
    {
        let ghost pre = chars@.subrange(lo as int, i as int);
        let ghost cur = chars@.subrange(lo as int, i as int + 1);
        let ghost m = out@.map_values(
            |p: (usize, usize)| chars@.subrange(p.0 as int, p.1 as int),
        );
        proof {
            assert(cur.drop_last() =~= pre);
            assert(cur.last() == chars@[i as int]);
            if i > lo {
                assert(cur[cur.len() - 2] == chars@[i as int - 1]);
            }
        }
        if !is_space(chars[i]) {
            if i > lo && !is_space(chars[i - 1]) {
                let li = out.len() - 1;
                let elem = out[li];
                out.set(li, (elem.0, i + 1));
                proof {
                    assert(chars@.subrange(elem.0 as int, i as int).push(chars@[i as int])
                        =~= chars@.subrange(elem.0 as int, i as int + 1));
                    assert(out@.map_values(
                        |p: (usize, usize)| chars@.subrange(p.0 as int, p.1 as int),
                    ) =~= m.update(m.len() - 1, m.last().push(chars@[i as int])));
                }
            } else {
                out.push((i, i + 1));
                proof {
                    assert(chars@.subrange(i as int, i as int + 1) =~= seq![chars@[i as int]]);
                    assert(out@.map_values(
                        |p: (usize, usize)| chars@.subrange(p.0 as int, p.1 as int),
                    ) =~= m.push(seq![chars@[i as int]]));
                }
            }
        }
        i = i + 1;
    }
    out
}

pub open spec fn is_dec_digit(c: char) -> bool {
    '0' <= c && c <= '9'
}

pub open spec fn is_hex_digit(c: char) -> bool {
    is_dec_digit(c) || ('a' <= c && c <= 'f') || ('A' <= c && c <= 'F')
}

/// The numeric value of a digit character (0 for a non-digit).
pub open spec fn digit_val(c: char) -> nat {
    if is_dec_digit(c) {
        (c as int - '0' as int) as nat
    } else if 'a' <= c && c <= 'f' {
        (c as int - 'a' as int + 10) as nat
    } else if 'A' <= c && c <= 'F' {
        (c as int - 'A' as int + 10) as nat
    } else {
        0
    }
}

pub fn digit_value(c: char, hex: bool) -> (r: Option<u8>)
    ensures
        r is Some <==> (if hex {
            is_hex_digit(c)
        } else {
            is_dec_digit(c)
        }),
        r is Some ==> r->0 == digit_val(c),
{
    if '0' <= c && c <= '9' {
        Some((c as u32 - '0' as u32) as u8)
    } else if hex && 'a' <= c && c <= 'f' {
        Some((c as u32 - 'a' as u32 + 10) as u8)
    } else if hex && 'A' <= c && c <= 'F' {
        Some((c as u32 - 'A' as u32 + 10) as u8)
    } else {
        None
    }
}

/// Whether `s` is a non-empty run of digits of the given base.
pub open spec fn digits_ok(s: Seq<char>, hex: bool) -> bool {
    s.len() > 0 && forall|k: int|
        0 <= k < s.len() ==> (if hex {
            is_hex_digit(#[trigger] s[k])
        } else {
            is_dec_digit(s[k])
        })
}

/// The value of a digit run read in the given base.
pub open spec fn radix_val(s: Seq<char>, radix: nat) -> nat
    decreases s.len(),
{
    if s.len() == 0 {
        0
    } else {
        radix_val(s.drop_last(), radix) * radix + digit_val(s.last())
    }
}

/// Parses the digit run in `[lo, hi)` as a number of the given base, refusing
/// an empty run, a non-digit, or a value above `cap`.
pub fn parse_digits(chars: &Vec<char>, lo: usize, hi: usize, hex: bool, cap: u64) -> (r: Option<
    u64,
>)
    requires
        lo <= hi <= chars@.len(),
        cap < u64::MAX,
    ensures
        ({
            let s = chars@.subrange(lo as int, hi as int);
            let radix: nat = if hex {
                16
            } else {
                10
            };
            match r {
                Some(v) => digits_ok(s, hex) && radix_val(s, radix) <= cap && v == radix_val(
                    s,
                    radix,
                ),
                None => !digits_ok(s, hex) || radix_val(s, radix) > cap,
            }
        }),
{
    let ghost s = chars@.subrange(lo as int, hi as int);
    let ghost radix: nat = if hex {
        16nat
    } else {
        10nat
    };
    if lo == hi {
        return None;
    }
    let rad: u64 = if hex {
        16
    } else {
        10
    };
    let mut acc: u64 = 0;
    let mut i = lo;
    while i < hi
        invariant
            lo <= i <= hi <= chars@.len(),
            cap < u64::MAX,
            s == chars@.subrange(lo as int, hi as int),
            radix == if hex {
                16nat
            } else {
                10nat
            },
            rad == radix,
            forall|k: int|
                0 <= k < i - lo ==> (if hex {
                    is_hex_digit(#[trigger] s[k])
                } else {
                    is_dec_digit(s[k])
                }),
            acc <= cap ==> acc == radix_val(chars@.subrange(lo as int, i as int), radix),
            acc > cap ==> acc == cap + 1 && radix_val(chars@.subrange(lo as int, i as int), radix)
                > cap,
        decreases hi - i,
    {
        let ghost pre = chars@.subrange(lo as int, i as int);
        let ghost cur = chars@.subrange(lo as int, i as int + 1);
        proof {
            assert(cur.drop_last() =~= pre);
            assert(cur.last() == chars@[i as int]);
            assert(s[i as int - lo] == chars@[i as int]);
        }
        match digit_value(chars[i], hex) {
            None => {
                return None;
            },
            Some(d) => {
                proof {
                    assert(radix_val(cur, radix) == radix_val(pre, radix) * radix + digit_val(
                        chars@[i as int],
                    ));
                }
                if acc > cap {
                    proof {
                        let v = radix_val(pre, radix);
                        assert(v * radix >= v) by (nonlinear_arith)
                            requires
                                radix >= 1,
                                v >= 0,
                        ;
                    }
                } else {
                    let wide: u128 = (acc as u128) * (rad as u128) + (d as u128);
                    proof {
                        assert(wide == radix_val(cur, radix));
                    }
                    if wide > cap as u128 {
                        acc = cap + 1;
                    } else {
                        acc = wide as u64;
                    }
                }
            },
        }
        i = i + 1;
    }
    proof {
        assert(chars@.subrange(lo as int, hi as int) =~= s);
    }
    if acc > cap {
        None
    } else {
        Some(acc)
    }
}

/// A token with one leading `+` sign removed.
pub open spec fn strip_plus(s: Seq<char>) -> Seq<char> {
    if s.len() > 0 && s.first() == '+' {
        s.drop_first()
    } else {
        s
    }
}

/// The byte value of a hexadecimal token, if it is one.
pub open spec fn hex_byte_of(tok: Seq<char>) -> Option<u8> {
    let d = strip_plus(tok);
    if digits_ok(d, true) && radix_val(d, 16) <= 255 {
        Some(radix_val(d, 16) as u8)
    } else {
        None
    }
}

pub fn parse_hex_byte(chars: &Vec<char>, lo: usize, hi: usize) -> (r: Option<u8>)
    requires
        lo <= hi <= chars@.len(),
    ensures
        r == hex_byte_of(chars@.subrange(lo as int, hi as int)),
{
    let ghost s = chars@.subrange(lo as int, hi as int);
    let l2 = if lo < hi && chars[lo] == '+' {
        lo + 1
    } else {
        lo
    };
    proof {
        assert(chars@.subrange(l2 as int, hi as int) =~= strip_plus(s));
    }
    match parse_digits(chars, l2, hi, true, 255) {
        Some(v) => Some(v as u8),
        None => None,
    }
}

/// The value of a decimal token as an unsigned 32-bit id, if it is one.
pub open spec fn u32_of_dec(s: Seq<char>) -> Option<u32> {
    let d = strip_plus(s);
    if digits_ok(d, false) && radix_val(d, 10) <= u32::MAX {
        Some(radix_val(d, 10) as u32)
    } else {
        None
    }
}

pub fn parse_u32(chars: &Vec<char>, lo: usize, hi: usize) -> (r: Option<u32>)
    requires
        lo <= hi <= chars@.len(),
    ensures
        r == u32_of_dec(chars@.subrange(lo as int, hi as int)),
{
    let ghost s = chars@.subrange(lo as int, hi as int);
    let l2 = if lo < hi && chars[lo] == '+' {
        lo + 1
    } else {
        lo
    };
    proof {
        assert(chars@.subrange(l2 as int, hi as int) =~= strip_plus(s));
    }
    match parse_digits(chars, l2, hi, false, 0xffffffff) {
        Some(v) => Some(v as u32),
        None => None,
    }
}

/// The value of a signed decimal token within the 64-bit range, if it is one.
pub open spec fn i64_of_dec(s: Seq<char>) -> Option<int> {
    if s.len() > 0 && s.first() == '-' {
        let d = s.drop_first();
        if digits_ok(d, false) && radix_val(d, 10) <= 0x8000000000000000 {
            Some(-(radix_val(d, 10) as int))
        } else {
            None
        }
    } else {
        let d = strip_plus(s);
        if digits_ok(d, false) && radix_val(d, 10) <= 0x7fffffffffffffff {
            Some(radix_val(d, 10) as int)
        } else {
            None
        }
    }
}

pub fn parse_i64(chars: &Vec<char>, lo: usize, hi: usize) -> (r: Option<i64>)
    requires
        lo <= hi <= chars@.len(),
    ensures
        match r {
            Some(v) => i64_of_dec(chars@.subrange(lo as int, hi as int)) == Some(v as int),
            None => i64_of_dec(chars@.subrange(lo as int, hi as int)) is None,
        },
{
    let ghost s = chars@.subrange(lo as int, hi as int);
    if lo < hi && chars[lo] == '-' {
        proof {
            assert(chars@.subrange(lo as int + 1, hi as int) =~= s.drop_first());
        }
        match parse_digits(chars, lo + 1, hi, false, 0x8000000000000000) {
            Some(v) => {
                if v == 0x8000000000000000 {
                    Some(i64::MIN)
                } else {
                    Some(-(v as i64))
                }
            },
            None => None,
        }
    } else {
        let l2 = if lo < hi && chars[lo] == '+' {
            lo + 1
        } else {
            lo
        };
        proof {
            assert(chars@.subrange(l2 as int, hi as int) =~= strip_plus(s));
        }
        match parse_digits(chars, l2, hi, false, 0x7fffffffffffffff) {
            Some(v) => Some(v as i64),
            None => None,
        }
    }
}


/// Splits `s` on `c`, keeping empty pieces: a source with no `c` is one
/// piece; a trailing `c` contributes a final empty piece. Never empty.
pub open spec fn split_at_char(s: Seq<char>, c: char) -> Seq<Seq<char>>
    decreases s.len(),
{
    if s.len() == 0 {
        seq![Seq::<char>::empty()]
    } else if s.last() == c {
        split_at_char(s.drop_last(), c).push(Seq::<char>::empty())
    } else {
        let l = split_at_char(s.drop_last(), c);
        l.update(l.len() - 1, l.last().push(s.last()))
    }
}

/// Splits the range `[lo, hi)` of `chars` on `c` into the index ranges of
/// the pieces.
#[verifier::loop_isolation(false)]
pub fn split_char_ranges(chars: &Vec<char>, lo: usize, hi: usize, c: char) -> (r: Vec<
    (usize, usize),
>)
    requires
        lo <= hi <= chars@.len(),
    ensures
        r@.map_values(|p: (usize, usize)| chars@.subrange(p.0 as int, p.1 as int))
            == split_at_char(chars@.subrange(lo as int, hi as int), c),
        forall|k: int| 0 <= k < r@.len() ==> lo <= (#[trigger] r@[k]).0 <= r@[k].1 <= hi,
{
    let ghost s = chars@.subrange(lo as int, hi as int);
    let mut out: Vec<(usize, usize)> = Vec::new();
    let mut start: usize = lo;
    let mut i: usize = lo;
    proof {
        assert(out@.map_values(|p: (usize, usize)| chars@.subrange(p.0 as int, p.1 as int)).push(
            chars@.subrange(lo as int, lo as int),
        ) =~~= split_at_char(chars@.subrange(lo as int, lo as int), c));
    }
    while i < hi
        invariant
            lo <= start <= i <= hi,
            out@.map_values(|p: (usize, usize)| chars@.subrange(p.0 as int, p.1 as int)).push(
                chars@.subrange(start as int, i as int),
            ) == split_at_char(chars@.subrange(lo as int, i as int), c),
            forall|k: int| 0 <= k < out@.len() ==> lo <= (#[trigger] out@[k]).0 <= out@[k].1 <= i,
        decreases hi - i,
    {
        let ghost pre = chars@.subrange(lo as int, i as int);
        let ghost cur = chars@.subrange(lo as int, i as int + 1);
        proof {
            assert(cur.drop_last() =~= pre);
            assert(cur.last() == chars@[i as int]);
        }
        let ghost m = out@.map_values(
            |p: (usize, usize)| chars@.subrange(p.0 as int, p.1 as int),
        );
        if chars[i] == c {
            out.push((start, i));
            proof {
                assert(out@.map_values(
                    |p: (usize, usize)| chars@.subrange(p.0 as int, p.1 as int),
                ) =~= m.push(chars@.subrange(start as int, i as int)));
                assert(chars@.subrange(i as int + 1, i as int + 1) =~= Seq::<char>::empty());
            }
            start = i + 1;
        } else {
            proof {
                let l = split_at_char(pre, c);
                assert(l == m.push(chars@.subrange(start as int, i as int)));
                assert(split_at_char(cur, c) == l.update(
                    l.len() - 1,
                    l.last().push(chars@[i as int]),
                ));
                assert(chars@.subrange(start as int, i as int).push(chars@[i as int])
                    =~= chars@.subrange(start as int, i as int + 1));
                assert(l.update(l.len() - 1, chars@.subrange(start as int, i as int + 1))
                    =~= m.push(chars@.subrange(start as int, i as int + 1)));
            }
        }
        i = i + 1;
    }
    out.push((start, hi));
    proof {
        assert(out@.map_values(|p: (usize, usize)| chars@.subrange(p.0 as int, p.1 as int))
            =~= out@.drop_last().map_values(
            |p: (usize, usize)| chars@.subrange(p.0 as int, p.1 as int),
        ).push(chars@.subrange(start as int, hi as int)));
    }
    out
}

/// A line with one trailing carriage return removed, as a line reader that
/// accepts both line endings would hand it over.
pub open spec fn chomp_cr(s: Seq<char>) -> Seq<char> {
    if s.len() > 0 && s.last() == '\r' {
        s.drop_last()
    } else {
        s
    }
}

/// Copies the character range `[lo, hi)` of `s` into an owned string.
pub fn substring_to_string(s: &str, lo: usize, hi: usize) -> (r: String)
    requires
        lo <= hi <= s@.len(),
    ensures
        r@ == s@.subrange(lo as int, hi as int),
{
    s.substring_char(lo, hi).to_owned()
}


/// Character-for-character equality of two string slices.
pub fn str_eq(a: &str, b: &str) -> (r: bool)
    ensures
        r == (a@ == b@),
{
    let n = a.unicode_len();
    if n != b.unicode_len() {
        return false;
    }
    let mut i: usize = 0;
    while i < n
        invariant
            i <= n,
            n == a@.len() == b@.len(),
            forall|k: int| 0 <= k < i ==> a@[k] == b@[k],
        decreases n - i,
    {
        if a.get_char(i) != b.get_char(i) {
            return false;
        }
        i = i + 1;
    }
    proof {
        assert(a@ =~= b@);
    }
    true
}

/// Whether `p` is a character-for-character prefix of `a`.
pub fn str_starts_with(a: &str, p: &str) -> (r: bool)
    ensures
        r == (p@.len() <= a@.len() && a@.subrange(0, p@.len() as int) == p@),
{
    let m = p.unicode_len();
    if m > a.unicode_len() {
        return false;
    }
    let mut i: usize = 0;
    while i < m
        invariant
            i <= m,
            m == p@.len() <= a@.len(),
            forall|k: int| 0 <= k < i ==> a@[k] == p@[k],
        decreases m - i,
    {
        if a.get_char(i) != p.get_char(i) {
            proof {
                assert(a@.subrange(0, p@.len() as int)[i as int] != p@[i as int]);
            }
            return false;
        }
        i = i + 1;
    }
    proof {
        assert(a@.subrange(0, p@.len() as int) =~= p@);
    }
    true
}

/// An owned empty string.
pub fn empty_string() -> (r: String)
    ensures
        r@ == Seq::<char>::empty(),
{
    let r = "".to_owned();
    proof {
        reveal_strlit("");
        assert(r@ =~= Seq::<char>::empty());
    }
    r
}

} // verus!
