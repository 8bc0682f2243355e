//! Plain-value helpers of the library's callers: the ISO 8601 duration
//! grammar the remote metadata uses, human-readable duration formatting,
//! fixed-width bars, and string truncation.

use vstd::prelude::*;

use crate::numbers::{
    dec_of_nat, digit_val, digits_val, enc_u64, enc_two_digits, is_digit, char_to_digit,
    lemma_digits_val_nonneg, lemma_digits_val_prefix_le, two_digits,
};
use crate::text::{chars_to_string, to_chars};

verus! {

/// The least index at or after `from` holding a non-digit, or the length
/// of `s` when the rest is all digits.
pub open spec fn digits_end(s: Seq<char>, from: int) -> int
    decreases s.len() - from,
{
    if from < 0 || from >= s.len() {
        s.len() as int
    } else if !is_digit(s[from]) {
        from
    } else {
        digits_end(s, from + 1)
    }
}

/// `digits_end` lands on a non-digit, or at the end; everything from
/// `from` up to it is a digit.
pub proof fn lemma_digits_end(s: Seq<char>, from: int)
    requires
        0 <= from <= s.len(),
    ensures
        from <= digits_end(s, from) <= s.len(),
        digits_end(s, from) < s.len() ==> !is_digit(s[digits_end(s, from)]),
        forall|k: int| from <= k < digits_end(s, from) ==> is_digit(#[trigger] s[k]),
    decreases s.len() - from,
{
    if from < s.len() && is_digit(s[from]) {
        lemma_digits_end(s, from + 1);
    }
}

/// The value a digit run contributes: its numeric value when it fits the
/// machine word, zero otherwise (an out-of-range component counts as
/// zero rather than failing the whole parse).
pub open spec fn comp_val(s: Seq<char>) -> int {
    if digits_val(s) <= u64::MAX {
        digits_val(s)
    } else {
        0
    }
}

/// The ranks of the three duration units, hours before minutes before
/// seconds; three for anything else.
pub open spec fn unit_rank(c: char) -> int {
    if c == 'H' {
        0
    } else if c == 'M' {
        1
    } else {
        if c == 'S' {
            2
        } else {
            3
        }
    }
}

/// The multiplier of a unit rank.
pub open spec fn rank_mult(r: int) -> int {
    if r == 0 {
        3600
    } else if r == 1 {
        60
    } else {
        1
    }
}

/// The seconds named by the unit components of `s` from `from` on, with
/// units of rank below `min_rank` no longer allowed; `None` on any text
/// that is not a valid run of components.
pub open spec fn units_val(s: Seq<char>, from: int, min_rank: int) -> Option<int>
    decreases s.len() - from,
{
    if from >= s.len() {
        Some(0)
    } else {
        let e0 = digits_end(s, from);
        let e = if e0 < from {
            from
        } else {
            e0
        };
        if e == from || e >= s.len() {
            None
        } else {
            let r = unit_rank(s[e]);
            if r < min_rank || r > 2 {
                None
            } else {
                match units_val(s, e + 1, r + 1) {
                    Some(rest) => Some(comp_val(s.subrange(from, e)) * rank_mult(r) + rest),
                    None => None,
                }
            }
        }
    }
}

/// The total seconds named by an ISO 8601 duration of hours, minutes and
/// seconds (`"PT1H2M3S"`, with each component optional), `None` on any
/// other text; a total beyond the machine word is clamped to it.
pub open spec fn iso8601_secs(s: Seq<char>) -> Option<int> {
    if s.len() >= 2 && s[0] == 'P' && s[1] == 'T' {
        match units_val(s, 2, 0) {
            Some(v) => Some(
                if v > u64::MAX {
                    u64::MAX as int
                } else {
                    v
                },
            ),
            None => None,
        }
    } else {
        None
    }
}

/// The value of the digit run between `from` and `to`, zero when it
/// exceeds the machine word.
fn digits_value_capped(s: &Vec<char>, from: usize, to: usize) -> (r: u64)
    requires
        from <= to <= s@.len(),
        forall|k: int| from <= k < to ==> is_digit(#[trigger] s@[k]),
    ensures
        r == comp_val(s@.subrange(from as int, to as int)),
{
    let ghost piece = s@.subrange(from as int, to as int);
    let mut acc: u64 = 0;
    let mut i: usize = from;
    while i < to
        invariant
            from <= i <= to <= s@.len(),
            piece == s@.subrange(from as int, to as int),
            forall|k: int| from <= k < to ==> is_digit(#[trigger] s@[k]),
            acc == digits_val(s@.subrange(from as int, i as int)),
        decreases to - i,
    {
        let d = match char_to_digit(s[i]) {
            Some(d) => d,
            None => {
                proof {
                    assert(is_digit(s@[i as int]));
                    assert(false);
                }
                return 0;
            },
        };
        if acc > (u64::MAX - d) / 10 {
            proof {
                let p = s@.subrange(from as int, i + 1 as int);
                assert(p.drop_last() =~= s@.subrange(from as int, i as int));
                assert(p.last() == s@[i as int]);
                assert(digits_val(p) == acc * 10 + d);
                assert(acc * 10 + d > u64::MAX) by (nonlinear_arith)
                    requires
                        acc > (u64::MAX - d) / 10,
                        0 <= d <= 9,
                        acc <= u64::MAX,
                ;
                assert(forall|k: int| 0 <= k < piece.len() ==> is_digit(#[trigger] piece[k]));
                lemma_digits_val_prefix_le(piece, i + 1 - from);
                assert(piece.subrange(0, i + 1 - from) =~= p);
            }
            return 0;
        }
        proof {
            let p = s@.subrange(from as int, i + 1 as int);
            assert(p.drop_last() =~= s@.subrange(from as int, i as int));
            assert(p.last() == s@[i as int]);
        }
        acc = acc * 10 + d;
        i = i + 1;
    }
    proof {
        assert(s@.subrange(from as int, to as int) =~= piece);
    }
    acc
}

/// Parses an ISO 8601 hours-minutes-seconds duration (`"PT3M33S"`) into
/// total seconds; `None` on any other text. Each unit appears at most
/// once, in hours-minutes-seconds order; an absent unit counts as zero.
pub fn parse_iso8601_duration(duration: &str) -> (r: Option<u64>)
    ensures
        match r {
            Some(v) => iso8601_secs(duration@) == Some(v as int),
            None => iso8601_secs(duration@) is None,
        },
{
    let s = to_chars(duration);
    let n = s.len();
    if n < 2 || s[0] != 'P' || s[1] != 'T' {
        return None;
    }
    let mut total: u64 = 0;
    let mut pos: usize = 2;
    let mut min_rank: u64 = 0;
    loop
        invariant
            2 <= pos <= n,
            n == s@.len(),
            s@ == duration@,
            s@.len() >= 2 && s@[0] == 'P' && s@[1] == 'T',
            min_rank <= 3,
            iso8601_secs(s@) == (match units_val(s@, pos as int, min_rank as int) {
                Some(rest) => Some(
                    if total + rest > u64::MAX {
                        u64::MAX as int
                    } else {
                        total + rest
                    },
                ),
                None => None::<int>,
            }),
        decreases n - pos,
    {
        if pos == n {
            proof {
                assert(units_val(s@, pos as int, min_rank as int) == Some(0int));
            }
            return Some(total);
        }
        let e = digits_scan(&s, pos);
        proof {
            lemma_digits_end(s@, pos as int);
        }
        if e == pos || e == n {
            proof {
                assert(units_val(s@, pos as int, min_rank as int) is None);
            }
            return None;
        }
        let unit = s[e];
        proof {
            assert(unit == s@[e as int]);
        }
        let rank: u64 = if unit == 'H' {
            0
        } else if unit == 'M' {
            1
        } else if unit == 'S' {
            2
        } else {
            proof {
                assert(unit_rank(s@[e as int]) == 3);
                assert(units_val(s@, pos as int, min_rank as int) is None);
            }
            return None;
        };
        if rank < min_rank {
            proof {
                assert(units_val(s@, pos as int, min_rank as int) is None);
            }
            return None;
        }
        let v = digits_value_capped(&s, pos, e);
        let mult: u64 = if rank == 0 {
            3600
        } else if rank == 1 {
            60
        } else {
            1
        };
        // Accumulate, clamping at the machine word.
        let new_total: u64 = if v > u64::MAX / mult {
            u64::MAX
        } else if total > u64::MAX - v * mult {
            u64::MAX
        } else {
            total + v * mult
        };
        proof {
            let ghost cv = comp_val(s@.subrange(pos as int, e as int));
            assert(cv >= 0) by {
                lemma_digits_val_nonneg(s@.subrange(pos as int, e as int));
            }
            assert(rank_mult(rank as int) == mult);
            if v > u64::MAX / mult {
                assert(cv * mult > u64::MAX) by (nonlinear_arith)
                    requires
                        cv > u64::MAX as int / mult as int,
                        1 <= mult <= 3600,
                        cv >= 0,
                ;
            } else {
                assert(v * mult <= u64::MAX) by (nonlinear_arith)
                    requires
                        v <= u64::MAX as int / mult as int,
                        1 <= mult <= 3600,
                        0 <= v,
                ;
            }
        }
        let saturated = new_total == u64::MAX && (v > u64::MAX / mult || total > u64::MAX - v * mult);
        if saturated {
            // The running total already exceeds the machine word: the
            // remaining components can only keep it there.
            proof {
                let cv = comp_val(s@.subrange(pos as int, e as int));
                assert(total + cv * rank_mult(rank as int) > u64::MAX) by (nonlinear_arith)
                    requires
                        (cv > u64::MAX as int / rank_mult(rank as int) || total > u64::MAX as int
                            - cv * rank_mult(rank as int)),
                        1 <= rank_mult(rank as int) <= 3600,
                        cv >= 0,
                        0 <= total <= u64::MAX,
                ;
            }
            match parse_units_rest(&s, e + 1, rank + 1) {
                Some(_rest) => {
                    proof {
                        let cv = comp_val(s@.subrange(pos as int, e as int));
                        let w = units_val(s@, e + 1 as int, rank + 1 as int)->Some_0;
                        assert(w >= 0);
                        assert(units_val(s@, pos as int, min_rank as int) == Some(
                            cv * rank_mult(rank as int) + w,
                        ));
                        assert(total + cv * rank_mult(rank as int) + w > u64::MAX);
                    }
                    return Some(u64::MAX);
                },
                None => {
                    proof {
                        assert(units_val(s@, pos as int, min_rank as int) is None);
                    }
                    return None;
                },
            }
        }
        proof {
            let cv = comp_val(s@.subrange(pos as int, e as int));
            match units_val(s@, e + 1 as int, rank + 1 as int) {
                Some(r2) => {
                    assert(units_val(s@, pos as int, min_rank as int) == Some(
                        cv * rank_mult(rank as int) + r2,
                    ));
                },
                None => {
                    assert(units_val(s@, pos as int, min_rank as int) is None);
                },
            }
        }
        total = new_total;
        pos = e + 1;
        min_rank = rank + 1;
    }
}

/// The seconds of the remaining components, ignoring how large they are;
/// `None` when the remaining text is not a valid run of components.
fn parse_units_rest(s: &Vec<char>, pos: usize, min_rank: u64) -> (r: Option<u64>)
    requires
        pos <= s@.len(),
        min_rank <= 3,
    ensures
        match r {
            Some(v) => units_val(s@, pos as int, min_rank as int) matches Some(w) && w >= 0 && (v
                == if w > u64::MAX {
                u64::MAX as int
            } else {
                w
            }),
            None => units_val(s@, pos as int, min_rank as int) is None,
        },
    decreases s@.len() - pos,
{
    let n = s.len();
    if pos == n {
        return Some(0);
    }
    let e = digits_scan(s, pos);
    proof {
        lemma_digits_end(s@, pos as int);
    }
    if e == pos || e == n {
        return None;
    }
    let unit = s[e];
    let rank: u64 = if unit == 'H' {
        0
    } else if unit == 'M' {
        1
    } else if unit == 'S' {
        2
    } else {
        return None;
    };
    if rank < min_rank {
        return None;
    }
    let v = digits_value_capped(s, pos, e);
    let mult: u64 = if rank == 0 {
        3600
    } else if rank == 1 {
        60
    } else {
        1
    };
    let ghost cv = comp_val(s@.subrange(pos as int, e as int));
    proof {
        assert(cv >= 0) by {
            lemma_digits_val_nonneg(s@.subrange(pos as int, e as int));
        }
        assert(rank_mult(rank as int) == mult);
    }
    match parse_units_rest(s, e + 1, rank + 1) {
        Some(rest) => {
            proof {
                assert(units_val(s@, pos as int, min_rank as int) matches Some(w) && w == cv
                    * rank_mult(rank as int) + units_val(s@, e + 1 as int, rank + 1 as int)->Some_0);
            }
            if v > u64::MAX / mult {
                proof {
                    assert(cv * mult > u64::MAX) by (nonlinear_arith)
                        requires
                            cv > u64::MAX as int / mult as int,
                            1 <= mult <= 3600,
                            cv >= 0,
                    ;
                }
                Some(u64::MAX)
            } else {
                proof {
                    assert(v * mult <= u64::MAX) by (nonlinear_arith)
                        requires
                            v <= u64::MAX as int / mult as int,
                            1 <= mult <= 3600,
                            0 <= v,
                    ;
                }
                if rest > u64::MAX - v * mult {
                    Some(u64::MAX)
                } else {
                    Some(v * mult + rest)
                }
            }
        },
        None => None,
    }
}

/// Scans for the end of the digit run starting at `from`.
fn digits_scan(s: &Vec<char>, from: usize) -> (r: usize)
    requires
        from <= s@.len(),
    ensures
        r == digits_end(s@, from as int),
        from <= r <= s@.len(),
{
    let n = s.len();
    let mut j = from;
    while j < n
        invariant
            n == s@.len(),
            from <= j <= n,
            digits_end(s@, from as int) == digits_end(s@, j as int),
        decreases n - j,
    {
        match char_to_digit(s[j]) {
            Some(_) => {
                j = j + 1;
            },
            None => {
                return j;
            },
        }
    }
    j
}


/// The text of a duration in seconds: `"H:MM:SS"` when there are hours,
/// `"M:SS"` otherwise.
pub open spec fn fmt_duration(secs: int) -> Seq<char> {
    let h = secs / 3600;
    let m = (secs % 3600) / 60;
    let sec = secs % 60;
    if h > 0 {
        dec_of_nat(h) + seq![':'] + two_digits(m) + seq![':'] + two_digits(sec)
    } else {
        dec_of_nat(m) + seq![':'] + two_digits(sec)
    }
}

/// Formats a duration in seconds as `"H:MM:SS"` or `"M:SS"`.
pub fn format_duration(seconds: u64) -> (r: String)
    ensures
        r@ == fmt_duration(seconds as int),
{
    let h = seconds / 3600;
    let m = (seconds % 3600) / 60;
    let sec = seconds % 60;
    let mut out: Vec<char> = Vec::new();
    if h > 0 {
        crate::text::extend_chars(&mut out, &enc_u64(h));
        out.push(':');
        crate::text::extend_chars(&mut out, &enc_two_digits(m));
        out.push(':');
        crate::text::extend_chars(&mut out, &enc_two_digits(sec));
        proof {
            assert(out@ =~= fmt_duration(seconds as int));
        }
    } else {
        crate::text::extend_chars(&mut out, &enc_u64(m));
        out.push(':');
        crate::text::extend_chars(&mut out, &enc_two_digits(sec));
        proof {
            assert(out@ =~= fmt_duration(seconds as int));
        }
    }
    chars_to_string(&out)
}

/// The text of a signed duration rounded to its two most significant
/// units: days and hours, hours and minutes, minutes alone, or seconds
/// alone; the sign is dropped.
pub open spec fn fmt_duration_human(total: int) -> Seq<char> {
    let a = if total < 0 {
        -total
    } else {
        total
    };
    let days = a / 86400;
    let hours = (a % 86400) / 3600;
    let mins = (a % 3600) / 60;
    let secs = a % 60;
    if days > 0 {
        dec_of_nat(days) + seq!['d', ' '] + dec_of_nat(hours) + seq!['h']
    } else if hours > 0 {
        dec_of_nat(hours) + seq!['h', ' '] + dec_of_nat(mins) + seq!['m']
    } else if mins > 0 {
        dec_of_nat(mins) + seq!['m']
    } else {
        dec_of_nat(secs) + seq!['s']
    }
}

/// Formats seconds into a short human duration like `"2d 4h"`, `"3h 12m"`,
/// `"45m"` or `"30s"`; a negative duration formats as its magnitude.
pub fn format_duration_human(total_secs: i64) -> (r: String)
    ensures
        r@ == fmt_duration_human(total_secs as int),
{
    let a: u64 = if total_secs == i64::MIN {
        9223372036854775808u64
    } else if total_secs < 0 {
        (-total_secs) as u64
    } else {
        total_secs as u64
    };
    let days = a / 86400;
    let hours = (a % 86400) / 3600;
    let mins = (a % 3600) / 60;
    let secs = a % 60;
    let mut out: Vec<char> = Vec::new();
    if days > 0 {
        crate::text::extend_chars(&mut out, &enc_u64(days));
        out.push('d');
        out.push(' ');
        crate::text::extend_chars(&mut out, &enc_u64(hours));
        out.push('h');
    } else if hours > 0 {
        crate::text::extend_chars(&mut out, &enc_u64(hours));
        out.push('h');
        out.push(' ');
        crate::text::extend_chars(&mut out, &enc_u64(mins));
        out.push('m');
    } else if mins > 0 {
        crate::text::extend_chars(&mut out, &enc_u64(mins));
        out.push('m');
    } else {
        crate::text::extend_chars(&mut out, &enc_u64(secs));
        out.push('s');
    }
    proof {
        assert(out@ =~= fmt_duration_human(total_secs as int));
    }
    chars_to_string(&out)
}

/// The text of a long-form duration: days, hours and minutes, hours and
/// minutes, or minutes alone.
pub open spec fn fmt_duration_long(total: int) -> Seq<char> {
    let days = total / 86400;
    let hours = (total % 86400) / 3600;
    let mins = (total % 3600) / 60;
    if days > 0 {
        dec_of_nat(days) + seq!['d', ' '] + dec_of_nat(hours) + seq!['h', ' '] + dec_of_nat(mins)
            + seq!['m']
    } else if hours > 0 {
        dec_of_nat(hours) + seq!['h', ' '] + dec_of_nat(mins) + seq!['m']
    } else {
        dec_of_nat(mins) + seq!['m']
    }
}

/// Formats seconds into a long-form duration like `"1d 18h 32m"` or
/// `"18h 32m"`.
pub fn format_duration_long(total_secs: u64) -> (r: String)
    ensures
        r@ == fmt_duration_long(total_secs as int),
{
    let days = total_secs / 86400;
    let hours = (total_secs % 86400) / 3600;
    let mins = (total_secs % 3600) / 60;
    let mut out: Vec<char> = Vec::new();
    if days > 0 {
        crate::text::extend_chars(&mut out, &enc_u64(days));
        out.push('d');
        out.push(' ');
        crate::text::extend_chars(&mut out, &enc_u64(hours));
        out.push('h');
        out.push(' ');
        crate::text::extend_chars(&mut out, &enc_u64(mins));
        out.push('m');
    } else if hours > 0 {
        crate::text::extend_chars(&mut out, &enc_u64(hours));
        out.push('h');
        out.push(' ');
        crate::text::extend_chars(&mut out, &enc_u64(mins));
        out.push('m');
    } else {
        crate::text::extend_chars(&mut out, &enc_u64(mins));
        out.push('m');
    }
    proof {
        assert(out@ =~= fmt_duration_long(total_secs as int));
    }
    chars_to_string(&out)
}

/// `n` copies of one character.
pub open spec fn repeat_char(c: char, n: int) -> Seq<char> {
    Seq::new(if n < 0 {
        0
    } else {
        n as nat
    }, |i: int| c)
}

/// The filled cells of a bar: the value's share of the width, rounded to
/// the nearest cell (half rounds up), never past the width.
pub open spec fn bar_filled(value: int, max: int, width: int) -> int {
    let q = (value * width) / max;
    let rem = (value * width) % max;
    let f = if 2 * rem >= max {
        q + 1
    } else {
        q
    };
    if f > width {
        width
    } else {
        f
    }
}

/// The bar text: filled cells then spaces, or all spaces when there is no
/// maximum to scale by.
pub open spec fn bar_text(value: int, max: int, width: int) -> Seq<char> {
    if max == 0 {
        repeat_char(' ', width)
    } else {
        repeat_char('\u{2588}', bar_filled(value, max, width)) + repeat_char(
            ' ',
            width - bar_filled(value, max, width),
        )
    }
}

/// Pushes `n` copies of `c`.
fn push_repeat(out: &mut Vec<char>, c: char, n: usize)
    ensures
        final(out)@ == old(out)@ + repeat_char(c, n as int),
{
    let mut i: usize = 0;
    while i < n
        invariant
            i <= n,
            out@ == old(out)@ + repeat_char(c, i as int),
        decreases n - i,
    {
        out.push(c);
        i = i + 1;
        proof {
            assert(out@ =~= old(out)@ + repeat_char(c, i as int));
        }
    }
}

/// Draws a fixed-width bar whose filled share is `value` of `max`,
/// rounded to the nearest cell; an all-blank bar when `max` is zero.
pub fn make_bar(value: usize, max: usize, width: usize) -> (r: String)
    ensures
        r@ == bar_text(value as int, max as int, width as int),
{
    let mut out: Vec<char> = Vec::new();
    if max == 0 {
        push_repeat(&mut out, ' ', width);
        proof {
            assert(out@ =~= bar_text(value as int, max as int, width as int));
        }
        return chars_to_string(&out);
    }
    proof {
        assert((value as int) * (width as int) <= 0xffffffffffffffffu64 as int
            * 0xffffffffffffffffu64 as int) by (nonlinear_arith)
            requires
                0 <= value as int <= 0xffffffffffffffffu64 as int,
                0 <= width as int <= 0xffffffffffffffffu64 as int,
        ;
        assert((value as int) * (width as int) >= 0) by (nonlinear_arith)
            requires
                0 <= value as int && 0 <= width as int,
        ;
    }
    let vw: u128 = (value as u128) * (width as u128);
    let q: u128 = vw / (max as u128);
    let rem: u128 = vw % (max as u128);
    let f: u128 = if 2 * rem >= (max as u128) {
        q + 1
    } else {
        q
    };
    let filled: usize = if f > (width as u128) {
        width
    } else {
        f as usize
    };
    proof {
        assert(vw as int == (value as int) * (width as int));
        assert(q as int <= vw as int) by (nonlinear_arith)
            requires
                q as int == vw as int / (max as int),
                max as int >= 1,
                vw as int >= 0,
        ;
        assert(filled as int == bar_filled(value as int, max as int, width as int));
    }
    push_repeat(&mut out, '\u{2588}', filled);
    push_repeat(&mut out, ' ', width - filled);
    proof {
        assert(out@ =~= bar_text(value as int, max as int, width as int));
    }
    chars_to_string(&out)
}

/// The truncation of `s` to at most `max` characters: unchanged when it
/// fits, otherwise cut to `max - 3` characters with `"..."` appended.
pub open spec fn truncated(s: Seq<char>, max: int) -> Seq<char> {
    if s.len() <= max {
        s
    } else {
        let keep = if max < 3 {
            0
        } else {
            max - 3
        };
        s.subrange(0, keep) + seq!['.', '.', '.']
    }
}

/// Truncates a string to a maximum character count, appending `"..."`
/// when it was cut.
pub fn truncate(s: &str, max: usize) -> (r: String)
    ensures
        r@ == truncated(s@, max as int),
{
    let n = s.unicode_len();
    if n <= max {
        return s.to_owned();
    }
    let keep: usize = if max < 3 {
        0
    } else {
        max - 3
    };
    let cut = s.substring_char(0, keep);
    let mut out = to_chars(cut);
    out.push('.');
    out.push('.');
    out.push('.');
    proof {
        assert(out@ =~= truncated(s@, max as int));
    }
    chars_to_string(&out)
}

} // verus!
