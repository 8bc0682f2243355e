//! Decimal text form of the integers that the documents store: unsigned
//! values as plain digit runs without leading zeroes, signed values with
//! a leading `'-'` for negatives, and total parsers that reject any other
//! shape.

use vstd::prelude::*;

verus! {

/// The digit character for one decimal digit value.
pub open spec fn digit_char(d: int) -> char {
    if d == 0 {
        '0'
    } else if d == 1 {
        '1'
    } else if d == 2 {
        '2'
    } else if d == 3 {
        '3'
    } else if d == 4 {
        '4'
    } else if d == 5 {
        '5'
    } else if d == 6 {
        '6'
    } else if d == 7 {
        '7'
    } else if d == 8 {
        '8'
    } else {
        '9'
    }
}

/// Whether `c` is a decimal digit character.
pub open spec fn is_digit(c: char) -> bool {
    c == '0' || c == '1' || c == '2' || c == '3' || c == '4' || c == '5' || c == '6' || c == '7'
        || c == '8' || c == '9'
}

/// The value of one digit character; ten on anything else.
pub open spec fn digit_val(c: char) -> int {
    if c == '0' {
        0
    } else if c == '1' {
        1
    } else if c == '2' {
        2
    } else if c == '3' {
        3
    } else if c == '4' {
        4
    } else if c == '5' {
        5
    } else if c == '6' {
        6
    } else if c == '7' {
        7
    } else if c == '8' {
        8
    } else if c == '9' {
        9
    } else {
        10
    }
}

/// The digit character for a digit value below ten.
pub fn digit_to_char(d: u64) -> (c: char)
    requires
        d < 10,
    ensures
        c == digit_char(d as int),
{
    if d == 0 {
        '0'
    } else if d == 1 {
        '1'
    } else if d == 2 {
        '2'
    } else if d == 3 {
        '3'
    } else if d == 4 {
        '4'
    } else if d == 5 {
        '5'
    } else if d == 6 {
        '6'
    } else if d == 7 {
        '7'
    } else if d == 8 {
        '8'
    } else {
        '9'
    }
}

/// The value of a digit character, `None` on anything else.
pub fn char_to_digit(c: char) -> (r: Option<u64>)
    ensures
        match r {
            Some(d) => is_digit(c) && d == digit_val(c) && d < 10,
            None => !is_digit(c),
        },
{
    if c == '0' {
        Some(0)
    } else if c == '1' {
        Some(1)
    } else if c == '2' {
        Some(2)
    } else if c == '3' {
        Some(3)
    } else if c == '4' {
        Some(4)
    } else if c == '5' {
        Some(5)
    } else if c == '6' {
        Some(6)
    } else if c == '7' {
        Some(7)
    } else if c == '8' {
        Some(8)
    } else if c == '9' {
        Some(9)
    } else {
        None
    }
}

/// The decimal digit run of a non-negative integer, most significant
/// digit first, without leading zeroes.
pub open spec fn dec_of_nat(n: int) -> Seq<char>
    decreases n,
{
    if n < 10 {
        seq![digit_char(if n < 0 { 0 } else { n })]
    } else {
        dec_of_nat(n / 10) + seq![digit_char(n % 10)]
    }
}

/// The decimal text of a signed integer: a `'-'` before the digit run of
/// the magnitude when negative.
pub open spec fn dec_of_int(v: int) -> Seq<char> {
    if v < 0 {
        seq!['-'] + dec_of_nat(-v)
    } else {
        dec_of_nat(v)
    }
}

/// The numeric value of a digit run.
pub open spec fn digits_val(s: Seq<char>) -> int
    decreases s.len(),
{
    if s.len() == 0 {
        0
    } else {
        digits_val(s.drop_last()) * 10 + digit_val(s.last())
    }
}

/// Whether `s` is a canonical digit run: non-empty, all digits, and no
/// leading zero unless the run is exactly `"0"`.
pub open spec fn is_canon_digits(s: Seq<char>) -> bool {
    &&& s.len() > 0
    &&& (forall|i: int| 0 <= i < s.len() ==> is_digit(#[trigger] s[i]))
    &&& (s[0] == '0' ==> s.len() == 1)
}

/// The value named by a canonical digit run that fits in `u64`, `None`
/// for any other text.
pub open spec fn parse_u64_seq(s: Seq<char>) -> Option<u64> {
    if is_canon_digits(s) && digits_val(s) <= u64::MAX {
        Some(digits_val(s) as u64)
    } else {
        None
    }
}

/// The value named by an optionally `'-'`-signed canonical digit run that
/// fits in `i64`, `None` for any other text.
pub open spec fn parse_i64_seq(s: Seq<char>) -> Option<i64> {
    if s.len() > 0 && s[0] == '-' {
        if is_canon_digits(s.drop_first()) && 0 < digits_val(s.drop_first()) <= i64::MAX as int
            + 1 {
            Some((-digits_val(s.drop_first())) as i64)
        } else {
            None
        }
    } else {
        if is_canon_digits(s) && digits_val(s) <= i64::MAX {
            Some(digits_val(s) as i64)
        } else {
            None
        }
    }
}

/// The digit run of `n` consists of digit characters, does not start with
/// `'0'` unless `n == 0`, and names `n`.
pub proof fn lemma_dec_of_nat_canon(n: int)
    requires
        n >= 0,
    ensures
        is_canon_digits(dec_of_nat(n)),
        digits_val(dec_of_nat(n)) == n,
        n > 0 ==> dec_of_nat(n)[0] != '0',
    decreases n,
{
    if n < 10 {
        let s = dec_of_nat(n);
        assert(s.drop_last() =~= Seq::<char>::empty());
        assert(digits_val(s) == digits_val(s.drop_last()) * 10 + digit_val(s.last()));
        assert(digits_val(Seq::<char>::empty()) == 0);
        assert(s.last() == digit_char(n));
        assert(digit_val(digit_char(n)) == n);
    } else {
        lemma_dec_of_nat_canon(n / 10);
        let s = dec_of_nat(n);
        let p = dec_of_nat(n / 10);
        assert(s == p + seq![digit_char(n % 10)]);
        assert(s.drop_last() =~= p);
        assert(s.last() == digit_char(n % 10));
        assert(digits_val(s) == (n / 10) * 10 + n % 10);
        assert((n / 10) * 10 + n % 10 == n) by (nonlinear_arith)
            requires
                n >= 10,
        ;
        assert(s[0] == p[0]);
        assert(n / 10 > 0);
    }
}

/// Round trip for unsigned values: the digit run of `n` parses back to
/// `n`.
pub proof fn lemma_parse_dec_u64(n: u64)
    ensures
        parse_u64_seq(dec_of_nat(n as int)) == Some(n),
{
    lemma_dec_of_nat_canon(n as int);
}

/// Round trip for signed values: the signed decimal text of `v` parses
/// back to `v`.
pub proof fn lemma_parse_dec_i64(v: i64)
    ensures
        parse_i64_seq(dec_of_int(v as int)) == Some(v),
{
    if v < 0 {
        let m = -(v as int);
        lemma_dec_of_nat_canon(m);
        let s = dec_of_int(v as int);
        assert(s.drop_first() =~= dec_of_nat(m));
        assert(s[0] == '-');
    } else {
        lemma_dec_of_nat_canon(v as int);
        let s = dec_of_nat(v as int);
        assert(is_canon_digits(s));
        assert(s[0] != '-') by {
            assert(is_digit(s[0]));
        }
    }
}

/// A digit run is worth at least its prefixes: extending a run of
/// non-negative value never decreases the value.
pub proof fn lemma_digits_val_prefix_le(s: Seq<char>, k: int)
    requires
        0 <= k <= s.len(),
        forall|i: int| 0 <= i < s.len() ==> is_digit(#[trigger] s[i]),
    ensures
        digits_val(s.subrange(0, k)) <= digits_val(s),
        digits_val(s) >= 0,
    decreases s.len() - k,
{
    if k == s.len() {
        assert(s.subrange(0, k) =~= s);
        lemma_digits_val_nonneg(s);
    } else {
        lemma_digits_val_prefix_le(s, k + 1);
        let p = s.subrange(0, k);
        let q = s.subrange(0, k + 1);
        assert(q.drop_last() =~= p);
        assert(q.last() == s[k]);
        lemma_digits_val_nonneg(p);
        assert(digits_val(q) == digits_val(p) * 10 + digit_val(s[k]));
        assert(digits_val(p) * 10 >= digits_val(p)) by (nonlinear_arith)
            requires
                digits_val(p) >= 0,
        ;
    }
}

/// The value of a digit run is non-negative.
pub proof fn lemma_digits_val_nonneg(s: Seq<char>)
    requires
        forall|i: int| 0 <= i < s.len() ==> is_digit(#[trigger] s[i]),
    ensures
        digits_val(s) >= 0,
    decreases s.len(),
{
    if s.len() > 0 {
        assert(forall|i: int|
            0 <= i < s.drop_last().len() ==> is_digit(#[trigger] s.drop_last()[i]));
        lemma_digits_val_nonneg(s.drop_last());
        assert(digits_val(s.drop_last()) * 10 >= 0) by (nonlinear_arith)
            requires
                digits_val(s.drop_last()) >= 0,
        ;
    }
}

/// A two-character zero-padded number: values below ten get a leading
/// zero.
pub open spec fn two_digits(n: int) -> Seq<char> {
    if n < 10 {
        seq!['0', digit_char(n)]
    } else {
        dec_of_nat(n)
    }
}

/// The digit run of a `u64` value, most significant digit first.
pub fn enc_u64(n: u64) -> (r: Vec<char>)
    ensures
        r@ == dec_of_nat(n as int),
    decreases n,
{
    if n < 10 {
        let c: char = digit_to_char(n);
        let mut r: Vec<char> = Vec::new();
        r.push(c);
        proof {
            assert(r@ =~= dec_of_nat(n as int));
        }
        r
    } else {
        let mut r = enc_u64(n / 10);
        let c: char = digit_to_char(n % 10);
        r.push(c);
        proof {
            assert(r@ =~= dec_of_nat(n as int));
        }
        r
    }
}

/// The two-character zero-padded text of a small number.
pub fn enc_two_digits(n: u64) -> (r: Vec<char>)
    ensures
        r@ == two_digits(n as int),
{
    if n < 10 {
        let mut r: Vec<char> = Vec::new();
        r.push('0');
        r.push(digit_to_char(n));
        proof {
            assert(r@ =~= two_digits(n as int));
        }
        r
    } else {
        enc_u64(n)
    }
}

/// The signed decimal text of an `i64` value.
pub fn enc_i64(v: i64) -> (r: Vec<char>)
    ensures
        r@ == dec_of_int(v as int),
{
    if v >= 0 {
        enc_u64(v as u64)
    } else {
        // The magnitude of any negative i64, including the minimum, fits in u64.
        let m: u64 = if v == i64::MIN {
            9223372036854775808u64
        } else {
            (-v) as u64
        };
        assert(m == -(v as int));
        let digits = enc_u64(m);
        let mut r: Vec<char> = Vec::new();
        r.push('-');
        let mut i: usize = 0;
        while i < digits.len()
            invariant
                i <= digits@.len(),
                r@ == seq!['-'] + digits@.subrange(0, i as int),
            decreases digits@.len() - i,
        {
            r.push(digits[i]);
            i = i + 1;
            proof {
                assert(r@ =~= seq!['-'] + digits@.subrange(0, i as int));
            }
        }
        proof {
            assert(digits@.subrange(0, digits@.len() as int) =~= digits@);
            assert(r@ =~= dec_of_int(v as int));
        }
        r
    }
}

/// Parses the slice of `s` between `from` and `to` as a `u64` digit run;
/// `None` on any text that `parse_u64_seq` refuses.
pub fn parse_u64_range(s: &Vec<char>, from: usize, to: usize) -> (r: Option<u64>)
    requires
        from <= to <= s@.len(),
    ensures
        r == parse_u64_seq(s@.subrange(from as int, to as int)),
{
    let ghost piece = s@.subrange(from as int, to as int);
    if from == to {
        return None;
    }
    if s[from] == '0' && to - from > 1 {
        return None;
    }
    let mut acc: u64 = 0;
    let mut i: usize = from;
    while i < to
        invariant
            from <= i <= to <= s@.len(),
            piece == s@.subrange(from as int, to as int),
            forall|k: int| from <= k < i ==> is_digit(#[trigger] s@[k]),
            acc == digits_val(s@.subrange(from as int, i as int)),
        decreases to - i,
    {
        let c = s[i];
        let d: u64 = match char_to_digit(c) {
            Some(d) => d,
            None => {
                proof {
                    assert(!is_digit(piece[i - from]));
                }
                return None;
            },
        };
        // Overflow check: acc * 10 + d must stay within u64.
        if acc > (u64::MAX - d) / 10 {
            proof {
                let p = s@.subrange(from as int, i + 1 as int);
                assert(p.drop_last() =~= s@.subrange(from as int, i as int));
                assert(p.last() == c);
                assert(digits_val(p) == acc * 10 + d);
                assert(acc * 10 + d > u64::MAX) by (nonlinear_arith)
                    requires
                        acc > (u64::MAX - d) / 10,
                        0 <= d <= 9,
                        acc <= u64::MAX,
                ;
                if is_canon_digits(piece) {
                    lemma_digits_val_prefix_le(piece, i + 1 - from);
                    assert(piece.subrange(0, i + 1 - from) =~= p);
                }
            }
            return None;
        }
        proof {
            let p = s@.subrange(from as int, i + 1 as int);
            assert(p.drop_last() =~= s@.subrange(from as int, i as int));
            assert(p.last() == c);
        }
        acc = acc * 10 + d;
        i = i + 1;
    }
    proof {
        assert(s@.subrange(from as int, to as int) =~= piece);
        assert(forall|k: int| 0 <= k < piece.len() ==> is_digit(#[trigger] piece[k]));
        assert(is_canon_digits(piece));
    }
    Some(acc)
}

/// Parses the slice of `s` between `from` and `to` as a signed decimal
/// `i64`; `None` on any text that `parse_i64_seq` refuses.
pub fn parse_i64_range(s: &Vec<char>, from: usize, to: usize) -> (r: Option<i64>)
    requires
        from <= to <= s@.len(),
    ensures
        r == parse_i64_seq(s@.subrange(from as int, to as int)),
{
    let ghost piece = s@.subrange(from as int, to as int);
    if from < to && s[from] == '-' {
        proof {
            assert(piece[0] == '-');
            assert(piece.drop_first() =~= s@.subrange(from + 1 as int, to as int));
        }
        let ghost mag = piece.drop_first();
        match parse_u64_range(s, from + 1, to) {
            Some(m) => {
                proof {
                    assert(parse_u64_seq(mag) == Some(m));
                    assert(is_canon_digits(mag));
                    lemma_digits_val_nonneg(mag);
                    assert(digits_val(mag) == m);
                }
                if m == 0 {
                    // "-0" is not canonical output and is refused.
                    return None;
                }
                if m > 9223372036854775808u64 {
                    return None;
                }
                if m == 9223372036854775808u64 {
                    proof {
                        assert((-digits_val(mag)) as i64 == i64::MIN);
                    }
                    Some(i64::MIN)
                } else {
                    proof {
                        assert((-digits_val(mag)) as i64 == -(m as i64));
                    }
                    Some(-(m as i64))
                }
            },
            None => None,
        }
    } else {
        proof {
            if piece.len() > 0 {
                assert(piece[0] != '-');
            }
        }
        match parse_u64_range(s, from, to) {
            Some(m) => {
                proof {
                    assert(parse_u64_seq(piece) == Some(m));
                    assert(is_canon_digits(piece));
                    lemma_digits_val_nonneg(piece);
                    assert(digits_val(piece) == m);
                }
                if m <= i64::MAX as u64 {
                    Some(m as i64)
                } else {
                    None
                }
            },
            None => None,
        }
    }
}

} // verus!
