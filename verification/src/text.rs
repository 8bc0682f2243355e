//! Character-level text helpers shared by the document codec: conversion
//! between `String` and `Vec<char>`, an escaping scheme that keeps record
//! and field separators out of encoded payload strings, and separator
//! scanning.
//!
//! The on-disk documents separate records with `'\n'`, fields with `'\t'`
//! and list elements with `','`; `escape` rewrites those characters (and
//! the escape character `'\\'` itself) into two-character sequences so
//! that any payload string round-trips.

use vstd::prelude::*;

verus! {

/// Relies on `String::push`: appends one character at the end.
pub assume_specification[ String::push ](s: &mut String, c: char)
    ensures
        final(s)@ == old(s)@.push(c),
;

/// Relies on `str::eq`: string slices compare equal exactly when their
/// characters do.
pub assume_specification[ <str as PartialEq>::eq ](a: &str, b: &str) -> (r: bool)
    ensures
        r == (a@ == b@),
;

/// The characters of a string as an indexable vector.
pub fn to_chars(s: &str) -> (r: Vec<char>)
    ensures
        r@ == s@,
{
    let n: usize = s.unicode_len();
    let mut r: Vec<char> = Vec::new();
    let mut i: usize = 0;
    while i < n
        invariant
            n == s@.len(),
            i <= n,
            r@ == s@.subrange(0, i as int),
        decreases n - i,
    {
        r.push(s.get_char(i));
        i = i + 1;
        proof {
            assert(r@ =~= s@.subrange(0, i as int));
        }
    }
    proof {
        assert(r@ =~= s@);
    }
    r
}

/// The characters of a vector collected into a `String`.
pub fn chars_to_string(v: &Vec<char>) -> (r: String)
    ensures
        r@ == v@,
{
    let mut r = String::new();
    let mut i: usize = 0;
    while i < v.len()
        invariant
            i <= v@.len(),
            r@ == v@.subrange(0, i as int),
        decreases v@.len() - i,
    {
        r.push(v[i]);
        i = i + 1;
        proof {
            assert(r@ =~= v@.subrange(0, i as int));
        }
    }
    proof {
        assert(r@ =~= v@);
    }
    r
}

/// Separator between records of a document.
pub open spec fn rec_sep() -> char {
    '\n'
}

/// Separator between fields of a record.
pub open spec fn field_sep() -> char {
    '\t'
}

/// Separator between elements of a list field.
pub open spec fn list_sep() -> char {
    ','
}

/// The escape expansion of one payload character.
pub open spec fn esc_char(c: char) -> Seq<char> {
    if c == '\\' {
        seq!['\\', '\\']
    } else if c == '\n' {
        seq!['\\', 'n']
    } else if c == '\t' {
        seq!['\\', 't']
    } else if c == ',' {
        seq!['\\', 'c']
    } else {
        seq![c]
    }
}

/// The escape expansion of a payload string.
pub open spec fn escape_seq(s: Seq<char>) -> Seq<char>
    decreases s.len(),
{
    if s.len() == 0 {
        Seq::empty()
    } else {
        esc_char(s[0]) + escape_seq(s.drop_first())
    }
}

/// The inverse of `escape_seq`: `None` on any text that is not a valid
/// escape expansion (a dangling `'\\'` or an unknown escape pair).
pub open spec fn unescape_seq(s: Seq<char>) -> Option<Seq<char>>
    decreases s.len(),
{
    if s.len() == 0 {
        Some(Seq::empty())
    } else if s[0] == '\\' {
        if s.len() < 2 {
            None
        } else {
            let c = unesc_pair(s[1]);
            match (c, unescape_seq(s.skip(2))) {
                (Some(c0), Some(rest)) => Some(seq![c0] + rest),
                _ => None,
            }
        }
    } else {
        match unescape_seq(s.drop_first()) {
            Some(rest) => Some(seq![s[0]] + rest),
            None => None,
        }
    }
}

/// The payload character named by the second character of an escape pair.
pub open spec fn unesc_pair(c: char) -> Option<char> {
    if c == '\\' {
        Some('\\')
    } else if c == 'n' {
        Some('\n')
    } else if c == 't' {
        Some('\t')
    } else if c == 'c' {
        Some(',')
    } else {
        None
    }
}

/// No character of `s` is a record, field or list separator.
pub open spec fn sep_free(s: Seq<char>) -> bool {
    forall|i: int|
        0 <= i < s.len() ==> s[i] != rec_sep() && s[i] != field_sep() && s[i] != list_sep()
}

/// Appending one character extends the escape expansion on the right.
pub proof fn lemma_escape_push(s: Seq<char>, c: char)
    ensures
        escape_seq(s.push(c)) == escape_seq(s) + esc_char(c),
    decreases s.len(),
{
    if s.len() == 0 {
        assert(s.push(c).drop_first() =~= s);
        assert(escape_seq(s.push(c)) =~= escape_seq(s) + esc_char(c));
    } else {
        assert(s.push(c).drop_first() =~= s.drop_first().push(c));
        lemma_escape_push(s.drop_first(), c);
        assert(escape_seq(s.push(c)) =~= escape_seq(s) + esc_char(c));
    }
}

/// An escape expansion contains no separator and no lone trailing escape:
/// every `'\\'` heads a two-character pair.
pub proof fn lemma_escape_sep_free(s: Seq<char>)
    ensures
        sep_free(escape_seq(s)),
    decreases s.len(),
{
    if s.len() > 0 {
        lemma_escape_sep_free(s.drop_first());
    }
}

/// Escaping then unescaping restores the payload string.
pub proof fn lemma_unescape_escape(s: Seq<char>)
    ensures
        unescape_seq(escape_seq(s)) == Some(s),
    decreases s.len(),
{
    if s.len() == 0 {
    } else {
        let e = escape_seq(s);
        let c = s[0];
        lemma_unescape_escape(s.drop_first());
        if c == '\\' || c == '\n' || c == '\t' || c == ',' {
            assert(e.skip(2) =~= escape_seq(s.drop_first()));
            assert(unescape_seq(e)->Some_0 =~= s);
        } else {
            assert(e.drop_first() =~= escape_seq(s.drop_first()));
            assert(unescape_seq(e)->Some_0 =~= s);
        }
    }
}

/// Escapes a payload string so that it contains no separator characters.
pub fn escape(s: &Vec<char>) -> (r: Vec<char>)
    ensures
        r@ == escape_seq(s@),
{
    let mut r: Vec<char> = Vec::new();
    let mut i: usize = 0;
    while i < s.len()
        invariant
            i <= s@.len(),
            r@ == escape_seq(s@.subrange(0, i as int)),
        decreases s@.len() - i,
    {
        let c = s[i];
        if c == '\\' {
            r.push('\\');
            r.push('\\');
        } else if c == '\n' {
            r.push('\\');
            r.push('n');
        } else if c == '\t' {
            r.push('\\');
            r.push('t');
        } else if c == ',' {
            r.push('\\');
            r.push('c');
        } else {
            r.push(c);
        }
        proof {
            lemma_escape_push(s@.subrange(0, i as int), c);
            assert(s@.subrange(0, i as int).push(c) =~= s@.subrange(0, i + 1 as int));
        }
        i = i + 1;
    }
    proof {
        assert(s@.subrange(0, s@.len() as int) =~= s@);
    }
    r
}

/// Undoes `escape`: `None` on text that is not a valid escape expansion.
pub fn unescape(s: &Vec<char>) -> (r: Option<Vec<char>>)
    ensures
        match r {
            Some(v) => unescape_seq(s@) == Some(v@),
            None => unescape_seq(s@) is None,
        },
{
    let n = s.len();
    let mut out: Vec<char> = Vec::new();
    let mut i: usize = 0;
    proof {
        assert(s@.skip(0) =~= s@);
        assert(forall|rest: Seq<char>| (Seq::<char>::empty() + rest) =~= rest);
    }
    while i < n
        invariant
            n == s@.len(),
            i <= n,
            unescape_seq(s@) == (match unescape_seq(s@.skip(i as int)) {
                Some(rest) => Some(out@ + rest),
                None => None::<Seq<char>>,
            }),
        decreases n - i,
    {
        let ghost tail = s@.skip(i as int);
        let c = s[i];
        if c == '\\' {
            if i + 1 >= n {
                proof {
                    assert(unescape_seq(tail) is None);
                }
                return None;
            }
            let c2 = s[i + 1];
            let dec: char;
            if c2 == '\\' {
                dec = '\\';
            } else if c2 == 'n' {
                dec = '\n';
            } else if c2 == 't' {
                dec = '\t';
            } else if c2 == 'c' {
                dec = ',';
            } else {
                proof {
                    assert(unesc_pair(tail[1]) is None);
                    assert(unescape_seq(tail) is None);
                }
                return None;
            }
            out.push(dec);
            proof {
                assert(tail.skip(2) =~= s@.skip(i + 2 as int));
                assert(unesc_pair(tail[1]) == Some(dec));
                assert forall|rest: Seq<char>|
                    unescape_seq(s@.skip(i + 2 as int)) == Some(rest) implies unescape_seq(tail)
                    == Some(seq![dec] + rest) by {}
                assert(forall|rest: Seq<char>, d: char| (out@ + (seq![d] + rest)) =~= (out@.push(d)
                    + rest));
            }
            i = i + 2;
        } else {
            out.push(c);
            proof {
                assert(tail.drop_first() =~= s@.skip(i + 1 as int));
                assert(forall|rest: Seq<char>, d: char| (out@ + (seq![d] + rest)) =~= (out@.push(d)
                    + rest));
            }
            i = i + 1;
        }
    }
    proof {
        assert(s@.skip(n as int) =~= Seq::<char>::empty());
        assert(out@ + Seq::<char>::empty() =~= out@);
    }
    Some(out)
}

/// The least index at or after `from` holding `sep`, or the length of `s`
/// when no such index exists.
pub open spec fn first_at(s: Seq<char>, from: int, sep: char) -> int
    decreases s.len() - from,
{
    if from < 0 || from >= s.len() {
        s.len() as int
    } else if s[from] == sep {
        from
    } else {
        first_at(s, from + 1, sep)
    }
}

/// `first_at` lands on `sep`, or at the end; nothing before it (from
/// `from` on) is `sep`.
pub proof fn lemma_first_at_range(s: Seq<char>, from: int, sep: char)
    requires
        0 <= from <= s.len(),
    ensures
        from <= first_at(s, from, sep) <= s.len(),
        first_at(s, from, sep) < s.len() ==> s[first_at(s, from, sep)] == sep,
        forall|k: int| from <= k < first_at(s, from, sep) ==> s[k] != sep,
    decreases s.len() - from,
{
    if from < s.len() && s[from] != sep {
        lemma_first_at_range(s, from + 1, sep);
    }
}

/// When the range `[from, k)` is free of `sep` and `k` holds `sep` (or is
/// the end), the first occurrence from `from` is exactly `k`.
pub proof fn lemma_first_at_is(s: Seq<char>, from: int, sep: char, k: int)
    requires
        0 <= from <= k <= s.len(),
        forall|j: int| from <= j < k ==> s[j] != sep,
        k < s.len() ==> s[k] == sep,
    ensures
        first_at(s, from, sep) == k,
    decreases k - from,
{
    if from < k {
        lemma_first_at_is(s, from + 1, sep, k);
    }
}

/// Scans for the next separator: returns the least index at or after
/// `from` holding `sep`, or the length when there is none.
pub fn find_sep(s: &Vec<char>, from: usize, sep: char) -> (r: usize)
    requires
        from <= s@.len(),
    ensures
        r == first_at(s@, from as int, sep),
        from <= r <= s@.len(),
{
    let n = s.len();
    let mut j = from;
    while j < n
        invariant
            n == s@.len(),
            from <= j <= n,
            first_at(s@, from as int, sep) == first_at(s@, j as int, sep),
        decreases n - j,
    {
        if s[j] == sep {
            return j;
        }
        j = j + 1;
    }
    j
}

/// No character of `s` is `c`.
pub open spec fn free_of(s: Seq<char>, c: char) -> bool {
    forall|i: int| 0 <= i < s.len() ==> s[i] != c
}

/// The pieces of `s` between occurrences of `sep`: always at least one
/// piece; `n` separators give `n + 1` pieces.
pub open spec fn split_fields(s: Seq<char>, sep: char) -> Seq<Seq<char>>
    decreases s.len(),
{
    let k = first_at(s, 0, sep);
    if k < 0 || k >= s.len() {
        seq![s]
    } else {
        seq![s.subrange(0, k)] + split_fields(s.skip(k + 1), sep)
    }
}

/// The pieces joined back with `sep` between them.
pub open spec fn join_fields(fields: Seq<Seq<char>>, sep: char) -> Seq<char>
    decreases fields.len(),
{
    if fields.len() == 0 {
        Seq::empty()
    } else if fields.len() == 1 {
        fields[0]
    } else {
        fields[0] + seq![sep] + join_fields(fields.drop_first(), sep)
    }
}

/// Scanning within a suffix finds the occurrence at a shifted position.
pub proof fn lemma_first_at_skip(s: Seq<char>, from: int, sep: char)
    requires
        0 <= from <= s.len(),
    ensures
        first_at(s, from, sep) == from + first_at(s.skip(from), 0, sep),
{
    let t = s.skip(from);
    let k = first_at(t, 0, sep);
    lemma_first_at_range(t, 0, sep);
    assert(forall|j: int| from <= j < from + k ==> s[j] == t[j - from] && s[j] != sep);
    lemma_first_at_is(s, from, sep, from + k);
}

/// Splitting undoes joining: when no piece contains `sep`, the pieces of
/// the joined text are exactly the original pieces.
pub proof fn lemma_split_of_join(fields: Seq<Seq<char>>, sep: char)
    requires
        fields.len() >= 1,
        forall|i: int| 0 <= i < fields.len() ==> free_of(#[trigger] fields[i], sep),
    ensures
        split_fields(join_fields(fields, sep), sep) == fields,
    decreases fields.len(),
{
    let s = join_fields(fields, sep);
    let f0 = fields[0];
    if fields.len() == 1 {
        assert(s == f0);
        lemma_first_at_is(s, 0, sep, s.len() as int);
        assert(split_fields(s, sep) =~= fields);
    } else {
        let rest = join_fields(fields.drop_first(), sep);
        assert(s == f0 + seq![sep] + rest);
        assert(forall|j: int| 0 <= j < f0.len() ==> s[j] == f0[j] && s[j] != sep);
        assert(s[f0.len() as int] == sep);
        lemma_first_at_is(s, 0, sep, f0.len() as int);
        assert(s.subrange(0, f0.len() as int) =~= f0);
        assert(s.skip(f0.len() + 1 as int) =~= rest);
        assert(forall|i: int|
            0 <= i < fields.drop_first().len() ==> free_of(
                #[trigger] fields.drop_first()[i],
                sep,
            ));
        lemma_split_of_join(fields.drop_first(), sep);
        assert(split_fields(s, sep) =~= seq![f0] + split_fields(rest, sep));
        assert(seq![f0] + fields.drop_first() =~= fields);
    }
}

/// Copies the slice of `s` between `from` and `to` into a new vector.
pub fn sub_chars(s: &Vec<char>, from: usize, to: usize) -> (r: Vec<char>)
    requires
        from <= to <= s@.len(),
    ensures
        r@ == s@.subrange(from as int, to as int),
{
    let mut r: Vec<char> = Vec::new();
    let mut i = from;
    while i < to
        invariant
            from <= i <= to <= s@.len(),
            r@ == s@.subrange(from as int, i as int),
        decreases to - i,
    {
        r.push(s[i]);
        i = i + 1;
        proof {
            assert(r@ =~= s@.subrange(from as int, i as int));
        }
    }
    r
}

/// Appends a copy of `src` to `dst`.
pub fn extend_chars(dst: &mut Vec<char>, src: &Vec<char>)
    ensures
        final(dst)@ == old(dst)@ + src@,
{
    let mut i: usize = 0;
    while i < src.len()
        invariant
            i <= src@.len(),
            dst@ == old(dst)@ + src@.subrange(0, i as int),
        decreases src@.len() - i,
    {
        dst.push(src[i]);
        i = i + 1;
        proof {
            assert(dst@ =~= old(dst)@ + src@.subrange(0, i as int));
        }
    }
    proof {
        assert(dst@ =~= old(dst)@ + src@);
    }
}

/// Splits `s` into the pieces between occurrences of `sep`.
pub fn split_all(s: &Vec<char>, sep: char) -> (r: Vec<Vec<char>>)
    ensures
        r.deep_view() == split_fields(s@, sep),
        r@.len() >= 1,
{
    let n = s.len();
    let mut pieces: Vec<Vec<char>> = Vec::new();
    let mut pos: usize = 0;
    proof {
        assert(s@.skip(0) =~= s@);
        assert(pieces.deep_view() + split_fields(s@, sep) =~= split_fields(s@, sep));
    }
    let mut k = find_sep(s, 0, sep);
    while k < n
        invariant
            n == s@.len(),
            pos <= k <= n,
            k == first_at(s@, pos as int, sep),
            split_fields(s@, sep) == pieces.deep_view() + split_fields(s@.skip(pos as int), sep),
        decreases n - pos,
    {
        let ghost before = pieces.deep_view();
        let ghost tail = s@.skip(pos as int);
        pieces.push(sub_chars(s, pos, k));
        proof {
            lemma_first_at_skip(s@, pos as int, sep);
            let kk = first_at(tail, 0, sep);
            assert(kk == k - pos);
            assert(kk < tail.len());
            assert(split_fields(tail, sep) == seq![tail.subrange(0, kk)] + split_fields(
                tail.skip(kk + 1),
                sep,
            ));
            assert(s@.subrange(pos as int, k as int) =~= tail.subrange(0, kk));
            assert(tail.skip(kk + 1) =~= s@.skip(k + 1 as int));
            assert(pieces.deep_view() =~~= before + seq![tail.subrange(0, kk)]);
            assert(pieces.deep_view() + split_fields(s@.skip(k + 1 as int), sep) =~~= before
                + split_fields(tail, sep));
        }
        pos = k + 1;
        k = find_sep(s, pos, sep);
    }
    let ghost before = pieces.deep_view();
    let ghost tail = s@.skip(pos as int);
    pieces.push(sub_chars(s, pos, n));
    proof {
        lemma_first_at_skip(s@, pos as int, sep);
        assert(first_at(tail, 0, sep) >= tail.len());
        assert(split_fields(tail, sep) == seq![tail]);
        assert(s@.subrange(pos as int, n as int) =~= tail);
        assert(pieces.deep_view() =~~= before + seq![tail]);
        assert(pieces.deep_view() =~~= before + split_fields(tail, sep));
    }
    pieces
}

/// Joins pieces with `sep` between them.
pub fn join_all(fields: &Vec<Vec<char>>, sep: char) -> (r: Vec<char>)
    requires
        fields@.len() >= 1,
    ensures
        r@ == join_fields(fields.deep_view(), sep),
{
    let mut out: Vec<char> = Vec::new();
    extend_chars(&mut out, &fields[0]);
    let mut i: usize = 1;
    proof {
        assert(out@ =~= join_fields(fields.deep_view().subrange(0, 1), sep));
    }
    while i < fields.len()
        invariant
            1 <= i <= fields@.len(),
            out@ == join_fields(fields.deep_view().subrange(0, i as int), sep),
        decreases fields@.len() - i,
    {
        out.push(sep);
        extend_chars(&mut out, &fields[i]);
        proof {
            lemma_join_push(fields.deep_view().subrange(0, i as int), fields.deep_view()[i as int], sep);
            assert(fields.deep_view().subrange(0, i as int).push(fields.deep_view()[i as int])
                =~= fields.deep_view().subrange(0, i + 1 as int));
        }
        i = i + 1;
    }
    proof {
        assert(fields.deep_view().subrange(0, fields.deep_view().len() as int)
            =~= fields.deep_view());
    }
    out
}

/// Joining one more piece appends a separator and the piece.
pub proof fn lemma_join_push(fields: Seq<Seq<char>>, f: Seq<char>, sep: char)
    requires
        fields.len() >= 1,
    ensures
        join_fields(fields.push(f), sep) == join_fields(fields, sep) + seq![sep] + f,
    decreases fields.len(),
{
    if fields.len() == 1 {
        assert(fields.push(f).drop_first() =~= seq![f]);
        assert(fields.push(f)[0] == fields[0]);
        assert(join_fields(seq![f], sep) == f);
        assert(join_fields(fields.push(f), sep) == fields.push(f)[0] + seq![sep] + join_fields(
            fields.push(f).drop_first(),
            sep,
        ));
        assert(join_fields(fields, sep) == fields[0]);
    } else {
        assert(fields.push(f).drop_first() =~= fields.drop_first().push(f));
        assert(fields.push(f)[0] == fields[0]);
        lemma_join_push(fields.drop_first(), f, sep);
        assert(join_fields(fields.push(f), sep) =~= join_fields(fields, sep) + seq![sep] + f);
    }
}

} // verus!
