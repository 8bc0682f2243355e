//! The record codec: one text line per record, fields separated by tabs,
//! payload strings escaped, integers in decimal. Every decoder is total
//! (`None` on any line that is not a valid encoding) and every record
//! kind round-trips: decoding an encoded record gives the record back.

use vstd::prelude::*;

use crate::model::{Action, Config, ConfigView, Event, EventView, Mode, Video, VideoView};
use crate::numbers::{
    dec_of_int, dec_of_nat, enc_i64, enc_u64, is_digit, lemma_dec_of_nat_canon, lemma_parse_dec_i64,
    lemma_parse_dec_u64, parse_i64_range, parse_i64_seq, parse_u64_range, parse_u64_seq,
};
use crate::text::{
    escape, escape_seq, field_sep, free_of, join_all, join_fields, lemma_escape_sep_free,
    lemma_split_of_join, lemma_unescape_escape, list_sep, rec_sep, sep_free, split_all,
    split_fields, sub_chars, to_chars, unescape, unescape_seq,
};

verus! {

/// Every character of a signed decimal text is a digit or the sign.
pub proof fn lemma_dec_of_int_chars(v: int)
    ensures
        forall|i: int|
            0 <= i < dec_of_int(v).len() ==> (is_digit(#[trigger] dec_of_int(v)[i]) || dec_of_int(
                v,
            )[i] == '-'),
{
    if v < 0 {
        lemma_dec_of_nat_canon(-v);
    } else {
        lemma_dec_of_nat_canon(v);
    }
}

/// A decimal text contains no separator characters.
pub proof fn lemma_dec_of_int_sep_free(v: int)
    ensures
        sep_free(dec_of_int(v)),
{
    lemma_dec_of_int_chars(v);
}

/// An unsigned decimal text contains no separator characters.
pub proof fn lemma_dec_of_nat_sep_free(n: int)
    requires
        n >= 0,
    ensures
        sep_free(dec_of_nat(n)),
{
    lemma_dec_of_nat_canon(n);
}

// ---------------------------------------------------------------------
// Queued item records
// ---------------------------------------------------------------------
/// The fields of a queued item record.
pub open spec fn video_fields(v: VideoView) -> Seq<Seq<char>> {
    seq![escape_seq(v.id), escape_seq(v.url), dec_of_int(v.added_at)]
}

/// The record line of a queued item.
pub open spec fn enc_video(v: VideoView) -> Seq<char> {
    join_fields(video_fields(v), field_sep())
}

/// The queued item named by a record line, `None` on any other text.
pub open spec fn dec_video(line: Seq<char>) -> Option<VideoView> {
    let f = split_fields(line, field_sep());
    if f.len() != 3 {
        None
    } else {
        match (unescape_seq(f[0]), unescape_seq(f[1]), parse_i64_seq(f[2])) {
            (Some(id), Some(url), Some(ts)) => Some(
                VideoView { id, url, added_at: ts as int },
            ),
            _ => None,
        }
    }
}

/// An encoded queued item record contains no record separator.
pub proof fn lemma_enc_video_line_free(v: VideoView)
    ensures
        free_of(enc_video(v), rec_sep()),
{
    lemma_escape_sep_free(v.id);
    lemma_escape_sep_free(v.url);
    lemma_dec_of_int_sep_free(v.added_at);
    lemma_join_free(video_fields(v), field_sep(), rec_sep());
}

/// Joining pieces free of `c` with a separator other than `c` stays free
/// of `c`.
pub proof fn lemma_join_free(fields: Seq<Seq<char>>, sep: char, c: char)
    requires
        sep != c,
        forall|i: int| 0 <= i < fields.len() ==> free_of(#[trigger] fields[i], c),
    ensures
        free_of(join_fields(fields, sep), c),
    decreases fields.len(),
{
    if fields.len() > 1 {
        assert(forall|i: int|
            0 <= i < fields.drop_first().len() ==> free_of(#[trigger] fields.drop_first()[i], c));
        lemma_join_free(fields.drop_first(), sep, c);
    }
}

/// Round trip for queued item records, for any item whose timestamp fits
/// the machine word.
pub proof fn lemma_video_round_trip(v: VideoView)
    requires
        i64::MIN <= v.added_at <= i64::MAX,
    ensures
        dec_video(enc_video(v)) == Some(v),
{
    let f = video_fields(v);
    lemma_escape_sep_free(v.id);
    lemma_escape_sep_free(v.url);
    lemma_dec_of_int_sep_free(v.added_at);
    assert(forall|i: int| 0 <= i < f.len() ==> free_of(#[trigger] f[i], field_sep()));
    lemma_split_of_join(f, field_sep());
    lemma_unescape_escape(v.id);
    lemma_unescape_escape(v.url);
    lemma_parse_dec_i64(v.added_at as i64);
}

/// Encodes one queued item as a record line.
pub fn encode_video(v: &Video) -> (r: Vec<char>)
    ensures
        r@ == enc_video(v@),
{
    let mut fields: Vec<Vec<char>> = Vec::new();
    fields.push(escape(&to_chars(v.id.as_str())));
    fields.push(escape(&to_chars(v.url.as_str())));
    fields.push(enc_i64(v.added_at));
    proof {
        assert(fields.deep_view() =~~= video_fields(v@));
    }
    join_all(&fields, '\t')
}

/// Decodes one record line as a queued item; `None` on any text that is
/// not a valid record.
pub fn decode_video(line: &Vec<char>) -> (r: Option<Video>)
    ensures
        match r {
            Some(v) => dec_video(line@) == Some(v@),
            None => dec_video(line@) is None,
        },
{
    let f = split_all(line, '\t');
    if f.len() != 3 {
        return None;
    }
    proof {
        assert(f.deep_view()[0] == f@[0]@);
        assert(f.deep_view()[1] == f@[1]@);
        assert(f.deep_view()[2] == f@[2]@);
    }
    let id_chars = match unescape(&f[0]) {
        Some(c) => c,
        None => {
            return None;
        },
    };
    let url_chars = match unescape(&f[1]) {
        Some(c) => c,
        None => {
            return None;
        },
    };
    let ghost f2 = f.deep_view()[2];
    let ts = match parse_i64_range(&f[2], 0, f[2].len()) {
        Some(t) => t,
        None => {
            proof {
                assert(f2.subrange(0, f2.len() as int) =~= f2);
            }
            return None;
        },
    };
    proof {
        assert(f2.subrange(0, f2.len() as int) =~= f2);
    }
    Some(
        Video {
            id: crate::text::chars_to_string(&id_chars),
            url: crate::text::chars_to_string(&url_chars),
            added_at: ts,
        },
    )
}

// ---------------------------------------------------------------------
// Small field kinds
// ---------------------------------------------------------------------
/// The field character of a lifecycle action.
pub open spec fn action_char(a: Action) -> char {
    match a {
        Action::Queued => 'Q',
        Action::Watched => 'W',
        Action::Skipped => 'S',
    }
}

/// The action named by a field, `None` on any other text.
pub open spec fn dec_action(f: Seq<char>) -> Option<Action> {
    if f.len() == 1 && f[0] == 'Q' {
        Some(Action::Queued)
    } else if f.len() == 1 && f[0] == 'W' {
        Some(Action::Watched)
    } else if f.len() == 1 && f[0] == 'S' {
        Some(Action::Skipped)
    } else {
        None
    }
}

/// The field character of a boolean.
pub open spec fn bool_char(b: bool) -> char {
    if b {
        '1'
    } else {
        '0'
    }
}

/// The boolean named by a field, `None` on any other text.
pub open spec fn dec_bool(f: Seq<char>) -> Option<bool> {
    if f.len() == 1 && f[0] == '1' {
        Some(true)
    } else if f.len() == 1 && f[0] == '0' {
        Some(false)
    } else {
        None
    }
}

/// The field character of a selection mode.
pub open spec fn mode_char(m: Mode) -> char {
    match m {
        Mode::Queue => 'q',
        Mode::Stack => 's',
    }
}

/// The mode named by a field, `None` on any other text.
pub open spec fn dec_mode(f: Seq<char>) -> Option<Mode> {
    if f.len() == 1 && f[0] == 'q' {
        Some(Mode::Queue)
    } else if f.len() == 1 && f[0] == 's' {
        Some(Mode::Stack)
    } else {
        None
    }
}

/// The field of an optional integer: `"-"` for absent, decimal otherwise.
pub open spec fn enc_opt_int(o: Option<int>) -> Seq<char> {
    match o {
        None => seq!['-'],
        Some(t) => dec_of_int(t),
    }
}

/// The optional integer named by a field, `None` on any other text.
pub open spec fn dec_opt_i64(f: Seq<char>) -> Option<Option<int>> {
    if f.len() == 1 && f[0] == '-' {
        Some(None)
    } else {
        match parse_i64_seq(f) {
            Some(t) => Some(Some(t as int)),
            None => None,
        }
    }
}

/// The field of an optional string: `"-"` for absent, a `'+'` followed by
/// the escaped text otherwise.
pub open spec fn enc_opt_str(o: Option<Seq<char>>) -> Seq<char> {
    match o {
        None => seq!['-'],
        Some(k) => seq!['+'] + escape_seq(k),
    }
}

/// The optional string named by a field, `None` on any other text.
pub open spec fn dec_opt_str(f: Seq<char>) -> Option<Option<Seq<char>>> {
    if f.len() == 1 && f[0] == '-' {
        Some(None)
    } else if f.len() >= 1 && f[0] == '+' {
        match unescape_seq(f.skip(1)) {
            Some(k) => Some(Some(k)),
            None => None,
        }
    } else {
        None
    }
}

/// A decimal text is never the absent marker: it is either all digits or
/// at least two characters long.
pub proof fn lemma_dec_of_int_not_dash(v: int)
    ensures
        !(dec_of_int(v).len() == 1 && dec_of_int(v)[0] == '-'),
{
    if v < 0 {
        lemma_dec_of_nat_canon(-v);
        assert(dec_of_int(v).len() >= 2);
    } else {
        lemma_dec_of_nat_canon(v);
        assert(is_digit(dec_of_int(v)[0]));
    }
}

/// Round trip for optional integer fields.
pub proof fn lemma_opt_int_round_trip(o: Option<int>)
    requires
        o matches Some(t) ==> i64::MIN <= t <= i64::MAX,
    ensures
        dec_opt_i64(enc_opt_int(o)) == Some(o),
{
    match o {
        None => {
            assert(parse_i64_seq(seq!['-']) is None);
        },
        Some(t) => {
            lemma_dec_of_int_not_dash(t);
            lemma_parse_dec_i64(t as i64);
        },
    }
}

/// Round trip for optional string fields.
pub proof fn lemma_opt_str_round_trip(o: Option<Seq<char>>)
    ensures
        dec_opt_str(enc_opt_str(o)) == Some(o),
{
    match o {
        None => {},
        Some(k) => {
            let f = enc_opt_str(o);
            assert(f.skip(1) =~= escape_seq(k));
            lemma_unescape_escape(k);
        },
    }
}

/// Encodes an action field.
pub fn encode_action(a: Action) -> (r: Vec<char>)
    ensures
        r@ == seq![action_char(a)],
{
    let mut r: Vec<char> = Vec::new();
    match a {
        Action::Queued => r.push('Q'),
        Action::Watched => r.push('W'),
        Action::Skipped => r.push('S'),
    }
    proof {
        assert(r@ =~= seq![action_char(a)]);
    }
    r
}

/// Decodes an action field.
pub fn decode_action(f: &Vec<char>) -> (r: Option<Action>)
    ensures
        r == dec_action(f@),
{
    if f.len() != 1 {
        return None;
    }
    let c = f[0];
    if c == 'Q' {
        Some(Action::Queued)
    } else if c == 'W' {
        Some(Action::Watched)
    } else if c == 'S' {
        Some(Action::Skipped)
    } else {
        None
    }
}

/// Encodes an optional integer field.
pub fn encode_opt_i64(o: &Option<i64>) -> (r: Vec<char>)
    ensures
        r@ == enc_opt_int(match o {
            Some(t) => Some(*t as int),
            None => None,
        }),
{
    match o {
        None => {
            let mut r: Vec<char> = Vec::new();
            r.push('-');
            proof {
                assert(r@ =~= seq!['-']);
            }
            r
        },
        Some(t) => enc_i64(*t),
    }
}

/// Decodes an optional integer field.
pub fn decode_opt_i64(f: &Vec<char>) -> (r: Option<Option<i64>>)
    ensures
        match r {
            Some(o) => dec_opt_i64(f@) == Some(
                match o {
                    Some(t) => Some(t as int),
                    None => None::<int>,
                },
            ),
            None => dec_opt_i64(f@) is None,
        },
{
    if f.len() == 1 && f[0] == '-' {
        return Some(None);
    }
    proof {
        assert(f@.subrange(0, f@.len() as int) =~= f@);
    }
    match parse_i64_range(f, 0, f.len()) {
        Some(t) => Some(Some(t)),
        None => None,
    }
}

// ---------------------------------------------------------------------
// Journal event records
// ---------------------------------------------------------------------
/// The fields of a journal event record.
pub open spec fn event_fields(e: EventView) -> Seq<Seq<char>> {
    seq![
        dec_of_int(e.timestamp),
        seq![action_char(e.action)],
        escape_seq(e.video_id),
        enc_opt_int(e.time_in_queue_sec),
    ]
}

/// The record line of a journal event.
pub open spec fn enc_event(e: EventView) -> Seq<char> {
    join_fields(event_fields(e), field_sep())
}

/// The journal event named by a record line, `None` on any other text.
pub open spec fn dec_event(line: Seq<char>) -> Option<EventView> {
    let f = split_fields(line, field_sep());
    if f.len() != 4 {
        None
    } else {
        match (parse_i64_seq(f[0]), dec_action(f[1]), unescape_seq(f[2]), dec_opt_i64(f[3])) {
            (Some(ts), Some(a), Some(id), Some(t)) => Some(
                EventView { timestamp: ts as int, action: a, video_id: id, time_in_queue_sec: t },
            ),
            _ => None,
        }
    }
}

/// Every field of an event record is separator-free.
pub proof fn lemma_event_fields_free(e: EventView)
    ensures
        forall|i: int|
            0 <= i < event_fields(e).len() ==> free_of(#[trigger] event_fields(e)[i], field_sep())
                && free_of(event_fields(e)[i], rec_sep()),
{
    lemma_dec_of_int_sep_free(e.timestamp);
    lemma_escape_sep_free(e.video_id);
    match e.time_in_queue_sec {
        Some(t) => lemma_dec_of_int_sep_free(t),
        None => {},
    }
    assert(free_of(event_fields(e)[1], field_sep()));
    assert(free_of(event_fields(e)[1], rec_sep()));
}

/// An encoded event record contains no record separator.
pub proof fn lemma_enc_event_line_free(e: EventView)
    ensures
        free_of(enc_event(e), rec_sep()),
{
    lemma_event_fields_free(e);
    lemma_join_free(event_fields(e), field_sep(), rec_sep());
}

/// Round trip for journal event records, for any event whose timestamps
/// fit the machine word.
pub proof fn lemma_event_round_trip(e: EventView)
    requires
        i64::MIN <= e.timestamp <= i64::MAX,
        e.time_in_queue_sec matches Some(t) ==> i64::MIN <= t <= i64::MAX,
    ensures
        dec_event(enc_event(e)) == Some(e),
{
    let f = event_fields(e);
    lemma_event_fields_free(e);
    lemma_split_of_join(f, field_sep());
    lemma_parse_dec_i64(e.timestamp as i64);
    lemma_unescape_escape(e.video_id);
    lemma_opt_int_round_trip(e.time_in_queue_sec);
}

/// Encodes one journal event as a record line.
pub fn encode_event(e: &Event) -> (r: Vec<char>)
    ensures
        r@ == enc_event(e@),
{
    let mut fields: Vec<Vec<char>> = Vec::new();
    fields.push(enc_i64(e.timestamp));
    fields.push(encode_action(e.action));
    fields.push(escape(&to_chars(e.video_id.as_str())));
    fields.push(encode_opt_i64(&e.time_in_queue_sec));
    proof {
        assert(fields.deep_view() =~~= event_fields(e@));
    }
    join_all(&fields, '\t')
}

/// Decodes one record line as a journal event; `None` on any text that
/// is not a valid record.
pub fn decode_event(line: &Vec<char>) -> (r: Option<Event>)
    ensures
        match r {
            Some(e) => dec_event(line@) == Some(e@),
            None => dec_event(line@) is None,
        },
{
    let f = split_all(line, '\t');
    if f.len() != 4 {
        return None;
    }
    proof {
        assert(f.deep_view()[0] == f@[0]@);
        assert(f.deep_view()[1] == f@[1]@);
        assert(f.deep_view()[2] == f@[2]@);
        assert(f.deep_view()[3] == f@[3]@);
        assert(f@[0]@.subrange(0, f@[0]@.len() as int) =~= f@[0]@);
    }
    let ts = match parse_i64_range(&f[0], 0, f[0].len()) {
        Some(t) => t,
        None => {
            return None;
        },
    };
    let action = match decode_action(&f[1]) {
        Some(a) => a,
        None => {
            return None;
        },
    };
    let id_chars = match unescape(&f[2]) {
        Some(c) => c,
        None => {
            return None;
        },
    };
    let t_in_q = match decode_opt_i64(&f[3]) {
        Some(o) => o,
        None => {
            return None;
        },
    };
    Some(
        Event {
            timestamp: ts,
            action,
            video_id: crate::text::chars_to_string(&id_chars),
            time_in_queue_sec: t_in_q,
        },
    )
}

// ---------------------------------------------------------------------
// Configuration records
// ---------------------------------------------------------------------
/// The fields of a configuration record.
pub open spec fn config_fields(c: ConfigView) -> Seq<Seq<char>> {
    seq![seq![mode_char(c.mode)], seq![bool_char(c.offline)], enc_opt_str(c.youtube_api_key)]
}

/// The record line of a configuration record.
pub open spec fn enc_config(c: ConfigView) -> Seq<char> {
    join_fields(config_fields(c), field_sep())
}

/// The configuration named by a record line. Trailing fields may be
/// absent: a line with only a mode keeps the offline default (`true`) and
/// no key; one with mode and offline keeps no key.
pub open spec fn dec_config(line: Seq<char>) -> Option<ConfigView> {
    let f = split_fields(line, field_sep());
    if f.len() < 1 || f.len() > 3 {
        None
    } else {
        match dec_mode(f[0]) {
            None => None,
            Some(m) => {
                let off = if f.len() >= 2 {
                    dec_bool(f[1])
                } else {
                    Some(true)
                };
                let key = if f.len() >= 3 {
                    dec_opt_str(f[2])
                } else {
                    Some(None)
                };
                match (off, key) {
                    (Some(o), Some(k)) => Some(
                        ConfigView { mode: m, offline: o, youtube_api_key: k },
                    ),
                    _ => None,
                }
            },
        }
    }
}

/// Round trip for configuration records.
pub proof fn lemma_config_round_trip(c: ConfigView)
    ensures
        dec_config(enc_config(c)) == Some(c),
{
    let f = config_fields(c);
    assert(free_of(f[0], field_sep()));
    assert(free_of(f[1], field_sep()));
    match c.youtube_api_key {
        Some(k) => {
            lemma_escape_sep_free(k);
            assert(free_of(f[2], field_sep()));
        },
        None => {
            assert(free_of(f[2], field_sep()));
        },
    }
    lemma_split_of_join(f, field_sep());
    lemma_opt_str_round_trip(c.youtube_api_key);
}

/// Encodes the configuration as a record line.
pub fn encode_config(c: &Config) -> (r: Vec<char>)
    ensures
        r@ == enc_config(c@),
{
    let mut fields: Vec<Vec<char>> = Vec::new();
    let mut mode_f: Vec<char> = Vec::new();
    match c.mode {
        Mode::Queue => mode_f.push('q'),
        Mode::Stack => mode_f.push('s'),
    }
    proof {
        assert(mode_f@ =~= seq![mode_char(c@.mode)]);
    }
    fields.push(mode_f);
    let mut off_f: Vec<char> = Vec::new();
    if c.offline {
        off_f.push('1');
    } else {
        off_f.push('0');
    }
    proof {
        assert(off_f@ =~= seq![bool_char(c@.offline)]);
    }
    fields.push(off_f);
    let mut key_f: Vec<char> = Vec::new();
    match &c.youtube_api_key {
        None => {
            key_f.push('-');
            proof {
                assert(key_f@ =~= enc_opt_str(c@.youtube_api_key));
            }
        },
        Some(k) => {
            key_f.push('+');
            let esc = escape(&to_chars(k.as_str()));
            crate::text::extend_chars(&mut key_f, &esc);
            proof {
                assert(key_f@ =~= enc_opt_str(c@.youtube_api_key));
            }
        },
    }
    fields.push(key_f);
    proof {
        assert(fields.deep_view() =~~= config_fields(c@));
    }
    join_all(&fields, '\t')
}

/// Decodes a record line as a configuration; `None` on any text that is
/// not a valid record.
pub fn decode_config(line: &Vec<char>) -> (r: Option<Config>)
    ensures
        match r {
            Some(c) => dec_config(line@) == Some(c@),
            None => dec_config(line@) is None,
        },
{
    let f = split_all(line, '\t');
    if f.len() < 1 || f.len() > 3 {
        return None;
    }
    proof {
        assert(f.deep_view()[0] == f@[0]@);
        if f@.len() >= 2 {
            assert(f.deep_view()[1] == f@[1]@);
        }
        if f@.len() >= 3 {
            assert(f.deep_view()[2] == f@[2]@);
        }
    }
    let mode = if f[0].len() == 1 && f[0][0] == 'q' {
        Mode::Queue
    } else if f[0].len() == 1 && f[0][0] == 's' {
        Mode::Stack
    } else {
        proof {
            assert(dec_mode(f.deep_view()[0]) is None);
        }
        return None;
    };
    let offline = if f.len() >= 2 {
        let of = &f[1];
        if of.len() == 1 && of[0] == '1' {
            true
        } else if of.len() == 1 && of[0] == '0' {
            false
        } else {
            return None;
        }
    } else {
        true
    };
    let key: Option<String> = if f.len() >= 3 {
        let kf = &f[2];
        if kf.len() == 1 && kf[0] == '-' {
            None
        } else if kf.len() >= 1 && kf[0] == '+' {
            let rest = sub_chars(kf, 1, kf.len());
            proof {
                assert(rest@ =~= f.deep_view()[2].skip(1));
            }
            match unescape(&rest) {
                Some(k) => Some(crate::text::chars_to_string(&k)),
                None => {
                    return None;
                },
            }
        } else {
            return None;
        }
    } else {
        None
    };
    Some(Config { mode, offline, youtube_api_key: key })
}

// ---------------------------------------------------------------------
// Metadata records
// ---------------------------------------------------------------------
/// Each tag of a list, escaped.
pub open spec fn esc_tags(tags: Seq<Seq<char>>) -> Seq<Seq<char>> {
    Seq::new(tags.len(), |i: int| escape_seq(tags[i]))
}

/// The field of a tag list: empty for no tags, otherwise a `'+'` followed
/// by the escaped tags joined with the list separator.
pub open spec fn enc_tags(tags: Seq<Seq<char>>) -> Seq<char> {
    if tags.len() == 0 {
        Seq::empty()
    } else {
        seq!['+'] + join_fields(esc_tags(tags), list_sep())
    }
}

/// Unescapes every piece; `None` as soon as one piece is invalid.
pub open spec fn unescape_all(pieces: Seq<Seq<char>>) -> Option<Seq<Seq<char>>>
    decreases pieces.len(),
{
    if pieces.len() == 0 {
        Some(Seq::empty())
    } else {
        match (unescape_seq(pieces[0]), unescape_all(pieces.drop_first())) {
            (Some(t), Some(rest)) => Some(seq![t] + rest),
            _ => None,
        }
    }
}

/// The tag list named by a field, `None` on any other text.
pub open spec fn dec_tags(f: Seq<char>) -> Option<Seq<Seq<char>>> {
    if f.len() == 0 {
        Some(Seq::empty())
    } else if f[0] == '+' {
        unescape_all(split_fields(f.skip(1), list_sep()))
    } else {
        None
    }
}

/// Unescaping undoes escaping on every piece of a list.
pub proof fn lemma_unescape_all_esc(tags: Seq<Seq<char>>)
    ensures
        unescape_all(esc_tags(tags)) == Some(tags),
    decreases tags.len(),
{
    if tags.len() > 0 {
        assert(esc_tags(tags).drop_first() =~= esc_tags(tags.drop_first()));
        lemma_unescape_all_esc(tags.drop_first());
        lemma_unescape_escape(tags[0]);
        assert(seq![tags[0]] + tags.drop_first() =~= tags);
    }
}

/// A tag list field contains no record or field separator.
pub proof fn lemma_enc_tags_free(tags: Seq<Seq<char>>)
    ensures
        free_of(enc_tags(tags), field_sep()),
        free_of(enc_tags(tags), rec_sep()),
{
    if tags.len() > 0 {
        assert forall|i: int| 0 <= i < esc_tags(tags).len() implies free_of(
            #[trigger] esc_tags(tags)[i],
            field_sep(),
        ) && free_of(esc_tags(tags)[i], rec_sep()) by {
            lemma_escape_sep_free(tags[i]);
        }
        lemma_join_free(esc_tags(tags), list_sep(), field_sep());
        lemma_join_free(esc_tags(tags), list_sep(), rec_sep());
    }
}

/// Round trip for tag list fields.
pub proof fn lemma_tags_round_trip(tags: Seq<Seq<char>>)
    ensures
        dec_tags(enc_tags(tags)) == Some(tags),
{
    if tags.len() > 0 {
        let f = enc_tags(tags);
        assert(f[0] == '+');
        assert(f.skip(1) =~= join_fields(esc_tags(tags), list_sep()));
        assert forall|i: int| 0 <= i < esc_tags(tags).len() implies free_of(
            #[trigger] esc_tags(tags)[i],
            list_sep(),
        ) by {
            lemma_escape_sep_free(tags[i]);
        }
        lemma_split_of_join(esc_tags(tags), list_sep());
        lemma_unescape_all_esc(tags);
    }
}

/// Encodes a tag list field.
pub fn encode_tags(tags: &Vec<String>) -> (r: Vec<char>)
    ensures
        r@ == enc_tags(tags.deep_view()),
{
    if tags.len() == 0 {
        let r: Vec<char> = Vec::new();
        proof {
            assert(r@ =~= enc_tags(tags.deep_view()));
        }
        return r;
    }
    let mut pieces: Vec<Vec<char>> = Vec::new();
    let mut i: usize = 0;
    while i < tags.len()
        invariant
            i <= tags@.len(),
            pieces@.len() == i,
            forall|j: int| 0 <= j < i ==> #[trigger] pieces@[j]@ == escape_seq(tags@[j]@),
        decreases tags@.len() - i,
    {
        pieces.push(escape(&to_chars(tags[i].as_str())));
        i = i + 1;
    }
    proof {
        assert(pieces.deep_view() =~~= esc_tags(tags.deep_view()));
    }
    let joined = join_all(&pieces, ',');
    let mut r: Vec<char> = Vec::new();
    r.push('+');
    crate::text::extend_chars(&mut r, &joined);
    proof {
        assert(r@ =~= enc_tags(tags.deep_view()));
    }
    r
}

/// Decodes a tag list field; `None` on any text that is not a valid
/// field.
pub fn decode_tags(f: &Vec<char>) -> (r: Option<Vec<String>>)
    ensures
        match r {
            Some(ts) => dec_tags(f@) == Some(ts.deep_view()),
            None => dec_tags(f@) is None,
        },
{
    if f.len() == 0 {
        let ts: Vec<String> = Vec::new();
        proof {
            assert(ts.deep_view() =~= Seq::<Seq<char>>::empty());
        }
        return Some(ts);
    }
    if f[0] != '+' {
        return None;
    }
    let rest = sub_chars(f, 1, f.len());
    proof {
        assert(rest@ =~= f@.skip(1));
    }
    let pieces = split_all(&rest, ',');
    let ghost ps = pieces.deep_view();
    let mut out: Vec<String> = Vec::new();
    let mut i: usize = 0;
    proof {
        assert(ps.skip(0) =~= ps);
        assert(forall|r2: Seq<Seq<char>>| (Seq::<Seq<char>>::empty() + r2) =~= r2);
    }
    while i < pieces.len()
        invariant
            i <= pieces@.len(),
            ps == pieces.deep_view(),
            f@.len() > 0 && f@[0] == '+',
            ps == split_fields(f@.skip(1), list_sep()),
            unescape_all(ps) == (match unescape_all(ps.skip(i as int)) {
                Some(rem) => Some(out.deep_view() + rem),
                None => None::<Seq<Seq<char>>>,
            }),
        decreases pieces@.len() - i,
    {
        let ghost before = out.deep_view();
        proof {
            assert(ps.skip(i as int)[0] == ps[i as int]);
            assert(ps.skip(i as int).drop_first() =~= ps.skip(i + 1 as int));
            assert(ps[i as int] == pieces@[i as int]@);
        }
        match unescape(&pieces[i]) {
            Some(t) => {
                out.push(crate::text::chars_to_string(&t));
                proof {
                    assert(out.deep_view() =~~= before.push(t@));
                    assert(forall|x: Seq<char>, rem: Seq<Seq<char>>|
                        (before + (seq![x] + rem)) =~= (before.push(x) + rem));
                }
            },
            None => {
                proof {
                    assert(unescape_all(ps.skip(i as int)) is None);
                }
                return None;
            },
        }
        i = i + 1;
    }
    proof {
        assert(ps.skip(pieces@.len() as int) =~= Seq::<Seq<char>>::empty());
        assert(out.deep_view() + Seq::<Seq<char>>::empty() =~= out.deep_view());
    }
    Some(out)
}

use crate::model::{MetaView, VideoMeta};

/// Whether a metadata record's numeric fields fit their machine words;
/// every value built from a `VideoMeta` satisfies it.
pub open spec fn meta_ok(m: MetaView) -> bool {
    &&& 0 <= m.duration_seconds <= u64::MAX
    &&& i64::MIN <= m.published_at <= i64::MAX
    &&& i64::MIN <= m.fetched_at <= i64::MAX
}

/// The fields of a metadata record.
pub open spec fn meta_fields(m: MetaView) -> Seq<Seq<char>> {
    seq![
        escape_seq(m.id),
        escape_seq(m.title),
        escape_seq(m.channel),
        escape_seq(m.channel_id),
        escape_seq(m.duration),
        dec_of_nat(m.duration_seconds),
        dec_of_int(m.published_at),
        escape_seq(m.category_id),
        enc_tags(m.tags),
        dec_of_int(m.fetched_at),
        seq![bool_char(m.unavailable)],
    ]
}

/// The record line of a metadata record.
pub open spec fn enc_meta(m: MetaView) -> Seq<char> {
    join_fields(meta_fields(m), field_sep())
}

/// The metadata record named by a record line, `None` on any other text.
pub open spec fn dec_meta(line: Seq<char>) -> Option<MetaView> {
    let f = split_fields(line, field_sep());
    if f.len() != 11 {
        None
    } else {
        let id = unescape_seq(f[0]);
        let title = unescape_seq(f[1]);
        let channel = unescape_seq(f[2]);
        let channel_id = unescape_seq(f[3]);
        let duration = unescape_seq(f[4]);
        let dur_s = parse_u64_seq(f[5]);
        let pub_at = parse_i64_seq(f[6]);
        let cat = unescape_seq(f[7]);
        let tags = dec_tags(f[8]);
        let fet_at = parse_i64_seq(f[9]);
        let unav = dec_bool(f[10]);
        if id is Some && title is Some && channel is Some && channel_id is Some && duration is Some
            && dur_s is Some && pub_at is Some && cat is Some && tags is Some && fet_at is Some
            && unav is Some {
            Some(
                MetaView {
                    id: id->Some_0,
                    title: title->Some_0,
                    channel: channel->Some_0,
                    channel_id: channel_id->Some_0,
                    duration: duration->Some_0,
                    duration_seconds: dur_s->Some_0 as int,
                    published_at: pub_at->Some_0 as int,
                    category_id: cat->Some_0,
                    tags: tags->Some_0,
                    fetched_at: fet_at->Some_0 as int,
                    unavailable: unav->Some_0,
                },
            )
        } else {
            None
        }
    }
}

/// Every field of a metadata record is free of the field and record
/// separators.
pub proof fn lemma_meta_fields_free(m: MetaView)
    ensures
        forall|i: int|
            0 <= i < meta_fields(m).len() ==> free_of(#[trigger] meta_fields(m)[i], field_sep())
                && free_of(meta_fields(m)[i], rec_sep()),
{
    lemma_escape_sep_free(m.id);
    lemma_escape_sep_free(m.title);
    lemma_escape_sep_free(m.channel);
    lemma_escape_sep_free(m.channel_id);
    lemma_escape_sep_free(m.duration);
    if m.duration_seconds >= 0 {
        lemma_dec_of_nat_sep_free(m.duration_seconds);
    } else {
        lemma_dec_of_nat_sep_free(0);
        assert(dec_of_nat(m.duration_seconds) == dec_of_nat(0));
    }
    lemma_dec_of_int_sep_free(m.published_at);
    lemma_escape_sep_free(m.category_id);
    lemma_enc_tags_free(m.tags);
    lemma_dec_of_int_sep_free(m.fetched_at);
    assert(free_of(meta_fields(m)[10], field_sep()));
    assert(free_of(meta_fields(m)[10], rec_sep()));
}

/// An encoded metadata record contains no record separator.
pub proof fn lemma_enc_meta_line_free(m: MetaView)
    ensures
        free_of(enc_meta(m), rec_sep()),
{
    lemma_meta_fields_free(m);
    lemma_join_free(meta_fields(m), field_sep(), rec_sep());
}

/// Round trip for metadata records.
pub proof fn lemma_meta_round_trip(m: MetaView)
    requires
        meta_ok(m),
    ensures
        dec_meta(enc_meta(m)) == Some(m),
{
    let f = meta_fields(m);
    lemma_meta_fields_free(m);
    lemma_split_of_join(f, field_sep());
    lemma_unescape_escape(m.id);
    lemma_unescape_escape(m.title);
    lemma_unescape_escape(m.channel);
    lemma_unescape_escape(m.channel_id);
    lemma_unescape_escape(m.duration);
    lemma_parse_dec_u64(m.duration_seconds as u64);
    lemma_parse_dec_i64(m.published_at as i64);
    lemma_unescape_escape(m.category_id);
    lemma_tags_round_trip(m.tags);
    lemma_parse_dec_i64(m.fetched_at as i64);
}

/// Encodes one metadata record as a record line.
pub fn encode_meta(m: &VideoMeta) -> (r: Vec<char>)
    ensures
        r@ == enc_meta(m@),
{
    let mut fields: Vec<Vec<char>> = Vec::new();
    fields.push(escape(&to_chars(m.id.as_str())));
    fields.push(escape(&to_chars(m.title.as_str())));
    fields.push(escape(&to_chars(m.channel.as_str())));
    fields.push(escape(&to_chars(m.channel_id.as_str())));
    fields.push(escape(&to_chars(m.duration.as_str())));
    fields.push(enc_u64(m.duration_seconds));
    fields.push(enc_i64(m.published_at));
    fields.push(escape(&to_chars(m.category_id.as_str())));
    fields.push(encode_tags(&m.tags));
    fields.push(enc_i64(m.fetched_at));
    let mut unav_f: Vec<char> = Vec::new();
    if m.unavailable {
        unav_f.push('1');
    } else {
        unav_f.push('0');
    }
    proof {
        assert(unav_f@ =~= seq![bool_char(m@.unavailable)]);
    }
    fields.push(unav_f);
    proof {
        assert(fields.deep_view() =~~= meta_fields(m@));
    }
    join_all(&fields, '\t')
}

/// Decodes one record line as a metadata record; `None` on any text that
/// is not a valid record.
pub fn decode_meta(line: &Vec<char>) -> (r: Option<VideoMeta>)
    ensures
        match r {
            Some(m) => dec_meta(line@) == Some(m@),
            None => dec_meta(line@) is None,
        },
{
    let f = split_all(line, '\t');
    if f.len() != 11 {
        return None;
    }
    proof {
        assert forall|j: int| 0 <= j < 11 implies #[trigger] f.deep_view()[j] == f@[j]@ by {}
        assert(f@[5]@.subrange(0, f@[5]@.len() as int) =~= f@[5]@);
        assert(f@[6]@.subrange(0, f@[6]@.len() as int) =~= f@[6]@);
        assert(f@[9]@.subrange(0, f@[9]@.len() as int) =~= f@[9]@);
    }
    let id = match unescape(&f[0]) {
        Some(c) => c,
        None => {
            return None;
        },
    };
    let title = match unescape(&f[1]) {
        Some(c) => c,
        None => {
            return None;
        },
    };
    let channel = match unescape(&f[2]) {
        Some(c) => c,
        None => {
            return None;
        },
    };
    let channel_id = match unescape(&f[3]) {
        Some(c) => c,
        None => {
            return None;
        },
    };
    let duration = match unescape(&f[4]) {
        Some(c) => c,
        None => {
            return None;
        },
    };
    let dur_s = match parse_u64_range(&f[5], 0, f[5].len()) {
        Some(t) => t,
        None => {
            return None;
        },
    };
    let pub_at = match parse_i64_range(&f[6], 0, f[6].len()) {
        Some(t) => t,
        None => {
            return None;
        },
    };
    let cat = match unescape(&f[7]) {
        Some(c) => c,
        None => {
            return None;
        },
    };
    let tags = match decode_tags(&f[8]) {
        Some(t) => t,
        None => {
            return None;
        },
    };
    let fet_at = match parse_i64_range(&f[9], 0, f[9].len()) {
        Some(t) => t,
        None => {
            return None;
        },
    };
    let uf = &f[10];
    let unavailable = if uf.len() == 1 && uf[0] == '1' {
        true
    } else if uf.len() == 1 && uf[0] == '0' {
        false
    } else {
        return None;
    };
    Some(
        VideoMeta {
            id: crate::text::chars_to_string(&id),
            title: crate::text::chars_to_string(&title),
            channel: crate::text::chars_to_string(&channel),
            channel_id: crate::text::chars_to_string(&channel_id),
            duration: crate::text::chars_to_string(&duration),
            duration_seconds: dur_s,
            published_at: pub_at,
            category_id: crate::text::chars_to_string(&cat),
            tags,
            fetched_at: fet_at,
            unavailable,
        },
    )
}

} // verus!
