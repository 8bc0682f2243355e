//! The persistent store's document logic: the queue snapshot document and
//! the configuration document, and the read-modify-write steps that the
//! binary runs under the advisory file lock.
//!
//! A missing or unparsable queue document stands for an empty queue, and a
//! missing or unparsable configuration document for the default
//! configuration: corruption on the read path is data absence, never a
//! fatal error. Each `_step` function is the pure body of one critical
//! section: the caller reads the document under the lock, applies the
//! step, and — when the step hands a new document back — writes it in
//! full (atomically replacing the file) before releasing the lock.

use vstd::prelude::*;

use crate::codec::{
    dec_config, dec_video, decode_config, decode_video, enc_config, enc_video, encode_config,
    encode_video, lemma_config_round_trip, lemma_enc_video_line_free, lemma_video_round_trip,
};
use crate::model::{Config, ConfigView, Mode, Video, VideoView};
use crate::queue::{contains_id, idx_of_id, queue_add, select_next, take_at, take_next};
use crate::text::{
    chars_to_string, free_of, join_all, join_fields, lemma_split_of_join, rec_sep, split_all,
    split_fields, to_chars,
};

verus! {

/// The view of an optional document text.
pub open spec fn opt_str_view(doc: Option<String>) -> Option<Seq<char>> {
    match doc {
        Some(s) => Some(s@),
        None => None,
    }
}

// ---------------------------------------------------------------------
// The queue snapshot document
// ---------------------------------------------------------------------
/// The record lines of a queue snapshot.
pub open spec fn video_lines(q: Seq<VideoView>) -> Seq<Seq<char>> {
    Seq::new(q.len(), |i: int| enc_video(q[i]))
}

/// The queue snapshot document: one record line per item, in order.
pub open spec fn enc_queue_doc(q: Seq<VideoView>) -> Seq<char> {
    if q.len() == 0 {
        Seq::empty()
    } else {
        join_fields(video_lines(q), rec_sep())
    }
}

/// Decodes every line as a queued item; `None` as soon as one line is
/// invalid.
pub open spec fn dec_videos_all(lines: Seq<Seq<char>>) -> Option<Seq<VideoView>>
    decreases lines.len(),
{
    if lines.len() == 0 {
        Some(Seq::empty())
    } else {
        match (dec_video(lines[0]), dec_videos_all(lines.drop_first())) {
            (Some(v), Some(rest)) => Some(seq![v] + rest),
            _ => None,
        }
    }
}

/// The queue named by a snapshot document, `None` on any other text.
pub open spec fn dec_queue_doc(s: Seq<char>) -> Option<Seq<VideoView>> {
    if s.len() == 0 {
        Some(Seq::empty())
    } else {
        dec_videos_all(split_fields(s, rec_sep()))
    }
}

/// Whether every timestamp of the queue fits the machine word; true of
/// every queue built from `Video` values.
pub open spec fn queue_ok(q: Seq<VideoView>) -> bool {
    forall|i: int| 0 <= i < q.len() ==> i64::MIN <= (#[trigger] q[i]).added_at <= i64::MAX
}

/// The queue that a possibly missing or corrupt snapshot document stands
/// for: the decoded items, or the empty queue.
pub open spec fn queue_of_doc(doc: Option<Seq<char>>) -> Seq<VideoView> {
    match doc {
        None => Seq::empty(),
        Some(s) => match dec_queue_doc(s) {
            Some(q) => q,
            None => Seq::empty(),
        },
    }
}

/// Round trip for whole queue snapshots: decoding an encoded snapshot
/// yields the same items in the same order.
pub proof fn lemma_queue_doc_round_trip(q: Seq<VideoView>)
    requires
        queue_ok(q),
    ensures
        dec_queue_doc(enc_queue_doc(q)) == Some(q),
    decreases q.len(),
{
    if q.len() == 0 {
    } else {
        let lines = video_lines(q);
        assert forall|i: int| 0 <= i < lines.len() implies free_of(
            #[trigger] lines[i],
            rec_sep(),
        ) by {
            lemma_enc_video_line_free(q[i]);
        }
        lemma_split_of_join(lines, rec_sep());
        assert(enc_queue_doc(q).len() > 0) by {
            if enc_queue_doc(q).len() == 0 {
                assert(split_fields(enc_queue_doc(q), rec_sep()) == seq![enc_queue_doc(q)]);
                assert(lines.len() == 1);
                lemma_video_round_trip(q[0]);
                assert(dec_video(lines[0]) is Some);
                assert(dec_video(Seq::<char>::empty()) is None) by {
                    lemma_dec_video_nonempty();
                }
            }
        }
        lemma_dec_videos_all_lines(q);
    }
}

/// An empty line never decodes as a queued item.
pub proof fn lemma_dec_video_nonempty()
    ensures
        dec_video(Seq::<char>::empty()) is None,
{
    let s = Seq::<char>::empty();
    assert(split_fields(s, crate::text::field_sep()) == seq![s]);
}

/// Decoding each of the record lines of a queue yields the queue.
pub proof fn lemma_dec_videos_all_lines(q: Seq<VideoView>)
    requires
        queue_ok(q),
    ensures
        dec_videos_all(video_lines(q)) == Some(q),
    decreases q.len(),
{
    if q.len() > 0 {
        lemma_video_round_trip(q[0]);
        assert(video_lines(q).drop_first() =~= video_lines(q.drop_first()));
        assert(queue_ok(q.drop_first())) by {
            assert(forall|i: int|
                0 <= i < q.drop_first().len() ==> q.drop_first()[i] == q[i + 1]);
        }
        lemma_dec_videos_all_lines(q.drop_first());
        assert(seq![q[0]] + q.drop_first() =~= q);
    }
}

/// Encodes the queue as a snapshot document.
pub fn encode_queue_doc(q: &Vec<Video>) -> (s: String)
    ensures
        s@ == enc_queue_doc(q.deep_view()),
{
    if q.len() == 0 {
        let s = String::new();
        proof {
            assert(s@ =~= enc_queue_doc(q.deep_view()));
        }
        return s;
    }
    let mut lines: Vec<Vec<char>> = Vec::new();
    let mut i: usize = 0;
    while i < q.len()
        invariant
            i <= q@.len(),
            lines@.len() == i,
            forall|j: int| 0 <= j < i ==> #[trigger] lines@[j]@ == enc_video(q.deep_view()[j]),
        decreases q@.len() - i,
    {
        lines.push(encode_video(&q[i]));
        i = i + 1;
    }
    proof {
        assert(lines.deep_view() =~~= video_lines(q.deep_view()));
    }
    chars_to_string(&join_all(&lines, '\n'))
}

/// Loads the queue that a possibly missing document stands for: decodes
/// the snapshot, treating a missing or unparsable document as empty.
pub fn load_queue(doc: &Option<String>) -> (q: Vec<Video>)
    ensures
        q.deep_view() == queue_of_doc(opt_str_view(*doc)),
{
    let text = match doc {
        None => {
            let q: Vec<Video> = Vec::new();
            proof {
                assert(q.deep_view() =~~= queue_of_doc(opt_str_view(*doc)));
            }
            return q;
        },
        Some(t) => t,
    };
    let chars = to_chars(text.as_str());
    let empty_q: Vec<Video> = Vec::new();
    proof {
        assert(empty_q.deep_view() =~~= Seq::<VideoView>::empty());
    }
    if chars.len() == 0 {
        return empty_q;
    }
    let lines = split_all(&chars, '\n');
    let ghost ls = lines.deep_view();
    let ghost dtext = chars@;
    let mut q: Vec<Video> = Vec::new();
    let mut i: usize = 0;
    proof {
        assert(ls.skip(0) =~= ls);
        assert(forall|rest: Seq<VideoView>| (Seq::<VideoView>::empty() + rest) =~= rest);
    }
    while i < lines.len()
        invariant
            i <= lines@.len(),
            ls == lines.deep_view(),
            opt_str_view(*doc) == Some(dtext),
            dtext.len() > 0,
            ls == split_fields(dtext, rec_sep()),
            empty_q@.len() == 0,
            dec_videos_all(ls) == (match dec_videos_all(ls.skip(i as int)) {
                Some(rest) => Some(q.deep_view() + rest),
                None => None::<Seq<VideoView>>,
            }),
        decreases lines@.len() - i,
    {
        let ghost before = q.deep_view();
        proof {
            assert(ls.skip(i as int)[0] == ls[i as int]);
            assert(ls.skip(i as int).drop_first() =~= ls.skip(i + 1 as int));
            assert(ls[i as int] == lines@[i as int]@);
        }
        match decode_video(&lines[i]) {
            Some(v) => {
                let ghost vv = v@;
                q.push(v);
                proof {
                    assert(q.deep_view() =~~= before.push(vv));
                    assert(forall|x: VideoView, rem: Seq<VideoView>|
                        (before + (seq![x] + rem)) =~= (before.push(x) + rem));
                }
            },
            None => {
                proof {
                    assert(dec_videos_all(ls.skip(i as int)) is None);
                    assert(empty_q.deep_view() =~~= Seq::<VideoView>::empty());
                }
                return empty_q;
            },
        }
        i = i + 1;
    }
    proof {
        assert(ls.skip(lines@.len() as int) =~= Seq::<Seq<char>>::empty());
        assert(q.deep_view() + Seq::<VideoView>::empty() =~= q.deep_view());
    }
    q
}

// ---------------------------------------------------------------------
// The configuration document
// ---------------------------------------------------------------------
/// The default configuration: queue mode, offline, no key.
pub open spec fn default_config() -> ConfigView {
    ConfigView { mode: Mode::Queue, offline: true, youtube_api_key: None }
}

/// The configuration that a possibly missing or corrupt document stands
/// for: the decoded record, or the default.
pub open spec fn config_of_doc(doc: Option<Seq<char>>) -> ConfigView {
    match doc {
        None => default_config(),
        Some(s) => match dec_config(s) {
            Some(c) => c,
            None => default_config(),
        },
    }
}

/// Loads the configuration that a possibly missing document stands for,
/// treating a missing or unparsable document as the default.
pub fn load_config(doc: &Option<String>) -> (c: Config)
    ensures
        c@ == config_of_doc(opt_str_view(*doc)),
{
    let text = match doc {
        None => {
            return Config::default();
        },
        Some(t) => t,
    };
    let chars = to_chars(text.as_str());
    match decode_config(&chars) {
        Some(c) => c,
        None => Config::default(),
    }
}

/// Encodes the configuration as a document.
pub fn save_config(c: &Config) -> (s: String)
    ensures
        s@ == enc_config(c@),
        dec_config(s@) == Some(c@),
{
    proof {
        lemma_config_round_trip(c@);
    }
    chars_to_string(&encode_config(c))
}

// ---------------------------------------------------------------------
// Read-modify-write steps
// ---------------------------------------------------------------------
/// A domain failure of a queue step: the named item is not queued. The
/// prior on-disk state is left untouched by the caller.
#[derive(Clone, Copy, Debug, PartialEq, Eq, Structural)]
pub enum QueueError {
    NotFound,
}

/// One critical section of an insertion: decodes the snapshot, appends a
/// new item unless its identifier is already queued, and hands back the
/// new snapshot document and whether it added.
pub fn queue_add_step(doc: &Option<String>, id: &str, url: &str, now: i64) -> (r: (String, bool))
    ensures
        ({
            let q0 = queue_of_doc(opt_str_view(*doc));
            &&& r.1 == !contains_id(q0, id@)
            &&& (r.1 ==> r.0@ == enc_queue_doc(
                q0.push(VideoView { id: id@, url: url@, added_at: now as int }),
            ))
            &&& (!r.1 ==> r.0@ == enc_queue_doc(q0))
        }),
{
    let mut q = load_queue(doc);
    let added = queue_add(&mut q, id, url, now);
    (encode_queue_doc(&q), added)
}

/// One critical section of a mode-driven consumption: decodes the
/// snapshot, removes the next item under the given mode, and hands back
/// the new snapshot document and the removed item (`None` when the queue
/// was empty).
pub fn queue_take_next_step(doc: &Option<String>, mode: Mode) -> (r: (String, Option<Video>))
    ensures
        ({
            let q0 = queue_of_doc(opt_str_view(*doc));
            &&& (match r.1 {
                Some(v) => Some(v@),
                None => None,
            }) == select_next(q0, mode).0
            &&& r.0@ == enc_queue_doc(select_next(q0, mode).1)
        }),
{
    let mut q = load_queue(doc);
    let taken = take_next(&mut q, mode);
    (encode_queue_doc(&q), taken)
}

/// One critical section of a removal by identifier: decodes the
/// snapshot and removes the first item carrying `id`. On an empty queue
/// it hands back the empty snapshot and no item; when the identifier is
/// absent from a non-empty queue it fails, and the caller leaves the
/// prior on-disk state untouched.
pub fn queue_take_target_step(doc: &Option<String>, id: &str) -> (r: Result<
    (String, Option<Video>),
    QueueError,
>)
    ensures
        ({
            let q0 = queue_of_doc(opt_str_view(*doc));
            match r {
                Ok((s, taken)) => {
                    &&& (q0.len() == 0 ==> taken is None && s@ == enc_queue_doc(q0))
                    &&& (q0.len() > 0 ==> {
                        &&& contains_id(q0, id@)
                        &&& (match taken {
                            Some(v) => Some(v@),
                            None => None,
                        }) == Some(q0[idx_of_id(q0, id@)])
                        &&& s@ == enc_queue_doc(q0.remove(idx_of_id(q0, id@)))
                    })
                },
                Err(e) => e == QueueError::NotFound && q0.len() > 0 && !contains_id(q0, id@),
            }
        }),
{
    let mut q = load_queue(doc);
    if q.len() == 0 {
        return Ok((encode_queue_doc(&q), None));
    }
    match crate::queue::remove_by_id(&mut q, id) {
        Some(v) => Ok((encode_queue_doc(&q), Some(v))),
        None => Err(QueueError::NotFound),
    }
}

/// One critical section of a random consumption: decodes the snapshot
/// and removes the item at `k` modulo the length, so that any number
/// names some item of a non-empty queue.
pub fn queue_take_at_step(doc: &Option<String>, k: usize) -> (r: (String, Option<Video>))
    ensures
        ({
            let q0 = queue_of_doc(opt_str_view(*doc));
            &&& (q0.len() == 0 ==> r.1 is None && r.0@ == enc_queue_doc(q0))
            &&& (q0.len() > 0 ==> {
                let idx = k as int % q0.len() as int;
                &&& (match r.1 {
                    Some(v) => Some(v@),
                    None => None,
                }) == Some(q0[idx])
                &&& r.0@ == enc_queue_doc(q0.remove(idx))
            })
        }),
{
    let mut q = load_queue(doc);
    let taken = take_at(&mut q, k);
    (encode_queue_doc(&q), taken)
}

/// One critical section of a read: decodes the snapshot without changing
/// anything.
pub fn queue_read_step(doc: &Option<String>) -> (q: Vec<Video>)
    ensures
        q.deep_view() == queue_of_doc(opt_str_view(*doc)),
{
    load_queue(doc)
}

} // verus!
