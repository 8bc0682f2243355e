//! The append-only event journal: building the record line and segment
//! name for one event, and reading every segment back in aggregate.
//!
//! Reading parses each line independently, silently discards unparsable
//! lines (a corrupt line is data loss of that one record, never a fatal
//! error), and sorts the surviving events by timestamp: segment
//! enumeration order and physical write order carry no meaning.

use vstd::prelude::*;

use crate::calendar::{ymd_from_ts, ymd_ok, MAX_TS};
use crate::codec::{dec_event, enc_event, encode_event, lemma_event_round_trip};
use crate::model::{Action, Event, EventView, Video};
use crate::numbers::{dec_of_nat, enc_u64};
use crate::text::{chars_to_string, rec_sep, split_all, split_fields, to_chars};

verus! {

/// The events named by one record line: one event for a valid line,
/// nothing for a corrupt one.
pub open spec fn line_events(l: Seq<char>) -> Seq<EventView> {
    match dec_event(l) {
        Some(e) => seq![e],
        None => Seq::empty(),
    }
}

/// The events named by a sequence of record lines, corrupt lines
/// skipped.
pub open spec fn events_of_lines(lines: Seq<Seq<char>>) -> Seq<EventView>
    decreases lines.len(),
{
    if lines.len() == 0 {
        Seq::empty()
    } else {
        line_events(lines[0]) + events_of_lines(lines.drop_first())
    }
}

/// The events named by one segment document.
pub open spec fn doc_events(doc: Seq<char>) -> Seq<EventView> {
    events_of_lines(split_fields(doc, rec_sep()))
}

/// The events named by a set of segment documents, in document order.
pub open spec fn events_of_docs(docs: Seq<Seq<char>>) -> Seq<EventView>
    decreases docs.len(),
{
    if docs.len() == 0 {
        Seq::empty()
    } else {
        doc_events(docs[0]) + events_of_docs(docs.drop_first())
    }
}

/// Whether the events are in ascending timestamp order.
pub open spec fn sorted_by_ts(s: Seq<EventView>) -> bool {
    forall|i: int, j: int| 0 <= i < j < s.len() ==> s[i].timestamp <= s[j].timestamp
}

/// One more line appends its events on the right.
pub proof fn lemma_events_of_lines_push(lines: Seq<Seq<char>>, l: Seq<char>)
    ensures
        events_of_lines(lines.push(l)) == events_of_lines(lines) + line_events(l),
    decreases lines.len(),
{
    if lines.len() == 0 {
        assert(lines.push(l).drop_first() =~= lines);
        assert(events_of_lines(lines.push(l)) =~= events_of_lines(lines) + line_events(l));
    } else {
        assert(lines.push(l).drop_first() =~= lines.drop_first().push(l));
        lemma_events_of_lines_push(lines.drop_first(), l);
        assert(events_of_lines(lines.push(l)) =~= events_of_lines(lines) + line_events(l));
    }
}

/// One more document appends its events on the right.
pub proof fn lemma_events_of_docs_push(docs: Seq<Seq<char>>, d: Seq<char>)
    ensures
        events_of_docs(docs.push(d)) == events_of_docs(docs) + doc_events(d),
    decreases docs.len(),
{
    if docs.len() == 0 {
        assert(docs.push(d).drop_first() =~= docs);
        assert(events_of_docs(docs.push(d)) =~= events_of_docs(docs) + doc_events(d));
    } else {
        assert(docs.push(d).drop_first() =~= docs.drop_first().push(d));
        lemma_events_of_docs_push(docs.drop_first(), d);
        assert(events_of_docs(docs.push(d)) =~= events_of_docs(docs) + doc_events(d));
    }
}

/// Corruption tolerance: making one line of a journal unparsable loses
/// exactly that line's record — the surviving lines still name exactly
/// their own events.
pub proof fn lemma_corrupt_line_skipped(lines: Seq<Seq<char>>, i: int, bad: Seq<char>)
    requires
        0 <= i < lines.len(),
        dec_event(bad) is None,
    ensures
        events_of_lines(lines.update(i, bad)) == events_of_lines(lines.remove(i)),
    decreases lines.len(),
{
    if i == 0 {
        assert(lines.update(0, bad)[0] == bad);
        assert(lines.update(0, bad).drop_first() =~= lines.remove(0));
        assert(events_of_lines(lines.update(i, bad)) =~= events_of_lines(lines.remove(i)));
    } else {
        assert(lines.update(i, bad).drop_first() =~= lines.drop_first().update(i - 1, bad));
        assert(lines.remove(i).drop_first() =~= lines.drop_first().remove(i - 1));
        assert(lines.remove(i)[0] == lines[0]);
        lemma_corrupt_line_skipped(lines.drop_first(), i - 1, bad);
        assert(events_of_lines(lines.update(i, bad)) =~= events_of_lines(lines.remove(i)));
    }
}

/// The record lines of a sequence of events.
pub open spec fn event_lines(es: Seq<EventView>) -> Seq<Seq<char>> {
    Seq::new(es.len(), |i: int| enc_event(es[i]))
}

/// Whether every timestamp of a sequence of events fits the machine
/// word; true of every sequence built from `Event` values.
pub open spec fn events_ok(es: Seq<EventView>) -> bool {
    forall|i: int|
        0 <= i < es.len() ==> {
            &&& i64::MIN <= (#[trigger] es[i]).timestamp <= i64::MAX
            &&& (es[i].time_in_queue_sec matches Some(t) ==> i64::MIN <= t <= i64::MAX)
        }
}

/// Reading the record lines of appended events yields exactly those
/// events: nothing is lost and nothing is invented.
pub proof fn lemma_journal_round_trip(es: Seq<EventView>)
    requires
        events_ok(es),
    ensures
        events_of_lines(event_lines(es)) == es,
    decreases es.len(),
{
    if es.len() > 0 {
        lemma_event_round_trip(es[0]);
        assert(event_lines(es).drop_first() =~= event_lines(es.drop_first()));
        assert(events_ok(es.drop_first())) by {
            assert(forall|i: int|
                0 <= i < es.drop_first().len() ==> es.drop_first()[i] == es[i + 1]);
        }
        lemma_journal_round_trip(es.drop_first());
        assert(seq![es[0]] + es.drop_first() =~= es);
    }
}

/// The record line appended for one event, ready to stand as one line of
/// a segment file.
pub fn journal_line(e: &Event) -> (s: String)
    ensures
        s@ == enc_event(e@),
        dec_event(s@) == Some(e@),
{
    proof {
        lemma_event_round_trip(e@);
    }
    chars_to_string(&encode_event(e))
}

/// The segment file name for an event timestamp: the calendar year, a
/// dash, the zero-padded month, and the `.log` extension.
pub fn segment_file_name(ts: i64) -> (s: String)
    requires
        0 <= ts <= MAX_TS,
    ensures
        exists|y: int, m: int|
            {
                &&& #[trigger] ymd_ok(ts as int / 86400, y, m, 1 + (ts as int / 86400
                    - crate::calendar::days_before_year(y) - crate::calendar::days_before_month(
                    y,
                    m,
                )))
                &&& s@ == dec_of_nat(y) + seq!['-'] + crate::numbers::two_digits(m) + seq!['.', 'l', 'o', 'g']
            },
{
    let (y, m, _d) = ymd_from_ts(ts);
    let mut out = enc_u64(y as u64);
    out.push('-');
    let md = crate::numbers::enc_two_digits(m as u64);
    crate::text::extend_chars(&mut out, &md);
    out.push('.');
    out.push('l');
    out.push('o');
    out.push('g');
    proof {
        let ghost days = ts as int / 86400;
        let ghost yy = y as int;
        let ghost mm = m as int;
        assert(out@ =~= dec_of_nat(yy) + seq!['-'] + crate::numbers::two_digits(mm) + seq![
            '.',
            'l',
            'o',
            'g',
        ]);
        assert(ymd_ok(days, yy, mm, 1 + (days - crate::calendar::days_before_year(yy)
            - crate::calendar::days_before_month(yy, mm))));
    }
    chars_to_string(&out)
}

// ---------------------------------------------------------------------
// Event construction
// ---------------------------------------------------------------------
/// The difference `a - b`, clamped into the machine word.
pub open spec fn sat_sub(a: int, b: int) -> int {
    if a - b > i64::MAX {
        i64::MAX as int
    } else if a - b < i64::MIN {
        i64::MIN as int
    } else {
        a - b
    }
}

/// The difference of two timestamps, clamped into the machine word.
pub fn sat_sub_i64(a: i64, b: i64) -> (r: i64)
    ensures
        r as int == sat_sub(a as int, b as int),
{
    let d: i128 = a as i128 - b as i128;
    if d > i64::MAX as i128 {
        i64::MAX
    } else if d < i64::MIN as i128 {
        i64::MIN
    } else {
        d as i64
    }
}

impl Event {
    /// The insertion event for an item queued at `now`.
    pub fn queued(video_id: &str, now: i64) -> (e: Event)
        ensures
            e@ == (EventView {
                timestamp: now as int,
                action: Action::Queued,
                video_id: video_id@,
                time_in_queue_sec: None,
            }),
    {
        Event {
            timestamp: now,
            action: Action::Queued,
            video_id: video_id.to_owned(),
            time_in_queue_sec: None,
        }
    }

    /// The consumption event for an item watched at `now`: it carries the
    /// time the item sat in the queue.
    pub fn watched(video: &Video, now: i64) -> (e: Event)
        ensures
            e@ == (EventView {
                timestamp: now as int,
                action: Action::Watched,
                video_id: video@.id,
                time_in_queue_sec: Some(sat_sub(now as int, video@.added_at)),
            }),
    {
        Event {
            timestamp: now,
            action: Action::Watched,
            video_id: video.id.clone(),
            time_in_queue_sec: Some(sat_sub_i64(now, video.added_at)),
        }
    }

    /// The removal event for an item skipped at `now`.
    pub fn skipped(video_id: &str, now: i64) -> (e: Event)
        ensures
            e@ == (EventView {
                timestamp: now as int,
                action: Action::Skipped,
                video_id: video_id@,
                time_in_queue_sec: None,
            }),
    {
        Event {
            timestamp: now,
            action: Action::Skipped,
            video_id: video_id.to_owned(),
            time_in_queue_sec: None,
        }
    }
}

// ---------------------------------------------------------------------
// Reading the journal back
// ---------------------------------------------------------------------
/// Collects the events of one segment document, skipping corrupt lines.
fn collect_doc_events(doc: &String, out: &mut Vec<Event>)
    ensures
        final(out).deep_view() == old(out).deep_view() + doc_events(doc@),
{
    let chars = to_chars(doc.as_str());
    let lines = split_all(&chars, '\n');
    let ghost ls = lines.deep_view();
    let mut i: usize = 0;
    proof {
        assert(ls.subrange(0, 0) =~= Seq::<Seq<char>>::empty());
        assert(old(out).deep_view() + Seq::<EventView>::empty() =~= old(out).deep_view());
    }
    while i < lines.len()
        invariant
            i <= lines@.len(),
            ls == lines.deep_view(),
            ls == split_fields(doc@, rec_sep()),
            out.deep_view() == old(out).deep_view() + events_of_lines(ls.subrange(0, i as int)),
        decreases lines@.len() - i,
    {
        let ghost before = out.deep_view();
        proof {
            assert(ls[i as int] == lines@[i as int]@);
            lemma_events_of_lines_push(ls.subrange(0, i as int), ls[i as int]);
            assert(ls.subrange(0, i as int).push(ls[i as int]) =~= ls.subrange(0, i + 1 as int));
        }
        match crate::codec::decode_event(&lines[i]) {
            Some(e) => {
                let ghost ev = e@;
                out.push(e);
                proof {
                    assert(out.deep_view() =~~= before.push(ev));
                    assert(line_events(ls[i as int]) =~= seq![ev]);
                    assert(before.push(ev) =~= before + seq![ev]);
                    assert(out.deep_view() =~= old(out).deep_view() + events_of_lines(
                        ls.subrange(0, i + 1 as int),
                    ));
                }
            },
            None => {
                proof {
                    assert(line_events(ls[i as int]) =~= Seq::<EventView>::empty());
                    assert(out.deep_view() =~= old(out).deep_view() + events_of_lines(
                        ls.subrange(0, i + 1 as int),
                    ));
                }
            },
        }
        i = i + 1;
    }
    proof {
        assert(ls.subrange(0, ls.len() as int) =~= ls);
    }
}

/// Sorts events ascending by timestamp; the multiset of events is
/// unchanged.
fn sort_events(src: Vec<Event>) -> (r: Vec<Event>)
    ensures
        sorted_by_ts(r.deep_view()),
        r.deep_view().to_multiset() == src.deep_view().to_multiset(),
{
    broadcast use vstd::seq_lib::group_to_multiset_ensures;

    let mut out: Vec<Event> = Vec::new();
    let mut src = src;
    proof {
        assert(src.deep_view().subrange(0, 0) =~= Seq::<EventView>::empty());
        assert(Seq::<EventView>::empty().to_multiset() =~= out.deep_view().to_multiset());
    }
    let n = src.len();
    let mut i: usize = 0;
    while i < n
        invariant
            n == src@.len(),
            i <= n,
            sorted_by_ts(out.deep_view()),
            out.deep_view().to_multiset() == src.deep_view().subrange(0, i as int).to_multiset(),
        decreases n - i,
    {
        let ghost before = out.deep_view();
        let e = src[i].clone();
        let ghost ev = e@;
        proof {
            assert(src.deep_view().subrange(0, i as int).push(ev) =~= src.deep_view().subrange(
                0,
                i + 1 as int,
            ));
        }
        // Find the first position whose timestamp exceeds the new event's.
        let mut p: usize = 0;
        while p < out.len() && out[p].timestamp <= e.timestamp
            invariant
                p <= out@.len(),
                ev == e@,
                forall|j: int| 0 <= j < p ==> (#[trigger] out.deep_view()[j]).timestamp
                    <= ev.timestamp,
            decreases out@.len() - p,
        {
            p = p + 1;
        }
        proof {
            assert(forall|j: int|
                p <= j < out.deep_view().len() ==> (#[trigger] out.deep_view()[j]).timestamp
                    > ev.timestamp) by {
                assert forall|j: int|
                    p <= j < out.deep_view().len() implies (
                #[trigger] out.deep_view()[j]).timestamp > ev.timestamp by {
                    if p < out.deep_view().len() {
                        assert(out.deep_view()[p as int].timestamp > ev.timestamp);
                        assert(sorted_by_ts(out.deep_view()));
                        if j > p {
                            assert(out.deep_view()[p as int].timestamp
                                <= out.deep_view()[j].timestamp);
                        }
                    }
                }
            }
        }
        out.insert(p, e);
        proof {
            assert(out.deep_view() =~~= before.insert(p as int, ev));
            assert(0 <= p as int <= before.len());
            vstd::seq_lib::to_multiset_insert(before, p as int, ev);
            assert(before.insert(p as int, ev).to_multiset() == before.to_multiset().insert(ev));
            let ghost pre = src.deep_view().subrange(0, i as int);
            vstd::seq_lib::to_multiset_build(pre, ev);
            assert(pre.push(ev).to_multiset() == pre.to_multiset().insert(ev));
            assert(out.deep_view().to_multiset() == src.deep_view().subrange(
                0,
                i + 1 as int,
            ).to_multiset());
            assert forall|a: int, b: int|
                0 <= a < b < out.deep_view().len() implies (
            #[trigger] out.deep_view()[a]).timestamp <= (#[trigger] out.deep_view()[b]).timestamp
                by {
                let s = before.insert(p as int, ev);
                assert(out.deep_view()[a] == s[a]);
            }
        }
        i = i + 1;
    }
    proof {
        assert(src.deep_view().subrange(0, n as int) =~= src.deep_view());
    }
    out
}

/// Reads the journal in aggregate: parses every line of every segment
/// document independently, silently discards unparsable lines, and
/// returns the surviving events sorted ascending by timestamp.
pub fn read_all(docs: &Vec<String>) -> (r: Vec<Event>)
    ensures
        sorted_by_ts(r.deep_view()),
        r.deep_view().to_multiset() == events_of_docs(docs.deep_view()).to_multiset(),
{
    let mut all: Vec<Event> = Vec::new();
    let mut i: usize = 0;
    proof {
        assert(docs.deep_view().subrange(0, 0) =~= Seq::<Seq<char>>::empty());
        assert(all.deep_view() =~= events_of_docs(docs.deep_view().subrange(0, 0)));
    }
    while i < docs.len()
        invariant
            i <= docs@.len(),
            all.deep_view() == events_of_docs(docs.deep_view().subrange(0, i as int)),
        decreases docs@.len() - i,
    {
        proof {
            assert(docs.deep_view()[i as int] == docs@[i as int]@);
            lemma_events_of_docs_push(
                docs.deep_view().subrange(0, i as int),
                docs.deep_view()[i as int],
            );
            assert(docs.deep_view().subrange(0, i as int).push(docs.deep_view()[i as int])
                =~= docs.deep_view().subrange(0, i + 1 as int));
        }
        collect_doc_events(&docs[i], &mut all);
        i = i + 1;
    }
    proof {
        assert(docs.deep_view().subrange(0, docs@.len() as int) =~= docs.deep_view());
    }
    sort_events(all)
}

} // verus!
