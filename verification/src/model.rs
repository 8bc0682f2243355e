//! The data model: queued items, lifecycle events, metadata records and the
//! configuration record, with their mathematical views.
//!
//! Timestamps are plain integers: seconds since the Unix epoch, UTC.

use vstd::prelude::*;

verus! {

/// Selection discipline for taking the next item out of the queue:
/// `Queue` is first-in-first-out, `Stack` is last-in-first-out.
#[derive(Clone, Copy, Debug, PartialEq, Eq, Structural)]
pub enum Mode {
    Queue,
    Stack,
}

impl Default for Mode {
    fn default() -> (r: Self)
        ensures
            r == Mode::Queue,
    {
        Mode::Queue
    }
}

/// The configuration record: selection mode, offline flag, optional API key.
#[derive(Debug)]
pub struct Config {
    pub mode: Mode,
    pub offline: bool,
    pub youtube_api_key: Option<String>,
}

impl Default for Config {
    /// Missing configuration defaults to queue mode, offline, no key.
    fn default() -> (r: Self)
        ensures
            r.mode == Mode::Queue,
            r.offline == true,
            r.youtube_api_key is None,
    {
        Config { mode: Mode::Queue, offline: true, youtube_api_key: None }
    }
}

/// The mathematical value of a configuration record.
pub ghost struct ConfigView {
    pub mode: Mode,
    pub offline: bool,
    pub youtube_api_key: Option<Seq<char>>,
}

impl View for Config {
    type V = ConfigView;

    open spec fn view(&self) -> ConfigView {
        ConfigView {
            mode: self.mode,
            offline: self.offline,
            youtube_api_key: match self.youtube_api_key {
                Some(k) => Some(k@),
                None => None,
            },
        }
    }
}

impl Clone for Config {
    fn clone(&self) -> (r: Self)
        ensures
            r@ == self@,
    {
        Config {
            mode: self.mode,
            offline: self.offline,
            youtube_api_key: match &self.youtube_api_key {
                Some(k) => Some(k.clone()),
                None => None,
            },
        }
    }
}

impl Config {
    /// Resolves the effective API key from an environment value and the
    /// configured value: a non-empty environment value takes precedence,
    /// otherwise the configured value is used.
    pub fn resolve_api_key(env_val: Option<String>, config_val: &Option<String>) -> (r: Option<
        String,
    >)
        ensures
            r == (match env_val {
                Some(k) if k@.len() > 0 => Some(k),
                _ => *config_val,
            }),
    {
        match env_val {
            Some(k) => {
                if k.as_str().is_empty() {
                    config_val.clone()
                } else {
                    Some(k)
                }
            },
            None => config_val.clone(),
        }
    }
}

/// A queued item: the canonical identifier, the canonical resource URL,
/// and the insertion time in seconds since the Unix epoch.
#[derive(Debug)]
pub struct Video {
    pub id: String,
    pub url: String,
    pub added_at: i64,
}

/// The mathematical value of a queued item.
pub ghost struct VideoView {
    pub id: Seq<char>,
    pub url: Seq<char>,
    pub added_at: int,
}

impl View for Video {
    type V = VideoView;

    open spec fn view(&self) -> VideoView {
        VideoView { id: self.id@, url: self.url@, added_at: self.added_at as int }
    }
}

impl DeepView for Video {
    type V = VideoView;

    open spec fn deep_view(&self) -> VideoView {
        self.view()
    }
}

impl Clone for Video {
    fn clone(&self) -> (r: Self)
        ensures
            r@ == self@,
    {
        Video { id: self.id.clone(), url: self.url.clone(), added_at: self.added_at }
    }
}

/// A lifecycle transition recorded in the journal.
#[derive(Clone, Copy, Debug, PartialEq, Eq, Structural)]
pub enum Action {
    Queued,
    Watched,
    Skipped,
}

/// One journal record: when it happened, what happened, to which item,
/// and — for consumptions — how long the item sat in the queue.
#[derive(Debug)]
pub struct Event {
    pub timestamp: i64,
    pub action: Action,
    pub video_id: String,
    pub time_in_queue_sec: Option<i64>,
}

/// The mathematical value of a journal record.
pub ghost struct EventView {
    pub timestamp: int,
    pub action: Action,
    pub video_id: Seq<char>,
    pub time_in_queue_sec: Option<int>,
}

impl View for Event {
    type V = EventView;

    open spec fn view(&self) -> EventView {
        EventView {
            timestamp: self.timestamp as int,
            action: self.action,
            video_id: self.video_id@,
            time_in_queue_sec: match self.time_in_queue_sec {
                Some(t) => Some(t as int),
                None => None,
            },
        }
    }
}

impl DeepView for Event {
    type V = EventView;

    open spec fn deep_view(&self) -> EventView {
        self.view()
    }
}

impl Clone for Event {
    fn clone(&self) -> (r: Self)
        ensures
            r@ == self@,
    {
        Event {
            timestamp: self.timestamp,
            action: self.action,
            video_id: self.video_id.clone(),
            time_in_queue_sec: self.time_in_queue_sec,
        }
    }
}

/// A metadata record for one item, keyed by `id`. A record with
/// `unavailable == true` is a tombstone: its descriptive fields are empty
/// and it only marks the id as one the remote source could not resolve.
#[derive(Debug)]
pub struct VideoMeta {
    pub id: String,
    pub title: String,
    pub channel: String,
    pub channel_id: String,
    pub duration: String,
    pub duration_seconds: u64,
    pub published_at: i64,
    pub category_id: String,
    pub tags: Vec<String>,
    pub fetched_at: i64,
    pub unavailable: bool,
}

/// The mathematical value of a metadata record.
pub ghost struct MetaView {
    pub id: Seq<char>,
    pub title: Seq<char>,
    pub channel: Seq<char>,
    pub channel_id: Seq<char>,
    pub duration: Seq<char>,
    pub duration_seconds: int,
    pub published_at: int,
    pub category_id: Seq<char>,
    pub tags: Seq<Seq<char>>,
    pub fetched_at: int,
    pub unavailable: bool,
}

impl View for VideoMeta {
    type V = MetaView;

    open spec fn view(&self) -> MetaView {
        MetaView {
            id: self.id@,
            title: self.title@,
            channel: self.channel@,
            channel_id: self.channel_id@,
            duration: self.duration@,
            duration_seconds: self.duration_seconds as int,
            published_at: self.published_at as int,
            category_id: self.category_id@,
            tags: self.tags.deep_view(),
            fetched_at: self.fetched_at as int,
            unavailable: self.unavailable,
        }
    }
}

impl DeepView for VideoMeta {
    type V = MetaView;

    open spec fn deep_view(&self) -> MetaView {
        self.view()
    }
}

impl Clone for VideoMeta {
    fn clone(&self) -> (r: Self)
        ensures
            r@ == self@,
    {
        let mut tags: Vec<String> = Vec::new();
        let mut i: usize = 0;
        while i < self.tags.len()
            invariant
                i <= self.tags@.len(),
                tags@.len() == i,
                forall|j: int| 0 <= j < i ==> #[trigger] tags@[j]@ == self.tags@[j]@,
            decreases self.tags@.len() - i,
        {
            tags.push(self.tags[i].clone());
            i = i + 1;
        }
        proof {
            assert(tags.deep_view() =~~= self.tags.deep_view());
        }
        VideoMeta {
            id: self.id.clone(),
            title: self.title.clone(),
            channel: self.channel.clone(),
            channel_id: self.channel_id.clone(),
            duration: self.duration.clone(),
            duration_seconds: self.duration_seconds,
            published_at: self.published_at,
            category_id: self.category_id.clone(),
            tags,
            fetched_at: self.fetched_at,
            unavailable: self.unavailable,
        }
    }
}

impl VideoMeta {
    /// A tombstone record for `id`: empty descriptive fields, stamped with
    /// the fetch time, marked unavailable.
    pub fn tombstone(id: &str, now: i64) -> (r: VideoMeta)
        ensures
            r@.id == id@,
            r@.unavailable == true,
            r@.fetched_at == now as int,
            r@.published_at == now as int,
            r@.title.len() == 0,
            r@.channel.len() == 0,
            r@.channel_id.len() == 0,
            r@.duration.len() == 0,
            r@.duration_seconds == 0,
            r@.category_id.len() == 0,
            r@.tags.len() == 0,
    {
        VideoMeta {
            id: id.to_owned(),
            title: String::new(),
            channel: String::new(),
            channel_id: String::new(),
            duration: String::new(),
            duration_seconds: 0,
            published_at: now,
            category_id: String::new(),
            tags: Vec::new(),
            fetched_at: now,
            unavailable: true,
        }
    }
}

} // verus!
