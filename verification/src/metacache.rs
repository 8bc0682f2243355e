//! The metadata cache: a keyed store of enrichment records, one per item
//! id, with negative entries (tombstones) for ids the remote source could
//! not resolve. Records are merged by upsert: a later fetch always wins,
//! tombstones included. The whole cache is persisted as one document and
//! replaced wholesale; a missing or unparsable document stands for an
//! empty cache.

use vstd::prelude::*;

use crate::codec::{dec_meta, decode_meta, enc_meta, encode_meta, lemma_enc_meta_line_free,
    lemma_meta_round_trip, meta_ok};
use crate::model::{MetaView, VideoMeta};
use crate::text::{chars_to_string, free_of, join_all, join_fields, lemma_split_of_join, rec_sep,
    split_all, split_fields, to_chars};

verus! {

/// Whether some record of `s` carries the identifier `id`.
pub open spec fn has_meta_id(s: Seq<MetaView>, id: Seq<char>) -> bool {
    exists|i: int| 0 <= i < s.len() && s[i].id == id
}

/// The first position of `id` among the records, or the length when
/// absent.
pub open spec fn meta_idx(s: Seq<MetaView>, id: Seq<char>) -> int
    decreases s.len(),
{
    if s.len() == 0 {
        0
    } else if s[0].id == id {
        0
    } else {
        1 + meta_idx(s.drop_first(), id)
    }
}

/// The first position is a position of `id` when present, is minimal,
/// and is the length when `id` is absent.
pub proof fn lemma_meta_idx(s: Seq<MetaView>, id: Seq<char>)
    ensures
        0 <= meta_idx(s, id) <= s.len(),
        has_meta_id(s, id) ==> meta_idx(s, id) < s.len() && s[meta_idx(s, id)].id == id,
        !has_meta_id(s, id) ==> meta_idx(s, id) == s.len(),
        forall|j: int| 0 <= j < meta_idx(s, id) ==> s[j].id != id,
    decreases s.len(),
{
    if s.len() > 0 && s[0].id != id {
        lemma_meta_idx(s.drop_first(), id);
        assert forall|i: int| 0 <= i < s.len() && s[i].id == id implies has_meta_id(
            s.drop_first(),
            id,
        ) by {
            assert(s.drop_first()[i - 1] == s[i]);
        }
        assert forall|j: int| 0 <= j < meta_idx(s, id) implies s[j].id != id by {
            if j > 0 {
                assert(s.drop_first()[j - 1] == s[j]);
            }
        }
    }
}

/// The metadata cache: one record per id.
pub struct MetaCache {
    pub entries: Vec<VideoMeta>,
}

impl MetaCache {
    /// Well-formedness: no two records carry the same id.
    pub open spec fn wf(&self) -> bool {
        forall|i: int, j: int|
            0 <= i < j < self.entries.deep_view().len() ==> (#[trigger] self.entries.deep_view()[i]).id != (
            #[trigger] self.entries.deep_view()[j]).id
    }

    /// The records of the cache, in storage order.
    pub open spec fn view_seq(&self) -> Seq<MetaView> {
        self.entries.deep_view()
    }

    /// Whether the cache holds a record for `id`.
    pub open spec fn spec_has(&self, id: Seq<char>) -> bool {
        has_meta_id(self.view_seq(), id)
    }

    /// The record the cache holds for `id`.
    pub open spec fn spec_get(&self, id: Seq<char>) -> MetaView {
        self.view_seq()[meta_idx(self.view_seq(), id)]
    }

    /// An empty cache.
    pub fn new() -> (c: MetaCache)
        ensures
            c.wf(),
            c.view_seq().len() == 0,
    {
        MetaCache { entries: Vec::new() }
    }

    /// The number of records.
    pub fn len(&self) -> (n: usize)
        ensures
            n == self.view_seq().len(),
    {
        self.entries.len()
    }

    /// The record for `id`, when the cache holds one.
    pub fn get(&self, id: &str) -> (r: Option<&VideoMeta>)
        ensures
            match r {
                Some(m) => self.spec_has(id@) && m@ == self.spec_get(id@),
                None => !self.spec_has(id@),
            },
    {
        proof {
            lemma_meta_idx(self.view_seq(), id@);
        }
        let n = self.entries.len();
        let mut i: usize = 0;
        while i < n
            invariant
                n == self.entries@.len(),
                i <= n,
                forall|j: int| 0 <= j < i ==> (#[trigger] self.view_seq()[j]).id != id@,
            decreases n - i,
        {
            if self.entries[i].id.as_str().eq(id) {
                proof {
                    lemma_meta_idx(self.view_seq(), id@);
                    assert(self.view_seq()[i as int].id == id@);
                    assert(meta_idx(self.view_seq(), id@) == i as int) by {
                        assert(self.view_seq()[meta_idx(self.view_seq(), id@)].id == id@);
                    };
                }
                return Some(&self.entries[i]);
            }
            i = i + 1;
        }
        None
    }

    /// Upserts one record: replaces the record with the same id, or
    /// appends. The rest of the cache is untouched.
    pub fn insert(&mut self, m: VideoMeta)
        requires
            old(self).wf(),
        ensures
            final(self).wf(),
            final(self).spec_has(m@.id),
            final(self).spec_get(m@.id) == m@,
            forall|id: Seq<char>|
                id != m@.id ==> (#[trigger] final(self).spec_has(id)) == old(self).spec_has(id)
                    && (old(self).spec_has(id) ==> final(self).spec_get(id) == old(self).spec_get(
                    id,
                )),
    {
        let ghost s0 = self.view_seq();
        let ghost mv = m@;
        proof {
            lemma_meta_idx(s0, mv.id);
        }
        let n = self.entries.len();
        let mut i: usize = 0;
        while i < n
            invariant
                n == self.entries@.len(),
                *self == *old(self),
                old(self).wf(),
                s0 == self.view_seq(),
                mv == m@,
                i <= n,
                forall|j: int| 0 <= j < i ==> (#[trigger] s0[j]).id != mv.id,
            decreases n - i,
        {
            if self.entries[i].id.as_str().eq(m.id.as_str()) {
                proof {
                    assert(s0[i as int].id == mv.id);
                }
                self.entries.set(i, m);
                proof {
                    let s1 = self.view_seq();
                    assert(s1 =~~= s0.update(i as int, mv));
                    lemma_update_keeps(s0, i as int, mv);
                }
                return ;
            }
            i = i + 1;
        }
        self.entries.push(m);
        proof {
            let s1 = self.view_seq();
            assert(s1 =~~= s0.push(mv));
            lemma_push_keeps(s0, mv);
        }
    }
}

/// Replacing a record in place keeps well-formedness and leaves every
/// other id's lookup unchanged.
proof fn lemma_update_keeps(s: Seq<MetaView>, i: int, m: MetaView)
    requires
        0 <= i < s.len(),
        s[i].id == m.id,
        forall|a: int, b: int| 0 <= a < b < s.len() ==> (#[trigger] s[a]).id != (#[trigger] s[b]).id,
    ensures
        ({
            let t = s.update(i, m);
            &&& forall|a: int, b: int|
                0 <= a < b < t.len() ==> (#[trigger] t[a]).id != (#[trigger] t[b]).id
            &&& has_meta_id(t, m.id) && t[meta_idx(t, m.id)] == m
            &&& forall|id: Seq<char>|
                id != m.id ==> (#[trigger] has_meta_id(t, id)) == has_meta_id(s, id) && (
                has_meta_id(s, id) ==> t[meta_idx(t, id)] == s[meta_idx(s, id)])
        }),
{
    let t = s.update(i, m);
    assert forall|a: int, b: int| 0 <= a < b < t.len() implies (#[trigger] t[a]).id != (
    #[trigger] t[b]).id by {
        assert(s[a].id != s[b].id);
    }
    lemma_meta_idx(t, m.id);
    lemma_meta_idx(s, m.id);
    assert(has_meta_id(t, m.id)) by {
        assert(t[i] == m);
    }
    assert(meta_idx(t, m.id) == i) by {
        lemma_meta_idx_unique(t, m.id, i);
    }
    assert forall|id: Seq<char>| id != m.id implies (#[trigger] has_meta_id(t, id)) == has_meta_id(
        s,
        id,
    ) && (has_meta_id(s, id) ==> t[meta_idx(t, id)] == s[meta_idx(s, id)]) by {
        lemma_meta_idx(s, id);
        lemma_meta_idx(t, id);
        if has_meta_id(s, id) {
            let j = meta_idx(s, id);
            assert(t[j] == s[j]) by {
                assert(j != i) by {
                    assert(s[i].id == m.id);
                }
            }
            assert(has_meta_id(t, id)) by {
                assert(t[j].id == id);
            }
            lemma_meta_idx_unique(t, id, j);
        }
        if has_meta_id(t, id) {
            let j = meta_idx(t, id);
            assert(j != i);
            assert(s[j] == t[j]);
            assert(has_meta_id(s, id)) by {
                assert(s[j].id == id);
            }
        }
    }
}

/// Appending a record with a fresh id keeps well-formedness and leaves
/// every other id's lookup unchanged.
proof fn lemma_push_keeps(s: Seq<MetaView>, m: MetaView)
    requires
        !has_meta_id(s, m.id),
        forall|a: int, b: int| 0 <= a < b < s.len() ==> (#[trigger] s[a]).id != (#[trigger] s[b]).id,
    ensures
        ({
            let t = s.push(m);
            &&& forall|a: int, b: int|
                0 <= a < b < t.len() ==> (#[trigger] t[a]).id != (#[trigger] t[b]).id
            &&& has_meta_id(t, m.id) && t[meta_idx(t, m.id)] == m
            &&& forall|id: Seq<char>|
                id != m.id ==> (#[trigger] has_meta_id(t, id)) == has_meta_id(s, id) && (
                has_meta_id(s, id) ==> t[meta_idx(t, id)] == s[meta_idx(s, id)])
        }),
{
    let t = s.push(m);
    assert forall|a: int, b: int| 0 <= a < b < t.len() implies (#[trigger] t[a]).id != (
    #[trigger] t[b]).id by {
        if b < s.len() {
            assert(s[a].id != s[b].id);
        } else {
            assert(t[b] == m);
            assert(t[a] == s[a]);
            assert(s[a].id != m.id) by {
                if s[a].id == m.id {
                    assert(has_meta_id(s, m.id));
                }
            }
        }
    }
    lemma_meta_idx(t, m.id);
    assert(has_meta_id(t, m.id)) by {
        assert(t[s.len() as int] == m);
    }
    lemma_meta_idx_unique(t, m.id, s.len() as int);
    assert forall|id: Seq<char>| id != m.id implies (#[trigger] has_meta_id(t, id)) == has_meta_id(
        s,
        id,
    ) && (has_meta_id(s, id) ==> t[meta_idx(t, id)] == s[meta_idx(s, id)]) by {
        lemma_meta_idx(s, id);
        lemma_meta_idx(t, id);
        if has_meta_id(s, id) {
            let j = meta_idx(s, id);
            assert(t[j] == s[j]);
            assert(has_meta_id(t, id)) by {
                assert(t[j].id == id);
            }
            lemma_meta_idx_unique(t, id, j);
        }
        if has_meta_id(t, id) {
            let j = meta_idx(t, id);
            assert(t[j].id == id);
            assert(j < s.len()) by {
                if j == s.len() {
                    assert(t[j] == m);
                }
            }
            assert(has_meta_id(s, id)) by {
                assert(s[j].id == id);
            }
        }
    }
}

// ---------------------------------------------------------------------
// The metadata document
// ---------------------------------------------------------------------
/// The record lines of a metadata document.
pub open spec fn meta_lines(s: Seq<MetaView>) -> Seq<Seq<char>> {
    Seq::new(s.len(), |i: int| enc_meta(s[i]))
}

/// The metadata document: one record line per entry, in storage order.
pub open spec fn enc_meta_doc(s: Seq<MetaView>) -> Seq<char> {
    if s.len() == 0 {
        Seq::empty()
    } else {
        join_fields(meta_lines(s), rec_sep())
    }
}

/// Decodes every line as a metadata record; `None` as soon as one line
/// is invalid.
pub open spec fn dec_metas_all(lines: Seq<Seq<char>>) -> Option<Seq<MetaView>>
    decreases lines.len(),
{
    if lines.len() == 0 {
        Some(Seq::empty())
    } else {
        match (dec_meta(lines[0]), dec_metas_all(lines.drop_first())) {
            (Some(m), Some(rest)) => Some(seq![m] + rest),
            _ => None,
        }
    }
}

/// The records named by a metadata document, `None` on any other text.
pub open spec fn dec_meta_doc(s: Seq<char>) -> Option<Seq<MetaView>> {
    if s.len() == 0 {
        Some(Seq::empty())
    } else {
        dec_metas_all(split_fields(s, rec_sep()))
    }
}

/// Whether every record's numeric fields fit their machine words.
pub open spec fn metas_ok(s: Seq<MetaView>) -> bool {
    forall|i: int| 0 <= i < s.len() ==> meta_ok(#[trigger] s[i])
}

/// The record list that a possibly missing or corrupt metadata document
/// stands for: the decoded records, or nothing.
pub open spec fn metas_of_doc(doc: Option<Seq<char>>) -> Seq<MetaView> {
    match doc {
        None => Seq::empty(),
        Some(s) => match dec_meta_doc(s) {
            Some(l) => l,
            None => Seq::empty(),
        },
    }
}

/// An empty line never decodes as a metadata record.
pub proof fn lemma_dec_meta_nonempty()
    ensures
        dec_meta(Seq::<char>::empty()) is None,
{
    let s = Seq::<char>::empty();
    assert(split_fields(s, crate::text::field_sep()) == seq![s]);
}

/// Decoding each of the record lines of a cache yields the records.
pub proof fn lemma_dec_metas_all_lines(s: Seq<MetaView>)
    requires
        metas_ok(s),
    ensures
        dec_metas_all(meta_lines(s)) == Some(s),
    decreases s.len(),
{
    if s.len() > 0 {
        lemma_meta_round_trip(s[0]);
        assert(meta_lines(s).drop_first() =~= meta_lines(s.drop_first()));
        assert(metas_ok(s.drop_first())) by {
            assert(forall|i: int|
                0 <= i < s.drop_first().len() ==> s.drop_first()[i] == s[i + 1]);
        }
        lemma_dec_metas_all_lines(s.drop_first());
        assert(seq![s[0]] + s.drop_first() =~= s);
    }
}

/// Round trip for whole metadata documents: decoding an encoded document
/// yields the same records in the same order.
pub proof fn lemma_meta_doc_round_trip(s: Seq<MetaView>)
    requires
        metas_ok(s),
    ensures
        dec_meta_doc(enc_meta_doc(s)) == Some(s),
{
    if s.len() > 0 {
        let lines = meta_lines(s);
        assert forall|i: int| 0 <= i < lines.len() implies free_of(
            #[trigger] lines[i],
            rec_sep(),
        ) by {
            lemma_enc_meta_line_free(s[i]);
        }
        lemma_split_of_join(lines, rec_sep());
        assert(enc_meta_doc(s).len() > 0) by {
            if enc_meta_doc(s).len() == 0 {
                assert(split_fields(enc_meta_doc(s), rec_sep()) == seq![enc_meta_doc(s)]);
                assert(lines.len() == 1);
                lemma_meta_round_trip(s[0]);
                lemma_dec_meta_nonempty();
            }
        }
        lemma_dec_metas_all_lines(s);
    }
}

/// Encodes the cache as a metadata document.
pub fn save_metadata(c: &MetaCache) -> (s: String)
    ensures
        s@ == enc_meta_doc(c.view_seq()),
{
    if c.entries.len() == 0 {
        let s = String::new();
        proof {
            assert(s@ =~= enc_meta_doc(c.view_seq()));
        }
        return s;
    }
    let mut lines: Vec<Vec<char>> = Vec::new();
    let mut i: usize = 0;
    while i < c.entries.len()
        invariant
            i <= c.entries@.len(),
            lines@.len() == i,
            forall|j: int| 0 <= j < i ==> #[trigger] lines@[j]@ == enc_meta(c.view_seq()[j]),
        decreases c.entries@.len() - i,
    {
        lines.push(encode_meta(&c.entries[i]));
        i = i + 1;
    }
    proof {
        assert(lines.deep_view() =~~= meta_lines(c.view_seq()));
    }
    chars_to_string(&join_all(&lines, '\n'))
}

/// The position of the last record carrying `id`, or zero when absent.
pub open spec fn last_meta_idx(s: Seq<MetaView>, id: Seq<char>) -> int
    decreases s.len(),
{
    if s.len() == 0 {
        0
    } else if s.last().id == id {
        s.len() - 1
    } else {
        last_meta_idx(s.drop_last(), id)
    }
}

/// The last position of a present id names a record carrying it.
pub proof fn lemma_last_meta_idx(s: Seq<MetaView>, id: Seq<char>)
    requires
        has_meta_id(s, id),
    ensures
        0 <= last_meta_idx(s, id) < s.len(),
        s[last_meta_idx(s, id)].id == id,
    decreases s.len(),
{
    if s.last().id != id {
        assert(has_meta_id(s.drop_last(), id)) by {
            let i = choose|i: int| 0 <= i < s.len() && s[i].id == id;
            assert(s.drop_last()[i] == s[i]);
        }
        lemma_last_meta_idx(s.drop_last(), id);
        assert(s[last_meta_idx(s, id)] == s.drop_last()[last_meta_idx(s.drop_last(), id)]);
    }
}

/// One more record moves the last position of its own id to the end and
/// leaves every other id's last position alone.
pub proof fn lemma_last_idx_push(s: Seq<MetaView>, m: MetaView, id: Seq<char>)
    ensures
        m.id == id ==> last_meta_idx(s.push(m), id) == s.len() && has_meta_id(s.push(m), id),
        m.id != id ==> last_meta_idx(s.push(m), id) == last_meta_idx(s, id) && has_meta_id(
            s.push(m),
            id,
        ) == has_meta_id(s, id),
{
    let t = s.push(m);
    assert(t.last() == m);
    assert(t.drop_last() =~= s);
    if m.id == id {
        assert(t[s.len() as int] == m);
        assert(has_meta_id(t, id));
    } else {
        assert forall|i: int| 0 <= i < t.len() && t[i].id == id implies has_meta_id(s, id) by {
            assert(i < s.len());
            assert(s[i] == t[i]);
        }
        assert forall|i: int| 0 <= i < s.len() && s[i].id == id implies has_meta_id(t, id) by {
            assert(t[i] == s[i]);
        }
    }
}

/// Loads the cache that a possibly missing metadata document stands for:
/// decodes the records (a missing or unparsable document stands for
/// none) and merges them in order, a later record for an id replacing an
/// earlier one.
pub fn load_metadata(doc: &Option<String>) -> (c: MetaCache)
    ensures
        c.wf(),
        ({
            let list = metas_of_doc(crate::store::opt_str_view(*doc));
            &&& (forall|id: Seq<char>| #[trigger] c.spec_has(id) == has_meta_id(list, id))
            &&& (forall|id: Seq<char>|
                has_meta_id(list, id) ==> #[trigger] c.spec_get(id) == list[last_meta_idx(
                    list,
                    id,
                )])
        }),
{
    let list = decode_meta_list(doc);
    let ghost lv = list.deep_view();
    let mut c = MetaCache::new();
    let mut i: usize = 0;
    proof {
        assert(lv.subrange(0, 0) =~= Seq::<MetaView>::empty());
    }
    while i < list.len()
        invariant
            i <= list@.len(),
            lv == list.deep_view(),
            c.wf(),
            forall|id: Seq<char>| #[trigger] c.spec_has(id) == has_meta_id(
                lv.subrange(0, i as int),
                id,
            ),
            forall|id: Seq<char>|
                has_meta_id(lv.subrange(0, i as int), id) ==> #[trigger] c.spec_get(id)
                    == lv.subrange(0, i as int)[last_meta_idx(lv.subrange(0, i as int), id)],
        decreases list@.len() - i,
    {
        let m = list[i].clone();
        let ghost mv = m@;
        c.insert(m);
        proof {
            let pre = lv.subrange(0, i as int);
            let post = lv.subrange(0, i + 1 as int);
            assert(pre.push(lv[i as int]) =~= post);
            assert(mv == lv[i as int]);
            assert forall|id: Seq<char>| #[trigger] c.spec_has(id) == has_meta_id(post, id) by {
                lemma_last_idx_push(pre, mv, id);
            }
            assert forall|id: Seq<char>| has_meta_id(post, id) implies #[trigger] c.spec_get(id)
                == post[last_meta_idx(post, id)] by {
                lemma_last_idx_push(pre, mv, id);
                if id == mv.id {
                    assert(post[last_meta_idx(post, id)] == mv);
                } else {
                    lemma_last_meta_idx(pre, id);
                    assert(has_meta_id(pre, id));
                    assert(c.spec_has(id));
                    assert(post[last_meta_idx(post, id)] == pre[last_meta_idx(pre, id)]);
                }
            }
        }
        i = i + 1;
    }
    proof {
        assert(lv.subrange(0, list@.len() as int) =~= lv);
    }
    c
}

/// Decodes the record list of a metadata document, treating a missing or
/// unparsable document as empty.
fn decode_meta_list(doc: &Option<String>) -> (list: Vec<VideoMeta>)
    ensures
        list.deep_view() == metas_of_doc(crate::store::opt_str_view(*doc)),
{
    let text = match doc {
        None => {
            let l: Vec<VideoMeta> = Vec::new();
            proof {
                assert(l.deep_view() =~~= metas_of_doc(crate::store::opt_str_view(*doc)));
            }
            return l;
        },
        Some(t) => t,
    };
    let chars = to_chars(text.as_str());
    let empty_l: Vec<VideoMeta> = Vec::new();
    proof {
        assert(empty_l.deep_view() =~~= Seq::<MetaView>::empty());
    }
    if chars.len() == 0 {
        return empty_l;
    }
    let lines = split_all(&chars, '\n');
    let ghost ls = lines.deep_view();
    let ghost dtext = chars@;
    let mut out: Vec<VideoMeta> = Vec::new();
    let mut i: usize = 0;
    proof {
        assert(ls.skip(0) =~= ls);
        assert(forall|rest: Seq<MetaView>| (Seq::<MetaView>::empty() + rest) =~= rest);
    }
    while i < lines.len()
        invariant
            i <= lines@.len(),
            ls == lines.deep_view(),
            crate::store::opt_str_view(*doc) == Some(dtext),
            dtext.len() > 0,
            ls == split_fields(dtext, rec_sep()),
            empty_l@.len() == 0,
            dec_metas_all(ls) == (match dec_metas_all(ls.skip(i as int)) {
                Some(rest) => Some(out.deep_view() + rest),
                None => None::<Seq<MetaView>>,
            }),
        decreases lines@.len() - i,
    {
        let ghost before = out.deep_view();
        proof {
            assert(ls.skip(i as int)[0] == ls[i as int]);
            assert(ls.skip(i as int).drop_first() =~= ls.skip(i + 1 as int));
            assert(ls[i as int] == lines@[i as int]@);
        }
        match decode_meta(&lines[i]) {
            Some(m) => {
                let ghost mv = m@;
                out.push(m);
                proof {
                    assert(out.deep_view() =~~= before.push(mv));
                    assert(forall|x: MetaView, rem: Seq<MetaView>|
                        (before + (seq![x] + rem)) =~= (before.push(x) + rem));
                }
            },
            None => {
                proof {
                    assert(dec_metas_all(ls.skip(i as int)) is None);
                    assert(empty_l.deep_view() =~~= Seq::<MetaView>::empty());
                }
                return empty_l;
            },
        }
        i = i + 1;
    }
    proof {
        assert(ls.skip(lines@.len() as int) =~= Seq::<Seq<char>>::empty());
        assert(out.deep_view() + Seq::<MetaView>::empty() =~= out.deep_view());
    }
    out
}

/// In a well-formed record list the last position of an id is its first:
/// there is only one.
proof fn lemma_unique_last_is_first(s: Seq<MetaView>, id: Seq<char>)
    requires
        has_meta_id(s, id),
        forall|a: int, b: int| 0 <= a < b < s.len() ==> (#[trigger] s[a]).id != (#[trigger] s[b]).id,
    ensures
        last_meta_idx(s, id) == meta_idx(s, id),
{
    lemma_last_meta_idx(s, id);
    lemma_meta_idx(s, id);
    let l = last_meta_idx(s, id);
    let f = meta_idx(s, id);
    if f < l {
        assert(s[f].id != s[l].id);
    }
    if l < f {
        assert(s[l].id != s[f].id);
    }
}

/// Round trip for the whole cache: saving and loading a well-formed cache
/// yields the same mapping — the same ids, each with the same record.
pub proof fn lemma_cache_round_trip(c: MetaCache)
    requires
        c.wf(),
        metas_ok(c.view_seq()),
    ensures
        ({
            let list = metas_of_doc(Some(enc_meta_doc(c.view_seq())));
            &&& list == c.view_seq()
            &&& forall|id: Seq<char>| #[trigger] has_meta_id(list, id) == c.spec_has(id)
            &&& forall|id: Seq<char>|
                has_meta_id(list, id) ==> #[trigger] list[last_meta_idx(list, id)] == c.spec_get(
                    id,
                )
        }),
{
    lemma_meta_doc_round_trip(c.view_seq());
    let list = metas_of_doc(Some(enc_meta_doc(c.view_seq())));
    assert(list == c.view_seq());
    assert forall|id: Seq<char>| has_meta_id(list, id) implies #[trigger] list[last_meta_idx(
        list,
        id,
    )] == c.spec_get(id) by {
        lemma_unique_last_is_first(list, id);
    }
}

/// In a well-formed record list the position of an id is the only one
/// carrying it.
proof fn lemma_meta_idx_unique(s: Seq<MetaView>, id: Seq<char>, i: int)
    requires
        0 <= i < s.len(),
        s[i].id == id,
        forall|a: int, b: int| 0 <= a < b < s.len() ==> (#[trigger] s[a]).id != (#[trigger] s[b]).id,
    ensures
        meta_idx(s, id) == i,
{
    lemma_meta_idx(s, id);
    assert(has_meta_id(s, id));
    let j = meta_idx(s, id);
    if j < i {
        assert(s[j].id != s[i].id);
    }
    if j > i {
        assert(s[i].id != s[j].id);
    }
}

} // verus!
