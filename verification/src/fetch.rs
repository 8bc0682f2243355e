//! The pure decisions of a metadata fetch: which ids are in scope, which
//! of them still need fetching, and how a batch of fetched records is
//! merged back into the cache. The network call itself lives outside the
//! library; these functions take its inputs and outputs as plain values.

use vstd::prelude::*;

use crate::metacache::{has_meta_id, last_meta_idx, MetaCache};
use crate::model::{Event, MetaView, VideoMeta};

verus! {

/// Whether some element of `s` is the string `id`.
pub open spec fn contains_str(s: Seq<Seq<char>>, id: Seq<char>) -> bool {
    exists|i: int| 0 <= i < s.len() && s[i] == id
}

/// Whether an id still needs a fetch against a cache: an id the cache
/// does not know always does; a cached id — tombstone or not — only when
/// the caller forces a re-fetch.
pub open spec fn keep_for_fetch(c: MetaCache, id: Seq<char>, force: bool) -> bool {
    !c.spec_has(id) || force
}

/// The ids of `ids` that still need a fetch, in order.
pub open spec fn scope_filter(ids: Seq<Seq<char>>, c: MetaCache, force: bool) -> Seq<Seq<char>>
    decreases ids.len(),
{
    if ids.len() == 0 {
        Seq::empty()
    } else {
        let rest = scope_filter(ids.drop_last(), c, force);
        if keep_for_fetch(c, ids.last(), force) {
            rest.push(ids.last())
        } else {
            rest
        }
    }
}

/// Tombstone suppression: an id is in the fetch scope exactly when it is
/// asked for and either the cache has no record of it — tombstones
/// count as records — or the caller forces a re-fetch.
pub proof fn lemma_scope_membership(ids: Seq<Seq<char>>, c: MetaCache, force: bool, id: Seq<char>)
    ensures
        contains_str(scope_filter(ids, c, force), id) <==> (contains_str(ids, id)
            && keep_for_fetch(c, id, force)),
    decreases ids.len(),
{
    if ids.len() > 0 {
        lemma_scope_membership(ids.drop_last(), c, force, id);
        let rest = scope_filter(ids.drop_last(), c, force);
        if keep_for_fetch(c, ids.last(), force) {
            assert forall|i: int|
                0 <= i < rest.push(ids.last()).len() && rest.push(ids.last())[i] == id implies (
            contains_str(ids, id) && keep_for_fetch(c, id, force)) by {
                if i < rest.len() {
                    assert(contains_str(rest, id));
                } else {
                    assert(id == ids.last());
                }
                lemma_contains_str_drop_last(ids, id);
            }
            if contains_str(ids, id) && keep_for_fetch(c, id, force) {
                if id == ids.last() {
                    assert(rest.push(ids.last())[rest.len() as int] == id);
                } else {
                    lemma_contains_str_drop_last(ids, id);
                    let i = choose|i: int| 0 <= i < rest.len() && rest[i] == id;
                    assert(rest.push(ids.last())[i] == id);
                }
            }
        } else {
            lemma_contains_str_drop_last(ids, id);
        }
    }
}

/// An id is in a list exactly when it is the last element or in the rest.
proof fn lemma_contains_str_drop_last(ids: Seq<Seq<char>>, id: Seq<char>)
    requires
        ids.len() > 0,
    ensures
        contains_str(ids, id) <==> (id == ids.last() || contains_str(ids.drop_last(), id)),
{
    if contains_str(ids, id) {
        let i = choose|i: int| 0 <= i < ids.len() && ids[i] == id;
        if i < ids.len() - 1 {
            assert(ids.drop_last()[i] == id);
        }
    }
    if contains_str(ids.drop_last(), id) {
        let i = choose|i: int| 0 <= i < ids.drop_last().len() && ids.drop_last()[i] == id;
        assert(ids[i] == id);
    }
}

/// Keeps the ids that still need a fetch: every id the cache does not
/// know, and — under force — every id asked for; cached ids, tombstones
/// included, are otherwise skipped.
pub fn fetch_scope(ids: &Vec<String>, cache: &MetaCache, force: bool) -> (r: Vec<String>)
    requires
        cache.wf(),
    ensures
        r.deep_view() == scope_filter(ids.deep_view(), *cache, force),
{
    let mut r: Vec<String> = Vec::new();
    let mut i: usize = 0;
    proof {
        assert(ids.deep_view().subrange(0, 0) =~= Seq::<Seq<char>>::empty());
        assert(r.deep_view() =~~= scope_filter(ids.deep_view().subrange(0, 0), *cache, force));
    }
    while i < ids.len()
        invariant
            i <= ids@.len(),
            cache.wf(),
            r.deep_view() == scope_filter(ids.deep_view().subrange(0, i as int), *cache, force),
        decreases ids@.len() - i,
    {
        let ghost before = r.deep_view();
        let keep = if force {
            true
        } else {
            match cache.get(ids[i].as_str()) {
                Some(_) => false,
                None => true,
            }
        };
        proof {
            let pre = ids.deep_view().subrange(0, i as int);
            let post = ids.deep_view().subrange(0, i + 1 as int);
            assert(post.drop_last() =~= pre);
            assert(post.last() == ids.deep_view()[i as int]);
            assert(keep == keep_for_fetch(*cache, ids.deep_view()[i as int], force));
        }
        if keep {
            r.push(ids[i].clone());
            proof {
                assert(r.deep_view() =~~= before.push(ids.deep_view()[i as int]));
            }
        }
        i = i + 1;
    }
    proof {
        assert(ids.deep_view().subrange(0, ids@.len() as int) =~= ids.deep_view());
    }
    r
}

/// The ids of `s`, first occurrences only, in first-occurrence order.
pub open spec fn dedup_keep_first(s: Seq<Seq<char>>) -> Seq<Seq<char>>
    decreases s.len(),
{
    if s.len() == 0 {
        Seq::empty()
    } else {
        let rest = dedup_keep_first(s.drop_last());
        if contains_str(s.drop_last(), s.last()) {
            rest
        } else {
            rest.push(s.last())
        }
    }
}

/// Deduplication keeps exactly the ids that occur.
pub proof fn lemma_dedup_membership(s: Seq<Seq<char>>, id: Seq<char>)
    ensures
        contains_str(dedup_keep_first(s), id) <==> contains_str(s, id),
    decreases s.len(),
{
    if s.len() > 0 {
        lemma_dedup_membership(s.drop_last(), id);
        lemma_contains_str_drop_last(s, id);
        let rest = dedup_keep_first(s.drop_last());
        if !contains_str(s.drop_last(), s.last()) {
            assert forall|i: int|
                0 <= i < rest.push(s.last()).len() && rest.push(s.last())[i] == id implies
            contains_str(s, id) by {
                if i < rest.len() {
                    assert(contains_str(rest, id));
                }
            }
            if contains_str(s, id) {
                if id == s.last() {
                    assert(rest.push(s.last())[rest.len() as int] == id);
                } else {
                    let i = choose|i: int| 0 <= i < rest.len() && rest[i] == id;
                    assert(rest.push(s.last())[i] == id);
                }
            }
        }
    }
}

/// Drops every repeated id, keeping first occurrences in order.
pub fn dedup_ids(ids: &Vec<String>) -> (r: Vec<String>)
    ensures
        r.deep_view() == dedup_keep_first(ids.deep_view()),
{
    let mut r: Vec<String> = Vec::new();
    let mut i: usize = 0;
    proof {
        assert(ids.deep_view().subrange(0, 0) =~= Seq::<Seq<char>>::empty());
        assert(r.deep_view() =~~= dedup_keep_first(ids.deep_view().subrange(0, 0)));
    }
    while i < ids.len()
        invariant
            i <= ids@.len(),
            r.deep_view() == dedup_keep_first(ids.deep_view().subrange(0, i as int)),
            forall|id: Seq<char>| #[trigger] contains_str(r.deep_view(), id) == contains_str(
                ids.deep_view().subrange(0, i as int),
                id,
            ),
        decreases ids@.len() - i,
    {
        let ghost before = r.deep_view();
        let ghost pre = ids.deep_view().subrange(0, i as int);
        let ghost post = ids.deep_view().subrange(0, i + 1 as int);
        proof {
            assert(post.drop_last() =~= pre);
            assert(post.last() == ids.deep_view()[i as int]);
        }
        let mut seen = false;
        let mut j: usize = 0;
        while j < r.len()
            invariant
                j <= r@.len(),
                i < ids@.len(),
                before == r.deep_view(),
                seen ==> contains_str(r.deep_view(), ids.deep_view()[i as int]),
                !seen ==> forall|k: int|
                    0 <= k < j ==> #[trigger] r.deep_view()[k] != ids.deep_view()[i as int],
            decreases r@.len() - j,
        {
            if r[j].as_str().eq(ids[i].as_str()) {
                proof {
                    assert(r.deep_view()[j as int] == ids.deep_view()[i as int]);
                }
                seen = true;
            }
            j = j + 1;
        }
        proof {
            if !seen {
                assert(!contains_str(before, ids.deep_view()[i as int]));
            }
            assert(contains_str(before, ids.deep_view()[i as int]) == contains_str(
                pre,
                ids.deep_view()[i as int],
            ));
            assert(seen == contains_str(pre, ids.deep_view()[i as int]));
        }
        if !seen {
            r.push(ids[i].clone());
            proof {
                assert(r.deep_view() =~~= before.push(ids.deep_view()[i as int]));
            }
        }
        proof {
            assert forall|id: Seq<char>| #[trigger] contains_str(r.deep_view(), id)
                == contains_str(post, id) by {
                assert(contains_str(before, id) == contains_str(pre, id));
                lemma_contains_str_drop_last(post, id);
                if seen {
                    assert(r.deep_view() == before);
                } else {
                    assert(r.deep_view().drop_last() =~= before);
                    lemma_contains_str_drop_last(r.deep_view(), id);
                    assert(r.deep_view().last() == post.last());
                }
            }
        }
        i = i + 1;
    }
    proof {
        assert(ids.deep_view().subrange(0, ids@.len() as int) =~= ids.deep_view());
    }
    r
}

/// Merges one fetch's results into the cache: every fetched record
/// replaces or creates the record for its id (a later record for the
/// same id winning), and every requested id the fetch did not return is
/// stored as a tombstone stamped `now`, so that later default-mode
/// fetches skip it. Every other record is untouched.
#[verifier::rlimit(50)]
pub fn apply_fetch_results(
    cache: &mut MetaCache,
    requested: &Vec<String>,
    fetched: &Vec<VideoMeta>,
    now: i64,
)
    requires
        old(cache).wf(),
    ensures
        final(cache).wf(),
        forall|id: Seq<char>|
            has_meta_id(fetched.deep_view(), id) ==> (#[trigger] final(cache).spec_has(id))
                && final(cache).spec_get(id) == fetched.deep_view()[last_meta_idx(
                fetched.deep_view(),
                id,
            )],
        forall|id: Seq<char>|
            !has_meta_id(fetched.deep_view(), id) && contains_str(requested.deep_view(), id)
                ==> (#[trigger] final(cache).spec_has(id)) && final(cache).spec_get(id)
                == crate::fetch::tomb_view(id, now as int),
        untouched_preserved(*final(cache), *old(cache), fetched.deep_view(), requested.deep_view()),
{
    let ghost fv = fetched.deep_view();
    let ghost rv = requested.deep_view();
    // First pass: upsert every fetched record, later records winning.
    let mut i: usize = 0;
    while i < fetched.len()
        invariant
            i <= fetched@.len(),
            fv == fetched.deep_view(),
            cache.wf(),
            forall|id: Seq<char>|
                has_meta_id(fv.subrange(0, i as int), id) ==> (#[trigger] cache.spec_has(id))
                    && cache.spec_get(id) == fv.subrange(0, i as int)[last_meta_idx(
                    fv.subrange(0, i as int),
                    id,
                )],
            forall|id: Seq<char>|
                !has_meta_id(fv.subrange(0, i as int), id) ==> (#[trigger] cache.spec_has(id))
                    == old(cache).spec_has(id) && (old(cache).spec_has(id) ==> cache.spec_get(id)
                    == old(cache).spec_get(id)),
        decreases fetched@.len() - i,
    {
        let m = fetched[i].clone();
        let ghost mv = m@;
        cache.insert(m);
        proof {
            let pre = fv.subrange(0, i as int);
            let post = fv.subrange(0, i + 1 as int);
            assert(post.drop_last() =~= pre);
            assert(post.last() == fv[i as int]);
            assert(mv == fv[i as int]);
            assert forall|id: Seq<char>| has_meta_id(post, id) implies (
            #[trigger] cache.spec_has(id)) && cache.spec_get(id) == post[last_meta_idx(
                post,
                id,
            )] by {
                crate::metacache::lemma_last_idx_push(pre, mv, id);
                if id == mv.id {
                    assert(post[last_meta_idx(post, id)] == mv);
                } else {
                    crate::metacache::lemma_last_meta_idx(pre, id);
                    assert(has_meta_id(pre, id));
                    assert(cache.spec_has(id));
                    assert(post[last_meta_idx(post, id)] == pre[last_meta_idx(pre, id)]);
                }
            }
            assert forall|id: Seq<char>| !has_meta_id(post, id) implies (
            #[trigger] cache.spec_has(id)) == old(cache).spec_has(id) && (old(
                cache,
            ).spec_has(id) ==> cache.spec_get(id) == old(cache).spec_get(id)) by {
                crate::metacache::lemma_last_idx_push(pre, mv, id);
                assert(id != mv.id) by {
                    if id == mv.id {
                        assert(post[post.len() - 1].id == id);
                    }
                }
            }
        }
        i = i + 1;
    }
    proof {
        assert(i as int == fetched@.len());
        assert(fv.subrange(0, i as int) =~= fv);
        assert forall|id: Seq<char>| has_meta_id(fv, id) implies (#[trigger] cache.spec_has(id))
            && cache.spec_get(id) == fv[last_meta_idx(fv, id)] by {
            let whole = fv.subrange(0, i as int);
            assert(has_meta_id(whole, id));
            assert(cache.spec_has(id) && cache.spec_get(id) == whole[last_meta_idx(whole, id)]);
        }
        assert forall|id: Seq<char>| !has_meta_id(fv, id) implies (#[trigger] cache.spec_has(id))
            == old(cache).spec_has(id) && (old(cache).spec_has(id) ==> cache.spec_get(id) == old(
            cache,
        ).spec_get(id)) by {
            assert(!has_meta_id(fv.subrange(0, i as int), id));
        }
        assert(rv.subrange(0, 0) =~= Seq::<Seq<char>>::empty());
    }
    // Second pass: store a tombstone for every requested id the fetch did
    // not return.
    let mut j: usize = 0;
    while j < requested.len()
        invariant
            j <= requested@.len(),
            fv == fetched.deep_view(),
            rv == requested.deep_view(),
            cache.wf(),
            forall|id: Seq<char>|
                has_meta_id(fv, id) ==> (#[trigger] cache.spec_has(id)) && cache.spec_get(id)
                    == fv[last_meta_idx(fv, id)],
            forall|id: Seq<char>|
                !has_meta_id(fv, id) && contains_str(rv.subrange(0, j as int), id) ==> (
                #[trigger] cache.spec_has(id)) && cache.spec_get(id) == tomb_view(id, now as int),
            untouched_preserved(*cache, *old(cache), fv, rv),
        decreases requested@.len() - j,
    {
        let ghost pre = rv.subrange(0, j as int);
        let ghost post = rv.subrange(0, j + 1 as int);

        // Is this requested id among the fetched records?
        let mut found = false;
        let mut k: usize = 0;
        while k < fetched.len()
            invariant
                k <= fetched@.len(),
                j < requested@.len(),
                fv == fetched.deep_view(),
                rv == requested.deep_view(),
                found ==> has_meta_id(fv, rv[j as int]),
                !found ==> forall|t: int| 0 <= t < k ==> (#[trigger] fv[t]).id != rv[j as int],
            decreases fetched@.len() - k,
        {
            if fetched[k].id.as_str().eq(requested[j].as_str()) {
                proof {
                    assert(fv[k as int].id == rv[j as int]);
                }
                found = true;
            }
            k = k + 1;
        }
        let ghost pre_cache = *cache;
        proof {
            assert(post.drop_last() =~= pre);
            assert(post.last() == rv[j as int]);
            assert forall|id: Seq<char>| has_meta_id(fv, id) implies (
            #[trigger] pre_cache.spec_has(id)) by {
                assert(cache.spec_has(id));
            }
            assert forall|id: Seq<char>|
                #![trigger pre_cache.spec_get(id)]
                has_meta_id(fv, id) implies pre_cache.spec_get(id) == fv[last_meta_idx(
                fv,
                id,
            )] by {
                assert(cache.spec_has(id) && cache.spec_get(id) == fv[last_meta_idx(fv, id)]);
            }
            assert forall|id: Seq<char>|
                !has_meta_id(fv, id) && contains_str(pre, id) implies (
            #[trigger] pre_cache.spec_has(id)) by {
                assert(cache.spec_has(id));
            }
            assert forall|id: Seq<char>|
                #![trigger pre_cache.spec_get(id)]
                !has_meta_id(fv, id) && contains_str(pre, id) implies pre_cache.spec_get(id)
                == tomb_view(id, now as int) by {
                assert(cache.spec_has(id) && cache.spec_get(id) == tomb_view(id, now as int));
            }
            assert(untouched_preserved(pre_cache, *old(cache), fv, rv)) by {
                assert(untouched_preserved(*cache, *old(cache), fv, rv));
            }
            assert(pre_cache.wf());
        }
        if !found {
            proof {
                assert(!has_meta_id(fv, rv[j as int]));
            }
            let tomb = VideoMeta::tombstone(requested[j].as_str(), now);
            proof {
                assert(tomb@.title =~= Seq::<char>::empty());
                assert(tomb@.channel =~= Seq::<char>::empty());
                assert(tomb@.channel_id =~= Seq::<char>::empty());
                assert(tomb@.duration =~= Seq::<char>::empty());
                assert(tomb@.category_id =~= Seq::<char>::empty());
                assert(tomb@.tags =~= Seq::<Seq<char>>::empty());
                assert(tomb@ == tomb_view(rv[j as int], now as int));
            }
            cache.insert(tomb);
        }
        proof {
            if found {
                assert(*cache == pre_cache);
            }
            assert(pre_cache.wf());
            assert forall|id: Seq<char>| has_meta_id(fv, id) implies (
            #[trigger] cache.spec_has(id)) && cache.spec_get(id) == fv[last_meta_idx(fv, id)] by {
                assert(pre_cache.spec_has(id));
                assert(pre_cache.spec_get(id) == fv[last_meta_idx(fv, id)]);
                if !found {
                    assert(id != rv[j as int]);
                    assert(cache.spec_has(id) == pre_cache.spec_has(id));
                    assert(cache.spec_get(id) == pre_cache.spec_get(id));
                }
            }
            assert forall|id: Seq<char>|
                !has_meta_id(fv, id) && contains_str(post, id) implies (
            #[trigger] cache.spec_has(id)) && cache.spec_get(id) == tomb_view(id, now as int) by {
                lemma_contains_str_drop_last(post, id);
                if id == rv[j as int] {
                    if found {
                        assert(has_meta_id(fv, id));
                    }
                } else {
                    assert(contains_str(pre, id));
                    assert(pre_cache.spec_has(id));
                    assert(pre_cache.spec_get(id) == tomb_view(id, now as int));
                    if !found {
                        assert(id != rv[j as int]);
                        assert(cache.spec_has(id) == pre_cache.spec_has(id));
                        assert(cache.spec_get(id) == pre_cache.spec_get(id));
                    }
                }
            }
            assert forall|id: Seq<char>|
                !has_meta_id(fv, id) && !contains_str(rv, id) implies (
            #[trigger] cache.spec_has(id)) == old(cache).spec_has(id) && (old(
                cache,
            ).spec_has(id) ==> cache.spec_get(id) == old(cache).spec_get(id)) by {
                assert(untouched_preserved(pre_cache, *old(cache), fv, rv));
                assert(rv[j as int] == rv[j as int]);
                assert(contains_str(rv, rv[j as int]));
                assert(id != rv[j as int]);
                assert(pre_cache.spec_has(id) == old(cache).spec_has(id));
                if old(cache).spec_has(id) {
                    assert(pre_cache.spec_get(id) == old(cache).spec_get(id));
                }
                if !found {
                    assert(cache.spec_has(id) == pre_cache.spec_has(id));
                    if pre_cache.spec_has(id) {
                        assert(cache.spec_get(id) == pre_cache.spec_get(id));
                    }
                }
            }
            assert(untouched_preserved(*cache, *old(cache), fv, rv));
        }
        j = j + 1;
    }
    proof {
        assert(rv.subrange(0, requested@.len() as int) =~= rv);
    }
}

/// Every id outside the fetch and outside the request keeps its old
/// lookup: present exactly when it was, with the same record.
pub open spec fn untouched_preserved(
    c: MetaCache,
    c0: MetaCache,
    fv: Seq<MetaView>,
    rv: Seq<Seq<char>>,
) -> bool {
    forall|id: Seq<char>|
        !has_meta_id(fv, id) && !contains_str(rv, id) ==> (#[trigger] c.spec_has(id))
            == c0.spec_has(id) && (c0.spec_has(id) ==> c.spec_get(id) == c0.spec_get(id))
}

/// The tombstone record for `id` stamped `now`.
pub open spec fn tomb_view(id: Seq<char>, now: int) -> MetaView {
    MetaView {
        id: id,
        title: Seq::empty(),
        channel: Seq::empty(),
        channel_id: Seq::empty(),
        duration: Seq::empty(),
        duration_seconds: 0,
        published_at: now,
        category_id: Seq::empty(),
        tags: Seq::empty(),
        fetched_at: now,
        unavailable: true,
    }
}

/// Combines the ids in scope for a fetch: the queued items' ids when the
/// queue is asked for (the default when no scope is named), then the
/// journal's ids when the history is asked for.
pub fn collect_ids_for_scope(
    queue_ids: &Vec<String>,
    history_events: &Vec<Event>,
    queue_flag: bool,
    history_flag: bool,
    all_flag: bool,
) -> (r: Vec<String>)
    ensures
        ({
            let use_queue = all_flag || queue_flag || !history_flag;
            let use_history = all_flag || history_flag;
            let q_part = if use_queue {
                queue_ids.deep_view()
            } else {
                Seq::<Seq<char>>::empty()
            };
            let h_part = if use_history {
                Seq::new(history_events.deep_view().len(), |i: int| history_events.deep_view()[i].video_id)
            } else {
                Seq::<Seq<char>>::empty()
            };
            r.deep_view() == q_part + h_part
        }),
{
    let use_queue = all_flag || queue_flag || !history_flag;
    let use_history = all_flag || history_flag;
    let mut r: Vec<String> = Vec::new();
    if use_queue {
        let mut i: usize = 0;
        while i < queue_ids.len()
            invariant
                i <= queue_ids@.len(),
                r@.len() == i,
                forall|j: int| 0 <= j < i ==> #[trigger] r.deep_view()[j] == queue_ids.deep_view()[j],
            decreases queue_ids@.len() - i,
        {
            let ghost before = r.deep_view();
            r.push(queue_ids[i].clone());
            proof {
                assert forall|j: int| 0 <= j <= i implies #[trigger] r.deep_view()[j]
                    == queue_ids.deep_view()[j] by {
                    if j < i {
                        assert(r.deep_view()[j] == before[j]);
                    } else {
                        assert(r.deep_view()[j] == queue_ids.deep_view()[i as int]);
                    }
                }
            }
            i = i + 1;
        }
    }
    let ghost qlen = r.deep_view().len();
    let ghost qpart = r.deep_view();
    if use_history {
        let mut i: usize = 0;
        while i < history_events.len()
            invariant
                i <= history_events@.len(),
                r@.len() == qlen + i,
                qpart == r.deep_view().subrange(0, qlen as int),
                forall|j: int|
                    0 <= j < i ==> #[trigger] r.deep_view()[qlen + j]
                        == history_events.deep_view()[j].video_id,
            decreases history_events@.len() - i,
        {
            let ghost before = r.deep_view();
            r.push(history_events[i].video_id.clone());
            proof {
                assert(r.deep_view() =~~= before.push(history_events.deep_view()[i as int].video_id));
                assert(qpart =~= r.deep_view().subrange(0, qlen as int));
                assert forall|j: int| 0 <= j <= i implies #[trigger] r.deep_view()[qlen + j]
                    == history_events.deep_view()[j].video_id by {
                    if j < i {
                        assert(r.deep_view()[qlen + j] == before[qlen + j]);
                    }
                }
            }
            i = i + 1;
        }
    }
    proof {
        let use_queue_g = all_flag || queue_flag || !history_flag;
        let use_history_g = all_flag || history_flag;
        let q_part = if use_queue_g {
            queue_ids.deep_view()
        } else {
            Seq::<Seq<char>>::empty()
        };
        let h_part = if use_history_g {
            Seq::new(history_events.deep_view().len(), |i: int| history_events.deep_view()[i].video_id)
        } else {
            Seq::<Seq<char>>::empty()
        };
        assert(qpart =~= q_part);
        assert(r.deep_view().len() == q_part.len() + h_part.len());
        assert forall|t: int| 0 <= t < r.deep_view().len() implies #[trigger] r.deep_view()[t] == (
        q_part + h_part)[t] by {
            if t < qlen {
                assert(r.deep_view().subrange(0, qlen as int)[t] == r.deep_view()[t]);
                assert(qpart[t] == q_part[t]);
            } else {
                let j = t - qlen;
                assert(r.deep_view()[qlen + j] == h_part[j]);
            }
        }
        assert(r.deep_view() =~= q_part + h_part);
    }
    r
}

} // verus!
