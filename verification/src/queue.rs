//! Pure operations on the ordered queue of items: guarded insertion,
//! mode-driven selection of the next item, removal by identifier, and
//! peeking. Selection under `Mode::Queue` is first-in-first-out; under
//! `Mode::Stack` it is last-in-first-out, and the drain-order laws below
//! prove that discipline for whole queues.

use vstd::prelude::*;

use crate::model::{Mode, Video, VideoView};

verus! {

/// Whether some item of `q` carries the identifier `id`.
pub open spec fn contains_id(q: Seq<VideoView>, id: Seq<char>) -> bool {
    exists|i: int| 0 <= i < q.len() && q[i].id == id
}

/// The first position of `id` in `q`, or the length when absent.
pub open spec fn idx_of_id(q: Seq<VideoView>, id: Seq<char>) -> int
    decreases q.len(),
{
    if q.len() == 0 {
        0
    } else if q[0].id == id {
        0
    } else {
        1 + idx_of_id(q.drop_first(), id)
    }
}

/// The first position is a position of `id` when present, is minimal,
/// and is the length when `id` is absent.
pub proof fn lemma_idx_of_id(q: Seq<VideoView>, id: Seq<char>)
    ensures
        0 <= idx_of_id(q, id) <= q.len(),
        contains_id(q, id) ==> idx_of_id(q, id) < q.len() && q[idx_of_id(q, id)].id == id,
        !contains_id(q, id) ==> idx_of_id(q, id) == q.len(),
        forall|j: int| 0 <= j < idx_of_id(q, id) ==> q[j].id != id,
    decreases q.len(),
{
    if q.len() > 0 && q[0].id != id {
        lemma_idx_of_id(q.drop_first(), id);
        assert forall|i: int| 0 <= i < q.len() && q[i].id == id implies contains_id(
            q.drop_first(),
            id,
        ) by {
            assert(q.drop_first()[i - 1] == q[i]);
        }
        assert forall|j: int| 0 <= j < idx_of_id(q, id) implies q[j].id != id by {
            if j > 0 {
                assert(q.drop_first()[j - 1] == q[j]);
            }
        }
    }
}

/// Appends a new item built from `id`, `url` and `now` unless an item
/// with the same identifier is already queued; reports whether it added.
pub fn queue_add(queue: &mut Vec<Video>, id: &str, url: &str, now: i64) -> (added: bool)
    ensures
        added == !contains_id(old(queue).deep_view(), id@),
        added ==> final(queue).deep_view() == old(queue).deep_view().push(
            VideoView { id: id@, url: url@, added_at: now as int },
        ),
        !added ==> *final(queue) == *old(queue),
{
    let n = queue.len();
    let mut i: usize = 0;
    while i < n
        invariant
            n == queue@.len(),
            i <= n,
            *queue == *old(queue),
            forall|j: int| 0 <= j < i ==> old(queue).deep_view()[j].id != id@,
        decreases n - i,
    {
        if queue[i].id.as_str().eq(id) {
            proof {
                assert(old(queue).deep_view()[i as int].id == id@);
            }
            return false;
        }
        i = i + 1;
    }
    let v = Video { id: id.to_owned(), url: url.to_owned(), added_at: now };
    queue.push(v);
    proof {
        assert(final(queue).deep_view() =~~= old(queue).deep_view().push(
            VideoView { id: id@, url: url@, added_at: now as int },
        ));
    }
    true
}

/// What selecting the next item does to a queue: nothing when empty;
/// under `Mode::Queue` the front leaves, under `Mode::Stack` the back.
pub open spec fn select_next(q: Seq<VideoView>, mode: Mode) -> (Option<VideoView>, Seq<
    VideoView,
>) {
    if q.len() == 0 {
        (None, q)
    } else if mode == Mode::Queue {
        (Some(q[0]), q.drop_first())
    } else {
        (Some(q.last()), q.drop_last())
    }
}

/// Removes and returns the next item under the given mode; `None` leaves
/// an empty queue untouched.
pub fn take_next(queue: &mut Vec<Video>, mode: Mode) -> (r: Option<Video>)
    ensures
        (match r {
            Some(v) => Some(v@),
            None => None,
        }) == select_next(old(queue).deep_view(), mode).0,
        final(queue).deep_view() == select_next(old(queue).deep_view(), mode).1,
{
    if queue.len() == 0 {
        proof {
            assert(final(queue).deep_view() =~~= old(queue).deep_view());
        }
        return None;
    }
    let v = match mode {
        Mode::Queue => queue.remove(0),
        Mode::Stack => {
            match queue.pop() {
                Some(v) => v,
                None => {
                    proof {
                        assert(false);
                    }
                    unreached()
                },
            }
        },
    };
    proof {
        if mode == Mode::Queue {
            assert(final(queue).deep_view() =~~= old(queue).deep_view().drop_first());
        } else {
            assert(final(queue).deep_view() =~~= old(queue).deep_view().drop_last());
        }
    }
    Some(v)
}

/// Removes and returns the first item whose identifier is `id`; `None`
/// when no item carries it, leaving the queue untouched.
pub fn remove_by_id(queue: &mut Vec<Video>, id: &str) -> (r: Option<Video>)
    ensures
        (match r {
            Some(v) => Some(v@),
            None => None,
        }) == (if contains_id(old(queue).deep_view(), id@) {
            Some(old(queue).deep_view()[idx_of_id(old(queue).deep_view(), id@)])
        } else {
            None::<VideoView>
        }),
        contains_id(old(queue).deep_view(), id@) ==> final(queue).deep_view() == old(
            queue,
        ).deep_view().remove(idx_of_id(old(queue).deep_view(), id@)),
        !contains_id(old(queue).deep_view(), id@) ==> *final(queue) == *old(queue),
{
    let ghost q0 = old(queue).deep_view();
    proof {
        lemma_idx_of_id(q0, id@);
    }
    let n = queue.len();
    let mut i: usize = 0;
    while i < n
        invariant
            n == queue@.len(),
            i <= n,
            *queue == *old(queue),
            q0 == old(queue).deep_view(),
            forall|j: int| 0 <= j < i ==> q0[j].id != id@,
        decreases n - i,
    {
        if queue[i].id.as_str().eq(id) {
            proof {
                lemma_idx_of_id(q0, id@);
                assert(q0[i as int].id == id@);
                assert(contains_id(q0, id@));
                assert(idx_of_id(q0, id@) == i as int) by {
                    assert(forall|j: int| 0 <= j < i ==> q0[j].id != id@);
                    assert(q0[idx_of_id(q0, id@)].id == id@);
                };
            }
            let v = queue.remove(i);
            proof {
                assert(final(queue).deep_view() =~~= q0.remove(i as int));
            }
            return Some(v);
        }
        i = i + 1;
    }
    None
}

/// Removes and returns the item at `k` modulo the length, so that any
/// number selects some item; `None` leaves an empty queue untouched.
pub fn take_at(queue: &mut Vec<Video>, k: usize) -> (r: Option<Video>)
    ensures
        old(queue)@.len() == 0 ==> r is None && *final(queue) == *old(queue),
        old(queue)@.len() > 0 ==> {
            let idx = k as int % old(queue)@.len() as int;
            &&& (match r {
                Some(v) => Some(v@),
                None => None,
            }) == Some(old(queue).deep_view()[idx])
            &&& final(queue).deep_view() == old(queue).deep_view().remove(idx)
        },
{
    if queue.len() == 0 {
        return None;
    }
    let idx = k % queue.len();
    let v = queue.remove(idx);
    proof {
        assert(final(queue).deep_view() =~~= old(queue).deep_view().remove(idx as int));
    }
    Some(v)
}

/// The first `n` items to leave under the given mode: the front ones in
/// order under `Mode::Queue`, the back ones newest first under
/// `Mode::Stack`.
pub open spec fn peek_view(q: Seq<VideoView>, mode: Mode, n: int) -> Seq<VideoView> {
    let count = if n <= q.len() {
        n
    } else {
        q.len() as int
    };
    if mode == Mode::Queue {
        q.take(count)
    } else {
        Seq::new(count as nat, |i: int| q[q.len() - 1 - i])
    }
}

/// Copies the next `n` items to leave under the given mode, without
/// changing the queue.
pub fn peek_slice(queue: &Vec<Video>, mode: Mode, n: usize) -> (r: Vec<Video>)
    ensures
        r.deep_view() == peek_view(queue.deep_view(), mode, n as int),
{
    let count = if n <= queue.len() {
        n
    } else {
        queue.len()
    };
    let mut r: Vec<Video> = Vec::new();
    let mut i: usize = 0;
    match mode {
        Mode::Queue => {
            while i < count
                invariant
                    count <= queue@.len(),
                    i <= count,
                    r@.len() == i,
                    forall|j: int| 0 <= j < i ==> #[trigger] r.deep_view()[j] == queue.deep_view()[j],
                decreases count - i,
            {
                let ghost prev = r.deep_view();
                r.push(queue[i].clone());
                proof {
                    assert forall|j: int| 0 <= j <= i implies #[trigger] r.deep_view()[j]
                        == queue.deep_view()[j] by {
                        if j < i {
                            assert(r.deep_view()[j] == prev[j]);
                        } else {
                            assert(r.deep_view()[j] == queue.deep_view()[i as int]);
                        }
                    }
                }
                i = i + 1;
            }
            proof {
                assert(r.deep_view() =~~= peek_view(queue.deep_view(), mode, n as int));
            }
        },
        Mode::Stack => {
            while i < count
                invariant
                    count <= queue@.len(),
                    i <= count,
                    r@.len() == i,
                    forall|j: int|
                        0 <= j < i ==> #[trigger] r.deep_view()[j] == queue.deep_view()[queue@.len()
                            - 1 - j],
                decreases count - i,
            {
                let ghost prev = r.deep_view();
                r.push(queue[queue.len() - 1 - i].clone());
                proof {
                    assert forall|j: int| 0 <= j <= i implies #[trigger] r.deep_view()[j]
                        == queue.deep_view()[queue@.len() - 1 - j] by {
                        if j < i {
                            assert(r.deep_view()[j] == prev[j]);
                        } else {
                            assert(r.deep_view()[j] == queue.deep_view()[queue@.len() - 1
                                - i]);
                        }
                    }
                }
                i = i + 1;
            }
            proof {
                assert(r.deep_view() =~~= peek_view(queue.deep_view(), mode, n as int));
            }
        },
    }
    r
}

/// The order in which repeated selection drains a queue.
pub open spec fn drain(q: Seq<VideoView>, mode: Mode) -> Seq<VideoView>
    decreases q.len(),
{
    if q.len() == 0 {
        Seq::empty()
    } else {
        let (first, rest) = select_next(q, mode);
        seq![first->Some_0] + drain(rest, mode)
    }
}

/// First-in-first-out law: repeatedly selecting under `Mode::Queue`
/// yields the items exactly in insertion order.
pub proof fn lemma_fifo_drains_in_order(q: Seq<VideoView>)
    ensures
        drain(q, Mode::Queue) == q,
    decreases q.len(),
{
    if q.len() > 0 {
        lemma_fifo_drains_in_order(q.drop_first());
        assert(seq![q[0]] + q.drop_first() =~= q);
    }
}

/// Last-in-first-out law: repeatedly selecting under `Mode::Stack`
/// yields the items exactly in reverse insertion order.
pub proof fn lemma_lifo_drains_in_reverse(q: Seq<VideoView>)
    ensures
        drain(q, Mode::Stack) == q.reverse(),
    decreases q.len(),
{
    if q.len() > 0 {
        lemma_lifo_drains_in_reverse(q.drop_last());
        assert(drain(q, Mode::Stack) =~= q.reverse());
    }
}

} // verus!
