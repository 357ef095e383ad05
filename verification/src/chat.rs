//! Chat messages and the bookkeeping of message ids already shown.

use std::collections::HashSet;

use vstd::prelude::*;

verus! {

broadcast use vstd::std_specs::hash::group_hash_axioms;

/// One chat message as read from a room transcript.
#[derive(Debug, Clone)]
pub struct ChatMessage {
    pub message_id: u64,
    pub user_id: u64,
    pub user_name: String,
    pub text: String,
    pub timestamp: String,
}

/// The non-zero message ids of `messages`.
pub open spec fn known_ids(messages: Seq<ChatMessage>) -> Set<u64> {
    Set::new(
        |id: u64|
            id > 0 && exists|i: int| 0 <= i < messages.len() && (#[trigger] messages[i]).message_id
                == id,
    )
}

/// The set of non-zero message ids among `messages`.
pub fn merge_seen_ids(messages: &[ChatMessage]) -> (res: HashSet<u64>)
    ensures
        res@ == known_ids(messages@),
{
    let mut seen: HashSet<u64> = HashSet::new();
    let n = messages.len();
    let mut i: usize = 0;
    while i < n
        invariant
            i <= n == messages@.len(),
            seen@ == known_ids(messages@.take(i as int)),
        decreases n - i,
    {
        let id = messages[i].message_id;
        if id > 0 {
            seen.insert(id);
        }
        i = i + 1;
        assert(seen@ =~= known_ids(messages@.take(i as int))) by {
            assert forall|x: u64| known_ids(messages@.take(i as int)).contains(x) implies seen@.contains(
                x,
            ) by {
                let j = choose|j: int|
                    0 <= j < i && (#[trigger] messages@.take(i as int)[j]).message_id == x;
                if j < i - 1 {
                    assert(messages@.take(i - 1)[j] == messages@.take(i as int)[j]);
                }
            }
            assert forall|x: u64| seen@.contains(x) implies known_ids(
                messages@.take(i as int),
            ).contains(x) by {
                if x != id || id == 0 {
                    let j = choose|j: int|
                        0 <= j < i - 1 && (#[trigger] messages@.take(i - 1)[j]).message_id == x;
                    assert(messages@.take(i - 1)[j] == messages@.take(i as int)[j]);
                } else {
                    assert(messages@.take(i as int)[i - 1] == messages@[i - 1]);
                }
            }
        }
    }
    assert(messages@.take(n as int) =~= messages@);
    seen
}

/// The messages of a polled batch that are shown as new, and the ids seen
/// afterwards: a message with id 0 is always shown; any other is shown when
/// its id was not seen before (earlier in the batch included), and its id
/// becomes seen.
pub open spec fn fresh_messages(seen: Set<u64>, batch: Seq<ChatMessage>) -> (
    Seq<ChatMessage>,
    Set<u64>,
)
    decreases batch.len(),
{
    if batch.len() == 0 {
        (Seq::empty(), seen)
    } else {
        let (shown, ids) = fresh_messages(seen, batch.drop_last());
        let m = batch.last();
        if m.message_id == 0 {
            (shown.push(m), ids)
        } else if ids.contains(m.message_id) {
            (shown, ids)
        } else {
            (shown.push(m), ids.insert(m.message_id))
        }
    }
}

/// Takes a polled batch: returns the messages to show as new and records
/// their ids in `seen`.
pub fn take_new_messages(seen: &mut HashSet<u64>, batch: Vec<ChatMessage>) -> (res: Vec<
    ChatMessage,
>)
    ensures
        res@ == fresh_messages(old(seen)@, batch@).0,
        final(seen)@ == fresh_messages(old(seen)@, batch@).1,
        res@ == new_messages(old(seen)@, batch@),
        final(seen)@ == old(seen)@.union(known_ids(batch@)),
{
    let ghost start = seen@;
    let ghost all = batch@;
    let mut shown: Vec<ChatMessage> = Vec::new();
    let n = batch.len();
    assert(all.take(0) =~= Seq::<ChatMessage>::empty());
    for m in it: batch
        invariant
            it.seq() == all,
            n == all.len(),
            (shown@, seen@) == fresh_messages(start, all.take(it.index() as int)),
    {
        let ghost k = it.index() as int;
        assert(all.take(k + 1).drop_last() =~= all.take(k));
        assert(all.take(k + 1).last() == m);
        if m.message_id == 0 {
            shown.push(m);
        } else if seen.insert(m.message_id) {
            shown.push(m);
        }
    }
    assert(all.take(n as int) =~= all);
    proof {
        law_fresh_are_new(start, all);
        law_fresh_ids(start, all);
    }
    shown
}

/// Law: the ids seen after taking a batch are those seen before together
/// with every non-zero id of the batch.
pub proof fn law_fresh_ids(seen: Set<u64>, batch: Seq<ChatMessage>)
    ensures
        fresh_messages(seen, batch).1 == seen.union(known_ids(batch)),
    decreases batch.len(),
{
    if batch.len() > 0 {
        let init = batch.drop_last();
        law_fresh_ids(seen, init);
        let r = fresh_messages(seen, batch).1;
        assert forall|x: u64| r.contains(x) <==> seen.union(known_ids(batch)).contains(x) by {
            if known_ids(init).contains(x) {
                let j = choose|j: int| 0 <= j < init.len() && (#[trigger] init[j]).message_id == x;
                assert(batch[j] == init[j]);
            }
            if known_ids(batch).contains(x) {
                let j = choose|j: int| 0 <= j < batch.len() && (#[trigger] batch[j]).message_id == x;
                if j < batch.len() - 1 {
                    assert(batch[j] == init[j]);
                }
            }
        }
        assert(r =~= seen.union(known_ids(batch)));
    }
}

/// Law: a message with a non-zero id is shown at most once: taking a batch
/// again, after it was taken, shows only its messages with id 0.
pub proof fn law_fresh_shown_once(seen: Set<u64>, batch: Seq<ChatMessage>)
    ensures
        fresh_messages(fresh_messages(seen, batch).1, batch).0 == batch.filter(
            |m: ChatMessage| m.message_id == 0,
        ),
{
    law_fresh_ids(seen, batch);
    lemma_fresh_all_seen(fresh_messages(seen, batch).1, batch);
}

proof fn lemma_fresh_all_seen(seen: Set<u64>, batch: Seq<ChatMessage>)
    requires
        known_ids(batch).subset_of(seen),
    ensures
        fresh_messages(seen, batch).0 == batch.filter(|m: ChatMessage| m.message_id == 0),
        fresh_messages(seen, batch).1 == seen,
    decreases batch.len(),
{
    reveal_with_fuel(Seq::filter, 2);
    if batch.len() > 0 {
        let init = batch.drop_last();
        assert forall|x: u64| known_ids(init).contains(x) implies seen.contains(x) by {
            let j = choose|j: int| 0 <= j < init.len() && (#[trigger] init[j]).message_id == x;
            assert(batch[j] == init[j]);
            assert(known_ids(batch).contains(x));
        }
        lemma_fresh_all_seen(seen, init);
        let m = batch.last();
        if m.message_id != 0 {
            assert(known_ids(batch).contains(m.message_id));
        }
        assert(batch.filter(|m: ChatMessage| m.message_id == 0) == {
            let f = init.filter(|m: ChatMessage| m.message_id == 0);
            if m.message_id == 0 {
                f.push(m)
            } else {
                f
            }
        });
    }
}

proof fn lemma_fresh_batch(seen: Set<u64>, batch: Seq<ChatMessage>)
    ensures
        seen.subset_of(fresh_messages(seen, batch).1),
        forall|i: int|
            0 <= i < fresh_messages(seen, batch).0.len() && (#[trigger] fresh_messages(
                seen,
                batch,
            ).0[i]).message_id != 0 ==> !seen.contains(fresh_messages(seen, batch).0[i].message_id)
                && fresh_messages(seen, batch).1.contains(fresh_messages(seen, batch).0[i].message_id),
        forall|i: int, j: int|
            0 <= i < j < fresh_messages(seen, batch).0.len() && (#[trigger] fresh_messages(
                seen,
                batch,
            ).0[i]).message_id != 0 ==> fresh_messages(seen, batch).0[i].message_id != (
            #[trigger] fresh_messages(seen, batch).0[j]).message_id,
    decreases batch.len(),
{
    if batch.len() > 0 {
        let init = batch.drop_last();
        lemma_fresh_batch(seen, init);
        let (sh, ids) = fresh_messages(seen, init);
        let m = batch.last();
        let (sh2, ids2) = fresh_messages(seen, batch);
        if m.message_id == 0 {
            assert(sh2 == sh.push(m));
            assert forall|i: int| 0 <= i < sh2.len() && (#[trigger] sh2[i]).message_id != 0 implies
                !seen.contains(sh2[i].message_id) && ids2.contains(sh2[i].message_id) by {
                assert(sh2[i] == sh[i]);
            }
            assert forall|i: int, j: int|
                0 <= i < j < sh2.len() && (#[trigger] sh2[i]).message_id != 0 implies sh2[i].message_id
                    != (#[trigger] sh2[j]).message_id by {
                assert(sh2[i] == sh[i]);
                if j < sh.len() {
                    assert(sh2[j] == sh[j]);
                }
            }
        } else if ids.contains(m.message_id) {
        } else {
            assert(sh2 == sh.push(m));
            assert(ids2 == ids.insert(m.message_id));
            assert forall|i: int| 0 <= i < sh2.len() && (#[trigger] sh2[i]).message_id != 0 implies
                !seen.contains(sh2[i].message_id) && ids2.contains(sh2[i].message_id) by {
                if i < sh.len() {
                    assert(sh2[i] == sh[i]);
                }
            }
            assert forall|i: int, j: int|
                0 <= i < j < sh2.len() && (#[trigger] sh2[i]).message_id != 0 implies sh2[i].message_id
                    != (#[trigger] sh2[j]).message_id by {
                assert(sh2[i] == sh[i]);
                if j < sh.len() {
                    assert(sh2[j] == sh[j]);
                } else {
                    assert(ids.contains(sh[i].message_id));
                }
            }
        }
    }
}

/// The messages that a run of polls shows as new, batch after batch, and
/// the ids seen at the end, starting from the ids `seen`.
pub open spec fn poll_run(seen: Set<u64>, batches: Seq<Seq<ChatMessage>>) -> (
    Seq<ChatMessage>,
    Set<u64>,
)
    decreases batches.len(),
{
    if batches.len() == 0 {
        (Seq::empty(), seen)
    } else {
        let (shown, ids) = poll_run(seen, batches.drop_last());
        let (more, ids2) = fresh_messages(ids, batches.last());
        (shown + more, ids2)
    }
}

/// Law (polling): over a whole run of polls, each non-zero message id is
/// shown at most once, and never when it was seen before the run; the seen
/// ids only grow.
pub proof fn law_poll_run_shows_once(seen: Set<u64>, batches: Seq<Seq<ChatMessage>>)
    ensures
        seen.subset_of(poll_run(seen, batches).1),
        forall|i: int|
            0 <= i < poll_run(seen, batches).0.len() && (#[trigger] poll_run(seen, batches).0[i]).message_id
                != 0 ==> !seen.contains(poll_run(seen, batches).0[i].message_id) && poll_run(
                seen,
                batches,
            ).1.contains(poll_run(seen, batches).0[i].message_id),
        forall|i: int, j: int|
            0 <= i < j < poll_run(seen, batches).0.len() && (#[trigger] poll_run(seen, batches).0[i]).message_id
                != 0 ==> poll_run(seen, batches).0[i].message_id != (#[trigger] poll_run(
                seen,
                batches,
            ).0[j]).message_id,
    decreases batches.len(),
{
    if batches.len() > 0 {
        let init = batches.drop_last();
        law_poll_run_shows_once(seen, init);
        let (shown, ids) = poll_run(seen, init);
        lemma_fresh_batch(ids, batches.last());
        let (more, ids2) = fresh_messages(ids, batches.last());
        let all = shown + more;
        assert(poll_run(seen, batches).0 == all);
        assert forall|i: int| 0 <= i < all.len() && (#[trigger] all[i]).message_id != 0 implies
            !seen.contains(all[i].message_id) && ids2.contains(all[i].message_id) by {
            if i < shown.len() {
                assert(all[i] == shown[i]);
            } else {
                assert(all[i] == more[i - shown.len()]);
            }
        }
        assert forall|i: int, j: int|
            0 <= i < j < all.len() && (#[trigger] all[i]).message_id != 0 implies all[i].message_id != (
            #[trigger] all[j]).message_id by {
            if j < shown.len() {
                assert(all[i] == shown[i] && all[j] == shown[j]);
            } else if i >= shown.len() {
                assert(all[i] == more[i - shown.len()] && all[j] == more[j - shown.len()]);
            } else {
                assert(all[i] == shown[i] && all[j] == more[j - shown.len()]);
                assert(ids.contains(shown[i].message_id));
            }
        }
    }
}

/// Whether the message at position `i` of a batch is new after the ids
/// `seen`: its id is 0, or its id is neither seen nor the id of an earlier
/// message of the batch.
pub open spec fn shown_as_new(seen: Set<u64>, batch: Seq<ChatMessage>, i: int) -> bool {
    &&& 0 <= i < batch.len()
    &&& (batch[i].message_id == 0 || (!seen.contains(batch[i].message_id) && forall|j: int|
        0 <= j < i ==> (#[trigger] batch[j]).message_id != batch[i].message_id))
}

/// The positions of the new messages of a batch, in order.
pub open spec fn new_positions(seen: Set<u64>, batch: Seq<ChatMessage>) -> Seq<int> {
    Seq::new(batch.len(), |i: int| i).filter(|i: int| shown_as_new(seen, batch, i))
}

/// The new messages of a batch, in batch order.
pub open spec fn new_messages(seen: Set<u64>, batch: Seq<ChatMessage>) -> Seq<ChatMessage> {
    new_positions(seen, batch).map_values(|i: int| batch[i])
}

proof fn lemma_filter_agree(s: Seq<int>, p: spec_fn(int) -> bool, q: spec_fn(int) -> bool)
    requires
        forall|k: int| 0 <= k < s.len() ==> p(#[trigger] s[k]) == q(s[k]),
    ensures
        s.filter(p) == s.filter(q),
    decreases s.len(),
{
    reveal(Seq::filter);
    if s.len() > 0 {
        let init = s.drop_last();
        assert forall|k: int| 0 <= k < init.len() implies p(#[trigger] init[k]) == q(init[k]) by {
            assert(init[k] == s[k]);
        }
        lemma_filter_agree(init, p, q);
        assert(p(s[s.len() - 1]) == q(s[s.len() - 1]));
        assert(s.last() == s[s.len() - 1]);
    }
}

/// Law (new messages): the messages that taking a batch shows are exactly
/// the batch's messages with id 0 or with an id neither seen before nor on an
/// earlier message of the batch, in batch order; nothing new is dropped and
/// nothing old is shown.
pub proof fn law_fresh_are_new(seen: Set<u64>, batch: Seq<ChatMessage>)
    ensures
        fresh_messages(seen, batch).0 == new_messages(seen, batch),
    decreases batch.len(),
{
    let n = batch.len() as int;
    if n == 0 {
        assert(Seq::new(0, |i: int| i) =~= Seq::<int>::empty());
        assert(new_positions(seen, batch) =~= Seq::<int>::empty());
        assert(new_messages(seen, batch) =~= Seq::<ChatMessage>::empty());
    } else {
        let init = batch.drop_last();
        law_fresh_are_new(seen, init);
        law_fresh_ids(seen, init);
        let pb = |i: int| shown_as_new(seen, batch, i);
        let pi = |i: int| shown_as_new(seen, init, i);
        let all = Seq::new(n as nat, |i: int| i);
        let all0 = Seq::new((n - 1) as nat, |i: int| i);
        assert(all.drop_last() =~= all0);
        assert(all.last() == n - 1);
        assert forall|k: int| 0 <= k < all0.len() implies pb(#[trigger] all0[k]) == pi(all0[k]) by {
            assert(all0[k] == k);
            assert(batch[k] == init[k]);
            assert forall|j: int| 0 <= j < k implies batch[j] == init[j] by {}
            if pb(k) != pi(k) {
                if batch[k].message_id != 0 && !seen.contains(batch[k].message_id) {
                    if forall|j: int| 0 <= j < k ==> (#[trigger] batch[j]).message_id
                        != batch[k].message_id {
                        assert forall|j: int| 0 <= j < k implies (#[trigger] init[j]).message_id
                            != init[k].message_id by {
                            assert(batch[j] == init[j]);
                        }
                    } else {
                        let j = choose|j: int|
                            0 <= j < k && (#[trigger] batch[j]).message_id == batch[k].message_id;
                        assert(init[j] == batch[j]);
                    }
                }
            }
        }
        lemma_filter_agree(all0, pb, pi);
        let idx0 = all0.filter(pi);
        assert(idx0 == new_positions(seen, init));
        let m = batch.last();
        assert(batch[n - 1] == m);
        let (sh, ids) = fresh_messages(seen, init);
        assert(ids == seen.union(known_ids(init)));
        // which ids were on earlier messages
        let fresh_last = pb(n - 1);
        if m.message_id != 0 {
            if ids.contains(m.message_id) {
                if !seen.contains(m.message_id) {
                    let j = choose|j: int| 0 <= j < init.len() && (#[trigger] init[j]).message_id
                        == m.message_id;
                    assert(batch[j] == init[j]);
                }
                assert(!fresh_last);
            } else {
                assert forall|j: int| 0 <= j < n - 1 implies (#[trigger] batch[j]).message_id
                    != batch[n - 1].message_id by {
                    assert(batch[j] == init[j]);
                    if init[j].message_id == m.message_id {
                        assert(known_ids(init).contains(m.message_id));
                    }
                }
                assert(fresh_last);
            }
        }
        assert forall|k: int| 0 <= k < idx0.len() implies 0 <= #[trigger] idx0[k] < n - 1 by {
            all0.lemma_filter_pred(pi, k);
        }
        reveal(Seq::filter);
        let left = idx0.map_values(|i: int| batch[i]);
        assert(left =~= idx0.map_values(|i: int| init[i])) by {
            assert forall|k: int| 0 <= k < idx0.len() implies left[k] == init[idx0[k]] by {
                assert(0 <= idx0[k] < n - 1);
            }
        }
        if fresh_last {
            assert(all.filter(pb) == idx0.push(n - 1));
            assert(new_messages(seen, batch) =~= left.push(m));
        } else {
            assert(all.filter(pb) == idx0);
            assert(new_messages(seen, batch) =~= left);
        }
    }
}

} // verus!
