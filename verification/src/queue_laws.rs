//! What waits in the queue of releases.

use vstd::prelude::*;

use crate::cleanup_queue::{is_queued, queue_sound, queue_with, queued_at, PendingRelease};
use crate::ip::IpAddr;
use crate::tracker_laws::ended_sessions;

verus! {

proof fn lemma_nothing_waits(queue: Seq<PendingRelease>, user: Seq<char>, ip: IpAddr)
    requires
        forall|i: int|
            0 <= i < queue.len() ==> !((#[trigger] queue[i]).user == user && queue[i].ip == ip),
    ensures
        ended_sessions(queue, user, ip) == 0,
    decreases queue.len(),
{
    if queue.len() > 0 {
        let shorter = queue.drop_last();
        assert forall|i: int| 0 <= i < shorter.len() implies !((#[trigger] shorter[i]).user == user
            && shorter[i].ip == ip) by {
            assert(shorter[i] == queue[i]);
        }
        lemma_nothing_waits(shorter, user, ip);
        assert(queue.last() == queue[queue.len() - 1]);
    }
}

proof fn lemma_waits_at(queue: Seq<PendingRelease>, user: Seq<char>, ip: IpAddr, k: int)
    requires
        queue_sound(queue),
        0 <= k < queue.len(),
        queue[k].user == user,
        queue[k].ip == ip,
    ensures
        ended_sessions(queue, user, ip) == queue[k].count,
    decreases queue.len(),
{
    let shorter = queue.drop_last();
    assert(queue.last() == queue[queue.len() - 1]);
    if k == queue.len() - 1 {
        assert forall|i: int| 0 <= i < shorter.len() implies !((#[trigger] shorter[i]).user == user
            && shorter[i].ip == ip) by {
            assert(shorter[i] == queue[i]);
            assert(queue[i].user != queue[k].user || queue[i].ip != queue[k].ip);
        }
        lemma_nothing_waits(shorter, user, ip);
    } else {
        assert(queue[k].user != queue[queue.len() - 1].user || queue[k].ip != queue[queue.len()
            - 1].ip);
        assert(queue_sound(shorter)) by {
            assert forall|i: int| 0 <= i < shorter.len() implies (#[trigger] shorter[i]).count
                >= 1 by {
                assert(shorter[i] == queue[i]);
            }
            assert forall|i: int, j: int| 0 <= i < j < shorter.len() implies (
            #[trigger] shorter[i]).user != (#[trigger] shorter[j]).user || shorter[i].ip
                != shorter[j].ip by {
                assert(shorter[i] == queue[i] && shorter[j] == queue[j]);
            }
        }
        assert(shorter[k] == queue[k]);
        lemma_waits_at(shorter, user, ip, k);
    }
}

/// One more ended session of a pair makes one more wait for it, up to the largest
/// number that fits, and leaves what waits for every other pair.
#[verifier::rlimit(40)]
pub proof fn lemma_one_more_waits(
    queue: Seq<PendingRelease>,
    user: Seq<char>,
    ip: IpAddr,
    other: Seq<char>,
    other_ip: IpAddr,
)
    requires
        queue_sound(queue),
    ensures
        queue_sound(queue_with(queue, user, ip)),
        ended_sessions(queue_with(queue, user, ip), other, other_ip) == if (other, other_ip) == (
            user,
            ip,
        ) {
            if ended_sessions(queue, user, ip) < usize::MAX {
                ended_sessions(queue, user, ip) + 1
            } else {
                usize::MAX as nat
            }
        } else {
            ended_sessions(queue, other, other_ip)
        },
{
    let after = queue_with(queue, user, ip);
    lemma_places_are_kept(queue, user, ip);
    if is_queued(queue, user, ip) {
        let k = choose|k: int| queued_at(queue, user, ip, k);
        lemma_waits_at(queue, user, ip, k);
        assert(queue_sound(after)) by {
            assert forall|i: int| 0 <= i < after.len() implies (#[trigger] after[i]).count >= 1 by {
                assert(queue[i].count >= 1);
            }
            assert forall|i: int, j: int| 0 <= i < j < after.len() implies (
            #[trigger] after[i]).user != (#[trigger] after[j]).user || after[i].ip
                != after[j].ip by {
                assert(queue[i].user != queue[j].user || queue[i].ip != queue[j].ip);
            }
        }
        if (other, other_ip) == (user, ip) {
            lemma_waits_at(after, user, ip, k);
        } else if is_queued(queue, other, other_ip) {
            let m = choose|m: int| queued_at(queue, other, other_ip, m);
            assert(m != k);
            lemma_waits_at(queue, other, other_ip, m);
            lemma_waits_at(after, other, other_ip, m);
        } else {
            assert forall|i: int| 0 <= i < queue.len() implies !((#[trigger] queue[i]).user == other
                && queue[i].ip == other_ip) by {
                assert(!queued_at(queue, other, other_ip, i));
            }
            assert forall|i: int| 0 <= i < after.len() implies !((#[trigger] after[i]).user == other
                && after[i].ip == other_ip) by {
                assert(!(queue[i].user == other && queue[i].ip == other_ip));
            }
            lemma_nothing_waits(queue, other, other_ip);
            lemma_nothing_waits(after, other, other_ip);
        }
    } else {
        assert forall|i: int| 0 <= i < queue.len() implies !((#[trigger] queue[i]).user == user
            && queue[i].ip == ip) by {
            assert(!queued_at(queue, user, ip, i));
        }
        lemma_nothing_waits(queue, user, ip);
        assert(after.drop_last() =~= queue);
        assert(queue_sound(after)) by {
            assert forall|i: int, j: int| 0 <= i < j < after.len() implies (
            #[trigger] after[i]).user != (#[trigger] after[j]).user || after[i].ip
                != after[j].ip by {
                if j == queue.len() {
                    assert(!(queue[i].user == user && queue[i].ip == ip));
                } else {
                    assert(queue[i].user != queue[j].user || queue[i].ip != queue[j].ip);
                }
            }
        }
    }
}

/// Whoever waits keeps the place, and a pair that did not wait goes to the end.
pub proof fn lemma_places_are_kept(queue: Seq<PendingRelease>, user: Seq<char>, ip: IpAddr)
    ensures
        ({
            let after = queue_with(queue, user, ip);
            let waits = exists|i: int|
                0 <= i < queue.len() && (#[trigger] queue[i]).user == user && queue[i].ip == ip;
            &&& after.len() == queue.len() + if waits {
                0int
            } else {
                1int
            }
            &&& forall|i: int|
                0 <= i < queue.len() ==> (#[trigger] after[i]).user == queue[i].user && after[i].ip
                    == queue[i].ip
            &&& !waits ==> after.last() == (PendingRelease { user, ip, count: 1 })
        }),
{
    if exists|i: int|
        0 <= i < queue.len() && (#[trigger] queue[i]).user == user && queue[i].ip == ip {
        let i = choose|i: int|
            0 <= i < queue.len() && (#[trigger] queue[i]).user == user && queue[i].ip == ip;
        assert(queued_at(queue, user, ip, i));
    }
    if is_queued(queue, user, ip) {
        let i = choose|i: int| queued_at(queue, user, ip, i);
        assert(queue[i].user == user && queue[i].ip == ip);
    }
}

} // verus!
