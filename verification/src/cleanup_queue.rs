//! Releases that wait to be applied.

use vstd::prelude::*;

use crate::ip::IpAddr;

verus! {

/// Sessions of one pair that have ended but are still counted.
pub struct QueuedRelease {
    pub user: String,
    pub ip: IpAddr,
    pub count: usize,
}

/// What a queued release says.
#[verifier::ext_equal]
pub struct PendingRelease {
    pub user: Seq<char>,
    pub ip: IpAddr,
    pub count: usize,
}

impl View for QueuedRelease {
    type V = PendingRelease;

    open spec fn view(&self) -> PendingRelease {
        PendingRelease { user: self.user@, ip: self.ip, count: self.count }
    }
}

/// Releases in the order in which their pairs were first queued; each pair
/// occurs once.
pub struct CleanupQueue {
    items: Vec<QueuedRelease>,
}

pub open spec fn release_views(items: Seq<QueuedRelease>) -> Seq<PendingRelease> {
    items.map_values(|r: QueuedRelease| r@)
}

/// Each pair occurs once, with at least one ended session.
pub open spec fn queue_sound(queue: Seq<PendingRelease>) -> bool {
    &&& forall|i: int| 0 <= i < queue.len() ==> (#[trigger] queue[i]).count >= 1
    &&& forall|i: int, j: int|
        0 <= i < j < queue.len() ==> (#[trigger] queue[i]).user != (#[trigger] queue[j]).user
            || queue[i].ip != queue[j].ip
}

/// Whether the queue holds a release of the pair, at position `i`.
pub open spec fn queued_at(queue: Seq<PendingRelease>, user: Seq<char>, ip: IpAddr, i: int) -> bool {
    0 <= i < queue.len() && queue[i].user == user && queue[i].ip == ip
}

pub open spec fn is_queued(queue: Seq<PendingRelease>, user: Seq<char>, ip: IpAddr) -> bool {
    exists|i: int| queued_at(queue, user, ip, i)
}

/// The queue after one more session of the pair has ended: a pair that waits
/// already counts one more, and another goes to the end.
pub open spec fn queue_with(queue: Seq<PendingRelease>, user: Seq<char>, ip: IpAddr) -> Seq<
    PendingRelease,
> {
    if is_queued(queue, user, ip) {
        let i = choose|i: int| queued_at(queue, user, ip, i);
        let count = queue[i].count;
        queue.update(
            i,
            PendingRelease {
                user,
                ip,
                count: if count == usize::MAX {
                    count
                } else {
                    (count + 1) as usize
                },
            },
        )
    } else {
        queue.push(PendingRelease { user, ip, count: 1 })
    }
}

impl View for CleanupQueue {
    type V = Seq<PendingRelease>;

    closed spec fn view(&self) -> Seq<PendingRelease> {
        release_views(self.items@)
    }
}

impl CleanupQueue {
    pub fn new() -> (res: Self)
        ensures
            res@ == Seq::<PendingRelease>::empty(),
    {
        let res = CleanupQueue { items: Vec::new() };
        assert(res@ =~= Seq::empty());
        res
    }

    /// Number of pairs that wait.
    pub fn len(&self) -> (res: usize)
        ensures
            res == self@.len(),
    {
        self.items.len()
    }

    /// Queues the end of one session of a pair.
    pub fn push(&mut self, user: String, ip: IpAddr)
        requires
            queue_sound(old(self)@),
        ensures
            final(self)@ == queue_with(old(self)@, user@, ip),
            queue_sound(final(self)@),
    {
        let ghost before = self@;
        let mut i: usize = 0;
        while i < self.items.len()
            invariant
                i <= self.items.len(),
                self@ == before,
                before == old(self)@,
                queue_sound(before),
                forall|j: int| 0 <= j < i ==> !#[trigger] queued_at(before, user@, ip, j),
            decreases self.items.len() - i,
        {
            if self.items[i].ip == ip && self.items[i].user == user {
                let count: usize = self.items[i].count.saturating_add(1);
                self.items.set(i, QueuedRelease { user, ip, count });
                proof {
                    assert(queued_at(before, user@, ip, i as int));
                    let k = choose|k: int| queued_at(before, user@, ip, k);
                    assert(k == i) by {
                        if k < i {
                            assert(before[k].user == before[i as int].user);
                        } else if i < k {
                            assert(before[i as int].user == before[k].user);
                        }
                    }
                    assert(self@ =~= queue_with(before, user@, ip));
                }
                return;
            }
            assert(!queued_at(before, user@, ip, i as int)) by {
                assert(before[i as int] == self.items[i as int]@);
            }
            i += 1;
        }
        self.items.push(QueuedRelease { user, ip, count: 1 });
        proof {
            assert(!is_queued(before, user@, ip));
            assert(self@ =~= queue_with(before, user@, ip));
            assert forall|a: int, b: int| 0 <= a < b < self@.len() implies (#[trigger] self@[a]).user
                != (#[trigger] self@[b]).user || self@[a].ip != self@[b].ip by {
                if b == before.len() {
                    assert(!queued_at(before, user@, ip, a));
                }
            }
        }
    }

    /// Takes up to `limit` releases from the front.
    pub fn take_front(&mut self, limit: usize) -> (res: Vec<QueuedRelease>)
        requires
            queue_sound(old(self)@),
        ensures
            ({
                let n = if old(self)@.len() < limit {
                    old(self)@.len() as int
                } else {
                    limit as int
                };
                &&& release_views(res@) == old(self)@.take(n)
                &&& final(self)@ == old(self)@.skip(n)
            }),
            queue_sound(final(self)@),
    {
        let n: usize = if self.items.len() < limit {
            self.items.len()
        } else {
            limit
        };
        let ghost before = self@;
        let rest = self.items.split_off(n);
        let mut front: Vec<QueuedRelease> = rest;
        std::mem::swap(&mut self.items, &mut front);
        assert(release_views(front@) =~= before.take(n as int));
        assert(self@ =~= before.skip(n as int));
        assert forall|a: int, b: int| 0 <= a < b < self@.len() implies (#[trigger] self@[a]).user != (
        #[trigger] self@[b]).user || self@[a].ip != self@[b].ip by {
            assert(self@[a] == before[a + n]);
            assert(self@[b] == before[b + n]);
        }
        front
    }
}

} // verus!
