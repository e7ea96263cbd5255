//! The active subscriptions of one connection, keyed by the channel id the
//! caller chose. Re-using an id cancels the task bound to it; an abort cancels
//! and forgets it. The transport runs the tasks and asks which to cancel.
use vstd::prelude::*;
use crate::execute::{done_frame, item_frame, result_frame, Frame};

verus! {

pub struct Subscriptions {
    active: Vec<(u32, u64)>,
}

/// No two entries share a channel id.
pub open spec fn ids_unique(s: Seq<(u32, u64)>) -> bool {
    forall|i: int, j: int|
        0 <= i < s.len() && 0 <= j < s.len() && i != j ==> (#[trigger] s[i]).0 != (#[trigger] s[j]).0
}

pub open spec fn has_id(s: Seq<(u32, u64)>, id: u32) -> bool {
    exists|i: int| 0 <= i < s.len() && (#[trigger] s[i]).0 == id
}

pub open spec fn task_of(s: Seq<(u32, u64)>, id: u32) -> u64 {
    s[choose|i: int| 0 <= i < s.len() && (#[trigger] s[i]).0 == id].1
}

pub open spec fn as_map(s: Seq<(u32, u64)>) -> Map<u32, u64> {
    Map::new(|id: u32| has_id(s, id), |id: u32| task_of(s, id))
}

/// Frames of `task` on channel `id` reach the caller only while it is the task
/// bound to `id`.
pub open spec fn deliverable(m: Map<u32, u64>, id: u32, task: u64) -> bool {
    m.contains_key(id) && m[id] == task
}

impl View for Subscriptions {
    type V = Map<u32, u64>;

    closed spec fn view(&self) -> Map<u32, u64> {
        as_map(self.active@)
    }
}

proof fn lemma_task_at(s: Seq<(u32, u64)>, i: int)
    requires
        ids_unique(s),
        0 <= i < s.len(),
    ensures
        has_id(s, s[i].0),
        task_of(s, s[i].0) == s[i].1,
{
    let j = choose|j: int| 0 <= j < s.len() && (#[trigger] s[j]).0 == s[i].0;
    assert(s[j].0 == s[i].0);
}

fn find(active: &Vec<(u32, u64)>, id: u32) -> (r: Option<usize>)
    ensures
        match r {
            Some(i) => i < active@.len() && active@[i as int].0 == id,
            None => !has_id(active@, id),
        },
{
    let mut i: usize = 0;
    while i < active.len()
        invariant
            i <= active@.len(),
            forall|j: int| 0 <= j < i ==> (#[trigger] active@[j]).0 != id,
        decreases active@.len() - i,
    {
        if active[i].0 == id {
            return Some(i);
        }
        i = i + 1;
    }
    None
}

impl Subscriptions {
    pub closed spec fn wf(&self) -> bool {
        ids_unique(self.active@)
    }

    /// No active subscription.
    pub fn new() -> (r: Subscriptions)
        ensures
            r.wf(),
            r@ == Map::<u32, u64>::empty(),
    {
        let r = Subscriptions { active: Vec::new() };
        assert(r@ =~= Map::<u32, u64>::empty());
        r
    }

    /// Binds `task` to channel `id`, and returns the task that was bound to it
    /// before, which the caller must cancel.
    pub fn request(&mut self, id: u32, task: u64) -> (r: Option<u64>)
        requires
            old(self).wf(),
        ensures
            final(self).wf(),
            final(self)@ == old(self)@.insert(id, task),
            r == (if old(self)@.contains_key(id) {
                Some(old(self)@[id])
            } else {
                None
            }),
    {
        let ghost s0 = self.active@;
        match find(&self.active, id) {
            Some(i) => {
                let prev = self.active[i].1;
                proof {
                    lemma_task_at(s0, i as int);
                }
                self.active.set(i, (id, task));
                proof {
                    let s1 = self.active@;
                    assert(ids_unique(s1)) by {
                        assert forall|a: int, b: int|
                            0 <= a < s1.len() && 0 <= b < s1.len() && a != b implies (
                            #[trigger] s1[a]).0 != (#[trigger] s1[b]).0 by {
                            assert(s1[a].0 == s0[a].0 && s1[b].0 == s0[b].0);
                        }
                    }
                    assert forall|k: u32| #[trigger] has_id(s1, k) == (k == id || has_id(s0, k)) by {
                        if has_id(s0, k) {
                            let j = choose|j: int| 0 <= j < s0.len() && (#[trigger] s0[j]).0 == k;
                            assert(s1[j].0 == k);
                        }
                        if has_id(s1, k) {
                            let j = choose|j: int| 0 <= j < s1.len() && (#[trigger] s1[j]).0 == k;
                            assert(s0[j].0 == k);
                        }
                        assert(s1[i as int].0 == id);
                    }
                    assert forall|k: u32| has_id(s1, k) && k != id implies #[trigger] task_of(s1, k)
                        == task_of(s0, k) by {
                        let j = choose|j: int| 0 <= j < s1.len() && (#[trigger] s1[j]).0 == k;
                        lemma_task_at(s1, j);
                        lemma_task_at(s0, j);
                    }
                    lemma_task_at(s1, i as int);
                    assert(self@ =~= as_map(s0).insert(id, task));
                }
                Some(prev)
            },
            None => {
                self.active.push((id, task));
                proof {
                    let s1 = self.active@;
                    assert(ids_unique(s1)) by {
                        assert forall|a: int, b: int|
                            0 <= a < s1.len() && 0 <= b < s1.len() && a != b implies (
                            #[trigger] s1[a]).0 != (#[trigger] s1[b]).0 by {
                            if a == s0.len() {
                                assert(s1[b] == s0[b]);
                            } else if b == s0.len() {
                                assert(s1[a] == s0[a]);
                            } else {
                                assert(s1[a] == s0[a] && s1[b] == s0[b]);
                            }
                        }
                    }
                    assert forall|k: u32| #[trigger] has_id(s1, k) == (k == id || has_id(s0, k)) by {
                        if has_id(s0, k) {
                            let j = choose|j: int| 0 <= j < s0.len() && (#[trigger] s0[j]).0 == k;
                            assert(s1[j].0 == k);
                        }
                        if has_id(s1, k) {
                            let j = choose|j: int| 0 <= j < s1.len() && (#[trigger] s1[j]).0 == k;
                            if j < s0.len() {
                                assert(s0[j].0 == k);
                            }
                        }
                        assert(s1[s0.len() as int].0 == id);
                    }
                    assert forall|k: u32| has_id(s1, k) && k != id implies #[trigger] task_of(s1, k)
                        == task_of(s0, k) by {
                        let j = choose|j: int| 0 <= j < s1.len() && (#[trigger] s1[j]).0 == k;
                        lemma_task_at(s1, j);
                        lemma_task_at(s0, j);
                    }
                    lemma_task_at(s1, s0.len() as int);
                    assert(self@ =~= as_map(s0).insert(id, task));
                }
                None
            },
        }
    }

    /// Forgets channel `id`, and returns the task bound to it, which the caller
    /// must cancel.
    pub fn abort(&mut self, id: u32) -> (r: Option<u64>)
        requires
            old(self).wf(),
        ensures
            final(self).wf(),
            final(self)@ == old(self)@.remove(id),
            r == (if old(self)@.contains_key(id) {
                Some(old(self)@[id])
            } else {
                None
            }),
    {
        let ghost s0 = self.active@;
        match find(&self.active, id) {
            Some(i) => {
                proof {
                    lemma_task_at(s0, i as int);
                }
                let (_, prev) = self.active.remove(i);
                proof {
                    let s1 = self.active@;
                    assert(forall|j: int| 0 <= j < i ==> s1[j] == s0[j]);
                    assert(forall|j: int| i <= j < s1.len() ==> s1[j] == s0[j + 1]);
                    assert(ids_unique(s1)) by {
                        assert forall|a: int, b: int|
                            0 <= a < s1.len() && 0 <= b < s1.len() && a != b implies (
                            #[trigger] s1[a]).0 != (#[trigger] s1[b]).0 by {
                            let a0 = if a < i { a } else { a + 1 };
                            let b0 = if b < i { b } else { b + 1 };
                            assert(s1[a] == s0[a0] && s1[b] == s0[b0]);
                        }
                    }
                    assert forall|k: u32| #[trigger] has_id(s1, k) == (k != id && has_id(s0, k)) by {
                        if has_id(s0, k) && k != id {
                            let j = choose|j: int| 0 <= j < s0.len() && (#[trigger] s0[j]).0 == k;
                            assert(j != i);
                            let j1 = if j < i { j } else { j - 1 };
                            assert(s1[j1].0 == k);
                        }
                        if has_id(s1, k) {
                            let j = choose|j: int| 0 <= j < s1.len() && (#[trigger] s1[j]).0 == k;
                            let j0 = if j < i { j } else { j + 1 };
                            assert(s0[j0].0 == k);
                            assert(j0 != i);
                        }
                    }
                    assert forall|k: u32| has_id(s1, k) implies #[trigger] task_of(s1, k) == task_of(
                        s0,
                        k,
                    ) by {
                        let j = choose|j: int| 0 <= j < s1.len() && (#[trigger] s1[j]).0 == k;
                        let j0 = if j < i { j } else { j + 1 };
                        lemma_task_at(s1, j);
                        lemma_task_at(s0, j0);
                    }
                    assert(self@ =~= as_map(s0).remove(id));
                }
                Some(prev)
            },
            None => {
                assert(self@ =~= as_map(s0).remove(id));
                None
            },
        }
    }

    /// Forgets channel `id` once `task` has ended on its own, unless another
    /// task has been bound to the channel since.
    pub fn finished(&mut self, id: u32, task: u64)
        requires
            old(self).wf(),
        ensures
            final(self).wf(),
            final(self)@ == if deliverable(old(self)@, id, task) {
                old(self)@.remove(id)
            } else {
                old(self)@
            },
    {
        if self.is_current(id, task) {
            let _ = self.abort(id);
        }
    }

    /// What the transport sends for the next event of `task` on channel `id`:
    /// an item of its stream, or `None` once the stream has ended. While `task`
    /// is the one bound to `id`, an item becomes its frame, and the end becomes
    /// the terminal marker and frees the channel; otherwise nothing is sent and
    /// the transport stops the task.
    pub fn next_frame<V, E>(&mut self, id: u32, task: u64, event: Option<Result<V, (u16, E)>>) -> (r:
        Option<Frame<V, E>>)
        requires
            old(self).wf(),
        ensures
            final(self).wf(),
            !deliverable(old(self)@, id, task) ==> r is None && final(self)@ == old(self)@,
            deliverable(old(self)@, id, task) ==> r == Some(
                match event {
                    Some(item) => result_frame(item, false),
                    None => Frame::<V, E>::Done,
                },
            ) && final(self)@ == if event is None {
                old(self)@.remove(id)
            } else {
                old(self)@
            },
    {
        if !self.is_current(id, task) {
            return None;
        }
        match event {
            Some(item) => Some(item_frame(item)),
            None => {
                self.finished(id, task);
                Some(done_frame())
            },
        }
    }

    /// Whether frames of `task` on channel `id` may still reach the caller.
    pub fn is_current(&self, id: u32, task: u64) -> (r: bool)
        requires
            self.wf(),
        ensures
            r == deliverable(self@, id, task),
    {
        match find(&self.active, id) {
            Some(i) => {
                proof {
                    lemma_task_at(self.active@, i as int);
                }
                self.active[i].1 == task
            },
            None => false,
        }
    }
}

/// Re-issuing a request on a channel that has an active task hands that task
/// back for cancelling, and from then on only the new task's frames reach the
/// caller (`next_frame` sends nothing for the old one); after an abort, no
/// task's frames on that channel do.
pub proof fn reissue_cancels_previous_task(m: Map<u32, u64>, id: u32, old_task: u64, new_task: u64)
    requires
        deliverable(m, id, old_task),
        old_task != new_task,
    ensures
        m.contains_key(id) && m[id] == old_task,
        !deliverable(m.insert(id, new_task), id, old_task),
        deliverable(m.insert(id, new_task), id, new_task),
        forall|t: u64| !deliverable(m.insert(id, new_task).remove(id), id, t),
{
}

} // verus!
