//! Timers and animation frames of a window.
//!
//! Points in time and spans are counted in nanoseconds.

use crate::js::custom_elements::Handle;
use vstd::prelude::*;

verus! {

/// A timer that waits for its deadline.
#[derive(Clone, Copy, Debug, PartialEq, Eq, Structural)]
pub struct TimerEntry {
    pub id: u32,
    pub callback: Handle,
    pub deadline: u64,
    /// The span after which the timer runs again, for intervals.
    pub interval: Option<u64>,
}

/// A callback that waits for the next frame.
#[derive(Clone, Copy, Debug, PartialEq, Eq, Structural)]
pub struct AnimationFrameEntry {
    pub id: u32,
    pub callback: Handle,
}

/// What a window keeps for its event loop.
#[derive(Debug)]
pub struct WindowCapture {
    pub timers: Vec<TimerEntry>,
    pub next_timer_id: u32,
    pub animation_frames: Vec<AnimationFrameEntry>,
    pub next_raf_id: u32,
}

/// At most so many timers run in one turn.
pub const MAX_READY_TIMERS: usize = 100;

/// Nanoseconds in a millisecond.
pub const MILLISECOND: u64 = 1_000_000;

/// The span that a delay in milliseconds asks for; negative delays are none.
pub open spec fn delay_span(delay_ms: i32) -> int {
    if delay_ms > 0 {
        delay_ms * MILLISECOND
    } else {
        0
    }
}

/// The timers that run at `now`, and the ones that stay.
pub open spec fn split_ready(timers: Seq<TimerEntry>, now: u64) -> (
    Seq<TimerEntry>,
    Seq<TimerEntry>,
)
    decreases timers.len(),
{
    if timers.len() == 0 {
        (Seq::empty(), Seq::empty())
    } else {
        let (ready, pending) = split_ready(timers.drop_last(), now);
        if timers.last().deadline <= now && ready.len() < MAX_READY_TIMERS {
            (ready.push(timers.last()), pending)
        } else {
            (ready, pending.push(timers.last()))
        }
    }
}

/// Whether `d` is the earliest deadline.
pub open spec fn is_next_deadline(timers: Seq<TimerEntry>, d: u64) -> bool {
    &&& exists|i: int| 0 <= i < timers.len() && #[trigger] timers[i].deadline == d
    &&& forall|i: int| 0 <= i < timers.len() ==> d <= #[trigger] timers[i].deadline
}

/// Whether a timer is due.
pub open spec fn some_due(timers: Seq<TimerEntry>, now: u64) -> bool {
    exists|i: int| 0 <= i < timers.len() && #[trigger] timers[i].deadline <= now
}

impl WindowCapture {
    /// A window without timers and frames.
    pub fn new() -> (res: Self)
        ensures
            res.timers@ == Seq::<TimerEntry>::empty(),
            res.animation_frames@ == Seq::<AnimationFrameEntry>::empty(),
            res.next_timer_id == 1,
            res.next_raf_id == 1,
    {
        WindowCapture {
            timers: Vec::new(),
            next_timer_id: 1,
            animation_frames: Vec::new(),
            next_raf_id: 1,
        }
    }

    /// Starts a timer at `now`; the result is its id.
    pub fn add_timer(&mut self, callback: Handle, delay_ms: i32, now: u64, is_interval: bool) -> (res:
        u32)
        requires
            old(self).next_timer_id < u32::MAX,
            now + delay_span(delay_ms) <= u64::MAX,
        ensures
            res == old(self).next_timer_id,
            final(self).next_timer_id == res + 1,
            final(self).timers@ == old(self).timers@.push(
                (TimerEntry {
                    id: res,
                    callback,
                    deadline: (now + delay_span(delay_ms)) as u64,
                    interval: if is_interval {
                        Some(delay_span(delay_ms) as u64)
                    } else {
                        None
                    },
                }),
            ),
            final(self).animation_frames == old(self).animation_frames,
            final(self).next_raf_id == old(self).next_raf_id,
    {
        let span: u64 = if delay_ms > 0 {
            delay_ms as u64 * MILLISECOND
        } else {
            0
        };
        let id = self.next_timer_id;
        self.next_timer_id = self.next_timer_id + 1;
        self.timers.push(
            TimerEntry {
                id,
                callback,
                deadline: now + span,
                interval: if is_interval {
                    Some(span)
                } else {
                    None
                },
            },
        );
        id
    }

    /// Stops the timers with that id. No timer has the id 0.
    pub fn clear_timer(&mut self, id: u32)
        ensures
            final(self).timers@ == (if id == 0 {
                old(self).timers@
            } else {
                old(self).timers@.filter(|t: TimerEntry| t.id != id)
            }),
            final(self).next_timer_id == old(self).next_timer_id,
            final(self).animation_frames == old(self).animation_frames,
            final(self).next_raf_id == old(self).next_raf_id,
    {
        if id == 0 {
            return ;
        }
        let mut kept: Vec<TimerEntry> = Vec::new();
        let ghost all = self.timers@;
        let mut i: usize = 0;
        proof {
            reveal(Seq::filter);
            assert(all.take(0).filter(|t: TimerEntry| t.id != id) =~= Seq::<TimerEntry>::empty());
        }
        while i < self.timers.len()
            invariant
                i <= self.timers.len(),
                all == self.timers@,
                kept@ == all.take(i as int).filter(|t: TimerEntry| t.id != id),
                *self == *old(self),
            decreases self.timers.len() - i,
        {
            proof {
                reveal(Seq::filter);
                assert(all.take(i + 1).drop_last() =~= all.take(i as int));
                assert(all.take(i + 1).last() == all[i as int]);
            }
            let entry = self.timers[i];
            if entry.id != id {
                kept.push(entry);
            }
            i = i + 1;
        }
        assert(all.take(i as int) =~= all);
        self.timers = kept;
    }

    /// Asks for a callback at the next frame; the result is its id.
    pub fn request_animation_frame(&mut self, callback: Handle) -> (res: u32)
        requires
            old(self).next_raf_id < u32::MAX,
        ensures
            res == old(self).next_raf_id,
            final(self).next_raf_id == res + 1,
            final(self).animation_frames@ == old(self).animation_frames@.push(
                (AnimationFrameEntry { id: res, callback }),
            ),
            final(self).timers == old(self).timers,
            final(self).next_timer_id == old(self).next_timer_id,
    {
        let id = self.next_raf_id;
        self.next_raf_id = self.next_raf_id + 1;
        self.animation_frames.push(AnimationFrameEntry { id, callback });
        id
    }

    /// Withdraws the callbacks with that id. No callback has the id 0.
    pub fn cancel_animation_frame(&mut self, id: u32)
        ensures
            final(self).animation_frames@ == (if id == 0 {
                old(self).animation_frames@
            } else {
                old(self).animation_frames@.filter(|f: AnimationFrameEntry| f.id != id)
            }),
            final(self).next_raf_id == old(self).next_raf_id,
            final(self).timers == old(self).timers,
            final(self).next_timer_id == old(self).next_timer_id,
    {
        if id == 0 {
            return ;
        }
        let mut kept: Vec<AnimationFrameEntry> = Vec::new();
        let ghost all = self.animation_frames@;
        let mut i: usize = 0;
        proof {
            reveal(Seq::filter);
            assert(all.take(0).filter(|f: AnimationFrameEntry| f.id != id)
                =~= Seq::<AnimationFrameEntry>::empty());
        }
        while i < self.animation_frames.len()
            invariant
                i <= self.animation_frames.len(),
                all == self.animation_frames@,
                kept@ == all.take(i as int).filter(|f: AnimationFrameEntry| f.id != id),
                *self == *old(self),
            decreases self.animation_frames.len() - i,
        {
            proof {
                reveal(Seq::filter);
                assert(all.take(i + 1).drop_last() =~= all.take(i as int));
                assert(all.take(i + 1).last() == all[i as int]);
            }
            let entry = self.animation_frames[i];
            if entry.id != id {
                kept.push(entry);
            }
            i = i + 1;
        }
        assert(all.take(i as int) =~= all);
        self.animation_frames = kept;
    }

    /// Takes the callbacks that wait for this frame.
    pub fn take_animation_frames(&mut self) -> (res: Vec<AnimationFrameEntry>)
        ensures
            res@ == old(self).animation_frames@,
            final(self).animation_frames@ == Seq::<AnimationFrameEntry>::empty(),
            final(self).next_raf_id == old(self).next_raf_id,
            final(self).timers == old(self).timers,
            final(self).next_timer_id == old(self).next_timer_id,
    {
        let mut taken: Vec<AnimationFrameEntry> = Vec::new();
        std::mem::swap(&mut taken, &mut self.animation_frames);
        taken
    }

    /// Takes the timers that run at `now`, in the order in which they were
    /// started.
    pub fn ready_timers(&mut self, now: u64) -> (res: Vec<TimerEntry>)
        ensures
            res@ == split_ready(old(self).timers@, now).0,
            final(self).timers@ == split_ready(old(self).timers@, now).1,
            final(self).next_timer_id == old(self).next_timer_id,
            final(self).animation_frames == old(self).animation_frames,
            final(self).next_raf_id == old(self).next_raf_id,
    {
        let mut ready: Vec<TimerEntry> = Vec::new();
        let mut pending: Vec<TimerEntry> = Vec::new();
        let ghost all = self.timers@;
        let mut i: usize = 0;
        assert(ready@ =~= split_ready(all.take(0), now).0);
        assert(pending@ =~= split_ready(all.take(0), now).1);
        while i < self.timers.len()
            invariant
                i <= self.timers.len(),
                all == self.timers@,
                ready@ == split_ready(all.take(i as int), now).0,
                pending@ == split_ready(all.take(i as int), now).1,
                *self == *old(self),
            decreases self.timers.len() - i,
        {
            proof {
                assert(all.take(i + 1).drop_last() =~= all.take(i as int));
                assert(all.take(i + 1).last() == all[i as int]);
            }
            let entry = self.timers[i];
            if entry.deadline <= now && ready.len() < MAX_READY_TIMERS {
                ready.push(entry);
            } else {
                pending.push(entry);
            }
            i = i + 1;
        }
        assert(all.take(i as int) =~= all);
        self.timers = pending;
        ready
    }

    /// What happens to a timer that has run at `now`: intervals wait again.
    pub fn finish_timer(&mut self, entry: TimerEntry, now: u64)
        requires
            entry.interval matches Some(span) ==> now + span <= u64::MAX,
        ensures
            final(self).timers@ == (match entry.interval {
                Some(span) => old(self).timers@.push(
                    TimerEntry { deadline: (now + span) as u64, ..entry },
                ),
                None => old(self).timers@,
            }),
            final(self).next_timer_id == old(self).next_timer_id,
            final(self).animation_frames == old(self).animation_frames,
            final(self).next_raf_id == old(self).next_raf_id,
    {
        if let Some(span) = entry.interval {
            self.timers.push(
                TimerEntry {
                    id: entry.id,
                    callback: entry.callback,
                    deadline: now + span,
                    interval: Some(span),
                },
            );
        }
    }

    /// The earliest deadline.
    pub fn next_deadline(&self) -> (res: Option<u64>)
        ensures
            match res {
                Some(d) => is_next_deadline(self.timers@, d),
                None => self.timers@.len() == 0,
            },
    {
        if self.timers.len() == 0 {
            return None;
        }
        let mut best: u64 = self.timers[0].deadline;
        let mut i: usize = 1;
        assert(self.timers@[0].deadline == best);
        while i < self.timers.len()
            invariant
                1 <= i <= self.timers.len(),
                exists|j: int| 0 <= j < i && #[trigger] self.timers@[j].deadline == best,
                forall|j: int| 0 <= j < i ==> best <= #[trigger] self.timers@[j].deadline,
            decreases self.timers.len() - i,
        {
            if self.timers[i].deadline < best {
                best = self.timers[i].deadline;
            }
            i = i + 1;
        }
        Some(best)
    }

    /// Whether a callback waits for the next frame.
    pub fn has_animation_frame_callbacks(&self) -> (res: bool)
        ensures
            res == (self.animation_frames@.len() > 0),
    {
        self.animation_frames.len() > 0
    }

    /// Whether there is something to run at `now`.
    pub fn has_ready_work(&self, now: u64) -> (res: bool)
        ensures
            res == (self.animation_frames@.len() > 0 || some_due(self.timers@, now)),
    {
        self.has_animation_frame_callbacks() || match self.next_deadline() {
            Some(d) => d <= now,
            None => false,
        }
    }
}

proof fn lemma_split(timers: Seq<TimerEntry>, now: u64)
    ensures
        split_ready(timers, now).0.to_multiset().add(split_ready(timers, now).1.to_multiset())
            == timers.to_multiset(),
        split_ready(timers, now).0.len() <= MAX_READY_TIMERS,
        forall|i: int|
            0 <= i < split_ready(timers, now).0.len() ==> (#[trigger] split_ready(
                timers,
                now,
            ).0[i]).deadline <= now,
        split_ready(timers, now).0.len() < MAX_READY_TIMERS ==> !some_due(
            split_ready(timers, now).1,
            now,
        ),
    decreases timers.len(),
{
    broadcast use vstd::seq_lib::group_to_multiset_ensures;

    let (ready, pending) = split_ready(timers, now);
    if timers.len() == 0 {
        assert(ready.to_multiset().add(pending.to_multiset()) =~= timers.to_multiset());
    } else {
        lemma_split(timers.drop_last(), now);
        let (front_ready, front_pending) = split_ready(timers.drop_last(), now);
        let last = timers.last();
        assert(timers =~= timers.drop_last().push(last));
        assert(timers.to_multiset() =~= timers.drop_last().to_multiset().insert(last));
        assert(ready.to_multiset().add(pending.to_multiset()) =~= timers.to_multiset());
        if ready.len() < MAX_READY_TIMERS {
            assert forall|i: int| 0 <= i < pending.len() implies (#[trigger] pending[i]).deadline
                > now by {
                if i < front_pending.len() {
                    assert(front_pending[i] == pending[i]);
                    assert(!some_due(front_pending, now));
                }
            }
        }
    }
}

/// No timer is lost in a turn and none runs early or twice: every timer either
/// runs or keeps waiting. One that is due waits only if the turn is full.
pub proof fn law_timers_run_or_wait(timers: Seq<TimerEntry>, now: u64)
    ensures
        split_ready(timers, now).0.to_multiset().add(split_ready(timers, now).1.to_multiset())
            == timers.to_multiset(),
        forall|i: int|
            0 <= i < split_ready(timers, now).0.len() ==> (#[trigger] split_ready(
                timers,
                now,
            ).0[i]).deadline <= now,
        split_ready(timers, now).0.len() < MAX_READY_TIMERS ==> !some_due(
            split_ready(timers, now).1,
            now,
        ),
{
    lemma_split(timers, now);
}

proof fn lemma_filtered_timers(timers: Seq<TimerEntry>, id: u32, i: int)
    requires
        0 <= i < timers.filter(|t: TimerEntry| t.id != id).len(),
    ensures
        timers.filter(|t: TimerEntry| t.id != id)[i].id != id,
    decreases timers.len(),
{
    reveal(Seq::filter);
    let front = timers.drop_last().filter(|t: TimerEntry| t.id != id);
    if i < front.len() {
        lemma_filtered_timers(timers.drop_last(), id, i);
    }
}

/// A cleared timer does not run any more.
pub proof fn law_cleared_timers_do_not_run(timers: Seq<TimerEntry>, id: u32, now: u64, i: int)
    requires
        0 <= i < split_ready(timers.filter(|t: TimerEntry| t.id != id), now).0.len(),
    ensures
        split_ready(timers.filter(|t: TimerEntry| t.id != id), now).0[i].id != id,
{
    broadcast use vstd::seq_lib::group_to_multiset_ensures;

    let kept = timers.filter(|t: TimerEntry| t.id != id);
    let (ready, pending) = split_ready(kept, now);
    lemma_split(kept, now);
    assert(ready.contains(ready[i]));
    assert(ready.to_multiset().count(ready[i]) > 0);
    assert(kept.to_multiset().count(ready[i]) > 0);
    assert(kept.contains(ready[i]));
    let j = choose|j: int| 0 <= j < kept.len() && kept[j] == ready[i];
    lemma_filtered_timers(timers, id, j);
}

} // verus!
