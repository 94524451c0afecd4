//! The lifecycle registry: which hooks are registered, which have started,
//! and which to start or stop next. Hooks start in registration order and
//! stop in reverse; a stop-only hook counts as started as soon as start (or
//! an unwind) reaches it.
//!
//! The hooks themselves (their callbacks) are held by the embedding
//! application, one per slot; a slot's `present` flag says whether the hook
//! is currently held by the registry, as opposed to handed out to run or
//! dropped.

use vstd::prelude::*;

use crate::error::Error;

verus! {

/// Where the application is in its lifecycle.
#[derive(Clone, Copy, Debug, PartialEq, Eq, Structural)]
pub enum Phase {
    /// Invoke / registration window.
    Registering,
    /// Start is running; OnStart factories may still append.
    Starting,
    /// Start finished successfully; further appends are rejected.
    Started,
    /// Stop or unwind is in progress (or finished); appends are rejected.
    Stopping,
}

/// One registered hook.
#[derive(Clone, Copy, Debug)]
pub struct HookSlot {
    /// Label used in logs and errors.
    pub name: &'static str,
    /// The hook runs an OnStart phase.
    pub has_start: bool,
    /// The hook runs an OnStop phase.
    pub has_stop: bool,
    /// The hook is held by the registry (not handed out, not dropped).
    pub present: bool,
}

/// The registry as a mathematical value.
pub struct LifecycleView {
    pub slots: Seq<HookSlot>,
    pub started: nat,
    pub phase: Phase,
}

/// `s` with slot `i` no longer held.
pub open spec fn released(s: HookSlot) -> HookSlot {
    HookSlot { present: false, ..s }
}

/// `s` held again.
pub open spec fn restored(s: HookSlot) -> HookSlot {
    HookSlot { present: true, ..s }
}

/// The slot is held and runs OnStart.
pub open spec fn startable(s: HookSlot) -> bool {
    s.present && s.has_start
}

/// The slot is held and runs OnStop.
pub open spec fn stoppable(s: HookSlot) -> bool {
    s.present && s.has_stop
}

/// The first index at or after `from` whose hook can start, or the number of
/// slots when none can.
pub open spec fn next_start_index(slots: Seq<HookSlot>, from: int) -> int
    decreases slots.len() - from,
{
    if from >= slots.len() {
        slots.len() as int
    } else if startable(slots[from]) {
        from
    } else {
        next_start_index(slots, from + 1)
    }
}

/// The greatest index below `before` whose hook can stop, or `-1` when none
/// can.
pub open spec fn stop_index(slots: Seq<HookSlot>, before: int) -> int
    decreases before,
{
    if before <= 0 {
        -1
    } else if stoppable(slots[before - 1]) {
        before - 1
    } else {
        stop_index(slots, before - 1)
    }
}

/// The indices below `before` whose hooks can stop, greatest first: the order
/// in which stop visits them.
pub open spec fn stop_order(slots: Seq<HookSlot>, before: int) -> Seq<int>
    decreases before,
{
    if before <= 0 {
        Seq::empty()
    } else if stoppable(slots[before - 1]) {
        seq![before - 1] + stop_order(slots, before - 1)
    } else {
        stop_order(slots, before - 1)
    }
}

/// Registration of a hook: accepted during registration and start only.
pub open spec fn after_append(m: LifecycleView, slot: HookSlot) -> LifecycleView {
    match m.phase {
        Phase::Registering | Phase::Starting => LifecycleView { slots: m.slots.push(slot), ..m },
        _ => m,
    }
}

/// Taking the next hook to start: skips hooks without OnStart (they count as
/// started), hands out the first one that has it, or finishes start.
pub open spec fn after_next_start(m: LifecycleView) -> LifecycleView {
    let j = next_start_index(m.slots, m.started as int);
    if j >= m.slots.len() {
        LifecycleView { started: m.slots.len(), phase: Phase::Started, ..m }
    } else {
        LifecycleView { slots: m.slots.update(j, released(m.slots[j])), started: j as nat, ..m }
    }
}

/// Unwind preparation: every hook not reached yet counts as started, and the
/// ones that would have needed OnStart are dropped.
pub open spec fn after_prepare(m: LifecycleView) -> LifecycleView {
    LifecycleView {
        slots: Seq::new(
            m.slots.len(),
            |k: int|
                if k >= m.started && m.slots[k].has_start {
                    released(m.slots[k])
                } else {
                    m.slots[k]
                },
        ),
        started: m.slots.len(),
        phase: Phase::Stopping,
    }
}

/// Taking the next hook to stop: every hook passed over on the way down is
/// released, the one returned included.
pub open spec fn after_take_stop(m: LifecycleView) -> LifecycleView {
    let j = stop_index(m.slots, m.started as int);
    let lo = if j < 0 { 0 } else { j };
    LifecycleView {
        slots: Seq::new(
            m.slots.len(),
            |k: int|
                if lo <= k < m.started {
                    released(m.slots[k])
                } else {
                    m.slots[k]
                },
        ),
        started: lo as nat,
        ..m
    }
}

/// The registry: one slot per appended hook, the count of hooks that have
/// finished starting (stop only runs over this prefix), and the phase.
#[derive(Debug)]
pub struct LifecycleState {
    hooks: Vec<HookSlot>,
    started: usize,
    phase: Phase,
}

impl LifecycleState {
    /// The registry as a mathematical value.
    pub closed spec fn view(&self) -> LifecycleView {
        LifecycleView { slots: self.hooks@, started: self.started as nat, phase: self.phase }
    }

    /// The started prefix lies within the registered hooks.
    pub closed spec fn wf(&self) -> bool {
        self.started <= self.hooks@.len()
    }

    /// An empty registry in the registration phase.
    pub fn new() -> (s: Self)
        ensures
            s.wf(),
            s.view().slots.len() == 0,
            s.view().started == 0,
            s.view().phase == Phase::Registering,
    {
        LifecycleState { hooks: Vec::new(), started: 0, phase: Phase::Registering }
    }

    /// Number of registered hooks.
    pub fn len(&self) -> (n: usize)
        ensures
            n == self.view().slots.len(),
    {
        self.hooks.len()
    }

    /// The current phase.
    pub fn phase(&self) -> (p: Phase)
        ensures
            p == self.view().phase,
    {
        self.phase
    }

    /// The slot of hook `idx`.
    pub fn slot(&self, idx: usize) -> (s: HookSlot)
        requires
            idx < self.view().slots.len(),
        ensures
            s == self.view().slots[idx as int],
    {
        self.hooks[idx]
    }

    /// Append a hook. Rejected once start has finished or stop has begun,
    /// since the hook would never run.
    pub fn append(&mut self, name: &'static str, has_start: bool, has_stop: bool) -> (r: Result<(), Error>)
        requires
            old(self).wf(),
            old(self).view().slots.len() < usize::MAX,
        ensures
            final(self).wf(),
            final(self).view() == after_append(
                old(self).view(),
                HookSlot { name, has_start, has_stop, present: true },
            ),
            (old(self).view().phase == Phase::Registering || old(self).view().phase == Phase::Starting)
                <==> r is Ok,
            old(self).view().phase == Phase::Started ==> r == Err::<(), Error>(Error::AppendAfterStart),
            old(self).view().phase == Phase::Stopping ==> r == Err::<(), Error>(Error::AppendWhileStopping),
    {
        match self.phase {
            Phase::Registering | Phase::Starting => {
                self.hooks.push(HookSlot { name, has_start, has_stop, present: true });
                Ok(())
            },
            Phase::Started => Err(Error::AppendAfterStart),
            Phase::Stopping => Err(Error::AppendWhileStopping),
        }
    }

    /// Enter the start phase.
    pub fn begin_start(&mut self)
        requires
            old(self).wf(),
        ensures
            final(self).wf(),
            final(self).view() == (LifecycleView { phase: Phase::Starting, ..old(self).view() }),
    {
        self.phase = Phase::Starting;
    }

    /// Enter the stop phase (stop or unwind), returning how many hooks have
    /// started.
    pub fn begin_stopping(&mut self) -> (n: usize)
        requires
            old(self).wf(),
        ensures
            final(self).wf(),
            final(self).view() == (LifecycleView { phase: Phase::Stopping, ..old(self).view() }),
            n == old(self).view().started,
    {
        self.phase = Phase::Stopping;
        self.started
    }

    /// Number of hooks that have started; stop visits at most these.
    pub fn pending_stops(&self) -> (n: usize)
        ensures
            n == self.view().started,
    {
        self.started
    }

    /// Hand out the next hook to start, in registration order. Hooks without
    /// OnStart (or no longer held) count as started on the way. When none is
    /// left, start is finished.
    pub fn next_start(&mut self) -> (r: Option<usize>)
        requires
            old(self).wf(),
        ensures
            final(self).wf(),
            final(self).view() == after_next_start(old(self).view()),
            r is None <==> next_start_index(old(self).view().slots, old(self).view().started as int)
                >= old(self).view().slots.len(),
            r matches Some(j) ==> j == next_start_index(old(self).view().slots, old(self).view().started as int),
    {
        let ghost m = self.view();
        loop
            invariant
                m == old(self).view(),
                self.wf(),
                self.hooks@ == m.slots,
                self.phase == m.phase,
                m.started <= self.started,
                next_start_index(m.slots, m.started as int) == next_start_index(m.slots, self.started as int),
            decreases self.hooks.len() - self.started,
        {
            if self.started >= self.hooks.len() {
                self.phase = Phase::Started;
                return None;
            }
            let idx = self.started;
            let s = self.hooks[idx];
            if !(s.present && s.has_start) {
                self.started = self.started + 1;
            } else {
                let mut t = s;
                t.present = false;
                self.hooks.set(idx, t);
                proof {
                    assert(t == released(m.slots[idx as int]));
                }
                return Some(idx);
            }
        }
    }

    /// Hook `idx`, handed out by [`LifecycleState::next_start`], finished
    /// OnStart: it is held again and counts as started.
    pub fn start_succeeded(&mut self, idx: usize)
        requires
            old(self).wf(),
            idx < old(self).view().slots.len(),
            old(self).view().started < old(self).view().slots.len(),
        ensures
            final(self).wf(),
            final(self).view() == (LifecycleView {
                slots: old(self).view().slots.update(idx as int, restored(old(self).view().slots[idx as int])),
                started: old(self).view().started + 1,
                ..old(self).view()
            }),
    {
        let mut t = self.hooks[idx];
        t.present = true;
        self.hooks.set(idx, t);
        assert(self.started < self.hooks.len());
        self.started = self.started + 1;
    }

    /// Prepare an unwind after a failed or cancelled start: enter the stop
    /// phase, count every hook not reached yet as started, and drop those
    /// that needed OnStart (their OnStop must not run). Stop-only hooks after
    /// the failure point therefore still stop.
    pub fn prepare_for_unwind(&mut self)
        requires
            old(self).wf(),
        ensures
            final(self).wf(),
            final(self).view() == after_prepare(old(self).view()),
    {
        let ghost m = self.view();
        self.phase = Phase::Stopping;
        while self.started < self.hooks.len()
            invariant
                m == old(self).view(),
                self.wf(),
                m.started <= self.started,
                self.hooks@.len() == m.slots.len(),
                self.phase == Phase::Stopping,
                forall|k: int|
                    0 <= k < self.hooks@.len() ==> #[trigger] self.hooks@[k] == if m.started <= k < self.started
                        && m.slots[k].has_start {
                        released(m.slots[k])
                    } else {
                        m.slots[k]
                    },
            decreases self.hooks.len() - self.started,
        {
            let idx = self.started;
            let s = self.hooks[idx];
            if s.present && s.has_start {
                let mut t = s;
                t.present = false;
                self.hooks.set(idx, t);
            } else {
                assert(s.has_start ==> s == released(s));
            }
            self.started = self.started + 1;
        }
        assert(self.hooks@ =~= after_prepare(m).slots);
    }

    /// Take the next hook to stop: the greatest started index whose hook is
    /// held and has OnStop. Hooks passed over on the way down (not held, or
    /// without OnStop) are released and stay out of the started prefix.
    pub fn take_next_stop(&mut self) -> (r: Option<usize>)
        requires
            old(self).wf(),
        ensures
            final(self).wf(),
            final(self).view() == after_take_stop(old(self).view()),
            r is None <==> stop_index(old(self).view().slots, old(self).view().started as int) < 0,
            r matches Some(j) ==> j == stop_index(old(self).view().slots, old(self).view().started as int),
    {
        let ghost m = self.view();
        loop
            invariant
                m == old(self).view(),
                self.wf(),
                self.started <= m.started,
                self.hooks@.len() == m.slots.len(),
                self.phase == m.phase,
                stop_index(m.slots, m.started as int) == stop_index(m.slots, self.started as int),
                forall|k: int|
                    0 <= k < self.hooks@.len() ==> #[trigger] self.hooks@[k] == if self.started <= k < m.started {
                        released(m.slots[k])
                    } else {
                        m.slots[k]
                    },
            decreases self.started,
        {
            if self.started == 0 {
                assert(self.hooks@ =~= after_take_stop(m).slots);
                return None;
            }
            self.started = self.started - 1;
            let idx = self.started;
            let s = self.hooks[idx];
            let mut t = s;
            t.present = false;
            self.hooks.set(idx, t);
            if s.present && s.has_stop {
                assert(self.hooks@ =~= after_take_stop(m).slots);
                return Some(idx);
            }
        }
    }

    /// OnStop of hook `idx` was cancelled before it finished: hold the hook
    /// again and count it as started, so a later unwind retries it.
    pub fn stop_cancelled(&mut self, idx: usize)
        requires
            old(self).wf(),
            idx < old(self).view().slots.len(),
            old(self).view().started < old(self).view().slots.len(),
        ensures
            final(self).wf(),
            final(self).view() == (LifecycleView {
                slots: old(self).view().slots.update(idx as int, restored(old(self).view().slots[idx as int])),
                started: old(self).view().started + 1,
                ..old(self).view()
            }),
    {
        let mut t = self.hooks[idx];
        t.present = true;
        self.hooks.set(idx, t);
        assert(self.started < self.hooks.len());
        self.started = self.started + 1;
    }
}

/// `stop_order` starts with `stop_index` and continues below it.
proof fn lemma_stop_order_head(slots: Seq<HookSlot>, before: int)
    requires
        0 <= before <= slots.len(),
    ensures
        stop_index(slots, before) < before,
        stop_index(slots, before) < 0 ==> stop_order(slots, before) == Seq::<int>::empty(),
        stop_index(slots, before) >= 0 ==> stop_order(slots, before) == seq![stop_index(slots, before)]
            + stop_order(slots, stop_index(slots, before)),
        stop_index(slots, before) >= 0 ==> stoppable(slots[stop_index(slots, before)]),
    decreases before,
{
    if before > 0 && !stoppable(slots[before - 1]) {
        lemma_stop_order_head(slots, before - 1);
    }
}

/// `stop_order` below `before` reads only the slots below `before`.
proof fn lemma_stop_order_prefix(a: Seq<HookSlot>, b: Seq<HookSlot>, before: int)
    requires
        before <= a.len(),
        before <= b.len(),
        forall|k: int| 0 <= k < before ==> stoppable(#[trigger] a[k]) == stoppable(b[k]),
    ensures
        stop_order(a, before) == stop_order(b, before),
    decreases before,
{
    if before > 0 {
        lemma_stop_order_prefix(a, b, before - 1);
    }
}

/// Stop visits started hooks in reverse registration order: the stop order
/// is strictly decreasing and holds exactly the started indices whose hook is
/// held and has OnStop.
pub proof fn law_stop_order_is_reverse(slots: Seq<HookSlot>, before: int)
    requires
        0 <= before <= slots.len(),
    ensures
        forall|a: int, b: int|
            0 <= a < b < stop_order(slots, before).len() ==> stop_order(slots, before)[a] > stop_order(
                slots,
                before,
            )[b],
        forall|k: int| stop_order(slots, before).contains(k) <==> (0 <= k < before && stoppable(slots[k])),
    decreases before,
{
    if before > 0 {
        law_stop_order_is_reverse(slots, before - 1);
        let rest = stop_order(slots, before - 1);
        if stoppable(slots[before - 1]) {
            let all = seq![before - 1] + rest;
            assert(stop_order(slots, before) == all);
            assert forall|k: int| all.contains(k) <==> (0 <= k < before && stoppable(slots[k])) by {
                if all.contains(k) {
                    let i = choose|i: int| 0 <= i < all.len() && all[i] == k;
                    if i > 0 {
                        assert(rest[i - 1] == k);
                        assert(rest.contains(k));
                    }
                }
                if 0 <= k < before - 1 && stoppable(slots[k]) {
                    assert(rest.contains(k));
                    let i = choose|i: int| 0 <= i < rest.len() && rest[i] == k;
                    assert(all[i + 1] == k);
                    assert(all.contains(k));
                }
                if k == before - 1 {
                    assert(all[0] == k);
                    assert(all.contains(k));
                }
            }
            assert forall|a: int, b: int| 0 <= a < b < all.len() implies all[a] > all[b] by {
                if a == 0 {
                    assert(rest.contains(all[b]));
                }
            }
        }
    }
}

/// Taking the next hook to stop returns the head of the stop order and leaves
/// the rest of it, in the same order, for the next call.
pub proof fn law_take_stop_advances_order(m: LifecycleView)
    requires
        m.started <= m.slots.len(),
    ensures
        stop_order(m.slots, m.started as int).len() == 0 <==> stop_index(m.slots, m.started as int) < 0,
        stop_order(m.slots, m.started as int).len() > 0 ==> stop_index(m.slots, m.started as int) == stop_order(
            m.slots,
            m.started as int,
        )[0],
        stop_order(m.slots, m.started as int).len() > 0 ==> stop_order(
            after_take_stop(m).slots,
            after_take_stop(m).started as int,
        ) == stop_order(m.slots, m.started as int).drop_first(),
        stop_order(m.slots, m.started as int).len() == 0 ==> stop_order(
            after_take_stop(m).slots,
            after_take_stop(m).started as int,
        ).len() == 0,
{
    let j = stop_index(m.slots, m.started as int);
    lemma_stop_order_head(m.slots, m.started as int);
    let n = after_take_stop(m);
    let lo = if j < 0 { 0 } else { j };
    lemma_stop_order_prefix(n.slots, m.slots, lo);
    if j >= 0 {
        assert(stop_order(m.slots, m.started as int).drop_first() =~= stop_order(m.slots, j));
    }
}

/// A stop that was cancelled and written back is retried first: taking the
/// next hook to stop and then restoring it leaves the stop order as it was.
pub proof fn law_cancelled_stop_is_retried(m: LifecycleView)
    requires
        m.started <= m.slots.len(),
        stop_index(m.slots, m.started as int) >= 0,
    ensures
        ({
            let j = stop_index(m.slots, m.started as int);
            let t = after_take_stop(m);
            let back = LifecycleView {
                slots: t.slots.update(j, restored(t.slots[j])),
                started: t.started + 1,
                ..t
            };
            stop_order(back.slots, back.started as int) == stop_order(m.slots, m.started as int)
        }),
{
    let j = stop_index(m.slots, m.started as int);
    lemma_stop_order_head(m.slots, m.started as int);
    let t = after_take_stop(m);
    let back_slots = t.slots.update(j, restored(t.slots[j]));
    assert(stoppable(back_slots[j]));
    lemma_stop_order_prefix(back_slots, m.slots, j);
}

/// A hook whose OnStart was handed out and failed never runs OnStop, while
/// every stop-only hook registered after it still stops during the unwind,
/// and hooks started before it stop exactly as before.
pub proof fn law_failed_start_unwinds(m: LifecycleView)
    requires
        m.started <= m.slots.len(),
        next_start_index(m.slots, m.started as int) < m.slots.len(),
    ensures
        ({
            let j = next_start_index(m.slots, m.started as int);
            let u = after_prepare(after_next_start(m));
            &&& !stop_order(u.slots, u.started as int).contains(j)
            &&& forall|k: int|
                j < k < m.slots.len() ==> (stop_order(u.slots, u.started as int).contains(k) <==> (
                m.slots[k].present && !m.slots[k].has_start && m.slots[k].has_stop))
            &&& forall|k: int|
                0 <= k < j ==> (stop_order(u.slots, u.started as int).contains(k) <==> stoppable(m.slots[k]))
        }),
{
    let j = next_start_index(m.slots, m.started as int);
    law_start_in_registration_order(m.slots, m.started as int);
    let u = after_prepare(after_next_start(m));
    law_stop_order_is_reverse(u.slots, u.started as int);
}

} // verus!

verus! {

/// Hooks start in registration order: the next hook to start is the first
/// one at or after the started prefix that is held and has OnStart; every
/// hook passed over on the way lacks OnStart (or is no longer held).
pub proof fn law_start_in_registration_order(slots: Seq<HookSlot>, from: int)
    requires
        0 <= from <= slots.len(),
    ensures
        from <= next_start_index(slots, from) <= slots.len(),
        next_start_index(slots, from) < slots.len() ==> startable(slots[next_start_index(slots, from)]),
        forall|k: int| from <= k < next_start_index(slots, from) ==> !startable(#[trigger] slots[k]),
    decreases slots.len() - from,
{
    if from < slots.len() && !startable(slots[from]) {
        law_start_in_registration_order(slots, from + 1);
    }
}

} // verus!

verus! {

/// One step of a start in which OnStart succeeds: hand out the next hook to
/// start (see [`LifecycleState::next_start`]) and record that it finished
/// ([`LifecycleState::start_succeeded`]).
pub open spec fn after_start_step(m: LifecycleView) -> LifecycleView {
    let j = next_start_index(m.slots, m.started as int);
    let n = after_next_start(m);
    if j >= m.slots.len() {
        n
    } else {
        LifecycleView { slots: n.slots.update(j, restored(n.slots[j])), started: n.started + 1, ..n }
    }
}

/// The state after a start from `m` in which every OnStart succeeds: steps
/// until no hook is left to start.
pub open spec fn successful_start(m: LifecycleView) -> LifecycleView
    decreases m.slots.len() - m.started,
{
    let j = next_start_index(m.slots, m.started as int);
    if m.started > m.slots.len() || j >= m.slots.len() || j < m.started {
        after_next_start(m)
    } else {
        successful_start(after_start_step(m))
    }
}

/// The hooks whose OnStart such a start runs, in the order it runs them.
pub open spec fn start_calls(slots: Seq<HookSlot>, from: int) -> Seq<int>
    decreases slots.len() - from,
{
    let j = next_start_index(slots, from);
    if from < 0 || j >= slots.len() || j < from {
        Seq::empty()
    } else {
        seq![j] + start_calls(slots, j + 1)
    }
}

/// A start in which every OnStart succeeds runs OnStart once for each held
/// hook that has one, from the first started count on, in registration order
/// (and for no other hook); it ends with every hook held as before, all of
/// them started, and the phase `Started`, after which
/// [`LifecycleState::append`] is refused.
pub proof fn law_successful_start_runs_every_hook_in_order(m: LifecycleView)
    requires
        m.started <= m.slots.len(),
    ensures
        successful_start(m).slots == m.slots,
        successful_start(m).started == m.slots.len(),
        successful_start(m).phase == Phase::Started,
        forall|a: int, b: int|
            0 <= a < b < start_calls(m.slots, m.started as int).len() ==> start_calls(m.slots, m.started as int)[a]
                < start_calls(m.slots, m.started as int)[b],
        forall|k: int|
            start_calls(m.slots, m.started as int).contains(k) <==> (m.started <= k < m.slots.len() && startable(
                m.slots[k],
            )),
    decreases m.slots.len() - m.started,
{
    let j = next_start_index(m.slots, m.started as int);
    law_start_in_registration_order(m.slots, m.started as int);
    let calls = start_calls(m.slots, m.started as int);
    if j < m.slots.len() {
        let n = after_start_step(m);
        assert(n.slots =~= m.slots) by {
            assert(restored(released(m.slots[j])) == m.slots[j]);
        }
        assert(n.started == j + 1);
        law_successful_start_runs_every_hook_in_order(n);
        let rest = start_calls(m.slots, j + 1);
        assert(calls == seq![j] + rest);
        assert forall|a: int, b: int| 0 <= a < b < calls.len() implies calls[a] < calls[b] by {
            if a == 0 {
                assert(calls[b] == rest[b - 1]);
                assert(rest.contains(rest[b - 1]));
            } else {
                assert(calls[a] == rest[a - 1] && calls[b] == rest[b - 1]);
            }
        }
        assert forall|k: int| calls.contains(k) <==> (m.started <= k < m.slots.len() && startable(m.slots[k])) by {
            if calls.contains(k) {
                let i = choose|i: int| 0 <= i < calls.len() && calls[i] == k;
                if i > 0 {
                    assert(rest[i - 1] == k);
                    assert(rest.contains(k));
                }
            }
            if m.started <= k < m.slots.len() && startable(m.slots[k]) {
                if k == j {
                    assert(calls[0] == k);
                } else {
                    assert(k > j);
                    assert(rest.contains(k));
                    let i = choose|i: int| 0 <= i < rest.len() && rest[i] == k;
                    assert(calls[i + 1] == k);
                }
            }
        }
    } else {
        assert(calls.len() == 0);
        assert forall|k: int| m.started <= k < m.slots.len() implies !startable(#[trigger] m.slots[k]) by {}
    }
}

} // verus!
