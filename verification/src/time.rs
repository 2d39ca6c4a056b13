//! A simple monotonic clock and async `sleep`, driven by the Programmable
//! Interval Timer (PIT, channel 0 -> IRQ0).
//!
//! The PIT is programmed to fire `TIMER_HZ` times per second. Each interrupt
//! bumps the tick counter and wakes any sleeping tasks whose deadline has
//! passed. `sleep(ms)` gives a deadline that is over once enough ticks have
//! elapsed.
//!
//! A waker is whatever the executor needs to run a task again; the timer keeps
//! it and hands it back.

use vstd::prelude::*;

use crate::port::PortOp;

verus! {

/// Timer interrupts per second. 100 Hz gives 10 ms resolution, which is plenty
/// for a hobby kernel and keeps the interrupt rate low.
pub const TIMER_HZ: u64 = 100;

/// The PIT's fixed input clock, ~1.193182 MHz.
pub const PIT_INPUT_HZ: u64 = 1_193_182;

/// The wakers whose deadline has come at tick `now`, in the order of their
/// registration.
pub open spec fn due<W>(sleepers: Seq<(u64, W)>, now: u64) -> Seq<W>
    decreases sleepers.len(),
{
    if sleepers.len() == 0 {
        Seq::empty()
    } else if sleepers[0].0 <= now {
        seq![sleepers[0].1] + due(sleepers.drop_first(), now)
    } else {
        due(sleepers.drop_first(), now)
    }
}

/// The sleepers that go on waiting at tick `now`, in the order of their
/// registration.
pub open spec fn waiting<W>(sleepers: Seq<(u64, W)>, now: u64) -> Seq<(u64, W)>
    decreases sleepers.len(),
{
    if sleepers.len() == 0 {
        Seq::empty()
    } else if sleepers[0].0 <= now {
        waiting(sleepers.drop_first(), now)
    } else {
        seq![sleepers[0]] + waiting(sleepers.drop_first(), now)
    }
}

/// The sleepers that are left of `sleepers` after the ticks from `from` up to
/// `to`.
pub open spec fn after_ticks<W>(sleepers: Seq<(u64, W)>, from: u64, to: u64) -> Seq<(u64, W)>
    decreases to,
{
    if to <= from {
        sleepers
    } else {
        waiting(after_ticks(sleepers, from, (to - 1) as u64), to)
    }
}

proof fn lemma_waiting_keeps<W>(sleepers: Seq<(u64, W)>, now: u64, i: int)
    requires
        0 <= i < sleepers.len(),
        now < sleepers[i].0,
    ensures
        waiting(sleepers, now).contains(sleepers[i]),
    decreases sleepers.len(),
{
    let rest = sleepers.drop_first();
    let all = waiting(sleepers, now);
    if i == 0 {
        assert(all[0] == sleepers[0]);
    } else {
        assert(rest[i - 1] == sleepers[i]);
        lemma_waiting_keeps(rest, now, i - 1);
        let j = choose|j: int| 0 <= j < waiting(rest, now).len() && waiting(rest, now)[j] == rest[i
            - 1];
        if sleepers[0].0 <= now {
            assert(all[j] == sleepers[i]);
        } else {
            assert(all[j + 1] == sleepers[i]);
        }
    }
}

proof fn lemma_due_holds<W>(sleepers: Seq<(u64, W)>, now: u64, i: int)
    requires
        0 <= i < sleepers.len(),
        sleepers[i].0 <= now,
    ensures
        due(sleepers, now).contains(sleepers[i].1),
    decreases sleepers.len(),
{
    let rest = sleepers.drop_first();
    let all = due(sleepers, now);
    if i == 0 {
        assert(all[0] == sleepers[0].1);
    } else {
        assert(rest[i - 1] == sleepers[i]);
        lemma_due_holds(rest, now, i - 1);
        let j = choose|j: int| 0 <= j < due(rest, now).len() && due(rest, now)[j] == rest[i - 1].1;
        if sleepers[0].0 <= now {
            assert(all[j + 1] == sleepers[i].1);
        } else {
            assert(all[j] == sleepers[i].1);
        }
    }
}

/// A sleeper whose deadline lies ahead stays registered through every tick
/// before it, and its waker is among those woken by the tick that reaches it.
pub proof fn law_sleepers_are_woken_on_time<W>(
    sleepers: Seq<(u64, W)>,
    sleeper: (u64, W),
    registered: u64,
    now: u64,
)
    requires
        sleepers.contains(sleeper),
        registered <= now < sleeper.0,
    ensures
        after_ticks(sleepers, registered, now).contains(sleeper),
        now + 1 == sleeper.0 ==> due(
            after_ticks(sleepers, registered, now),
            sleeper.0,
        ).contains(sleeper.1),
    decreases now,
{
    let left = after_ticks(sleepers, registered, now);
    if registered < now {
        law_sleepers_are_woken_on_time(sleepers, sleeper, registered, (now - 1) as u64);
        let before = after_ticks(sleepers, registered, (now - 1) as u64);
        let i = choose|i: int| 0 <= i < before.len() && before[i] == sleeper;
        lemma_waiting_keeps(before, now, i);
    }
    let i = choose|i: int| 0 <= i < left.len() && left[i] == sleeper;
    if now + 1 == sleeper.0 {
        lemma_due_holds(left, sleeper.0, i);
    }
}

/// No wakeup is lost. A task that registered its waker and then found its
/// deadline still ahead is still registered, whatever ticks landed in between,
/// and will be woken by the tick that reaches the deadline.
pub proof fn law_no_wakeup_is_lost<W>(
    sleepers: Seq<(u64, W)>,
    sleep: Sleep,
    waker: W,
    registered: u64,
    checked: u64,
)
    requires
        registered <= checked,
        !sleep.is_over_at(checked),
    ensures
        ({
            let all = self::registered(sleepers, sleep, waker);
            &&& after_ticks(all, registered, checked).contains((sleep.deadline, waker))
            &&& due(after_ticks(all, registered, (sleep.deadline - 1) as u64), sleep.deadline).contains(
                waker,
            )
        }),
{
    let all = sleepers.push((sleep.deadline, waker));
    assert(all[sleepers.len() as int] == (sleep.deadline, waker));
    law_sleepers_are_woken_on_time(all, (sleep.deadline, waker), registered, checked);
    law_sleepers_are_woken_on_time(
        all,
        (sleep.deadline, waker),
        registered,
        (sleep.deadline - 1) as u64,
    );
}

/// The sleepers once a sleep has registered its waker.
pub open spec fn registered<W>(sleepers: Seq<(u64, W)>, sleep: Sleep, waker: W) -> Seq<(u64, W)> {
    sleepers.push((sleep.deadline, waker))
}

/// The tick counter, and the tasks waiting on a deadline.
pub struct Timer<W> {
    /// Ticks since boot.
    pub ticks: u64,
    /// Deadlines in ticks, each with the waker of the task that waits for it.
    pub sleepers: Vec<(u64, W)>,
}

impl<W> Timer<W> {
    /// A timer that has not ticked yet.
    pub fn new() -> (timer: Timer<W>)
        ensures
            timer.ticks == 0,
            timer.sleepers@ == Seq::<(u64, W)>::empty(),
    {
        Timer { ticks: 0, sleepers: Vec::new() }
    }
}

/// The port writes that program PIT channel 0 to fire at `TIMER_HZ`: mode 3
/// (square-wave generator), with the low byte then the high byte of the reload
/// divisor. To be made before interrupts are enabled.
pub fn init() -> (writes: [PortOp; 3])
    ensures
        writes@ == seq![
            PortOp::Write8 { port: 0x43, value: 0x36 },
            PortOp::Write8 { port: 0x40, value: (PIT_INPUT_HZ / TIMER_HZ % 256) as u8 },
            PortOp::Write8 { port: 0x40, value: (PIT_INPUT_HZ / TIMER_HZ / 256) as u8 },
        ],
        PIT_INPUT_HZ / TIMER_HZ <= u16::MAX,
        ({
            let divisor = writes@[1]->Write8_value + 256 * writes@[2]->Write8_value;
            100 * divisor <= 1_193_182 < 100 * (divisor + 1)
        }),
{
    let divisor: u64 = PIT_INPUT_HZ / TIMER_HZ;
    let writes = [
        // Channel 0, access lobyte/hibyte, mode 3, binary counter.
        PortOp::Write8 { port: 0x43, value: 0x36 },
        PortOp::Write8 { port: 0x40, value: (divisor % 256) as u8 },
        PortOp::Write8 { port: 0x40, value: (divisor / 256) as u8 },
    ];
    assert(writes@ =~= seq![
        PortOp::Write8 { port: 0x43, value: 0x36 },
        PortOp::Write8 { port: 0x40, value: (PIT_INPUT_HZ / TIMER_HZ % 256) as u8 },
        PortOp::Write8 { port: 0x40, value: (PIT_INPUT_HZ / TIMER_HZ / 256) as u8 },
    ]);
    writes
}

/// Counts one tick of the timer interrupt. The wakers that are due are added to
/// `woken`, in the order of their registration; the caller wakes them. Where
/// `woken` has room for as many wakers as are registered, nothing is allocated.
pub fn tick<W>(timer: &mut Timer<W>, woken: &mut Vec<W>)
    requires
        old(timer).ticks < u64::MAX,
    ensures
        final(timer).ticks == old(timer).ticks + 1,
        final(timer).sleepers@ == waiting(old(timer).sleepers@, final(timer).ticks),
        final(woken)@ == old(woken)@ + due(old(timer).sleepers@, final(timer).ticks),
{
    let now: u64 = timer.ticks + 1;
    timer.ticks = now;
    let mut i: usize = 0;
    let ghost all = timer.sleepers@;
    let ghost had = woken@;
    proof {
        assert(timer.sleepers@.take(0) =~= Seq::<(u64, W)>::empty());
        assert(timer.sleepers@.skip(0) =~= timer.sleepers@);
        assert(Seq::<(u64, W)>::empty() + waiting(all, now) =~= waiting(all, now));
    }
    while i < timer.sleepers.len()
        invariant
            i <= timer.sleepers.len(),
            timer.ticks == now,
            waiting(all, now) == timer.sleepers@.take(i as int) + waiting(
                timer.sleepers@.skip(i as int),
                now,
            ),
            had + due(all, now) == woken@ + due(timer.sleepers@.skip(i as int), now),
        decreases timer.sleepers.len() - i,
    {
        let ghost before = timer.sleepers@;
        let ghost rest = before.skip(i as int);
        assert(rest[0] == before[i as int]);
        assert(rest.drop_first() =~= before.skip(i + 1));
        if timer.sleepers[i].0 <= now {
            let ghost given = woken@;
            let (_, waker) = timer.sleepers.remove(i);
            woken.push(waker);
            assert(timer.sleepers@.take(i as int) =~= before.take(i as int));
            assert(timer.sleepers@.skip(i as int) =~= before.skip(i + 1));
            assert(given + (seq![waker] + due(before.skip(i + 1), now)) =~= woken@ + due(
                before.skip(i + 1),
                now,
            ));
        } else {
            assert(before.take(i as int) + (seq![before[i as int]] + waiting(
                before.skip(i + 1),
                now,
            )) =~= before.take(i + 1) + waiting(before.skip(i + 1), now));
            i = i + 1;
        }
    }
    assert(timer.sleepers@.take(i as int) =~= timer.sleepers@);
    assert(timer.sleepers@.skip(i as int) =~= Seq::<(u64, W)>::empty());
    assert(timer.sleepers@ + Seq::<(u64, W)>::empty() =~= timer.sleepers@);
    assert(woken@ + Seq::<W>::empty() =~= woken@);
}

/// Ticks elapsed since boot.
pub fn ticks<W>(timer: &Timer<W>) -> (ticks: u64)
    ensures
        ticks == timer.ticks,
{
    timer.ticks
}

/// Milliseconds elapsed since boot.
pub fn uptime_ms<W>(timer: &Timer<W>) -> (ms: u64)
    requires
        timer.ticks * 1000 <= u64::MAX,
    ensures
        ms == timer.ticks * 1000 / (TIMER_HZ as int),
        ms == 10 * timer.ticks,
{
    ticks(timer) * 1000 / TIMER_HZ
}

/// A deadline, produced by [`sleep`].
#[derive(Debug, Clone, Copy, PartialEq, Eq, Structural)]
pub struct Sleep {
    pub deadline: u64,
}

/// Ticks that are at least `ms` milliseconds long.
pub open spec fn ticks_for(ms: int) -> int {
    (ms * TIMER_HZ + 999) / 1000
}

/// A sleep of at least `ms` milliseconds, from now on.
///
/// Sub-tick durations are rounded up to one whole tick, so any non-zero `ms`
/// sleeps for at least one timer period.
pub fn sleep<W>(timer: &Timer<W>, ms: u64) -> (sleep: Sleep)
    requires
        timer.ticks + ticks_for(ms as int) <= u64::MAX,
    ensures
        sleep.deadline == timer.ticks + ticks_for(ms as int),
        ms <= 10 * (sleep.deadline - timer.ticks) < ms + 10,
{
    let wait_ticks: u64 = ms / 10 + (if ms % 10 != 0 {
        1
    } else {
        0
    });
    Sleep { deadline: ticks(timer) + wait_ticks }
}

/// A sleep is never shorter than was asked for, and longer by less than one
/// timer period; and who asks for more does not sleep less.
pub proof fn law_sleep_is_long_enough(ms: int)
    requires
        0 <= ms,
    ensures
        ms * TIMER_HZ <= ticks_for(ms) * 1000 < ms * TIMER_HZ + 1000,
        0 < ms ==> 1 <= ticks_for(ms),
        forall|longer: int| ms <= longer ==> ticks_for(ms) <= #[trigger] ticks_for(longer),
{
}

impl Sleep {
    /// The deadline has come at tick `now`.
    pub open spec fn is_over_at(self, now: u64) -> bool {
        self.deadline <= now
    }

    /// Whether the sleep is over. A task asks before it registers its waker,
    /// and again after: a tick may have landed in between.
    pub fn is_over<W>(&self, timer: &Timer<W>) -> (over: bool)
        ensures
            over == self.is_over_at(timer.ticks),
    {
        ticks(timer) >= self.deadline
    }

    /// Registers a waker to be woken when the deadline passes.
    pub fn register<W>(&self, timer: &mut Timer<W>, waker: W)
        ensures
            final(timer).ticks == old(timer).ticks,
            final(timer).sleepers@ == old(timer).sleepers@.push((self.deadline, waker)),
            final(timer).sleepers@ == registered(old(timer).sleepers@, *self, waker),
    {
        timer.sleepers.push((self.deadline, waker));
    }

    /// One poll of the sleep: whether it is over, the waker being registered
    /// where it is not. The timer is held throughout, so that no tick can land
    /// between the check and the registration. A task that lets go of the timer
    /// in between has to check again, or the wake could be missed and it would
    /// sleep forever: see [`law_no_wakeup_is_lost`].
    pub fn poll<W>(&self, timer: &mut Timer<W>, waker: W) -> (over: bool)
        ensures
            over == self.is_over_at(old(timer).ticks),
            final(timer).ticks == old(timer).ticks,
            final(timer).sleepers@ == (if over {
                old(timer).sleepers@
            } else {
                old(timer).sleepers@.push((self.deadline, waker))
            }),
            !over ==> final(timer).sleepers@ == registered(old(timer).sleepers@, *self, waker),
    {
        let over = self.is_over(timer);
        if !over {
            self.register(timer, waker);
        }
        over
    }
}

/// A tick splits the sleepers by their deadlines alone. Those whose deadline has
/// come are woken, each of them, and none that has time left; the others go on
/// waiting, each of them, under their own deadlines; and both keep their order.
pub proof fn law_ticks_split_the_sleepers<W>(sleepers: Seq<(u64, W)>, now: u64)
    ensures
        ({
            let over = |sleeper: (u64, W)| sleeper.0 <= now;
            let ahead = |sleeper: (u64, W)| sleeper.0 > now;
            &&& due(sleepers, now) == sleepers.filter(over).map_values(
                |sleeper: (u64, W)| sleeper.1,
            )
            &&& waiting(sleepers, now) == sleepers.filter(ahead)
            &&& due(sleepers, now).len() + waiting(sleepers, now).len() == sleepers.len()
        }),
    decreases sleepers.len(),
{
    let over = |sleeper: (u64, W)| sleeper.0 <= now;
    let ahead = |sleeper: (u64, W)| sleeper.0 > now;
    let waker = |sleeper: (u64, W)| sleeper.1;
    reveal(Seq::filter);
    if sleepers.len() > 0 {
        let first = sleepers[0];
        let rest = sleepers.drop_first();
        law_ticks_split_the_sleepers(rest, now);
        assert(sleepers =~= seq![first] + rest);
        Seq::filter_distributes_over_add(seq![first], rest, over);
        Seq::filter_distributes_over_add(seq![first], rest, ahead);
        let one = seq![first];
        assert(one.drop_last() =~= Seq::<(u64, W)>::empty());
        assert(one.drop_last().filter(over) =~= Seq::<(u64, W)>::empty());
        assert(one.drop_last().filter(ahead) =~= Seq::<(u64, W)>::empty());
        if first.0 <= now {
            assert(one.filter(over) =~= one);
            assert(one.filter(ahead) =~= Seq::<(u64, W)>::empty());
        } else {
            assert(one.filter(over) =~= Seq::<(u64, W)>::empty());
            assert(one.filter(ahead) =~= one);
        }
        assert(due(sleepers, now) =~= sleepers.filter(over).map_values(waker));
        assert(waiting(sleepers, now) =~= sleepers.filter(ahead));
    } else {
        assert(due(sleepers, now) =~= sleepers.filter(over).map_values(waker));
        assert(waiting(sleepers, now) =~= sleepers.filter(ahead));
    }
}

/// A sleep is over at the tick of its deadline and ever after, and not before; so
/// a sleep of some milliseconds, ten to a tick, is over no sooner than they have
/// passed, and no more than one tick later.
pub proof fn law_sleeps_end_on_time(begun: u64, ms: u64, now: u64)
    requires
        begun + ticks_for(ms as int) <= u64::MAX,
        begun <= now,
    ensures
        ({
            let sleep = Sleep { deadline: (begun + ticks_for(ms as int)) as u64 };
            sleep.is_over_at(now) <==> 10 * (now - begun) >= ms
        }),
{
}

} // verus!
