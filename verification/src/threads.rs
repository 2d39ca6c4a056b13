//! Preemptive kernel threads.
//!
//! Each thread gets its own heap-allocated stack. The PIT timer interrupt
//! drives a round-robin scheduler: on every tick the current thread's
//! callee-saved registers are pushed to its stack, the stack pointer is
//! swapped, and the next thread resumes wherever it left off. A thread that
//! never yields still makes no difference: the timer preempts it.
//!
//! The boot flow (and the async executor it runs) is itself thread 0, using the
//! bootloader-provided stack; the async world stays cooperative *within* thread
//! 0 while threads preempt around it.
//!
//! This module decides who runs. The scheduler is given each thread's stack as
//! a value that it only holds and hands back; the switch of stack pointers is
//! performed after it has decided, once its lock is released. It never
//! allocates or frees on the interrupt path: a switch moves boxes between
//! queues whose capacity was reserved up front, and the stack of a dead thread
//! is handed out by [`reap`], to be freed from thread context.

use std::collections::VecDeque;

use vstd::prelude::*;

verus! {

/// Upper bound on live threads (running + ready + finished-but-unreaped).
/// Keeping this fixed lets the scheduler pre-reserve all its storage and
/// never allocate in interrupt context.
pub const MAX_THREADS: usize = 16;

/// Bytes of a thread's stack.
pub const STACK_SIZE: usize = 32768;

/// What a thread is doing.
#[derive(Debug, Clone, Copy, PartialEq, Eq, Structural)]
pub enum State {
    Running,
    Ready,
    Finished,
}

/// Why a thread could not be spawned.
#[derive(Debug, Clone, Copy, PartialEq, Eq, Structural)]
pub enum SpawnError {
    NotInitialized,
    TooManyThreads,
}

/// A thread; `S` is what its stack is held as.
#[derive(Debug)]
pub struct Thread<S> {
    pub id: u64,
    pub state: State,
    /// Stack pointer saved at the last switch away from this thread.
    pub saved_rsp: u64,
    /// Owned stack memory; `None` for thread 0, which runs on the boot stack.
    /// Held alive here and freed on reap.
    pub stack: Option<S>,
}

/// A thread as it is listed: its number and its state.
pub type Listed = (u64, State);

/// How a thread is listed.
pub open spec fn listed<S>(thread: Thread<S>) -> Listed {
    (thread.id, thread.state)
}

/// How threads are listed.
pub open spec fn all_listed<S>(threads: Seq<Box<Thread<S>>>) -> Seq<Listed> {
    Seq::new(threads.len(), |i: int| listed(*threads[i]))
}

/// Who runs, who waits, and who is dead.
#[derive(Debug)]
pub struct Scheduler<S> {
    pub current: Box<Thread<S>>,
    /// Threads that can run, the next one first.
    pub ready: VecDeque<Box<Thread<S>>>,
    /// Threads that have exited but whose stacks can't be freed yet: a thread
    /// cannot free the stack it is standing on, and the timer handler must not
    /// touch the heap. Reaped from thread context.
    pub finished: Vec<Box<Thread<S>>>,
}

/// Where the thread that was switched away from is kept.
#[derive(Debug, Clone, Copy, PartialEq, Eq, Structural)]
pub enum Parked {
    /// Last in the ready queue.
    Ready,
    /// Last among the finished threads.
    Finished,
}

/// A switch that is to be performed: the old thread's stack pointer is to be
/// saved where that thread is kept, and `new_rsp` to be loaded.
#[derive(Debug, Clone, Copy, PartialEq, Eq, Structural)]
pub struct Switch {
    pub parked: Parked,
    pub new_rsp: u64,
}

impl<S> Scheduler<S> {
    /// The numbers of all the threads that the scheduler holds, in the order in
    /// which they are listed.
    pub open spec fn ids(&self) -> Seq<u64> {
        seq![self.current.id] + Seq::new(self.ready@.len(), |i: int| self.ready@[i].id) + Seq::new(
            self.finished@.len(),
            |i: int| self.finished@[i].id,
        )
    }

    /// How the threads are listed: the current one, the ready ones in their
    /// order, then the finished ones.
    pub open spec fn listing(&self) -> Seq<Listed> {
        seq![listed(*self.current)] + all_listed(self.ready@) + all_listed(self.finished@)
    }

    /// Every thread is where its state says, and there are no more of them than
    /// there may be.
    pub open spec fn wf(&self) -> bool {
        &&& self.current.state is Running || self.current.state is Finished
        &&& forall|i: int|
            0 <= i < self.ready@.len() ==> (#[trigger] self.ready@[i]).state is Ready
        &&& forall|i: int|
            0 <= i < self.finished@.len() ==> (#[trigger] self.finished@[i]).state is Finished
        &&& 1 + self.ready@.len() + self.finished@.len() <= MAX_THREADS
    }

    /// Makes the next ready thread current. Gives the switch to perform, if
    /// there is a thread to switch to.
    ///
    /// A thread that has finished is parked for reaping instead of requeueing.
    /// There is always room for it: [`spawn`] bounds live threads by
    /// [`MAX_THREADS`].
    pub fn rotate(&mut self) -> (switch: Option<Switch>)
        requires
            old(self).wf(),
        ensures
            final(self).wf(),
            is_switch(*old(self), *final(self), switch),
    {
        match self.ready.pop_front() {
            None => None,
            Some(next) => {
                assert(self.ready@ =~= old(self).ready@.drop_first());
                let mut swapped = next;
                swapped.state = State::Running;
                let new_rsp: u64 = swapped.saved_rsp;
                core::mem::swap(&mut self.current, &mut swapped);
                let mut gone = swapped;
                let finished = match gone.state {
                    State::Finished => true,
                    _ => false,
                };
                if finished {
                    self.finished.push(gone);
                    Some(Switch { parked: Parked::Finished, new_rsp })
                } else {
                    gone.state = State::Ready;
                    self.ready.push_back(gone);
                    Some(Switch { parked: Parked::Ready, new_rsp })
                }
            },
        }
    }
}

/// All the kernel's threads.
#[derive(Debug)]
pub struct Threads<S> {
    /// Nothing until the boot flow is adopted as thread 0.
    pub scheduler: Option<Scheduler<S>>,
    /// The number of the next thread.
    pub next_id: u64,
}

impl<S> Threads<S> {
    /// The scheduler is sound, and numbers are given out once.
    pub open spec fn wf(&self) -> bool {
        &&& 1 <= self.next_id
        &&& self.scheduler matches Some(scheduler) ==> {
            &&& scheduler.wf()
            &&& scheduler.ids().no_duplicates()
            &&& forall|i: int|
                0 <= i < scheduler.ids().len() ==> #[trigger] scheduler.ids()[i] < self.next_id
        }
    }

    /// No threads yet. Until [`init`], timer ticks simply don't preempt.
    pub fn new() -> (threads: Threads<S>)
        ensures
            threads.wf(),
            threads.scheduler is None,
            threads.next_id == 1,
    {
        Threads { scheduler: None, next_id: 1 }
    }
}

/// Adopts the boot flow as thread 0 and prepares the scheduler. Requires the
/// heap; to be called once.
pub fn init<S>(threads: &mut Threads<S>)
    requires
        old(threads).wf(),
        old(threads).scheduler is None,
    ensures
        final(threads).wf(),
        final(threads).next_id == old(threads).next_id,
        final(threads).scheduler matches Some(scheduler) && *scheduler.current == (Thread {
            id: 0,
            state: State::Running,
            saved_rsp: 0,
            stack: None::<S>,
        }) && scheduler.ready@.len() == 0 && scheduler.finished@.len() == 0,
{
    threads.scheduler = Some(
        Scheduler {
            current: Box::new(
                Thread { id: 0, state: State::Running, saved_rsp: 0, stack: None },
            ),
            ready: VecDeque::with_capacity(MAX_THREADS),
            finished: Vec::with_capacity(MAX_THREADS),
        },
    );
}

/// Hands out the exited threads, whose stacks can be freed: called from thread
/// context only, and what is handed out is to be dropped outside the scheduler
/// lock.
pub fn reap<S>(threads: &mut Threads<S>, dead: &mut Vec<Box<Thread<S>>>)
    requires
        old(threads).wf(),
    ensures
        final(threads).wf(),
        final(threads).next_id == old(threads).next_id,
        match old(threads).scheduler {
            None => final(threads).scheduler is None && final(dead)@ == old(dead)@,
            Some(before) => {
                &&& final(threads).scheduler matches Some(after) && after.current == before.current
                    && after.ready@ == before.ready@ && after.finished@.len() == 0
                &&& final(dead)@ == old(dead)@ + before.finished@
            },
        },
        old(threads).scheduler matches Some(before) ==> (final(threads).scheduler matches Some(
            after,
        ) && is_reaping(before, after, old(dead)@, final(dead)@)),
{
    let mut taken: Option<Scheduler<S>> = None;
    core::mem::swap(&mut threads.scheduler, &mut taken);
    if let Some(scheduler) = taken {
        let mut scheduler = scheduler;
        let ghost before = scheduler;
        dead.append(&mut scheduler.finished);
        proof {
            let ids = scheduler.ids();
            let all = before.ids();
            assert forall|i: int| 0 <= i < ids.len() implies ids[i] == all[i] by {}
            assert(ids =~= all.take(ids.len() as int));
        }
        threads.scheduler = Some(scheduler);
    }
}

/// Spawns a kernel thread with this stack, whose initial frame lies at
/// `saved_rsp`. The thread is preempted by the timer like any other.
///
/// Dead threads are reaped first, into `dead`. The number is used up even
/// where there are too many threads.
pub fn spawn<S>(
    threads: &mut Threads<S>,
    stack: S,
    saved_rsp: u64,
    dead: &mut Vec<Box<Thread<S>>>,
) -> (result: Result<u64, SpawnError>)
    requires
        old(threads).wf(),
        old(threads).next_id < u64::MAX,
    ensures
        final(threads).wf(),
        match old(threads).scheduler {
            None => {
                &&& result == Err::<u64, SpawnError>(SpawnError::NotInitialized)
                &&& final(threads).scheduler is None
                &&& final(threads).next_id == old(threads).next_id
                &&& final(dead)@ == old(dead)@
            },
            Some(before) => {
                let id = old(threads).next_id;
                let thread = Thread { id, state: State::Ready, saved_rsp, stack: Some(stack) };
                &&& final(threads).next_id == id + 1
                &&& final(dead)@ == old(dead)@ + before.finished@
                &&& final(threads).scheduler matches Some(after) && after.current == before.current
                    && after.finished@.len() == 0 && (if before.ready@.len() + 2 > MAX_THREADS {
                    result == Err::<u64, SpawnError>(SpawnError::TooManyThreads) && after.ready@
                        == before.ready@
                } else {
                    result == Ok::<u64, SpawnError>(id) && after.ready@ == before.ready@.push(
                        Box::new(thread),
                    )
                })
            },
        },
        old(threads).scheduler matches Some(before) ==> (result is Ok <==> turns(before).len() < 16)
            && (result is Ok ==> (final(threads).scheduler matches Some(after) && turns(after)
            == turns(before).push(old(threads).next_id))),
        old(threads).scheduler matches Some(before) ==> (final(threads).scheduler matches Some(
            after,
        ) && is_spawning(before, after, old(threads).next_id, stack, saved_rsp, result)),
{
    if threads.scheduler.is_none() {
        return Err(SpawnError::NotInitialized);
    }
    // Free any dead stacks first; this also keeps room among the finished.
    reap(threads, dead);

    let id: u64 = threads.next_id;
    let mut taken: Option<Scheduler<S>> = None;
    core::mem::swap(&mut threads.scheduler, &mut taken);
    threads.next_id = id + 1;
    match taken {
        None => Err(SpawnError::NotInitialized),
        Some(scheduler) => {
            let mut scheduler = scheduler;
            let ghost before = scheduler;
            let live: usize = 1 + scheduler.ready.len() + scheduler.finished.len();
            if live + 1 > MAX_THREADS {
                threads.scheduler = Some(scheduler);
                return Err(SpawnError::TooManyThreads);
            }
            let thread = Box::new(
                Thread { id, state: State::Ready, saved_rsp, stack: Some(stack) },
            );
            scheduler.ready.push_back(thread);
            assert(scheduler.ids() =~= before.ids().push(id));
            assert(turns(scheduler) =~= turns(before).push(id));
            threads.scheduler = Some(scheduler);
            Ok(id)
        },
    }
}

/// Lists the threads for the shell's `threads` command: the current one, the
/// ready ones in their order, then the finished ones. Fills the front of `buf`
/// without allocating; returns the number of entries written.
pub fn snapshot<S>(threads: &Threads<S>, buf: &mut [Option<Listed>; MAX_THREADS]) -> (count: usize)
    requires
        threads.wf(),
    ensures
        match threads.scheduler {
            None => count == 0 && *final(buf) == *old(buf),
            Some(scheduler) => {
                &&& count == scheduler.listing().len()
                &&& count <= MAX_THREADS
                &&& forall|i: int|
                    0 <= i < count ==> #[trigger] final(buf)@[i] == Some(scheduler.listing()[i])
                &&& forall|i: int|
                    count <= i < MAX_THREADS ==> #[trigger] final(buf)@[i] == old(buf)@[i]
            },
        },
{
    match &threads.scheduler {
        None => 0,
        Some(scheduler) => {
            let ghost all = scheduler.listing();
            let mut n: usize = 0;
            buf[n] = Some((scheduler.current.id, scheduler.current.state));
            n = n + 1;
            let mut i: usize = 0;
            while i < scheduler.ready.len()
                invariant
                    scheduler.wf(),
                    all == scheduler.listing(),
                    i <= scheduler.ready@.len(),
                    n == 1 + i,
                    forall|k: int| 0 <= k < n ==> #[trigger] buf@[k] == Some(all[k]),
                    forall|k: int| n <= k < MAX_THREADS ==> #[trigger] buf@[k] == old(buf)@[k],
                decreases scheduler.ready@.len() - i,
            {
                let thread = &scheduler.ready[i];
                buf[n] = Some((thread.id, thread.state));
                assert(all[n as int] == listed(*scheduler.ready@[i as int]));
                n = n + 1;
                i = i + 1;
            }
            let mut j: usize = 0;
            while j < scheduler.finished.len()
                invariant
                    scheduler.wf(),
                    all == scheduler.listing(),
                    j <= scheduler.finished@.len(),
                    n == 1 + scheduler.ready@.len() + j,
                    forall|k: int| 0 <= k < n ==> #[trigger] buf@[k] == Some(all[k]),
                    forall|k: int| n <= k < MAX_THREADS ==> #[trigger] buf@[k] == old(buf)@[k],
                decreases scheduler.finished@.len() - j,
            {
                let thread = &scheduler.finished[j];
                buf[n] = Some((thread.id, thread.state));
                assert(all[n as int] == listed(*scheduler.finished@[j as int]));
                n = n + 1;
                j = j + 1;
            }
            n
        },
    }
}

/// Where the thread that is listed in place `i` after a switch was listed
/// before it.
pub open spec fn place_before(i: int, ready: int, total: int, finished: bool) -> int {
    if finished {
        if i == total - 1 {
            0
        } else {
            i + 1
        }
    } else if i < ready {
        i + 1
    } else if i == ready {
        0
    } else {
        i
    }
}

proof fn lemma_rotated_ids<S>(before: Scheduler<S>, after: Scheduler<S>)
    requires
        before.ready@.len() > 0,
        ({
            let next = *before.ready@[0];
            let others = before.ready@.drop_first();
            &&& after.current.id == next.id
            &&& if before.current.state is Finished {
                &&& after.ready@ == others
                &&& after.finished@ == before.finished@.push(before.current)
            } else {
                &&& after.ready@ == others.push(
                    Box::new(Thread { state: State::Ready, ..*before.current }),
                )
                &&& after.finished@ == before.finished@
            }
        }),
    ensures
        after.ids().len() == before.ids().len(),
        forall|i: int|
            0 <= i < after.ids().len() ==> #[trigger] after.ids()[i] == before.ids()[place_before(
                i,
                before.ready@.len() as int,
                before.ids().len() as int,
                before.current.state is Finished,
            )],
{
}

proof fn lemma_rotated_ids_are_distinct<S>(before: Scheduler<S>, after: Scheduler<S>)
    requires
        before.ids().no_duplicates(),
        after.ids().len() == before.ids().len(),
        before.ready@.len() > 0,
        forall|i: int|
            0 <= i < after.ids().len() ==> #[trigger] after.ids()[i] == before.ids()[place_before(
                i,
                before.ready@.len() as int,
                before.ids().len() as int,
                before.current.state is Finished,
            )],
    ensures
        after.ids().no_duplicates(),
{
    let ready = before.ready@.len() as int;
    let total = before.ids().len() as int;
    let finished = before.current.state is Finished;
    assert forall|i: int, j: int|
        0 <= i < after.ids().len() && 0 <= j < after.ids().len() && i != j implies after.ids()[i]
        != after.ids()[j] by {
        let p = place_before(i, ready, total, finished);
        let q = place_before(j, ready, total, finished);
        assert(p != q && 0 <= p < total && 0 <= q < total);
        assert(before.ids()[p] != before.ids()[q]);
    }
}

/// Decides the switch to the next ready thread, if any. Called from the timer
/// interrupt handler (after EOI) and when a thread exits. Nothing before
/// [`init`].
///
/// No thread is lost and none appears: the threads are the same as before, in
/// another order.
pub fn preempt<S>(threads: &mut Threads<S>) -> (switch: Option<Switch>)
    requires
        old(threads).wf(),
    ensures
        final(threads).wf(),
        final(threads).next_id == old(threads).next_id,
        match old(threads).scheduler {
            None => switch is None && final(threads).scheduler is None,
            Some(before) => final(threads).scheduler matches Some(after) && is_switch(
                before,
                after,
                switch,
            ),
        },
{
    let mut taken: Option<Scheduler<S>> = None;
    core::mem::swap(&mut threads.scheduler, &mut taken);
    match taken {
        None => None,
        Some(scheduler) => {
            let mut scheduler = scheduler;
            let ghost before = scheduler;
            let switch = scheduler.rotate();
            proof {
                if before.ready@.len() > 0 {
                    lemma_rotated_ids(before, scheduler);
                    lemma_rotated_ids_are_distinct(before, scheduler);
                    assert forall|i: int| 0 <= i < scheduler.ids().len() implies
                        #[trigger] scheduler.ids()[i] < threads.next_id by {
                        let p = place_before(
                            i,
                            before.ready@.len() as int,
                            before.ids().len() as int,
                            before.current.state is Finished,
                        );
                        assert(before.ids()[p] < threads.next_id);
                    }
                } else {
                    assert(scheduler.ids() =~= before.ids());
                }
            }
            threads.scheduler = Some(scheduler);
            switch
        },
    }
}

/// The switch from `before` to `after`: the first ready thread runs, and the
/// thread that ran is last in the ready queue, or among the finished threads if
/// it has exited. Without a ready thread, nothing happens.
pub open spec fn is_switch<S>(
    before: Scheduler<S>,
    after: Scheduler<S>,
    switch: Option<Switch>,
) -> bool {
    if before.ready@.len() == 0 {
        &&& switch is None
        &&& after.current == before.current
        &&& after.ready@ == before.ready@
        &&& after.finished@ == before.finished@
    } else {
        let old_thread = *before.current;
        let next = *before.ready@[0];
        let others = before.ready@.drop_first();
        &&& *after.current == (Thread { state: State::Running, ..next })
        &&& if old_thread.state is Finished {
            &&& switch == Some(Switch { parked: Parked::Finished, new_rsp: next.saved_rsp })
            &&& after.ready@ == others
            &&& after.finished@ == before.finished@.push(before.current)
        } else {
            &&& switch == Some(Switch { parked: Parked::Ready, new_rsp: next.saved_rsp })
            &&& after.ready@ == others.push(
                Box::new(Thread { state: State::Ready, ..old_thread }),
            )
            &&& after.finished@ == before.finished@
        }
    }
}

/// No thread is lost and none appears in a switch: each thread that is held
/// after it was held before it, and as many are held.
pub proof fn law_switches_lose_no_thread<S>(
    before: Scheduler<S>,
    after: Scheduler<S>,
    switch: Option<Switch>,
)
    requires
        before.wf(),
        is_switch(before, after, switch),
        before.ids().no_duplicates(),
    ensures
        after.wf(),
        after.ids().len() == before.ids().len(),
        after.ids().no_duplicates(),
        forall|i: int|
            0 <= i < after.ids().len() ==> before.ids().contains(#[trigger] after.ids()[i]),
{
    if before.ready@.len() > 0 {
        lemma_rotated_ids(before, after);
        lemma_rotated_ids_are_distinct(before, after);
        assert forall|i: int| 0 <= i < after.ids().len() implies before.ids().contains(
            #[trigger] after.ids()[i],
        ) by {
            let p = place_before(
                i,
                before.ready@.len() as int,
                before.ids().len() as int,
                before.current.state is Finished,
            );
            assert(before.ids()[p] == after.ids()[i]);
        }
    } else {
        assert(after.ids() =~= before.ids());
    }
}

/// The order in which threads get their turn: the current one, then the ready
/// ones.
pub open spec fn turns<S>(scheduler: Scheduler<S>) -> Seq<u64> {
    seq![scheduler.current.id] + Seq::new(
        scheduler.ready@.len(),
        |i: int| scheduler.ready@[i].id,
    )
}

/// Switching is round-robin: as long as the current thread has not exited, a
/// switch moves it to the end of the order and every other thread one place
/// forward.
pub proof fn law_switching_is_round_robin<S>(
    before: Scheduler<S>,
    after: Scheduler<S>,
    switch: Option<Switch>,
)
    requires
        is_switch(before, after, switch),
        before.current.state is Running,
    ensures
        turns(after) == turns(before).drop_first().push(turns(before)[0]),
        turns(before).len() > 1 ==> after.current.state is Running,
{
    assert(turns(after) =~= turns(before).drop_first().push(turns(before)[0]));
}

/// A switch leads from `before` to `after`.
pub open spec fn switches_to<S>(before: Scheduler<S>, after: Scheduler<S>) -> bool {
    exists|switch: Option<Switch>| is_switch(before, after, switch)
}

/// Switches one after another, in none of which the current thread has exited.
pub open spec fn is_run<S>(run: Seq<Scheduler<S>>) -> bool {
    forall|i: int|
        0 <= i < run.len() - 1 ==> (#[trigger] run[i]).current.state is Running && switches_to(
            run[i],
            run[i + 1],
        )
}

/// Every thread gets its turn, whether the others yield or not: of `k` threads,
/// switch number `n` runs the one that was in place `n % k` of the order.
pub proof fn law_every_thread_gets_its_turn<S>(run: Seq<Scheduler<S>>, n: nat)
    requires
        is_run(run),
        n < run.len(),
    ensures
        turns(run[n as int]).len() == turns(run[0]).len(),
        run[n as int].current.id == turns(run[0])[n as int % turns(run[0]).len() as int],
{
    lemma_turns_rotate(run, n);
    assert(turns(run[n as int])[0] == run[n as int].current.id);
}

/// A full round restores the beginning: after as many switches as there are
/// threads, the current thread, the ready queue and the finished threads are the
/// first ones again. On the way one thread is running, and every other one is
/// ready or has finished.
pub proof fn law_a_round_restores_the_beginning<S>(run: Seq<Scheduler<S>>)
    requires
        is_run(run),
        run.len() == turns(run[0]).len() + 1,
        run[0].wf(),
    ensures
        run.last().current == run[0].current,
        run.last().ready@ == run[0].ready@,
        run.last().finished@ == run[0].finished@,
        forall|i: int|
            0 <= i < run.len() ==> (#[trigger] run[i]).wf() && run[i].current.state is Running,
{
    let first = run[0];
    let last = run.last();
    let k = queue(first).len();
    lemma_queue_rotates(run, k);
    assert forall|i: int| 0 <= i < run.len() implies (#[trigger] run[i]).wf()
        && run[i].current.state is Running by {
        lemma_queue_rotates(run, i as nat);
    }
    assert forall|i: int| 0 <= i < k implies #[trigger] queue(last)[i] == queue(first)[i] by {
        vstd::arithmetic::div_mod::lemma_mod_add_multiples_vanish(i, k as int);
        vstd::arithmetic::div_mod::lemma_small_mod(i as nat, k);
        assert((i + k) % k as int == i);
    }
    assert(queue(last)[0] == queue(first)[0]);
    assert(last.ready@.len() == first.ready@.len());
    assert forall|i: int| 0 <= i < first.ready@.len() implies last.ready@[i] == first.ready@[i] by {
        assert(queue(last)[i + 1] == queue(first)[i + 1]);
        assert(first.ready@[i].state is Ready && last.ready@[i].state is Ready);
    }
    assert(last.ready@ =~= first.ready@);
}

/// A thread, whatever its state.
spec fn waiting<S>(thread: Thread<S>) -> Thread<S> {
    Thread { state: State::Ready, ..thread }
}

/// The current thread and the ready ones, in the order of their turns, whatever
/// their states.
spec fn queue<S>(scheduler: Scheduler<S>) -> Seq<Thread<S>> {
    seq![waiting(*scheduler.current)] + Seq::new(
        scheduler.ready@.len(),
        |i: int| waiting(*scheduler.ready@[i]),
    )
}

proof fn lemma_queue_rotates<S>(run: Seq<Scheduler<S>>, n: nat)
    requires
        is_run(run),
        run[0].wf(),
        run.len() > 1,
        n < run.len(),
    ensures
        queue(run[n as int]) == rotated(queue(run[0]), n),
        run[n as int].finished@ == run[0].finished@,
        run[n as int].wf(),
        run[n as int].current.state is Running,
    decreases n,
{
    let order = queue(run[0]);
    let k = order.len() as int;
    assert(run[0].current.state is Running);
    if n == 0 {
        assert forall|i: int| 0 <= i < k implies order[i] == #[trigger] rotated(order, 0)[i] by {
            vstd::arithmetic::div_mod::lemma_small_mod(i as nat, k as nat);
        }
        assert(order =~= rotated(order, 0));
    } else {
        let before = run[n - 1];
        let after = run[n as int];
        lemma_queue_rotates(run, (n - 1) as nat);
        assert(before.current.state is Running && switches_to(before, after));
        let switch = choose|switch: Option<Switch>| is_switch(before, after, switch);
        vstd::arithmetic::div_mod::lemma_mod_add_multiples_vanish(n - 1, k);
        assert(queue(after) =~= queue(before).drop_first().push(queue(before)[0]));
        assert(queue(after) =~= rotated(order, n));
    }
}

/// An order of which the first `n` have moved to the end, one by one.
spec fn rotated<T>(order: Seq<T>, n: nat) -> Seq<T> {
    Seq::new(order.len(), |i: int| order[(i + n) % order.len() as int])
}

proof fn lemma_turns_rotate<S>(run: Seq<Scheduler<S>>, n: nat)
    requires
        is_run(run),
        n < run.len(),
    ensures
        turns(run[n as int]) == rotated(turns(run[0]), n),
    decreases n,
{
    let order = turns(run[0]);
    let k = order.len() as int;
    if n == 0 {
        assert forall|i: int| 0 <= i < k implies order[i] == #[trigger] rotated(order, 0)[i] by {
            vstd::arithmetic::div_mod::lemma_small_mod(i as nat, k as nat);
        }
        assert(order =~= rotated(order, 0));
    } else {
        let before = run[n - 1];
        let after = run[n as int];
        lemma_turns_rotate(run, (n - 1) as nat);
        assert(before.current.state is Running && switches_to(before, after));
        let switch = choose|switch: Option<Switch>| is_switch(before, after, switch);
        law_switching_is_round_robin(before, after, switch);
        vstd::arithmetic::div_mod::lemma_mod_add_multiples_vanish(n - 1, k);
        assert(turns(after) =~= rotated(order, n));
    }
}

/// Marks the current thread finished: the next switch parks it for reaping
/// instead of requeueing it.
pub fn finish_current<S>(threads: &mut Threads<S>)
    requires
        old(threads).wf(),
    ensures
        final(threads).wf(),
        final(threads).next_id == old(threads).next_id,
        match old(threads).scheduler {
            None => final(threads).scheduler is None,
            Some(before) => final(threads).scheduler matches Some(after) && *after.current == (
            Thread { state: State::Finished, ..*before.current }) && after.ready@ == before.ready@
                && after.finished@ == before.finished@,
        },
        old(threads).scheduler matches Some(before) ==> (final(threads).scheduler matches Some(
            after,
        ) && is_finishing(before, after)),
{
    let mut taken: Option<Scheduler<S>> = None;
    core::mem::swap(&mut threads.scheduler, &mut taken);
    if let Some(scheduler) = taken {
        let mut scheduler = scheduler;
        let ghost before = scheduler;
        scheduler.current.state = State::Finished;
        assert(scheduler.ids() =~= before.ids());
        threads.scheduler = Some(scheduler);
    }
}

/// The initial contents of a thread's stack: `words` lie at `rsp` and above.
#[derive(Debug, Clone, Copy, PartialEq, Eq)]
pub struct InitialFrame {
    pub rsp: u64,
    pub words: [u64; 7],
}

/// The initial frame that the context switch will pop off a fresh stack of
/// `len` bytes at `base`: six zeroed callee-saved registers (with the entry
/// function in the r12 slot) below a return address pointing at `trampoline`.
pub fn prepare_stack(base: u64, len: u64, entry: u64, trampoline: u64) -> (frame: InitialFrame)
    requires
        base + len <= u64::MAX,
        71 <= len,
    ensures
        frame.rsp == (base + len) / 16 * 16 - 56,
        frame.words@ == seq![0, 0, 0, entry, 0, 0, trampoline],
        base <= frame.rsp && frame.rsp + 56 <= base + len,
        (frame.rsp + 56) % 16 == 0,
        is_initial_frame(base, len, entry, trampoline, frame.rsp, frame.words@),
{
    // 16-align the top, then lay out 7 words so that the trampoline begins
    // with rsp % 16 == 0; its `call` then gives the entry function the 16-byte
    // alignment the ABI requires.
    let top: u64 = (base + len) / 16 * 16;
    let words = [
        0,  // r15
        0,  // r14
        0,  // r13
        entry,  // r12: picked up by the trampoline
        0,  // rbx
        0,  // rbp
        trampoline,  // return address
    ];
    assert(words@ =~= seq![0, 0, 0, entry, 0, 0, trampoline]);
    InitialFrame { rsp: top - 56, words }
}

/// A thread that is switched to goes on where it was stopped: the stack pointer that
/// is loaded is the one that was saved for it, and the thread that had waited
/// longest is the one that runs, with its own stack and number.
pub proof fn law_threads_go_on_where_they_stopped<S>(
    before: Scheduler<S>,
    after: Scheduler<S>,
    switch: Option<Switch>,
)
    requires
        is_switch(before, after, switch),
    ensures
        before.ready@.len() == 0 <==> switch is None,
        switch matches Some(performed) ==> {
            &&& performed.new_rsp == after.current.saved_rsp
            &&& after.current.id == before.ready@[0].id
            &&& after.current.saved_rsp == before.ready@[0].saved_rsp
            &&& after.current.stack == before.ready@[0].stack
            &&& after.current.state is Running
            &&& performed.parked is Finished <==> before.current.state is Finished
            &&& performed.parked is Ready ==> after.ready@.len() == before.ready@.len()
                && after.ready@.last().id == before.current.id && after.ready@.last().stack
                == before.current.stack && after.ready@.last().state is Ready
            &&& performed.parked is Finished ==> after.finished@.len() == before.finished@.len() + 1
                && after.finished@.last() == before.current && after.ready@.len() + 1
                == before.ready@.len()
        },
{
}

/// A thread that has exited does not run again: it is neither current nor ready
/// after the switch away from it.
pub proof fn law_exited_threads_do_not_run_again<S>(
    before: Scheduler<S>,
    after: Scheduler<S>,
    switch: Option<Switch>,
)
    requires
        is_switch(before, after, switch),
        before.current.state is Finished,
        before.ready@.len() > 0,
        turns(before).no_duplicates(),
    ensures
        !turns(after).contains(before.current.id),
        turns(after) == turns(before).drop_first(),
{
    assert(turns(after) =~= turns(before).drop_first());
    assert forall|i: int| 0 <= i < turns(after).len() implies turns(after)[i]
        != before.current.id by {
        assert(turns(after)[i] == turns(before)[i + 1]);
        assert(turns(before)[0] != turns(before)[i + 1]);
    }
}

/// What is reaped between `before` and `after`: the exited threads are added to the
/// dead ones, and none is left.
pub open spec fn is_reaping<S>(
    before: Scheduler<S>,
    after: Scheduler<S>,
    dead: Seq<Box<Thread<S>>>,
    dead_after: Seq<Box<Thread<S>>>,
) -> bool {
    &&& after.current == before.current
    &&& after.ready@ == before.ready@
    &&& after.finished@.len() == 0
    &&& dead_after == dead + before.finished@
}

/// What is spawned between `before` and `after`: a ready thread at the end of the
/// queue, where there is room for it.
pub open spec fn is_spawning<S>(
    before: Scheduler<S>,
    after: Scheduler<S>,
    id: u64,
    stack: S,
    saved_rsp: u64,
    result: Result<u64, SpawnError>,
) -> bool {
    let thread = Thread { id, state: State::Ready, saved_rsp, stack: Some(stack) };
    &&& after.current == before.current
    &&& after.finished@.len() == 0
    &&& if before.ready@.len() + 2 > MAX_THREADS {
        &&& result == Err::<u64, SpawnError>(SpawnError::TooManyThreads)
        &&& after.ready@ == before.ready@
    } else {
        &&& result == Ok::<u64, SpawnError>(id)
        &&& after.ready@ == before.ready@.push(Box::new(thread))
    }
}

/// The current thread exits between `before` and `after`.
pub open spec fn is_finishing<S>(before: Scheduler<S>, after: Scheduler<S>) -> bool {
    &&& *after.current == (Thread { state: State::Finished, ..*before.current })
    &&& after.ready@ == before.ready@
    &&& after.finished@ == before.finished@
}

/// What a fresh stack of `len` bytes at `base` holds: `words` at `rsp` and above.
pub open spec fn is_initial_frame(
    base: u64,
    len: u64,
    entry: u64,
    trampoline: u64,
    rsp: u64,
    words: Seq<u64>,
) -> bool {
    &&& rsp == (base + len) / 16 * 16 - 56
    &&& words == seq![0, 0, 0, entry, 0, 0, trampoline]
}

/// Reaping takes every thread that has exited, once and in order, and no other: who
/// runs and who waits stays as it is.
pub proof fn law_the_exited_are_reaped<S>(
    before: Scheduler<S>,
    after: Scheduler<S>,
    dead: Seq<Box<Thread<S>>>,
    dead_after: Seq<Box<Thread<S>>>,
)
    requires
        before.wf(),
        is_reaping(before, after, dead, dead_after),
    ensures
        turns(after) == turns(before),
        after.ids() == turns(before),
        dead_after.len() == dead.len() + before.finished@.len(),
        dead_after.take(dead.len() as int) == dead,
        forall|i: int|
            dead.len() <= i < dead_after.len() ==> (#[trigger] dead_after[i]).state is Finished
                && before.ids()[turns(before).len() + i - dead.len()] == dead_after[i].id,
{
    assert(turns(after) =~= turns(before));
    assert(after.ids() =~= turns(before));
    assert(dead_after.take(dead.len() as int) =~= dead);
}

/// A thread can be spawned as long as fewer than sixteen others run or wait, and
/// gets its turn once each of those had one more: then it starts with the stack and
/// at the stack pointer that it was spawned with.
pub proof fn law_spawned_threads_get_their_turn<S>(
    before: Scheduler<S>,
    run: Seq<Scheduler<S>>,
    id: u64,
    stack: S,
    saved_rsp: u64,
    result: Result<u64, SpawnError>,
)
    requires
        before.wf(),
        is_run(run),
        run.len() > turns(before).len(),
        is_spawning(before, run[0], id, stack, saved_rsp, result),
    ensures
        result == (if turns(before).len() < 16 {
            Ok::<u64, SpawnError>(id)
        } else {
            Err::<u64, SpawnError>(SpawnError::TooManyThreads)
        }),
        result is Err ==> turns(run[0]) == turns(before),
        result is Ok ==> {
            let started = run[turns(before).len() as int].current;
            &&& started.id == id
            &&& started.state is Running
            &&& started.stack == Some(stack)
            &&& started.saved_rsp == saved_rsp
        },
{
    assert(result is Err ==> turns(run[0]) =~= turns(before));
    if result is Ok {
        let n = turns(before).len();
        lemma_queue_rotates(run, n);
        let order = queue(run[0]);
        vstd::arithmetic::div_mod::lemma_small_mod(n, order.len());
        assert(queue(run[n as int])[0] == order[n as int]);
    }
}

/// A thread that exits is gone with the next switch, the others keep their order,
/// and the thread is reaped after that with the stack that it ran on.
pub proof fn law_exits_end_in_reaping<S>(
    before: Scheduler<S>,
    exited: Scheduler<S>,
    switched: Scheduler<S>,
    after: Scheduler<S>,
    switch: Option<Switch>,
    dead: Seq<Box<Thread<S>>>,
    dead_after: Seq<Box<Thread<S>>>,
)
    requires
        before.ready@.len() > 0,
        is_finishing(before, exited),
        is_switch(exited, switched, switch),
        is_reaping(switched, after, dead, dead_after),
    ensures
        turns(exited) == turns(before),
        turns(after) == turns(before).drop_first(),
        switch matches Some(performed) && performed.parked is Finished && performed.new_rsp
            == before.ready@[0].saved_rsp,
        dead_after.len() == dead.len() + before.finished@.len() + 1,
        dead_after.last().id == before.current.id,
        dead_after.last().stack == before.current.stack,
{
    assert(turns(exited) =~= turns(before));
    assert(turns(after) =~= turns(before).drop_first());
}

/// Everyone is listed once, with what they are doing: first the thread that runs,
/// then those that wait, in the order of their turns, then those that have exited.
pub proof fn law_everyone_is_listed<S>(scheduler: Scheduler<S>, i: int)
    requires
        scheduler.wf(),
        0 <= i < scheduler.listing().len(),
    ensures
        scheduler.listing().len() == scheduler.ids().len(),
        scheduler.listing()[i].0 == scheduler.ids()[i],
        i < turns(scheduler).len() ==> scheduler.listing()[i].0 == turns(scheduler)[i],
        i == 0 ==> scheduler.listing()[i].1 == scheduler.current.state,
        0 < i < turns(scheduler).len() ==> scheduler.listing()[i].1 is Ready,
        turns(scheduler).len() <= i ==> scheduler.listing()[i].1 is Finished,
{
}

/// A fresh stack is entered at the trampoline, with the entry function in the fourth
/// of the registers that are popped before it and zero in the others. The frame
/// ends within sixteen bytes of the stack's end, aligned as the ABI requires, and
/// lies in the stack.
pub proof fn law_fresh_stacks_enter_the_trampoline(
    base: u64,
    len: u64,
    entry: u64,
    trampoline: u64,
    rsp: u64,
    words: Seq<u64>,
)
    requires
        71 <= len,
        is_initial_frame(base, len, entry, trampoline, rsp, words),
    ensures
        words.len() == 7,
        words[6] == trampoline,
        words[3] == entry,
        forall|i: int| 0 <= i < 6 && i != 3 ==> #[trigger] words[i] == 0,
        base <= rsp,
        rsp + 56 <= base + len < rsp + 56 + 16,
        (rsp + 56) % 16 == 0,
{
}

} // verus!
