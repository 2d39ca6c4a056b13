use rust_os::threads::{
    finish_current, init, preempt, prepare_stack, reap, snapshot, spawn, Parked, SpawnError, State,
    Switch, Threads, MAX_THREADS,
};

fn started() -> Threads<&'static str> {
    let mut threads = Threads::new();
    init(&mut threads);
    threads
}

fn listing(threads: &Threads<&'static str>) -> Vec<(u64, State)> {
    let mut buf = [None; MAX_THREADS];
    let count = snapshot(threads, &mut buf);
    assert!(buf[count..].iter().all(|entry| entry.is_none()));
    buf[..count].iter().map(|entry| entry.unwrap()).collect()
}

#[test]
fn nothing_happens_before_init() {
    let mut threads: Threads<&'static str> = Threads::new();
    let mut dead = Vec::new();
    assert_eq!(
        spawn(&mut threads, "stack", 0, &mut dead),
        Err(SpawnError::NotInitialized)
    );
    assert_eq!(preempt(&mut threads), None);
    reap(&mut threads, &mut dead);
    finish_current(&mut threads);
    assert!(dead.is_empty());
    assert!(listing(&threads).is_empty());
    assert_eq!(threads.next_id, 1);
}

#[test]
fn the_boot_flow_is_thread_0() {
    let mut threads = started();
    assert_eq!(listing(&threads), [(0, State::Running)]);
    assert_eq!(preempt(&mut threads), None);
}

#[test]
fn threads_take_turns() {
    let mut threads = started();
    let mut dead = Vec::new();
    assert_eq!(spawn(&mut threads, "a", 0xA000, &mut dead), Ok(1));
    assert_eq!(spawn(&mut threads, "b", 0xB000, &mut dead), Ok(2));
    let mut order = Vec::new();
    for _ in 0..6 {
        let switch = preempt(&mut threads).expect("there is always someone else");
        assert_eq!(switch.parked, Parked::Ready);
        order.push(listing(&threads)[0].0);
    }
    assert_eq!(order, [1, 2, 0, 1, 2, 0]);
    assert_eq!(
        listing(&threads),
        [(0, State::Running), (1, State::Ready), (2, State::Ready)]
    );
}

#[test]
fn a_switch_names_the_stack_to_load() {
    let mut threads = started();
    let mut dead = Vec::new();
    spawn(&mut threads, "a", 0xA000, &mut dead).unwrap();
    assert_eq!(
        preempt(&mut threads),
        Some(Switch { parked: Parked::Ready, new_rsp: 0xA000 })
    );
    // The stack pointer of the old thread is saved where it is parked.
    let scheduler = threads.scheduler.as_mut().unwrap();
    scheduler.ready.back_mut().unwrap().saved_rsp = 0x1234;
    assert_eq!(
        preempt(&mut threads),
        Some(Switch { parked: Parked::Ready, new_rsp: 0x1234 })
    );
}

#[test]
fn finished_threads_are_parked_and_reaped() {
    let mut threads = started();
    let mut dead = Vec::new();
    spawn(&mut threads, "a", 0xA000, &mut dead).unwrap();
    spawn(&mut threads, "b", 0xB000, &mut dead).unwrap();
    preempt(&mut threads);
    finish_current(&mut threads);
    let switch = preempt(&mut threads).unwrap();
    assert_eq!(switch, Switch { parked: Parked::Finished, new_rsp: 0xB000 });
    assert_eq!(
        listing(&threads),
        [(2, State::Running), (0, State::Ready), (1, State::Finished)]
    );
    reap(&mut threads, &mut dead);
    assert_eq!(dead.len(), 1);
    assert_eq!(dead[0].id, 1);
    assert_eq!(dead[0].stack, Some("a"));
    assert_eq!(listing(&threads), [(2, State::Running), (0, State::Ready)]);
}

#[test]
fn the_number_of_threads_is_bounded() {
    let mut threads = started();
    let mut dead = Vec::new();
    for id in 1..MAX_THREADS as u64 {
        assert_eq!(spawn(&mut threads, "s", 0, &mut dead), Ok(id));
    }
    assert_eq!(
        spawn(&mut threads, "s", 0, &mut dead),
        Err(SpawnError::TooManyThreads)
    );
    assert_eq!(listing(&threads).len(), MAX_THREADS);
    // A dead thread makes room: spawning reaps first. The refused number is
    // used up.
    preempt(&mut threads);
    finish_current(&mut threads);
    preempt(&mut threads);
    assert_eq!(spawn(&mut threads, "t", 0, &mut dead), Ok(17));
    assert_eq!(dead.len(), 1);
    assert_eq!(listing(&threads).len(), MAX_THREADS);
}

#[test]
fn no_thread_is_lost_in_switches() {
    let mut threads = started();
    let mut dead = Vec::new();
    for _ in 1..10 {
        spawn(&mut threads, "s", 0, &mut dead).unwrap();
    }
    for round in 0..100 {
        if round == 30 || round == 50 {
            finish_current(&mut threads);
        }
        preempt(&mut threads);
        let mut ids: Vec<u64> = listing(&threads).iter().map(|entry| entry.0).collect();
        ids.sort();
        assert_eq!(ids, (0..10).collect::<Vec<u64>>());
    }
}

#[test]
fn the_initial_frame_enters_the_trampoline_aligned() {
    for base in 0x1000..0x1020u64 {
        let frame = prepare_stack(base, 32768, 0xE147, 0x57A7);
        assert_eq!(frame.words, [0, 0, 0, 0xE147, 0, 0, 0x57A7]);
        assert_eq!((frame.rsp + 56) % 16, 0);
        assert!(frame.rsp >= base && frame.rsp + 56 <= base + 32768);
        assert!(base + 32768 - (frame.rsp + 56) < 16);
    }
}

#[test]
fn a_full_round_comes_back_to_the_beginning() {
    let mut threads = started();
    let mut dead = Vec::new();
    for _ in 1..6 {
        spawn(&mut threads, "s", 0, &mut dead).unwrap();
    }
    // Somewhere in the middle of a round.
    preempt(&mut threads);
    preempt(&mut threads);
    let first = listing(&threads);
    for _ in 0..5 {
        preempt(&mut threads);
        assert_ne!(listing(&threads)[0], first[0]);
    }
    preempt(&mut threads);
    assert_eq!(listing(&threads), first);
}
