use rust_os::port::PortOp;
use rust_os::time::{init, sleep, tick, ticks, uptime_ms, Timer, TIMER_HZ};

#[test]
fn the_timer_is_programmed_to_100_hz() {
    assert_eq!(TIMER_HZ, 100);
    assert_eq!(
        init(),
        [
            PortOp::Write8 { port: 0x43, value: 0x36 },
            PortOp::Write8 { port: 0x40, value: 0x9B },
            PortOp::Write8 { port: 0x40, value: 0x2E },
        ]
    );
}

#[test]
fn ticks_count_and_uptime_follows() {
    let mut timer: Timer<u32> = Timer::new();
    let mut woken = Vec::new();
    for _ in 0..4236 {
        tick(&mut timer, &mut woken);
    }
    assert_eq!(ticks(&timer), 4236);
    assert_eq!(uptime_ms(&timer), 42_360);
    assert!(woken.is_empty());
}

#[test]
fn durations_are_rounded_up() {
    let timer: Timer<u32> = Timer::new();
    assert_eq!(sleep(&timer, 0).deadline, 0);
    assert_eq!(sleep(&timer, 1).deadline, 1);
    assert_eq!(sleep(&timer, 10).deadline, 1);
    assert_eq!(sleep(&timer, 11).deadline, 2);
    assert_eq!(sleep(&timer, 500).deadline, 50);
    assert_eq!(sleep(&timer, u64::MAX).deadline, 1_844_674_407_370_955_162);
}

#[test]
fn sleepers_are_woken_in_order_when_due() {
    let mut timer = Timer::new();
    let mut woken = Vec::new();
    for (ms, waker) in [(30, "c"), (10, "a"), (20, "b"), (10, "d")] {
        assert!(!sleep(&timer, ms).poll(&mut timer, waker));
    }
    tick(&mut timer, &mut woken);
    assert_eq!(woken, ["a", "d"]);
    woken.clear();
    tick(&mut timer, &mut woken);
    assert_eq!(woken, ["b"]);
    woken.clear();
    tick(&mut timer, &mut woken);
    assert_eq!(woken, ["c"]);
    assert!(timer.sleepers.is_empty());
}

#[test]
fn a_sleep_that_is_over_registers_nothing() {
    let mut timer = Timer::new();
    let nap = sleep(&timer, 0);
    assert!(nap.poll(&mut timer, 7));
    assert!(timer.sleepers.is_empty());
}

#[test]
fn a_tick_between_check_and_registration_loses_no_wakeup() {
    let mut timer = Timer::new();
    let mut woken = Vec::new();
    let nap = sleep(&timer, 20);
    assert!(!nap.is_over(&timer));
    tick(&mut timer, &mut woken); // lands in between
    nap.register(&mut timer, 1);
    assert!(!nap.is_over(&timer)); // so the task waits
    tick(&mut timer, &mut woken);
    assert_eq!(woken, [1]);

    let late = sleep(&timer, 10);
    tick(&mut timer, &mut woken);
    late.register(&mut timer, 2);
    assert!(late.is_over(&timer)); // so it does not wait
}
