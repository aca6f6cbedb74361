use warehouse_sim::clock::SimulationClock;

#[test]
fn clock_accumulates_and_ticks() {
    let mut clock = SimulationClock::new(1_000_000);
    assert_eq!(clock.tick_nanos(), 1_000_000);
    assert!(!clock.try_tick());
    clock.accumulate(2_500_000);
    assert!(clock.try_tick());
    assert!(clock.try_tick());
    assert!(!clock.try_tick());
    assert_eq!(clock.accumulator_nanos(), 500_000);
    clock.accumulate(500_000);
    assert!(clock.try_tick());
    assert!(!clock.try_tick());
    assert_eq!(clock.accumulator_nanos(), 0);
}

#[test]
fn slow_poll_catches_up_with_many_ticks() {
    let mut clock = SimulationClock::new(10);
    clock.accumulate(95);
    let mut ticks: u32 = 0;
    while clock.try_tick() {
        ticks += 1;
    }
    assert_eq!(ticks, 9);
    assert_eq!(clock.accumulator_nanos(), 5);
}
