use mdminecraft_world::time::{SimTick, SimTime};

#[test]
fn day_phase_wraps_at_day_boundary() {
    let mut time = SimTime::new(100);
    // Tick 0 is sunrise, a quarter day after midnight.
    assert_eq!(time.day_phase_ticks(), 25);
    // Noon is half a day.
    time.tick = SimTick(25);
    assert_eq!(time.day_phase_ticks(), 50);
    // Midnight.
    time.tick = SimTick(75);
    assert_eq!(time.day_phase_ticks(), 0);
    // One day later, sunrise again.
    time.tick = SimTick(100);
    assert_eq!(time.day_phase_ticks(), 25);
    time.tick = SimTick(1_000_075);
    assert_eq!(time.day_phase_ticks(), 0);
}

#[test]
fn default_day_has_noon_and_midnight_in_place() {
    let mut time = SimTime::default();
    assert_eq!(time.ticks_per_day, 24000);
    time.tick = SimTick(6000);
    assert_eq!(time.day_phase_ticks(), 12000);
    time.tick = SimTick(18000);
    assert_eq!(time.day_phase_ticks(), 0);
}

#[test]
fn advance_moves_one_tick() {
    let mut time = SimTime::new(24000);
    assert_eq!(time.tick, SimTick(0));
    time.advance();
    time.advance();
    assert_eq!(time.tick, SimTick(2));
    assert_eq!(SimTick(7).advance(5), SimTick(12));
}
