use fire_sim_core::calendar::{
    fallback_curing_percent, month_index, season_of_day, CalendarState, ClimatePattern, Season,
};

#[test]
fn new_calendar_starts_mid_year() {
    let c = CalendarState::new();
    assert_eq!(c.day_of_year(), 180);
    assert!(!c.is_heatwave());
    assert_eq!(c.heatwave_days_remaining(), 0);
    assert_eq!(c.season(), Season::Autumn);
    assert_eq!(c.month(), 5);
}

#[test]
fn months_are_thirty_day_blocks() {
    assert_eq!(month_index(1), 0);
    assert_eq!(month_index(30), 0);
    assert_eq!(month_index(31), 1);
    assert_eq!(month_index(330), 10);
    assert_eq!(month_index(331), 11);
    assert_eq!(month_index(365), 11);
    assert_eq!(month_index(400), 11);
}

#[test]
fn seasons_are_91_day_blocks() {
    assert_eq!(season_of_day(1), Season::Summer);
    assert_eq!(season_of_day(91), Season::Summer);
    assert_eq!(season_of_day(92), Season::Autumn);
    assert_eq!(season_of_day(183), Season::Winter);
    assert_eq!(season_of_day(274), Season::Spring);
    assert_eq!(season_of_day(365), Season::Spring);
}

#[test]
fn fallback_curing_by_season() {
    assert_eq!(fallback_curing_percent(15), 95);
    assert_eq!(fallback_curing_percent(120), 80);
    assert_eq!(fallback_curing_percent(200), 50);
    assert_eq!(fallback_curing_percent(300), 70);
}

#[test]
fn year_wraps_after_day_365() {
    let mut c = CalendarState::starting_on(364);
    c.advance_day();
    assert_eq!(c.day_of_year(), 365);
    c.advance_day();
    assert_eq!(c.day_of_year(), 1);
}

#[test]
fn full_year_returns_to_same_day() {
    let mut c = CalendarState::starting_on(42);
    for _ in 0..365 {
        c.advance_day();
    }
    assert_eq!(c.day_of_year(), 42);
}

#[test]
fn heatwave_counts_down_and_ends() {
    let mut c = CalendarState::new();
    c.trigger_heatwave(3);
    assert!(c.is_heatwave());
    c.advance_day();
    c.advance_day();
    assert!(c.is_heatwave());
    assert_eq!(c.heatwave_days_remaining(), 1);
    c.advance_day();
    assert!(!c.is_heatwave());
    assert_eq!(c.heatwave_days_remaining(), 0);
    c.advance_day();
    assert!(!c.is_heatwave());
}

#[test]
fn set_day_of_year_keeps_heatwave() {
    let mut c = CalendarState::new();
    c.trigger_heatwave(2);
    c.set_day_of_year(10);
    assert_eq!(c.day_of_year(), 10);
    assert!(c.is_heatwave());
    assert_eq!(c.season(), Season::Summer);
}

#[test]
fn climate_patterns_compare() {
    assert_eq!(ClimatePattern::ElNino, ClimatePattern::ElNino);
    assert_ne!(ClimatePattern::ElNino, ClimatePattern::LaNina);
    assert_ne!(ClimatePattern::Neutral, ClimatePattern::LaNina);
}

#[test]
fn zero_day_heatwave_never_runs() {
    let mut c = CalendarState::new();
    c.trigger_heatwave(0);
    assert!(!c.is_heatwave());
    c.advance_day();
    assert!(!c.is_heatwave());
    assert_eq!(c.heatwave_days_remaining(), 0);
}
