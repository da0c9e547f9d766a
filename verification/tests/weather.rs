use mdminecraft_world::weather::{WeatherChanged, WeatherState, WeatherToggle};

#[test]
fn weather_toggle_starts_clear() {
    let weather = WeatherToggle::new();
    assert_eq!(weather.state, WeatherState::Clear);
    assert!(!weather.is_precipitating());
    assert!(!weather.is_thundering());
}

#[test]
fn toggle_switches_between_states() {
    let mut weather = WeatherToggle::new();
    weather.toggle();
    assert_eq!(weather.state, WeatherState::Precipitation);
    assert!(weather.is_precipitating());

    weather.toggle();
    assert_eq!(weather.state, WeatherState::Clear);
    assert!(!weather.is_precipitating());
}

#[test]
fn weather_changed_event_tracks_transition() {
    let event = WeatherChanged::new(WeatherState::Clear, WeatherState::Precipitation);
    assert_eq!(event.from, WeatherState::Clear);
    assert_eq!(event.to, WeatherState::Precipitation);
}
