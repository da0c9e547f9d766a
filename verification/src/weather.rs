//! Weather state: clear, precipitation or thunderstorm, and the change events.

use vstd::prelude::*;

verus! {

/// Weather affecting ambient light and gameplay.
#[derive(Debug, Clone, Copy, PartialEq, Eq, Structural)]
pub enum WeatherState {
    /// Clear skies.
    Clear,
    /// Rain in warm biomes, snow in cold ones.
    Precipitation,
    /// Precipitation with thunder and lightning.
    Thunderstorm,
}

impl Default for WeatherState {
    fn default() -> (res: Self)
        ensures
            res == WeatherState::Clear,
    {
        WeatherState::Clear
    }
}

/// The state `toggle` switches to: clear becomes precipitation, anything else clears.
pub open spec fn spec_toggled(s: WeatherState) -> WeatherState {
    match s {
        WeatherState::Clear => WeatherState::Precipitation,
        _ => WeatherState::Clear,
    }
}

/// The world's weather.
#[derive(Debug, Clone, Copy, PartialEq, Eq, Structural)]
pub struct WeatherToggle {
    /// Current weather.
    pub state: WeatherState,
}

impl WeatherToggle {
    /// Clear weather.
    pub fn new() -> (res: Self)
        ensures
            res.state == WeatherState::Clear,
    {
        WeatherToggle { state: WeatherState::Clear }
    }

    /// Set the weather.
    pub fn set_state(&mut self, state: WeatherState)
        ensures
            final(self).state == state,
    {
        self.state = state;
    }

    /// Switch between clear and precipitation (a thunderstorm clears).
    pub fn toggle(&mut self)
        ensures
            final(self).state == spec_toggled(old(self).state),
    {
        self.state = match self.state {
            WeatherState::Clear => WeatherState::Precipitation,
            WeatherState::Precipitation | WeatherState::Thunderstorm => WeatherState::Clear,
        };
    }

    /// Whether it is raining or snowing (thunderstorms included).
    pub fn is_precipitating(&self) -> (res: bool)
        ensures
            res == (self.state != WeatherState::Clear),
    {
        match self.state {
            WeatherState::Precipitation | WeatherState::Thunderstorm => true,
            WeatherState::Clear => false,
        }
    }

    /// Whether it is thundering.
    pub fn is_thundering(&self) -> (res: bool)
        ensures
            res == (self.state == WeatherState::Thunderstorm),
    {
        self.state == WeatherState::Thunderstorm
    }
}

impl Default for WeatherToggle {
    fn default() -> (res: Self)
        ensures
            res.state == WeatherState::Clear,
    {
        Self::new()
    }
}

/// Event recording a weather change.
#[derive(Debug, Clone, Copy, PartialEq, Eq, Structural)]
pub struct WeatherChanged {
    /// Weather before.
    pub from: WeatherState,
    /// Weather after.
    pub to: WeatherState,
}

impl WeatherChanged {
    pub fn new(from: WeatherState, to: WeatherState) -> (res: Self)
        ensures
            res.from == from,
            res.to == to,
    {
        WeatherChanged { from, to }
    }
}

/// Toggling twice restores clear weather and precipitation; a thunderstorm comes back as
/// plain precipitation.
pub proof fn law_toggle_twice(s: WeatherState)
    ensures
        s != WeatherState::Thunderstorm ==> spec_toggled(spec_toggled(s)) == s,
        s == WeatherState::Thunderstorm ==> spec_toggled(spec_toggled(s)) == WeatherState::Precipitation,
        spec_toggled(s) != s,
{
}

} // verus!
