//! Colors and the cyclic phases (time of day, season) that tint them.
//!
//! Colors here are plain 24-bit RGB triples; the blending arithmetic lives
//! with the renderer.

use vstd::prelude::*;

verus! {

/// A 24-bit RGB color.
#[derive(Debug, Clone, Copy, PartialEq, Eq, Structural, Hash, Default)]
pub struct Rgb {
    /// Red channel.
    pub r: u8,
    /// Green channel.
    pub g: u8,
    /// Blue channel.
    pub b: u8,
}

/// An RGB color from its three channels.
pub fn rgb(red: u8, green: u8, blue: u8) -> (c: Rgb)
    ensures
        c == (Rgb { r: red, g: green, b: blue }),
{
    Rgb { r: red, g: green, b: blue }
}

/// The faction colors, chosen to stay distinguishable after fog-of-war
/// dimming: the `i`th of eight.
pub open spec fn faction_color(i: int) -> Rgb {
    if i == 0 {
        Rgb { r: 206, g: 84, b: 78 }
    } else if i == 1 {
        Rgb { r: 74, g: 130, b: 196 }
    } else if i == 2 {
        Rgb { r: 120, g: 172, b: 88 }
    } else if i == 3 {
        Rgb { r: 200, g: 158, b: 66 }
    } else if i == 4 {
        Rgb { r: 150, g: 104, b: 186 }
    } else if i == 5 {
        Rgb { r: 80, g: 172, b: 164 }
    } else if i == 6 {
        Rgb { r: 206, g: 122, b: 168 }
    } else {
        Rgb { r: 140, g: 138, b: 152 }
    }
}

/// The faction color for `index`, wrapping every eight so any number of
/// factions works.
pub fn faction(index: usize) -> (c: Rgb)
    ensures
        c == faction_color(index as int % 8),
{
    match index % 8 {
        0 => rgb(206, 84, 78),
        1 => rgb(74, 130, 196),
        2 => rgb(120, 172, 88),
        3 => rgb(200, 158, 66),
        4 => rgb(150, 104, 186),
        5 => rgb(80, 172, 164),
        6 => rgb(206, 122, 168),
        _ => rgb(140, 138, 152),
    }
}

/// The eight faction colors are pairwise different.
pub proof fn lemma_factions_distinct(i: int, j: int)
    requires
        0 <= i < 8,
        0 <= j < 8,
        i != j,
    ensures
        faction_color(i) != faction_color(j),
{
}

/// Time of day, for the tint pass.
#[derive(Debug, Clone, Copy, PartialEq, Eq, Structural, Hash, Default)]
pub enum TimeOfDay {
    /// Low warm light from the east.
    Dawn,
    /// Neutral overhead light. The identity tint.
    #[default]
    Noon,
    /// Low warm light from the west, redder than dawn.
    Dusk,
    /// Dim, cold, blue.
    Night,
}

/// The phase after `t`, wrapping.
pub open spec fn next_time(t: TimeOfDay) -> TimeOfDay {
    match t {
        TimeOfDay::Dawn => TimeOfDay::Noon,
        TimeOfDay::Noon => TimeOfDay::Dusk,
        TimeOfDay::Dusk => TimeOfDay::Night,
        TimeOfDay::Night => TimeOfDay::Dawn,
    }
}

impl TimeOfDay {
    /// All four, in cycle order.
    pub const ALL: [TimeOfDay; 4] = [TimeOfDay::Dawn, TimeOfDay::Noon, TimeOfDay::Dusk, TimeOfDay::Night];

    /// The next phase, wrapping.
    pub fn next(self) -> (n: Self)
        ensures
            n == next_time(self),
    {
        match self {
            TimeOfDay::Dawn => TimeOfDay::Noon,
            TimeOfDay::Noon => TimeOfDay::Dusk,
            TimeOfDay::Dusk => TimeOfDay::Night,
            TimeOfDay::Night => TimeOfDay::Dawn,
        }
    }

    /// Display name.
    pub fn label(self) -> (s: &'static str)
        ensures
            s@ == (match self {
                TimeOfDay::Dawn => "dawn"@,
                TimeOfDay::Noon => "noon"@,
                TimeOfDay::Dusk => "dusk"@,
                TimeOfDay::Night => "night"@,
            }),
    {
        match self {
            TimeOfDay::Dawn => "dawn",
            TimeOfDay::Noon => "noon",
            TimeOfDay::Dusk => "dusk",
            TimeOfDay::Night => "night",
        }
    }
}

/// Season, for the tint pass.
#[derive(Debug, Clone, Copy, PartialEq, Eq, Structural, Hash, Default)]
pub enum Season {
    /// Fresh, light green.
    #[default]
    Spring,
    /// Deep green; nearly the identity.
    Summer,
    /// Warm orange.
    Autumn,
    /// Washed toward snow.
    Winter,
}

/// The season after `s`, wrapping.
pub open spec fn next_season(s: Season) -> Season {
    match s {
        Season::Spring => Season::Summer,
        Season::Summer => Season::Autumn,
        Season::Autumn => Season::Winter,
        Season::Winter => Season::Spring,
    }
}

impl Season {
    /// All four, in cycle order.
    pub const ALL: [Season; 4] = [Season::Spring, Season::Summer, Season::Autumn, Season::Winter];

    /// The next season, wrapping.
    pub fn next(self) -> (n: Self)
        ensures
            n == next_season(self),
    {
        match self {
            Season::Spring => Season::Summer,
            Season::Summer => Season::Autumn,
            Season::Autumn => Season::Winter,
            Season::Winter => Season::Spring,
        }
    }

    /// Display name.
    pub fn label(self) -> (s: &'static str)
        ensures
            s@ == (match self {
                Season::Spring => "spring"@,
                Season::Summer => "summer"@,
                Season::Autumn => "autumn"@,
                Season::Winter => "winter"@,
            }),
    {
        match self {
            Season::Spring => "spring",
            Season::Summer => "summer",
            Season::Autumn => "autumn",
            Season::Winter => "winter",
        }
    }
}

/// Four steps of either cycle come back to where they started, and no
/// fewer do.
pub proof fn lemma_phases_cycle(t: TimeOfDay, s: Season)
    ensures
        next_time(next_time(next_time(next_time(t)))) == t,
        next_time(t) != t,
        next_time(next_time(t)) != t,
        next_time(next_time(next_time(t))) != t,
        next_season(next_season(next_season(next_season(s)))) == s,
        next_season(s) != s,
        next_season(next_season(s)) != s,
        next_season(next_season(next_season(s))) != s,
{
}

} // verus!
