//! Terrain classes, points of interest and place names for generated
//! overland worlds.

use vstd::prelude::*;
use vstd::string::StringExecFns;

use crate::glyphs::{marker, terrain};
use crate::noise::{xorshift, Rng};
use crate::palette::{rgb, Rgb};

pub mod map;

pub use self::map::WorldMap;

verus! {

/// Terrain classification, ordered water-first, then the land biomes cold
/// to hot within each moisture band.
#[derive(Debug, Clone, Copy, PartialEq, Eq, Structural, PartialOrd, Ord, Hash, Default)]
pub enum Biome {
    /// Deep ocean.
    #[default]
    Ocean,
    /// Shallow sea over the continental shelf.
    Sea,
    /// A freshwater lake.
    Lake,
    /// Beach and littoral.
    Coast,
    /// Permanent ice.
    Ice,
    /// Cold, treeless.
    Tundra,
    /// Cold conifer forest.
    Taiga,
    /// Cold, dry, rocky.
    Scrubland,
    /// Temperate open ground.
    Grassland,
    /// Temperate broadleaf forest.
    Forest,
    /// Wetland.
    Marsh,
    /// Hot and dry.
    Desert,
    /// Hot with a wet season.
    Savanna,
    /// Hot and wet.
    Jungle,
    /// High rocky ground.
    Mountain,
    /// Above the snow line.
    Peak,
}

/// Whether a biome is any kind of water.
pub open spec fn water(b: Biome) -> bool {
    b == Biome::Ocean || b == Biome::Sea || b == Biome::Lake
}

/// Whether units can generally cross a biome: not water, not peaks.
pub open spec fn passable(b: Biome) -> bool {
    !(water(b) || b == Biome::Peak)
}

/// Movement cost of a biome, in abstract points; impassable terrain costs
/// 1000, expensive enough never to win.
pub open spec fn biome_cost(b: Biome) -> u32 {
    match b {
        Biome::Coast | Biome::Grassland | Biome::Savanna => 2,
        Biome::Tundra | Biome::Scrubland | Biome::Desert => 3,
        Biome::Forest | Biome::Taiga => 4,
        Biome::Marsh | Biome::Jungle => 6,
        Biome::Mountain => 9,
        Biome::Ice => 12,
        _ => 1000,
    }
}

/// The representative glyph of a biome.
pub open spec fn biome_glyph(b: Biome) -> char {
    match b {
        Biome::Ocean | Biome::Sea => terrain::WATER,
        Biome::Lake => terrain::WAVE,
        Biome::Coast => terrain::SAND,
        Biome::Ice | Biome::Peak => terrain::SNOW,
        Biome::Tundra => terrain::TUNDRA,
        Biome::Taiga => terrain::CONIFER,
        Biome::Grassland | Biome::Savanna => terrain::GRASS,
        Biome::Forest => terrain::FOREST,
        Biome::Marsh => terrain::MARSH,
        Biome::Scrubland | Biome::Desert => terrain::DUNE,
        Biome::Jungle => terrain::JUNGLE,
        Biome::Mountain => terrain::MOUNTAIN,
    }
}

/// The representative color of a biome.
pub open spec fn biome_color(b: Biome) -> Rgb {
    match b {
        Biome::Ocean => Rgb { r: 12, g: 26, b: 58 },
        Biome::Sea => Rgb { r: 26, g: 58, b: 102 },
        Biome::Lake => Rgb { r: 44, g: 92, b: 140 },
        Biome::Coast => Rgb { r: 196, g: 178, b: 128 },
        Biome::Ice => Rgb { r: 228, g: 236, b: 244 },
        Biome::Tundra => Rgb { r: 150, g: 156, b: 140 },
        Biome::Taiga => Rgb { r: 52, g: 84, b: 68 },
        Biome::Scrubland => Rgb { r: 140, g: 132, b: 90 },
        Biome::Grassland => Rgb { r: 104, g: 140, b: 66 },
        Biome::Forest => Rgb { r: 58, g: 100, b: 50 },
        Biome::Marsh => Rgb { r: 78, g: 100, b: 74 },
        Biome::Desert => Rgb { r: 206, g: 182, b: 116 },
        Biome::Savanna => Rgb { r: 164, g: 156, b: 76 },
        Biome::Jungle => Rgb { r: 40, g: 96, b: 52 },
        Biome::Mountain => Rgb { r: 112, g: 106, b: 100 },
        Biome::Peak => Rgb { r: 238, g: 240, b: 246 },
    }
}

impl Biome {
    /// Every biome, for legends and tests.
    pub const ALL: [Biome; 16] = [
        Biome::Ocean,
        Biome::Sea,
        Biome::Lake,
        Biome::Coast,
        Biome::Ice,
        Biome::Tundra,
        Biome::Taiga,
        Biome::Scrubland,
        Biome::Grassland,
        Biome::Forest,
        Biome::Marsh,
        Biome::Desert,
        Biome::Savanna,
        Biome::Jungle,
        Biome::Mountain,
        Biome::Peak,
    ];

    /// Whether this is any kind of water.
    pub fn is_water(self) -> (b: bool)
        ensures
            b == water(self),
    {
        match self {
            Biome::Ocean | Biome::Sea | Biome::Lake => true,
            _ => false,
        }
    }

    /// Whether units can generally cross it.
    pub fn is_passable(self) -> (b: bool)
        ensures
            b == passable(self),
    {
        match self {
            Biome::Ocean | Biome::Sea | Biome::Lake | Biome::Peak => false,
            _ => true,
        }
    }

    /// Movement cost, in abstract points.
    pub fn move_cost(self) -> (c: u32)
        ensures
            c == biome_cost(self),
    {
        match self {
            Biome::Coast | Biome::Grassland | Biome::Savanna => 2,
            Biome::Tundra | Biome::Scrubland | Biome::Desert => 3,
            Biome::Forest | Biome::Taiga => 4,
            Biome::Marsh | Biome::Jungle => 6,
            Biome::Mountain => 9,
            Biome::Ice => 12,
            _ => 1000,
        }
    }

    /// The representative glyph for this biome.
    pub fn glyph(self) -> (c: char)
        ensures
            c == biome_glyph(self),
    {
        match self {
            Biome::Ocean | Biome::Sea => terrain::WATER,
            Biome::Lake => terrain::WAVE,
            Biome::Coast => terrain::SAND,
            Biome::Ice | Biome::Peak => terrain::SNOW,
            Biome::Tundra => terrain::TUNDRA,
            Biome::Taiga => terrain::CONIFER,
            Biome::Grassland | Biome::Savanna => terrain::GRASS,
            Biome::Forest => terrain::FOREST,
            Biome::Marsh => terrain::MARSH,
            Biome::Scrubland | Biome::Desert => terrain::DUNE,
            Biome::Jungle => terrain::JUNGLE,
            Biome::Mountain => terrain::MOUNTAIN,
        }
    }

    /// The representative color for this biome.
    pub fn color(self) -> (c: Rgb)
        ensures
            c == biome_color(self),
    {
        match self {
            Biome::Ocean => rgb(12, 26, 58),
            Biome::Sea => rgb(26, 58, 102),
            Biome::Lake => rgb(44, 92, 140),
            Biome::Coast => rgb(196, 178, 128),
            Biome::Ice => rgb(228, 236, 244),
            Biome::Tundra => rgb(150, 156, 140),
            Biome::Taiga => rgb(52, 84, 68),
            Biome::Scrubland => rgb(140, 132, 90),
            Biome::Grassland => rgb(104, 140, 66),
            Biome::Forest => rgb(58, 100, 50),
            Biome::Marsh => rgb(78, 100, 74),
            Biome::Desert => rgb(206, 182, 116),
            Biome::Savanna => rgb(164, 156, 76),
            Biome::Jungle => rgb(40, 96, 52),
            Biome::Mountain => rgb(112, 106, 100),
            Biome::Peak => rgb(238, 240, 246),
        }
    }

    /// Display name.
    pub fn name(self) -> (s: &'static str)
        ensures
            s@ == (match self {
                Biome::Ocean => "ocean"@,
                Biome::Sea => "sea"@,
                Biome::Lake => "lake"@,
                Biome::Coast => "coast"@,
                Biome::Ice => "ice"@,
                Biome::Tundra => "tundra"@,
                Biome::Taiga => "taiga"@,
                Biome::Scrubland => "scrubland"@,
                Biome::Grassland => "grassland"@,
                Biome::Forest => "forest"@,
                Biome::Marsh => "marsh"@,
                Biome::Desert => "desert"@,
                Biome::Savanna => "savanna"@,
                Biome::Jungle => "jungle"@,
                Biome::Mountain => "mountain"@,
                Biome::Peak => "peak"@,
            }),
    {
        match self {
            Biome::Ocean => "ocean",
            Biome::Sea => "sea",
            Biome::Lake => "lake",
            Biome::Coast => "coast",
            Biome::Ice => "ice",
            Biome::Tundra => "tundra",
            Biome::Taiga => "taiga",
            Biome::Scrubland => "scrubland",
            Biome::Grassland => "grassland",
            Biome::Forest => "forest",
            Biome::Marsh => "marsh",
            Biome::Desert => "desert",
            Biome::Savanna => "savanna",
            Biome::Jungle => "jungle",
            Biome::Mountain => "mountain",
            Biome::Peak => "peak",
        }
    }
}

/// Water is never passable, every passable biome costs less to cross than
/// any impassable one, and no two biomes share a color.
pub proof fn lemma_biome_costs(a: Biome, b: Biome)
    ensures
        water(a) ==> !passable(a),
        passable(a) && !passable(b) ==> biome_cost(a) < biome_cost(b),
        a != b ==> biome_color(a) != biome_color(b),
{
}

/// A point of interest on the map.
#[derive(Debug, Clone, Copy, PartialEq, Eq, Structural, Hash)]
pub enum Site {
    /// The capital of a province.
    Capital,
    /// A city.
    City,
    /// A town.
    Town,
    /// A fortress guarding a pass or border.
    Fort,
    /// A ruin.
    Ruin,
    /// A mine.
    Mine,
    /// A shrine.
    Shrine,
}

/// Whether a site is inhabited (and therefore a road destination).
pub open spec fn settlement(s: Site) -> bool {
    s == Site::Capital || s == Site::City || s == Site::Town
}

/// The glyph and color of a site.
pub open spec fn site_look(s: Site) -> (char, Rgb) {
    match s {
        Site::Capital => (marker::CAPITAL, Rgb { r: 250, g: 214, b: 120 }),
        Site::City => (marker::CITY, Rgb { r: 238, g: 232, b: 220 }),
        Site::Town => (marker::TOWN, Rgb { r: 206, g: 196, b: 180 }),
        Site::Fort => (marker::FORT, Rgb { r: 196, g: 150, b: 130 }),
        Site::Ruin => (marker::RUIN, Rgb { r: 150, g: 140, b: 130 }),
        Site::Mine => (marker::MINE, Rgb { r: 190, g: 170, b: 120 }),
        Site::Shrine => (marker::SHRINE, Rgb { r: 170, g: 150, b: 220 }),
    }
}

impl Site {
    /// Whether this site is inhabited (and therefore a road destination).
    pub fn is_settlement(self) -> (b: bool)
        ensures
            b == settlement(self),
    {
        match self {
            Site::Capital | Site::City | Site::Town => true,
            _ => false,
        }
    }

    /// The glyph and color for this site.
    pub fn glyph_color(self) -> (g: (char, Rgb))
        ensures
            g == site_look(self),
    {
        match self {
            Site::Capital => (marker::CAPITAL, rgb(250, 214, 120)),
            Site::City => (marker::CITY, rgb(238, 232, 220)),
            Site::Town => (marker::TOWN, rgb(206, 196, 180)),
            Site::Fort => (marker::FORT, rgb(196, 150, 130)),
            Site::Ruin => (marker::RUIN, rgb(150, 140, 130)),
            Site::Mine => (marker::MINE, rgb(190, 170, 120)),
            Site::Shrine => (marker::SHRINE, rgb(170, 150, 220)),
        }
    }

    /// Display name.
    pub fn name(self) -> (s: &'static str)
        ensures
            s@ == (match self {
                Site::Capital => "capital"@,
                Site::City => "city"@,
                Site::Town => "town"@,
                Site::Fort => "fortress"@,
                Site::Ruin => "ruins"@,
                Site::Mine => "mine"@,
                Site::Shrine => "shrine"@,
            }),
    {
        match self {
            Site::Capital => "capital",
            Site::City => "city",
            Site::Town => "town",
            Site::Fort => "fortress",
            Site::Ruin => "ruins",
            Site::Mine => "mine",
            Site::Shrine => "shrine",
        }
    }
}

/// A placed point of interest.
#[derive(Debug, Clone)]
pub struct Landmark {
    /// Map position.
    pub x: i32,
    /// Map position.
    pub y: i32,
    /// What it is.
    pub site: Site,
    /// Its generated name.
    pub name: String,
    /// Which province owns it.
    pub province: usize,
}

// ── Place names ─────────────────────────────────────────────────────────────

/// Syllable pool for place names.
pub const SYLLABLES: [&'static str; 32] = [
    "ard", "bel", "cor", "dun", "eth", "fen", "gar", "hal", "ith", "jor", "kel", "lor", "mor",
    "nar", "oth", "pel", "quen", "rin", "sar", "tor", "ulm", "vale", "wyn", "xan", "yr", "zel",
    "brack", "dorn", "gwyn", "myr", "thal", "vor",
];

/// The same pool with the first letter capitalized, for the start of a name.
pub const CAPITALIZED_SYLLABLES: [&'static str; 32] = [
    "Ard", "Bel", "Cor", "Dun", "Eth", "Fen", "Gar", "Hal", "Ith", "Jor", "Kel", "Lor", "Mor",
    "Nar", "Oth", "Pel", "Quen", "Rin", "Sar", "Tor", "Ulm", "Vale", "Wyn", "Xan", "Yr", "Zel",
    "Brack", "Dorn", "Gwyn", "Myr", "Thal", "Vor",
];

/// Suffixes that make a syllable pair read as a place.
pub const SUFFIXES: [&'static str; 10] = [
    "", "", "ia", "mere", "ford", "holm", "gard", "wick", "fell", "haven",
];

/// What [`Rng::next_below`] draws from state `s` for a bound `n > 0`.
pub open spec fn draw(s: u32, n: int) -> int {
    (xorshift(s) as int * n) / 0x1_0000_0000
}

/// The state after `k` draws from `s`.
pub open spec fn after(s: u32, k: nat) -> u32
    decreases k,
{
    if k == 0 { s } else { after(xorshift(s), (k - 1) as nat) }
}

/// The name generated from state `s`: two or three syllables (the first
/// capitalized) and a suffix, each drawn in turn.
pub open spec fn name_from(s: u32) -> Seq<char> {
    let count = 2 + draw(s, 2);
    let first = CAPITALIZED_SYLLABLES[draw(after(s, 1), 32)]@;
    let second = SYLLABLES[draw(after(s, 2), 32)]@;
    let third = if count == 3 { SYLLABLES[draw(after(s, 3), 32)]@ } else { Seq::<char>::empty() };
    let suffix = SUFFIXES[draw(after(s, count as nat + 1), 10)]@;
    first + second + third + suffix
}

/// Generates a place name from two or three syllables plus an optional
/// suffix, capitalized.
pub fn generate_name(rng: &mut Rng) -> (name: String)
    ensures
        name@ == name_from(old(rng).state()),
        final(rng).state() == after(old(rng).state(), (draw(old(rng).state(), 2) + 2 + 2) as nat),
{
    let ghost s = rng.state();
    let count = 2 + rng.next_below(2) as usize;
    proof {
        lemma_after_step(s, 0);
        lemma_after_step(s, 1);
        assert(after(s, 0) == s);
        assert(rng.state() == after(s, 1));
    }
    let first = rng.next_below(32) as usize;
    let mut name = String::from_str(CAPITALIZED_SYLLABLES[first]);
    let mut k: usize = 1;
    while k < count
        invariant
            2 <= count <= 3,
            count == 2 + draw(s, 2),
            1 <= k <= count,
            rng.state() == after(s, (k + 1) as nat),
            name@ == CAPITALIZED_SYLLABLES[draw(after(s, 1), 32)]@
                + (if k >= 2 { SYLLABLES[draw(after(s, 2), 32)]@ } else { Seq::<char>::empty() })
                + (if k >= 3 { SYLLABLES[draw(after(s, 3), 32)]@ } else { Seq::<char>::empty() }),
        decreases count - k,
    {
        proof {
            lemma_after_step(s, (k + 1) as nat);
        }
        let i = rng.next_below(32) as usize;
        name.append(SYLLABLES[i]);
        k += 1;
        proof {
            if k == 2 {
                assert(name@ == CAPITALIZED_SYLLABLES[draw(after(s, 1), 32)]@ + SYLLABLES[draw(after(s, 2), 32)]@
                    + Seq::<char>::empty());
            }
        }
    }
    proof {
        lemma_after_step(s, (count + 1) as nat);
    }
    let suffix = rng.next_below(10) as usize;
    name.append(SUFFIXES[suffix]);
    proof {
        if count == 2 {
            assert(name@ =~= name_from(s));
        } else {
            assert(name@ =~= name_from(s));
        }
    }
    name
}

proof fn lemma_after_step(s: u32, k: nat)
    ensures
        after(s, k + 1) == xorshift(after(s, k)),
    decreases k,
{
    reveal_with_fuel(after, 2);
    if k > 0 {
        lemma_after_step(xorshift(s), (k - 1) as nat);
    }
}

} // verus!
