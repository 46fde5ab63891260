//! Terrain decoration glyphs, roughly by biome family, so every map shares
//! one visual vocabulary.

use vstd::prelude::*;

verus! {

/// Open water, still.
pub const WATER: char = '~';
/// Open water, breaking. Alternate with [`WATER`] for a swell.
pub const WAVE: char = '≈';
/// Grass and steppe.
pub const GRASS: char = '"';
/// Broadleaf forest.
pub const FOREST: char = '♣';
/// Conifer forest and taiga.
pub const CONIFER: char = '♠';
/// Jungle and rainforest.
pub const JUNGLE: char = '§';
/// Hills and rough ground.
pub const HILLS: char = 'n';
/// Mountains.
pub const MOUNTAIN: char = '▲';
/// Peaks above the snow line.
pub const PEAK: char = '^';
/// Desert dunes.
pub const DUNE: char = '∩';
/// Sand and beach.
pub const SAND: char = '·';
/// Swamp and marsh.
pub const MARSH: char = ',';
/// Tundra.
pub const TUNDRA: char = '`';
/// Snow and ice.
pub const SNOW: char = '*';
/// Volcanic and scorched ground.
pub const ASH: char = '%';

} // verus!
