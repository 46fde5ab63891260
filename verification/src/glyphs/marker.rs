//! Settlement, landmark, and unit markers.
//!
//! Every glyph here is in CP437: pixel backends resolve glyphs through a
//! CP437-only font and substitute a solid block for anything else, so these
//! are typographic stand-ins chosen from what CP437 actually has.

use vstd::prelude::*;

verus! {

/// A capital city. CP437 `0x0F`.
pub const CAPITAL: char = '☼';
/// A city. CP437 `0x7F`.
pub const CITY: char = '⌂';
/// A town or village. CP437 `0xA9`.
pub const TOWN: char = '⌐';
/// A fortress or watchtower: a gate arch. CP437 `0xEA`.
pub const FORT: char = 'Ω';
/// A ruin: a standing pair of columns and a lintel. CP437 `0xE3`.
pub const RUIN: char = 'π';
/// A mine or quarry: an adit mouth. CP437 `0xE9`.
pub const MINE: char = 'Θ';
/// A shrine or magical site. CP437 `0x04`.
pub const SHRINE: char = '♦';
/// A port: a quay seen from above. CP437 `0x16`.
pub const PORT: char = '▬';
/// A friendly unit: a filled token. CP437 `0x02`.
pub const UNIT: char = '☻';
/// A scout or explorer: a hollow token. CP437 `0x01`.
pub const SCOUT: char = '☺';

} // verus!
