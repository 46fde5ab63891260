use tilekit::noise::Rng;
use tilekit::world::{generate_name, Biome, Site};

#[test]
fn water_biomes_are_water_and_impassable() {
    for biome in [Biome::Ocean, Biome::Sea, Biome::Lake] {
        assert!(biome.is_water(), "{biome:?}");
        assert!(!biome.is_passable(), "{biome:?}");
    }
    assert!(!Biome::Coast.is_water(), "coast is land");
    assert!(Biome::Coast.is_passable());
    assert!(!Biome::Peak.is_passable(), "peaks are impassable");
}

#[test]
fn passable_terrain_is_always_cheaper_than_impassable() {
    let worst_passable = Biome::ALL
        .iter()
        .filter(|b| b.is_passable())
        .map(|b| b.move_cost())
        .max()
        .expect("some terrain is passable");
    let best_impassable = Biome::ALL
        .iter()
        .filter(|b| !b.is_passable())
        .map(|b| b.move_cost())
        .min()
        .expect("some terrain is impassable");
    assert!(worst_passable < best_impassable, "{worst_passable} vs {best_impassable}");
}

#[test]
fn every_biome_has_distinct_presentation() {
    let mut names: Vec<_> = Biome::ALL.iter().map(|b| b.name()).collect();
    let total = names.len();
    names.sort_unstable();
    names.dedup();
    assert_eq!(names.len(), total, "biome names must be unique");

    let mut colors: Vec<_> = Biome::ALL.iter().map(|b| format!("{:?}", b.color())).collect();
    colors.sort_unstable();
    colors.dedup();
    assert_eq!(colors.len(), total, "biome colors must be unique");
}

#[test]
fn generated_names_are_capitalized_and_nonempty() {
    let mut rng = Rng::new(11);
    for _ in 0..200 {
        let name = generate_name(&mut rng);
        assert!(!name.is_empty());
        let first = name.chars().next().expect("nonempty");
        assert!(first.is_uppercase(), "{name:?} is not capitalized");
    }
}

#[test]
fn generated_names_vary() {
    let mut rng = Rng::new(5);
    let mut names: Vec<String> = (0..100).map(|_| generate_name(&mut rng)).collect();
    names.sort();
    names.dedup();
    assert!(names.len() > 80, "only {} distinct names in 100", names.len());
}

#[test]
fn sites_know_which_are_settlements() {
    assert!(Site::Capital.is_settlement());
    assert!(Site::Town.is_settlement());
    assert!(!Site::Ruin.is_settlement());
    assert_eq!(Site::Fort.name(), "fortress");
    assert_eq!(Site::Capital.glyph_color().0, '☼');
}

#[test]
fn biome_lookups_match_the_tables() {
    assert_eq!(Biome::Mountain.move_cost(), 9);
    assert_eq!(Biome::Ice.move_cost(), 12);
    assert_eq!(Biome::Peak.move_cost(), 1000);
    assert_eq!(Biome::Desert.glyph(), Biome::Scrubland.glyph());
    assert_eq!(Biome::Lake.name(), "lake");
    assert_eq!(Biome::default(), Biome::Ocean);
}

#[test]
fn a_name_is_drawn_from_the_pools() {
    let mut a = Rng::new(3);
    let name = generate_name(&mut a);
    let lower = name.to_lowercase();
    assert!(name.len() >= 5, "{name:?} is too short for two syllables");
    assert!(
        ["ard", "bel", "cor", "dun", "eth", "fen", "gar", "hal", "ith", "jor", "kel", "lor", "mor", "nar",
         "oth", "pel", "quen", "rin", "sar", "tor", "ulm", "vale", "wyn", "xan", "yr", "zel", "brack",
         "dorn", "gwyn", "myr", "thal", "vor"]
            .iter()
            .any(|s| lower.starts_with(s)),
        "{name:?} does not start with a syllable"
    );
}
