use tilekit::palette::{faction, rgb, Rgb, Season, TimeOfDay};

#[test]
fn phase_cycles_return_to_their_start() {
    let mut t = TimeOfDay::Dawn;
    for _ in 0..TimeOfDay::ALL.len() {
        t = t.next();
    }
    assert_eq!(t, TimeOfDay::Dawn);

    let mut s = Season::Spring;
    for _ in 0..Season::ALL.len() {
        s = s.next();
    }
    assert_eq!(s, Season::Spring);
}

#[test]
fn every_phase_has_a_distinct_label() {
    let mut labels: Vec<_> = TimeOfDay::ALL.iter().map(|t| t.label()).collect();
    labels.sort_unstable();
    labels.dedup();
    assert_eq!(labels.len(), TimeOfDay::ALL.len());
}

#[test]
fn faction_colors_wrap_and_are_distinct() {
    let factions: Vec<Rgb> = (0..8).map(faction).collect();
    assert_eq!(faction(0), factions[0]);
    assert_eq!(faction(factions.len()), factions[0]);
    assert_eq!(faction(factions.len() * 3 + 2), factions[2]);
    for (i, &a) in factions.iter().enumerate() {
        for &b in &factions[i + 1..] {
            assert_ne!(a, b, "duplicate faction color");
        }
    }
}

#[test]
fn rgb_holds_its_channels() {
    let c = rgb(1, 2, 3);
    assert_eq!((c.r, c.g, c.b), (1, 2, 3));
    assert_eq!(faction(0), rgb(206, 84, 78));
}

#[test]
fn seasons_and_times_have_their_names() {
    assert_eq!(Season::Autumn.label(), "autumn");
    assert_eq!(TimeOfDay::Night.label(), "night");
    assert_eq!(TimeOfDay::Night.next(), TimeOfDay::Dawn);
    assert_eq!(TimeOfDay::default(), TimeOfDay::Noon);
    assert_eq!(Season::default(), Season::Spring);
}
