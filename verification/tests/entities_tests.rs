use ingress_intel_rs::entities::Faction;

#[test]
fn faction_codes() {
    assert_eq!(Faction::from_code("N"), Some(Faction::Neutral));
    assert_eq!(Faction::from_code("E"), Some(Faction::Enlightened));
    assert_eq!(Faction::from_code("R"), Some(Faction::Resistance));
    assert_eq!(Faction::from_code("M"), Some(Faction::Machina));
    assert_eq!(Faction::from_code("X"), None);
    assert_eq!(Faction::from_code(""), None);
    assert_eq!(Faction::from_code("NE"), None);
}

#[test]
fn faction_predicates() {
    assert!(Faction::Neutral.is_neutral());
    assert!(Faction::Enlightened.is_enlightened());
    assert!(Faction::Resistance.is_resistance());
    assert!(Faction::Machina.is_machina());
    assert!(!Faction::Neutral.is_machina());
    assert!(!Faction::Resistance.is_enlightened());
}
