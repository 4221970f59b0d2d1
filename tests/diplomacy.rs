use rustgame::actions::{toggle_relation, ActionError};
use rustgame::diplomacy::{set_relation, DiplomacyChanged};
use rustgame::model::{Buildings, Country, GamePhase, Occupied, OwnedBy, Province, Relation, Relations, TerrainType, World};

fn province(owner: usize, occupier: Option<usize>) -> Province {
    Province {
        id: 0,
        terrain: TerrainType::Plains,
        neighbors: vec![],
        population: 0,
        base_growth: 0,
        base_income: 0,
        owned_by: Some(OwnedBy { owner }),
        occupied: occupier.map(|o| Occupied { occupier: o }),
        buildings: Buildings { farm: false, mine: false, barracks: false },
    }
}

fn country() -> Country {
    Country {
        id: 0,
        name: String::new(),
        color: 0,
        gold: 0,
        flag_path: None,
        relations: Relations { relations: vec![] },
        ai_controlled: true,
    }
}

fn at_war(w: &mut World, a: usize, b: usize) {
    w.countries[a].relations.set(b, Relation::War);
    w.countries[b].relations.set(a, Relation::War);
}

fn world() -> World {
    let mut w = World {
        // 0: of 1, held by 0. 1: of 0, held by 1. 2: of 2, held by 0. 3: of 1, held by 2.
        provinces: vec![province(1, Some(0)), province(0, Some(1)), province(2, Some(0)), province(1, Some(2))],
        countries: vec![country(), country(), country()],
        armies: vec![],
        player: None,
        phase: GamePhase::PlayerTurn,
    };
    at_war(&mut w, 0, 1);
    at_war(&mut w, 0, 2);
    at_war(&mut w, 1, 2);
    w
}

#[test]
fn peace_hands_occupied_provinces_to_their_occupiers() {
    let mut w = world();
    let ev = set_relation(&mut w, 0, 1, Relation::Peace);
    assert_eq!(ev, DiplomacyChanged { declarer: 0, target: 1, new_relation: Relation::Peace });
    assert_eq!(w.countries[0].relations.get(1), Relation::Peace);
    assert_eq!(w.countries[1].relations.get(0), Relation::Peace);
    assert_eq!(w.provinces[0].owned_by, Some(OwnedBy { owner: 0 }));
    assert_eq!(w.provinces[0].occupied, None);
    assert_eq!(w.provinces[1].owned_by, Some(OwnedBy { owner: 1 }));
    assert_eq!(w.provinces[1].occupied, None);
    // 0 is still at war with 2, and 2 is no party to this peace.
    assert_eq!(w.provinces[2].occupied, Some(Occupied { occupier: 0 }));
    assert_eq!(w.provinces[3].occupied, Some(Occupied { occupier: 2 }));
    assert_eq!(w.countries[2].relations.get(0), Relation::War);
}

#[test]
fn war_transfers_nothing() {
    let mut w = world();
    set_relation(&mut w, 0, 1, Relation::War);
    assert_eq!(w.provinces[0].owned_by, Some(OwnedBy { owner: 1 }));
    assert_eq!(w.provinces[0].occupied, Some(Occupied { occupier: 0 }));
}

#[test]
fn toggling_flips_both_sides() {
    let mut w = world();
    let ev = toggle_relation(&mut w, 2, 1).unwrap();
    assert_eq!(ev.new_relation, Relation::Peace);
    assert_eq!(w.countries[1].relations.get(2), Relation::Peace);
    assert_eq!(w.provinces[3].owned_by, Some(OwnedBy { owner: 2 }));
    let ev = toggle_relation(&mut w, 1, 2).unwrap();
    assert_eq!(ev.new_relation, Relation::War);
    assert_eq!(w.countries[2].relations.get(1), Relation::War);
    assert_eq!(toggle_relation(&mut w, 1, 1), Err(ActionError::SameCountry));
}
