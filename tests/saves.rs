use rustgame::model::{Army, Buildings, Country, GamePhase, Occupied, OwnedBy, Province, Relation, Relations, TerrainType, World};
use rustgame::save::{load_and_apply_save, save_game, ArmySaveData, SaveLoadError};

fn province(id: u32, owner: Option<usize>, occupier: Option<usize>) -> Province {
    Province {
        id,
        terrain: TerrainType::Plains,
        neighbors: vec![0],
        population: 120,
        base_growth: 3,
        base_income: 2,
        owned_by: owner.map(|o| OwnedBy { owner: o }),
        occupied: occupier.map(|o| Occupied { occupier: o }),
        buildings: Buildings { farm: false, mine: false, barracks: false },
    }
}

fn country(id: u32, gold: u64) -> Country {
    Country {
        id,
        name: format!("Land {}", id),
        color: 0x112233,
        gold,
        flag_path: Some(String::from("flags/a.png")),
        relations: Relations { relations: vec![] },
        ai_controlled: true,
    }
}

fn world() -> World {
    let mut a = country(7, 500);
    let mut b = country(9, 80);
    let c = country(4, 0);
    a.relations.set(1, Relation::War);
    b.relations.set(0, Relation::War);
    b.ai_controlled = false;
    World {
        provinces: vec![province(100, Some(0), None), province(101, Some(1), Some(0)), province(102, None, None)],
        countries: vec![a, b, c],
        armies: vec![
            Army { owner: 0, province: 1, units: 150, pending_move: None, has_acted: false },
            Army { owner: 2, province: 2, units: 3, pending_move: None, has_acted: false },
        ],
        player: Some(1),
        phase: GamePhase::PlayerTurn,
    }
}

#[test]
fn save_then_load_round_trip() {
    let w = world();
    let save = save_game(&w);
    assert_eq!(save.countries[1].owned_provinces, vec![101]);
    assert_eq!(save.player_country_id, Some(9));
    let loaded = load_and_apply_save(w.provinces.clone(), &save).unwrap();
    assert_eq!(loaded.countries.len(), 3);
    for c in 0..3 {
        assert_eq!(loaded.countries[c].gold, w.countries[c].gold);
        assert_eq!(loaded.countries[c].id, w.countries[c].id);
        assert_eq!(loaded.countries[c].name, w.countries[c].name);
        for d in 0..3 {
            assert_eq!(loaded.countries[c].relations.get(d), w.countries[c].relations.get(d));
        }
    }
    for p in 0..3 {
        assert_eq!(loaded.provinces[p].owned_by, w.provinces[p].owned_by);
        assert_eq!(loaded.provinces[p].occupied, w.provinces[p].occupied);
    }
    assert_eq!(loaded.armies, w.armies);
    assert_eq!(loaded.player, Some(1));
    assert!(!loaded.countries[1].ai_controlled);
    assert!(loaded.countries[0].ai_controlled);
}

#[test]
fn unknown_army_owner_is_refused() {
    let w = world();
    let mut save = save_game(&w);
    save.armies.push(ArmySaveData { owner_id: 99, province_id: 100, units: 1 });
    assert!(matches!(load_and_apply_save(w.provinces.clone(), &save), Err(SaveLoadError::UnknownCountry(99))));
}

#[test]
fn unknown_owned_province_is_refused() {
    let w = world();
    let mut save = save_game(&w);
    save.countries[2].owned_provinces.push(77);
    assert!(matches!(load_and_apply_save(w.provinces.clone(), &save), Err(SaveLoadError::UnknownProvince(77))));
}

#[test]
fn relations_to_unknown_countries_are_ignored() {
    let w = world();
    let mut save = save_game(&w);
    save.countries[0].relations.push((555, Relation::War));
    let loaded = load_and_apply_save(w.provinces.clone(), &save).unwrap();
    assert_eq!(loaded.countries[0].relations.relations.len(), 3);
    assert_eq!(loaded.countries[0].relations.get(1), Relation::War);
}

#[test]
fn repeated_country_ids_are_refused() {
    let mut w = world();
    w.countries[0].id = 9;
    let save = save_game(&w);
    assert!(matches!(load_and_apply_save(w.provinces.clone(), &save), Err(SaveLoadError::DuplicateCountry(9))));
}

#[test]
fn only_the_player_country_is_human() {
    let w = world();
    let loaded = load_and_apply_save(w.provinces.clone(), &save_game(&w)).unwrap();
    let humans: Vec<usize> = (0..3).filter(|&c| !loaded.countries[c].ai_controlled).collect();
    assert_eq!(humans, vec![1]);
    assert_eq!(loaded.player, Some(1));
}
