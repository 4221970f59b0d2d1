use rustgame::actions::{purchase_building, recruit_army, ActionError};
use rustgame::model::{
    all_buildings, AppState, Army, BuildingType, Buildings, Country, GamePhase, OwnedBy, Province, Relation, Relations,
    TerrainType, World,
};

#[test]
fn relations_default_to_peace() {
    let mut r = Relations::new();
    assert_eq!(r.get(4), Relation::Peace);
    r.set(4, Relation::War);
    assert_eq!(r.get(4), Relation::War);
    assert_eq!(r.get(3), Relation::Peace);
    assert_eq!(r.get(100), Relation::Peace);
}

#[test]
fn building_catalogue() {
    assert_eq!(all_buildings(), vec![BuildingType::Farm, BuildingType::Mine, BuildingType::Barracks]);
    assert_eq!(BuildingType::Mine.cost(), 200);
    assert_eq!(BuildingType::Barracks.cost(), 300);
    assert_eq!(BuildingType::Mine.income_bonus(), 10);
    assert_eq!(BuildingType::Farm.growth_bonus(), 10);
    assert_eq!(BuildingType::Farm.population_bonus(), 500);
    assert_eq!(BuildingType::Barracks.name(), "Barracks");
    assert_eq!(BuildingType::Farm.description(), "Increases population growth");
    let mut b = Buildings::new();
    assert!(!b.contains(BuildingType::Farm));
    b.add(BuildingType::Farm);
    b.add(BuildingType::Mine);
    assert!(b.contains(BuildingType::Farm) && b.contains(BuildingType::Mine) && !b.contains(BuildingType::Barracks));
    assert_eq!(b.income_bonus(), 10);
    assert_eq!(b.growth_bonus(), 10);
}

#[test]
fn states_start_at_the_menu_and_the_player_turn() {
    assert_eq!(AppState::default(), AppState::InMainMenu);
    assert_eq!(GamePhase::default(), GamePhase::PlayerTurn);
}

fn world(gold: u64) -> World {
    let province = |owner: usize| Province {
        id: 0,
        terrain: TerrainType::Plains,
        neighbors: vec![],
        population: 0,
        base_growth: 0,
        base_income: 0,
        owned_by: Some(OwnedBy { owner }),
        occupied: None,
        buildings: Buildings { farm: false, mine: false, barracks: false },
    };
    let country = Country {
        id: 0,
        name: String::new(),
        color: 0,
        gold,
        flag_path: None,
        relations: Relations { relations: vec![] },
        ai_controlled: false,
    };
    World {
        provinces: vec![province(0), province(1)],
        countries: vec![country.clone(), country],
        armies: vec![],
        player: Some(0),
        phase: GamePhase::PlayerTurn,
    }
}

#[test]
fn buying_buildings() {
    let mut w = world(350);
    assert_eq!(purchase_building(&mut w, 0, 1, BuildingType::Farm), Err(ActionError::NotOwner));
    assert_eq!(purchase_building(&mut w, 0, 0, BuildingType::Barracks), Ok(()));
    assert_eq!(w.countries[0].gold, 50);
    assert!(w.provinces[0].buildings.barracks);
    assert_eq!(purchase_building(&mut w, 0, 0, BuildingType::Barracks), Err(ActionError::AlreadyBuilt));
    assert_eq!(purchase_building(&mut w, 0, 0, BuildingType::Farm), Err(ActionError::NotEnoughGold));
    assert_eq!(w.countries[0].gold, 50);
}

#[test]
fn recruiting_armies() {
    let mut w = world(150);
    assert_eq!(recruit_army(&mut w, 0, 0), Err(ActionError::NoBarracks));
    w.provinces[0].buildings.barracks = true;
    assert_eq!(recruit_army(&mut w, 0, 1), Err(ActionError::NotOwner));
    assert_eq!(recruit_army(&mut w, 0, 0), Ok(()));
    assert_eq!(w.armies, vec![Army { owner: 0, province: 0, units: 100, pending_move: None, has_acted: false }]);
    assert_eq!(w.countries[0].gold, 50);
    assert_eq!(recruit_army(&mut w, 0, 0), Err(ActionError::NotEnoughGold));
}

#[test]
fn well_formedness_check() {
    let mut w = world(0);
    assert!(w.is_well_formed());
    w.armies.push(Army { owner: 0, province: 2, units: 1, pending_move: None, has_acted: false });
    assert!(!w.is_well_formed());
    w.armies.clear();
    w.provinces[1].neighbors.push(5);
    assert!(!w.is_well_formed());
    w.provinces[1].neighbors.clear();
    w.player = Some(2);
    assert!(!w.is_well_formed());
}

#[test]
fn provinces_are_counted_per_owner() {
    let mut w = world(0);
    assert_eq!(w.province_count(0), 1);
    w.provinces[1].owned_by = Some(OwnedBy { owner: 0 });
    assert_eq!(w.province_count(0), 2);
    assert_eq!(w.province_count(1), 0);
}
