use rustgame::economy::EconomyRules;
use rustgame::model::{
    Army, Buildings, Country, GamePhase, Occupied, OwnedBy, PendingMove, Province, Relation, Relations, TerrainType, World,
};
use rustgame::random::Dice;
use rustgame::turn::{end_turn, process_turn, resolve_turn};

fn province(id: u32, neighbors: Vec<usize>, owner: usize) -> Province {
    Province {
        id,
        terrain: TerrainType::Plains,
        neighbors,
        population: 0,
        base_growth: 0,
        base_income: 0,
        owned_by: Some(OwnedBy { owner }),
        occupied: None,
        buildings: Buildings { farm: false, mine: false, barracks: false },
    }
}

fn country(id: u32) -> Country {
    Country {
        id,
        name: format!("Country {}", id),
        color: 0,
        gold: 0,
        flag_path: None,
        relations: Relations { relations: vec![] },
        ai_controlled: false,
    }
}

fn marching(owner: usize, from: usize, to: usize, units: u32) -> Army {
    Army { owner, province: from, units, pending_move: Some(PendingMove { target_province: to }), has_acted: true }
}

/// Provinces 0 (of X), 1 (of Y) and 2 (of `owner_of_p`); X and Y at war.
fn battle_world(owner_of_p: usize) -> World {
    let mut x = country(1);
    let mut y = country(2);
    x.relations.set(1, Relation::War);
    y.relations.set(0, Relation::War);
    World {
        provinces: vec![province(10, vec![2], 0), province(11, vec![2], 1), province(12, vec![0, 1], owner_of_p)],
        countries: vec![x, y, country(3)],
        armies: vec![marching(0, 0, 2, 150), marching(1, 1, 2, 80)],
        player: None,
        phase: GamePhase::PlayerTurn,
    }
}

#[test]
fn larger_army_survives_and_occupies() {
    let mut world = battle_world(2);
    assert!(end_turn(&mut world));
    assert_eq!(world.phase, GamePhase::Processing);
    let mut dice = Dice::scripted(vec![]);
    process_turn(&mut world, &mut dice, EconomyRules::standard());
    assert_eq!(world.armies.len(), 1);
    assert_eq!(world.armies[0].owner, 0);
    assert_eq!(world.armies[0].province, 2);
    assert_eq!(world.armies[0].units, 150);
    assert_eq!(world.armies[0].pending_move, None);
    assert!(!world.armies[0].has_acted);
    assert_eq!(world.provinces[2].occupied, Some(Occupied { occupier: 0 }));
    assert_eq!(world.provinces[2].owned_by, Some(OwnedBy { owner: 2 }));
    assert_eq!(world.phase, GamePhase::PlayerTurn);
}

#[test]
fn owner_winning_at_home_leaves_no_occupation() {
    let mut world = battle_world(0);
    world.phase = GamePhase::Processing;
    resolve_turn(&mut world, EconomyRules::standard());
    assert_eq!(world.armies.len(), 1);
    assert_eq!(world.armies[0].owner, 0);
    assert_eq!(world.armies[0].units, 150);
    assert_eq!(world.provinces[2].occupied, None);
}

#[test]
fn processing_outside_its_phase_does_nothing() {
    let mut world = battle_world(2);
    let mut dice = Dice::scripted(vec![]);
    process_turn(&mut world, &mut dice, EconomyRules::standard());
    assert_eq!(world.armies.len(), 2);
    assert_eq!(world.armies[1].province, 1);
    assert_eq!(world.phase, GamePhase::PlayerTurn);
}

#[test]
fn end_turn_only_from_player_turn() {
    let mut world = battle_world(2);
    world.phase = GamePhase::Processing;
    assert!(!end_turn(&mut world));
    assert_eq!(world.phase, GamePhase::Processing);
}

#[test]
fn turn_pays_income_and_merges_stacks() {
    let mut world = battle_world(2);
    world.armies = vec![marching(0, 0, 2, 60), marching(0, 2, 2, 40)];
    world.provinces[0].base_income = 7;
    world.phase = GamePhase::Processing;
    resolve_turn(&mut world, EconomyRules::standard());
    assert_eq!(world.armies.len(), 1);
    assert_eq!(world.armies[0].units, 100);
    assert_eq!(world.armies[0].province, 2);
    // Province 2 is occupied by X: half of nothing; province 0 yields 7 to X.
    assert_eq!(world.countries[0].gold, 7);
    assert_eq!(world.provinces[2].occupied, Some(Occupied { occupier: 0 }));
}
