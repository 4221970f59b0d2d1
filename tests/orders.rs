use rustgame::model::{Army, Buildings, Country, GamePhase, OwnedBy, PendingMove, Province, Relation, Relations, TerrainType, World};
use rustgame::movement::{process_turn_moves, queue_move, MoveError};

fn province(terrain: TerrainType, neighbors: Vec<usize>, owner: Option<usize>) -> Province {
    Province {
        id: 0,
        terrain,
        neighbors,
        population: 0,
        base_growth: 0,
        base_income: 0,
        owned_by: owner.map(|o| OwnedBy { owner: o }),
        occupied: None,
        buildings: Buildings { farm: false, mine: false, barracks: false },
    }
}

fn country() -> Country {
    Country {
        id: 0,
        name: String::new(),
        color: 0,
        gold: 0,
        flag_path: None,
        relations: Relations { relations: vec![] },
        ai_controlled: false,
    }
}

/// 0 (own) borders 1 (water), 2 (country 1), 3 (own); 4 (country 1) is far.
fn world() -> World {
    World {
        provinces: vec![
            province(TerrainType::Plains, vec![1, 2, 3], Some(0)),
            province(TerrainType::Water, vec![0], None),
            province(TerrainType::Forest, vec![0], Some(1)),
            province(TerrainType::City, vec![0], Some(0)),
            province(TerrainType::Plains, vec![], Some(1)),
        ],
        countries: vec![country(), country()],
        armies: vec![Army { owner: 0, province: 0, units: 10, pending_move: None, has_acted: false }],
        player: Some(0),
        phase: GamePhase::PlayerTurn,
    }
}

#[test]
fn water_is_refused_when_ordered() {
    let mut w = world();
    assert_eq!(queue_move(&mut w, 0, 1), Err(MoveError::Water));
    assert_eq!(w.armies[0].pending_move, None);
}

#[test]
fn only_neighbours_can_be_targets() {
    let mut w = world();
    assert_eq!(queue_move(&mut w, 0, 4), Err(MoveError::NotNeighbor));
    assert_eq!(w.armies[0].pending_move, None);
}

#[test]
fn foreign_land_needs_war() {
    let mut w = world();
    assert_eq!(queue_move(&mut w, 0, 2), Err(MoveError::NotAtWar));
    w.countries[0].relations.set(1, Relation::War);
    assert_eq!(queue_move(&mut w, 0, 2), Ok(true));
    assert_eq!(w.armies[0].pending_move, Some(PendingMove { target_province: 2 }));
}

#[test]
fn same_target_again_cancels_and_another_replaces() {
    let mut w = world();
    assert_eq!(queue_move(&mut w, 0, 3), Ok(true));
    assert_eq!(queue_move(&mut w, 0, 3), Ok(false));
    assert_eq!(w.armies[0].pending_move, None);
    assert_eq!(queue_move(&mut w, 0, 3), Ok(true));
    w.countries[0].relations.set(1, Relation::War);
    assert_eq!(queue_move(&mut w, 0, 2), Ok(true));
    assert_eq!(w.armies[0].pending_move, Some(PendingMove { target_province: 2 }));
}

#[test]
fn movement_carries_out_orders() {
    let mut w = world();
    queue_move(&mut w, 0, 3).unwrap();
    w.armies.push(Army { owner: 1, province: 4, units: 3, pending_move: None, has_acted: false });
    process_turn_moves(&mut w);
    assert_eq!(w.armies[0].province, 3);
    assert_eq!(w.armies[1].province, 4);
}
