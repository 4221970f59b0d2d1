use rustgame::ai::{ai_build_buildings, ai_build_for, ai_change_relation, ai_diplomacy, ai_move_armies, ai_move_army, ai_recruit_armies, ai_recruit_for};
use rustgame::model::{Army, BuildingType, Buildings, Country, GamePhase, OwnedBy, PendingMove, Province, Relation, Relations, TerrainType, World};
use rustgame::random::Dice;

fn province(neighbors: Vec<usize>, owner: usize) -> Province {
    Province {
        id: 0,
        terrain: TerrainType::Plains,
        neighbors,
        population: 0,
        base_growth: 0,
        base_income: 0,
        owned_by: Some(OwnedBy { owner }),
        occupied: None,
        buildings: Buildings { farm: false, mine: false, barracks: false },
    }
}

fn country(gold: u64) -> Country {
    Country {
        id: 0,
        name: String::new(),
        color: 0,
        gold,
        flag_path: None,
        relations: Relations { relations: vec![] },
        ai_controlled: true,
    }
}

/// Provinces 0 and 2 belong to country 0, province 1 to country 1.
fn world(gold: u64) -> World {
    World {
        provinces: vec![province(vec![1, 2], 0), province(vec![0], 1), province(vec![0], 0)],
        countries: vec![country(gold), country(0), country(0)],
        armies: vec![Army { owner: 0, province: 0, units: 100, pending_move: None, has_acted: false }],
        player: None,
        phase: GamePhase::Processing,
    }
}

#[test]
fn build_picks_from_affordable_types_and_own_sites() {
    let mut w = world(250);
    assert_eq!(ai_build_for(&mut w, 0, 1, 1), Some((2, BuildingType::Mine)));
    assert!(w.provinces[2].buildings.mine);
    assert_eq!(w.countries[0].gold, 50);
    assert_eq!(ai_build_for(&mut w, 0, 0, 0), None);
    assert_eq!(w.countries[0].gold, 50);
}

#[test]
fn build_skips_when_every_site_has_the_type() {
    let mut w = world(100);
    w.provinces[0].buildings.farm = true;
    w.provinces[2].buildings.farm = true;
    assert_eq!(ai_build_for(&mut w, 0, 5, 5), None);
    assert_eq!(w.countries[0].gold, 100);
}

#[test]
fn recruit_needs_gold_and_barracks() {
    let mut w = world(150);
    assert_eq!(ai_recruit_for(&mut w, 0, 3), None);
    w.provinces[2].buildings.barracks = true;
    assert_eq!(ai_recruit_for(&mut w, 0, 3), Some(2));
    assert_eq!(w.armies.len(), 2);
    assert_eq!(w.armies[1], Army { owner: 0, province: 2, units: 100, pending_move: None, has_acted: false });
    assert_eq!(w.countries[0].gold, 50);
    assert_eq!(ai_recruit_for(&mut w, 0, 0), None);
}

#[test]
fn armies_prefer_enemies_they_are_at_war_with() {
    let mut w = world(0);
    assert_eq!(ai_move_army(&mut w, 0, 5, 10, 0), Some(2));
    w.countries[0].relations.set(1, Relation::War);
    assert_eq!(ai_move_army(&mut w, 0, 50, 10, 0), None);
    assert_eq!(ai_move_army(&mut w, 0, 5, 95, 0), Some(2));
    assert_eq!(ai_move_army(&mut w, 0, 19, 89, 7), Some(1));
    assert_eq!(w.armies[0].pending_move, Some(PendingMove { target_province: 1 }));
}

#[test]
fn declarations_pick_among_eligible_rivals() {
    let mut w = world(0);
    let ev = ai_change_relation(&mut w, 0, true, 1).unwrap();
    assert_eq!(ev.target, 2);
    assert_eq!(w.countries[2].relations.get(0), Relation::War);
    let ev = ai_change_relation(&mut w, 0, false, 1).unwrap();
    assert_eq!(ev.target, 2);
    assert_eq!(ev.new_relation, Relation::Peace);
    assert!(ai_change_relation(&mut w, 0, false, 0).is_none());
}

#[test]
fn scripted_dice_replay_and_then_yield_zero() {
    let mut dice = Dice::scripted(vec![7, 9]);
    assert_eq!(dice.draw(), 7);
    assert_eq!(dice.draw(), 9);
    assert_eq!(dice.draw(), 0);
}

#[test]
fn live_dice_drive_the_build_phase() {
    let mut w = world(1000);
    w.countries[1].ai_controlled = false;
    w.countries[2].ai_controlled = false;
    let mut dice = Dice::live();
    ai_build_buildings(&mut w, &mut dice);
    let built = w.provinces.iter().filter(|p| p.buildings.farm || p.buildings.mine || p.buildings.barracks).count();
    assert_eq!(built, 1);
    assert!(w.countries[0].gold == 900 || w.countries[0].gold == 800 || w.countries[0].gold == 700);
}

#[test]
fn armies_never_head_for_water() {
    let mut w = world(0);
    w.provinces[1].owned_by = Some(OwnedBy { owner: 0 });
    w.provinces[1].terrain = TerrainType::Water;
    assert_eq!(ai_move_army(&mut w, 0, 0, 0, 0), Some(2));
    assert_eq!(ai_move_army(&mut w, 0, 0, 0, 1), Some(2));
}

#[test]
fn armies_do_not_enter_land_held_by_a_country_at_peace() {
    let mut w = world(0);
    w.countries[0].relations.set(1, Relation::War);
    w.provinces[1].occupied = Some(rustgame::model::Occupied { occupier: 2 });
    // Province 1 is owned by an enemy but held by country 2, at peace with 0.
    assert_eq!(ai_move_army(&mut w, 0, 0, 0, 0), Some(2));
}

#[test]
fn movement_phase_leaves_player_armies_alone() {
    let mut w = world(0);
    w.countries[0].ai_controlled = false;
    let mut dice = Dice::scripted(vec![0, 0, 0]);
    ai_move_armies(&mut w, &mut dice);
    assert_eq!(w.armies[0].pending_move, None);
    w.countries[0].ai_controlled = true;
    let mut dice = Dice::scripted(vec![0, 0, 0]);
    ai_move_armies(&mut w, &mut dice);
    assert_eq!(w.armies[0].pending_move, Some(PendingMove { target_province: 2 }));
}

#[test]
fn recruiting_phase_is_decided_by_gold_and_barracks() {
    let mut w = world(150);
    w.provinces[2].buildings.barracks = true;
    w.provinces[1].buildings.barracks = true;
    w.countries[1].gold = 50;
    w.countries[2].gold = 500;
    let mut dice = Dice::scripted(vec![]);
    ai_recruit_armies(&mut w, &mut dice);
    assert_eq!(w.armies.len(), 2);
    assert_eq!(w.armies[1], Army { owner: 0, province: 2, units: 100, pending_move: None, has_acted: false });
    assert_eq!(w.countries[0].gold, 50);
    assert_eq!(w.countries[1].gold, 50);
    assert_eq!(w.countries[2].gold, 500);
}

#[test]
fn diplomacy_roll_decides_the_round() {
    let mut w = world(0);
    let mut dice = Dice::scripted(vec![50]);
    ai_diplomacy(&mut w, &mut dice);
    for c in 0..3 {
        for d in 0..3 {
            assert_eq!(w.countries[c].relations.get(d), Relation::Peace);
        }
    }
    let mut dice = Dice::scripted(vec![5, 0, 0, 0]);
    ai_diplomacy(&mut w, &mut dice);
    // Country 0 declares on 1; country 1 is then at war with 0 and declares
    // on 2 (its only rival at peace); country 2 has 0 left and declares on it.
    assert_eq!(w.countries[0].relations.get(1), Relation::War);
    assert_eq!(w.countries[1].relations.get(2), Relation::War);
    assert_eq!(w.countries[2].relations.get(0), Relation::War);
    let mut dice = Dice::scripted(vec![25, 0, 0, 0]);
    ai_diplomacy(&mut w, &mut dice);
    assert_eq!(w.countries[0].relations.get(1), Relation::Peace);
}

#[test]
fn building_phase_follows_the_picks() {
    let mut w = world(250);
    w.countries[1].ai_controlled = false;
    w.countries[2].ai_controlled = false;
    let mut dice = Dice::scripted(vec![1, 1]);
    ai_build_buildings(&mut w, &mut dice);
    assert!(w.provinces[2].buildings.mine);
    assert_eq!(w.countries[0].gold, 50);
    assert!(!w.provinces[0].buildings.mine);
}

#[test]
fn a_used_up_script_draws_zeros() {
    let mut w = world(0);
    let mut dice = Dice::scripted(vec![]);
    ai_diplomacy(&mut w, &mut dice);
    // A roll of zero is a round of declarations, each picking the first rival.
    assert_eq!(w.countries[0].relations.get(1), Relation::War);
    assert_eq!(w.countries[1].relations.get(2), Relation::War);
    assert_eq!(w.countries[2].relations.get(0), Relation::War);
}
