use rustgame::combat::resolve_combat;
use rustgame::model::{Army, GamePhase, World};
use rustgame::movement::merge_armies_in_same_province;

fn army(owner: usize, province: usize, units: u32) -> Army {
    Army { owner, province, units, pending_move: None, has_acted: false }
}

fn world(armies: Vec<Army>) -> World {
    World { provinces: vec![], countries: vec![], armies, player: None, phase: GamePhase::Processing }
}

#[test]
fn smaller_of_two_owners_loses_everything() {
    let mut w = world(vec![army(0, 5, 150), army(1, 5, 30), army(1, 5, 50), army(1, 6, 10)]);
    resolve_combat(&mut w);
    assert_eq!(w.armies, vec![army(0, 5, 150), army(1, 6, 10)]);
}

#[test]
fn tie_goes_against_the_lower_handle() {
    let mut w = world(vec![army(3, 1, 100), army(2, 1, 100)]);
    resolve_combat(&mut w);
    assert_eq!(w.armies, vec![army(3, 1, 100)]);
}

#[test]
fn only_the_weakest_of_three_loses() {
    let mut w = world(vec![army(0, 2, 50), army(1, 2, 30), army(2, 2, 70)]);
    resolve_combat(&mut w);
    assert_eq!(w.armies, vec![army(0, 2, 50), army(2, 2, 70)]);
}

#[test]
fn stacks_of_one_owner_fight_together() {
    let mut w = world(vec![army(0, 4, 60), army(0, 4, 60), army(1, 4, 100)]);
    resolve_combat(&mut w);
    assert_eq!(w.armies, vec![army(0, 4, 60), army(0, 4, 60)]);
}

#[test]
fn a_lone_owner_does_not_fight() {
    let mut w = world(vec![army(0, 4, 1), army(0, 4, 2), army(1, 3, 500)]);
    resolve_combat(&mut w);
    assert_eq!(w.armies.len(), 3);
}

#[test]
fn merge_keeps_first_army_with_the_sum() {
    let mut w = world(vec![army(0, 1, 60), army(1, 1, 5), army(0, 1, 40), army(0, 2, 7)]);
    merge_armies_in_same_province(&mut w);
    assert_eq!(w.armies, vec![army(0, 1, 100), army(1, 1, 5), army(0, 2, 7)]);
}

#[test]
fn merge_caps_units_at_the_largest_count() {
    let mut w = world(vec![army(0, 1, u32::MAX), army(0, 1, 1)]);
    merge_armies_in_same_province(&mut w);
    assert_eq!(w.armies, vec![army(0, 1, u32::MAX)]);
}
