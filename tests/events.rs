use rustgame::events::{apply_event_effect, EventEffect, EventType, GameEvent, PendingEvent};
use rustgame::model::{Army, Buildings, Country, GamePhase, OwnedBy, Province, Relations, TerrainType, World};
use rustgame::random::Dice;

fn world() -> World {
    let province = |owner: usize| Province {
        id: 0,
        terrain: TerrainType::City,
        neighbors: vec![],
        population: 1000,
        base_growth: 0,
        base_income: 0,
        owned_by: Some(OwnedBy { owner }),
        occupied: None,
        buildings: Buildings { farm: false, mine: false, barracks: false },
    };
    let country = |gold: u64| Country {
        id: 0,
        name: String::new(),
        color: 0,
        gold,
        flag_path: None,
        relations: Relations { relations: vec![] },
        ai_controlled: false,
    };
    World {
        provinces: vec![province(0), province(1)],
        countries: vec![country(1500), country(10)],
        armies: vec![
            Army { owner: 0, province: 0, units: 105, pending_move: None, has_acted: false },
            Army { owner: 1, province: 1, units: 105, pending_move: None, has_acted: false },
        ],
        player: Some(0),
        phase: GamePhase::PlayerTurn,
    }
}

#[test]
fn payments_stop_at_zero() {
    let mut w = world();
    apply_event_effect(&mut w, EventEffect::PayGold(2000));
    assert_eq!(w.countries[0].gold, 0);
    assert_eq!(w.countries[1].gold, 10);
}

#[test]
fn gains_and_losses_of_gold() {
    let mut w = world();
    apply_event_effect(&mut w, EventEffect::GainGold(100));
    assert_eq!(w.countries[0].gold, 1600);
    apply_event_effect(&mut w, EventEffect::LoseGold(1500));
    assert_eq!(w.countries[0].gold, 100);
}

#[test]
fn desertion_hits_only_the_players_armies() {
    let mut w = world();
    apply_event_effect(&mut w, EventEffect::LoseArmyUnits(10));
    assert_eq!(w.armies[0].units, 95);
    assert_eq!(w.armies[1].units, 105);
}

#[test]
fn crackdown_costs_population() {
    let mut w = world();
    apply_event_effect(&mut w, EventEffect::LosePopulation(5));
    assert_eq!(w.provinces[0].population, 950);
    assert_eq!(w.provinces[1].population, 1000);
}

#[test]
fn no_player_no_effect() {
    let mut w = world();
    w.player = None;
    apply_event_effect(&mut w, EventEffect::PayGold(5));
    assert_eq!(w.countries[0].gold, 1500);
}

#[test]
fn events_offer_their_options() {
    let e = GameEvent::of_type(EventType::TaxRevolt);
    assert_eq!(e.title, "Tax Revolt");
    assert_eq!(e.options[0].effect, EventEffect::LoseGold(1500));
    assert_eq!(e.options[1].effect, EventEffect::LosePopulation(5));
    let mut dice = Dice::scripted(vec![3, 4]);
    assert_eq!(GameEvent::generate_random(&mut dice).event_type, EventType::TaxRevolt);
    let pending = PendingEvent::new(GameEvent::generate_random(&mut dice));
    assert_eq!(pending.event.event_type, EventType::ArmyDesertion);
    assert_eq!(pending.event.options[0].effect, EventEffect::PayGold(2000));
}

#[test]
fn an_empty_script_gives_desertion() {
    let mut dice = Dice::scripted(vec![]);
    assert_eq!(GameEvent::generate_random(&mut dice).event_type, EventType::ArmyDesertion);
}
