use rustgame::economy::{next_population, process_economy, province_income, EconomyRules};
use rustgame::model::{Buildings, Country, GamePhase, Occupied, OwnedBy, Province, Relations, TerrainType, World};

fn province(population: u32, base_growth: i32, base_income: u32) -> Province {
    Province {
        id: 1,
        terrain: TerrainType::Plains,
        neighbors: vec![],
        population,
        base_growth,
        base_income,
        owned_by: Some(OwnedBy { owner: 0 }),
        occupied: None,
        buildings: Buildings { farm: false, mine: false, barracks: false },
    }
}

fn country(id: u32, gold: u64) -> Country {
    Country {
        id,
        name: String::from("C"),
        color: 0,
        gold,
        flag_path: None,
        relations: Relations { relations: vec![] },
        ai_controlled: true,
    }
}

#[test]
fn occupied_mine_province_income() {
    let mut p = province(5000, 0, 10);
    p.buildings.mine = true;
    p.occupied = Some(Occupied { occupier: 1 });
    // floor((10 + 10 + 5) * 0.5)
    assert_eq!(province_income(&p, EconomyRules::standard()), 12);
}

#[test]
fn unoccupied_income_counts_population() {
    let mut p = province(5000, 0, 10);
    p.buildings.mine = true;
    assert_eq!(province_income(&p, EconomyRules::standard()), 25);
}

#[test]
fn steep_decline_stops_at_zero() {
    let p = province(100, -2000, 0);
    assert_eq!(next_population(&p, EconomyRules::standard()), 0);
}

#[test]
fn growth_rounds_halves_away_from_zero() {
    assert_eq!(next_population(&province(1000, 15, 0), EconomyRules::standard()), 1015);
    assert_eq!(next_population(&province(100, 5, 0), EconomyRules::standard()), 101);
    assert_eq!(next_population(&province(100, -5, 0), EconomyRules::standard()), 99);
}

#[test]
fn farm_adds_growth_and_occupation_stops_it() {
    let mut p = province(1000, 0, 0);
    p.buildings.farm = true;
    assert_eq!(next_population(&p, EconomyRules::standard()), 1010);
    p.occupied = Some(Occupied { occupier: 1 });
    assert_eq!(next_population(&p, EconomyRules::standard()), 1000);
    let rules = EconomyRules { occupied_growth_percent: 50, occupied_income_percent: 50 };
    assert_eq!(next_population(&p, rules), 1005);
}

#[test]
fn economy_pays_occupier_from_pre_growth_population() {
    let mut occupied = province(1999, 1000, 4);
    occupied.occupied = Some(Occupied { occupier: 1 });
    let own = province(999, 2000, 3);
    let mut unowned = province(500, 100, 50);
    unowned.owned_by = None;
    let mut world = World {
        provinces: vec![occupied, own, unowned],
        countries: vec![country(1, 10), country(2, u64::MAX - 1)],
        armies: vec![],
        player: None,
        phase: GamePhase::Processing,
    };
    process_economy(&mut world, EconomyRules::standard());
    // Province 1: 3 + 0 from its 999 inhabitants, then it triples.
    assert_eq!(world.countries[0].gold, 13);
    assert_eq!(world.provinces[1].population, 2997);
    // Province 0: floor((4 + 1) / 2) = 2 to the occupier, whose treasury caps.
    assert_eq!(world.countries[1].gold, u64::MAX);
    assert_eq!(world.provinces[0].population, 1999);
    assert_eq!(world.provinces[2].population, 500);
}
