use rustgame::model::{Army, Buildings, GamePhase, Occupied, OwnedBy, Province, TerrainType, World};
use rustgame::occupation::resolve_occupation;

fn province(owner: Option<usize>, occupier: Option<usize>) -> Province {
    Province {
        id: 0,
        terrain: TerrainType::Forest,
        neighbors: vec![],
        population: 0,
        base_growth: 0,
        base_income: 0,
        owned_by: owner.map(|o| OwnedBy { owner: o }),
        occupied: occupier.map(|o| Occupied { occupier: o }),
        buildings: Buildings { farm: false, mine: false, barracks: false },
    }
}

fn army(owner: usize, province: usize) -> Army {
    Army { owner, province, units: 10, pending_move: None, has_acted: false }
}

fn occupations(w: &World) -> Vec<Option<Occupied>> {
    w.provinces.iter().map(|p| p.occupied).collect()
}

#[test]
fn occupation_rules() {
    let mut w = World {
        provinces: vec![
            province(Some(0), Some(3)),
            province(Some(0), Some(3)),
            province(Some(0), None),
            province(None, None),
        ],
        countries: vec![],
        armies: vec![army(0, 1), army(2, 1), army(2, 2), army(1, 2), army(1, 3)],
        player: None,
        phase: GamePhase::Processing,
    };
    resolve_occupation(&mut w);
    assert_eq!(
        occupations(&w),
        vec![Some(Occupied { occupier: 3 }), None, Some(Occupied { occupier: 1 }), None]
    );
}

#[test]
fn second_pass_changes_nothing() {
    let mut w = World {
        provinces: vec![province(Some(0), Some(1)), province(Some(1), None), province(Some(2), Some(0))],
        countries: vec![],
        armies: vec![army(2, 0), army(0, 1), army(2, 2)],
        player: None,
        phase: GamePhase::Processing,
    };
    resolve_occupation(&mut w);
    let first = occupations(&w);
    resolve_occupation(&mut w);
    assert_eq!(occupations(&w), first);
    assert_eq!(first, vec![Some(Occupied { occupier: 2 }), Some(Occupied { occupier: 0 }), None]);
}
