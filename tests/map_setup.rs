use rustgame::actions::choose_player_country;
use rustgame::map::{calculate_neighbors, generate_provinces, initialize_new_game, setup_new_map, CountryDef, HexSite, ProvinceDef};
use rustgame::model::{OwnedBy, TerrainType};

fn sorted(mut v: Vec<usize>) -> Vec<usize> {
    v.sort();
    v
}

#[test]
fn triangles_make_neighbours() {
    let n = calculate_neighbors(5, &vec![0, 1, 2, 1, 2, 3]);
    assert_eq!(n.len(), 5);
    assert_eq!(sorted(n[0].clone()), vec![1, 2]);
    assert_eq!(sorted(n[1].clone()), vec![0, 2, 3]);
    assert_eq!(sorted(n[2].clone()), vec![0, 1, 3]);
    assert_eq!(sorted(n[3].clone()), vec![1, 2]);
    assert!(n[4].is_empty());
}

fn defs() -> Vec<ProvinceDef> {
    vec![
        ProvinceDef { id: 10, terrain: TerrainType::Plains, population: 100, base_growth: 5, base_income: 3 },
        ProvinceDef { id: 11, terrain: TerrainType::Water, population: 0, base_growth: 0, base_income: 0 },
        ProvinceDef { id: 12, terrain: TerrainType::City, population: 900, base_growth: 2, base_income: 9 },
    ]
}

#[test]
fn provinces_follow_their_definitions() {
    let ps = generate_provinces(&defs(), vec![vec![1], vec![0, 2], vec![1]]);
    assert_eq!(ps.len(), 3);
    assert_eq!(ps[2].id, 12);
    assert_eq!(ps[2].population, 900);
    assert_eq!(ps[1].terrain, TerrainType::Water);
    assert_eq!(ps[1].neighbors, vec![0, 2]);
    assert_eq!(ps[0].owned_by, None);
}

#[test]
fn new_game_assigns_listed_provinces() {
    let ps = generate_provinces(&defs(), vec![vec![1], vec![0, 2], vec![1]]);
    let countries = vec![
        CountryDef { id: 1, name: String::from("A"), color: 1, gold: 50, owned_provinces: vec![10, 11], flag_path: None },
        CountryDef { id: 2, name: String::from("B"), color: 2, gold: 70, owned_provinces: vec![11, 99], flag_path: None },
    ];
    let mut w = initialize_new_game(ps, &countries);
    assert_eq!(w.provinces[0].owned_by, Some(OwnedBy { owner: 0 }));
    assert_eq!(w.provinces[1].owned_by, Some(OwnedBy { owner: 1 }));
    assert_eq!(w.provinces[2].owned_by, None);
    assert_eq!(w.countries[1].gold, 70);
    assert!(w.countries[0].ai_controlled && w.countries[1].ai_controlled);
    assert!(w.armies.is_empty());
    choose_player_country(&mut w, 1);
    assert_eq!(w.player, Some(1));
    assert!(!w.countries[1].ai_controlled);
    assert!(w.countries[0].ai_controlled);
}

#[test]
fn hexagon_map_layout() {
    let sites = setup_new_map();
    assert_eq!(sites.len(), 10);
    assert_eq!(sites[0], HexSite { id: 0, x: 0, z: 0, terrain: TerrainType::City });
    assert_eq!(sites[3], HexSite { id: 3, x: 50, z: 150, terrain: TerrainType::Mountains });
    assert_eq!(sites[9], HexSite { id: 9, x: -100, z: -150, terrain: TerrainType::Forest });
}
