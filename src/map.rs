use vstd::prelude::*;
use crate::model::{Buildings, Country, GamePhase, OwnedBy, Province, Relations, TerrainType, World};

verus! {

/// A province as a map file describes it. Growth is in thousandths per turn.
#[derive(Clone, Copy, Debug, PartialEq, Eq, Structural)]
pub struct ProvinceDef {
    pub id: u32,
    pub terrain: TerrainType,
    pub population: u32,
    pub base_growth: i32,
    pub base_income: u32,
}

/// A country as a definition file describes it.
#[derive(Clone, Debug)]
pub struct CountryDef {
    pub id: u32,
    pub name: String,
    pub color: u32,
    pub gold: u64,
    pub owned_provinces: Vec<u32>,
    pub flag_path: Option<String>,
}

/// Sites `a` and `b` are two distinct corners of triangle `t` of `tris`
/// (three site indices per triangle).
pub open spec fn in_triangle(tris: Seq<usize>, t: int, a: usize, b: usize) -> bool {
    exists|i: int, j: int| 0 <= i < 3 && 0 <= j < 3 && i != j && #[trigger] tris[3 * t + i] == a && #[trigger] tris[3 * t
        + j] == b
}

/// `a` and `b` share one of the first `n` triangles.
pub open spec fn adjacent_within(tris: Seq<usize>, n: int, a: usize, b: usize) -> bool {
    exists|t: int| 0 <= t < n && #[trigger] in_triangle(tris, t, a, b)
}

/// `a` and `b` share a triangle.
pub open spec fn adjacent(tris: Seq<usize>, a: usize, b: usize) -> bool {
    adjacent_within(tris, tris.len() as int / 3, a, b)
}

fn link(adj: &mut Vec<Vec<usize>>, a: usize, b: usize)
    requires
        a < old(adj)@.len(),
    ensures
        final(adj)@.len() == old(adj)@.len(),
        final(adj)@[a as int]@.to_set() == old(adj)@[a as int]@.to_set().insert(b),
        forall|k: int| 0 <= k < old(adj)@.len() && k != a ==> #[trigger] final(adj)@[k] == old(adj)@[k],
{
    let mut found = false;
    let mut k: usize = 0;
    while k < adj[a].len()
        invariant
            a < adj@.len(),
            *adj == *old(adj),
            k <= adj@[a as int]@.len(),
            found == adj@[a as int]@.subrange(0, k as int).contains(b),
        decreases adj@[a as int]@.len() - k,
    {
        proof {
            let pre = adj@[a as int]@.subrange(0, k as int);
            let nxt = adj@[a as int]@.subrange(0, k as int + 1);
            if pre.contains(b) {
                let j = choose|j: int| 0 <= j < pre.len() && #[trigger] pre[j] == b;
                assert(nxt[j] == b);
            }
            if nxt.contains(b) && adj@[a as int]@[k as int] != b {
                let j = choose|j: int| 0 <= j < nxt.len() && #[trigger] nxt[j] == b;
                assert(pre[j] == b);
            }
            if adj@[a as int]@[k as int] == b {
                assert(nxt[k as int] == b);
            }
        }
        if adj[a][k] == b {
            found = true;
        }
        k = k + 1;
    }
    assert(adj@[a as int]@.subrange(0, adj@[a as int]@.len() as int) =~= adj@[a as int]@);
    if !found {
        let ghost before = adj@[a as int]@;
        adj[a].push(b);
        assert(adj@[a as int]@.to_set() =~= before.to_set().insert(b)) by {
            assert forall|x: usize| adj@[a as int]@.to_set().contains(x) <==> before.to_set().insert(b).contains(x) by {
                if adj@[a as int]@.contains(x) && x != b {
                    let j = choose|j: int| 0 <= j < adj@[a as int]@.len() && adj@[a as int]@[j] == x;
                    assert(before[j] == x);
                }
                if before.contains(x) {
                    let j = choose|j: int| 0 <= j < before.len() && before[j] == x;
                    assert(adj@[a as int]@[j] == x);
                }
                if x == b {
                    assert(adj@[a as int]@[before.len() as int] == b);
                }
            }
        }
    } else {
        assert(adj@[a as int]@.to_set() =~= adj@[a as int]@.to_set().insert(b));
    }
}

/// The neighbour sets of `n` sites, read off a triangulation: two sites are
/// neighbours when they are corners of one triangle.
pub fn calculate_neighbors(n: usize, tris: &Vec<usize>) -> (r: Vec<Vec<usize>>)
    requires
        tris@.len() % 3 == 0,
        forall|k: int| 0 <= k < tris@.len() ==> #[trigger] tris@[k] < n,
    ensures
        r@.len() == n,
        forall|a: usize, b: usize| a < n ==> (#[trigger] r@[a as int]@.contains(b) <==> adjacent(tris@, a, b)),
        forall|a: usize, b: usize| a < n && #[trigger] r@[a as int]@.contains(b) ==> b < n && r@[b as int]@.contains(a),
{
    let mut adj: Vec<Vec<usize>> = Vec::new();
    let mut a: usize = 0;
    while a < n
        invariant
            a <= n,
            adj@.len() == a,
            forall|k: int| 0 <= k < a ==> (#[trigger] adj@[k])@.len() == 0,
        decreases n - a,
    {
        adj.push(Vec::new());
        a = a + 1;
    }
    let len = tris.len();
    let nt = len / 3;
    let mut t: usize = 0;
    while t < nt
        invariant
            len == tris@.len(),
            nt == tris@.len() / 3,
            tris@.len() % 3 == 0,
            forall|k: int| 0 <= k < tris@.len() ==> #[trigger] tris@[k] < n,
            t <= nt,
            adj@.len() == n,
            forall|x: usize, y: usize| x < n ==> (#[trigger] adj@[x as int]@.to_set().contains(y) <==> adjacent_within(
                tris@,
                t as int,
                x,
                y,
            )),
        decreases nt - t,
    {
        proof {
            let (ti, l) = (t as int, len as int);
            assert(3 * ti + 2 < l) by (nonlinear_arith)
                requires 0 <= ti < l / 3, l % 3 == 0, l >= 0;
        }
        let x = tris[3 * t];
        let y = tris[3 * t + 1];
        let z = tris[3 * t + 2];
        let ghost before = adj@;
        link(&mut adj, x, y);
        link(&mut adj, x, z);
        link(&mut adj, y, x);
        link(&mut adj, y, z);
        link(&mut adj, z, x);
        link(&mut adj, z, y);
        proof {
            let tr = tris@;
            assert(tr[3 * t as int + 0] == x);
            assert forall|u: usize, v: usize| u < n implies (#[trigger] adj@[u as int]@.to_set().contains(v) <==> adjacent_within(
                tr,
                t as int + 1,
                u,
                v,
            )) by {
                let here = in_triangle(tr, t as int, u, v);
                if here {
                    let (i, j) = choose|i: int, j: int| 0 <= i < 3 && 0 <= j < 3 && i != j && #[trigger] tr[3 * t + i] == u
                        && #[trigger] tr[3 * t + j] == v;
                    assert(adjacent_within(tr, t as int + 1, u, v));
                    assert(adj@[u as int]@.to_set().contains(v));
                }
                if adjacent_within(tr, t as int + 1, u, v) && !adjacent_within(tr, t as int, u, v) {
                    let s = choose|s: int| 0 <= s < t + 1 && #[trigger] in_triangle(tr, s, u, v);
                    assert(s == t);
                }
                if adjacent_within(tr, t as int, u, v) {
                    let s = choose|s: int| 0 <= s < t && #[trigger] in_triangle(tr, s, u, v);
                    assert(adjacent_within(tr, t as int + 1, u, v));
                }
                if adj@[u as int]@.to_set().contains(v) && !before[u as int]@.to_set().contains(v) {
                    assert(here) by {
                        if u == x && v == y {
                            assert(tr[3 * t + 0] == u && tr[3 * t + 1] == v);
                        } else if u == x && v == z {
                            assert(tr[3 * t + 0] == u && tr[3 * t + 2] == v);
                        } else if u == y && v == x {
                            assert(tr[3 * t + 1] == u && tr[3 * t + 0] == v);
                        } else if u == y && v == z {
                            assert(tr[3 * t + 1] == u && tr[3 * t + 2] == v);
                        } else if u == z && v == x {
                            assert(tr[3 * t + 2] == u && tr[3 * t + 0] == v);
                        } else {
                            assert(tr[3 * t + 2] == u && tr[3 * t + 1] == v);
                        }
                    }
                }
            }
        }
        t = t + 1;
    }
    proof {
        assert forall|u: usize, v: usize| u < n implies (#[trigger] adj@[u as int]@.contains(v) <==> adjacent(tris@, u, v)) by {
            assert(adj@[u as int]@.to_set().contains(v) == adj@[u as int]@.contains(v));
        }
        assert forall|u: usize, v: usize| u < n && #[trigger] adj@[u as int]@.contains(v) implies v < n && adj@[v as int]@.contains(u) by {
            let tr = tris@;
            let s = choose|s: int| 0 <= s < tr.len() / 3 && #[trigger] in_triangle(tr, s, u, v);
            let (i, j) = choose|i: int, j: int| 0 <= i < 3 && 0 <= j < 3 && i != j && #[trigger] tr[3 * s + i] == u
                && #[trigger] tr[3 * s + j] == v;
            assert(0 <= 3 * s + j < tr.len()) by (nonlinear_arith)
                requires 0 <= s < tr.len() / 3, 0 <= j < 3;
            assert(in_triangle(tr, s, v, u));
            assert(adj@[v as int]@.to_set().contains(u) == adj@[v as int]@.contains(u));
        }
    }
    adj
}

/// Builds the provinces of a map from their definitions and neighbour sets
/// (one per definition, by position).
pub fn generate_provinces(defs: &Vec<ProvinceDef>, neighbors: Vec<Vec<usize>>) -> (r: Vec<Province>)
    requires
        neighbors@.len() == defs@.len(),
    ensures
        r@.len() == defs@.len(),
        (forall|i: int, k: int| 0 <= i < defs@.len() && 0 <= k < neighbors@[i]@.len() ==> #[trigger] neighbors@[i]@[k]
            < defs@.len()) ==> crate::save::map_wf(r@),
        forall|i: int| 0 <= i < defs@.len() ==> {
            let (p, d) = (#[trigger] r@[i], defs@[i]);
            &&& p.id == d.id
            &&& p.terrain == d.terrain
            &&& p.population == d.population
            &&& p.base_growth == d.base_growth
            &&& p.base_income == d.base_income
            &&& p.owned_by is None
            &&& p.occupied is None
            &&& p.buildings@ == Set::<crate::model::BuildingType>::empty()
            &&& p.neighbors@ == neighbors@[i]@
        },
{
    let ghost all = neighbors@;
    let n = defs.len();
    let mut pending = neighbors;
    let mut rest: Vec<Vec<usize>> = Vec::new();
    while rest.len() < n
        invariant
            n == all.len(),
            pending@.len() + rest@.len() == n,
            pending@ == all.subrange(0, pending@.len() as int),
            forall|k: int| 0 <= k < rest@.len() ==> #[trigger] rest@[k] == all[n - 1 - k],
        decreases n - rest@.len(),
    {
        let ghost before = pending@;
        let v = match pending.pop() {
            Some(v) => v,
            None => Vec::new(),
        };
        proof {
            assert(v == all[n - 1 - rest@.len()]);
            assert(pending@ =~= all.subrange(0, pending@.len() as int));
        }
        rest.push(v);
    }
    let mut out: Vec<Province> = Vec::new();
    while out.len() < n
        invariant
            n == defs@.len(),
            all.len() == n,
            out@.len() <= n,
            rest@.len() == n - out@.len(),
            forall|k: int| 0 <= k < rest@.len() ==> #[trigger] rest@[k] == all[n - 1 - k],
            forall|i: int| 0 <= i < out@.len() ==> {
                let (p, d) = (#[trigger] out@[i], defs@[i]);
                &&& p.id == d.id
                &&& p.terrain == d.terrain
                &&& p.population == d.population
                &&& p.base_growth == d.base_growth
                &&& p.base_income == d.base_income
                &&& p.owned_by is None
                &&& p.occupied is None
                &&& p.buildings@ == Set::<crate::model::BuildingType>::empty()
                &&& p.neighbors@ == all[i]@
            },
        decreases n - out@.len(),
    {
        let i = out.len();
        let d = defs[i];
        let ghost last = rest@.len() - 1;
        let nb = match rest.pop() {
            Some(v) => v,
            None => Vec::new(),
        };
        proof {
            assert(nb@ == all[n - 1 - last]@);
        }
        out.push(
            Province {
                id: d.id,
                terrain: d.terrain,
                neighbors: nb,
                population: d.population,
                base_growth: d.base_growth,
                base_income: d.base_income,
                owned_by: None,
                occupied: None,
                buildings: Buildings::new(),
            },
        );
    }
    out
}

/// The last definition whose list of provinces names `id`.
pub open spec fn def_owner(defs: Seq<CountryDef>, id: u32) -> Option<int>
    decreases defs.len(),
{
    if defs.len() == 0 {
        None
    } else if defs.last().owned_provinces@.contains(id) {
        Some(defs.len() - 1)
    } else {
        def_owner(defs.drop_last(), id)
    }
}

proof fn lemma_def_owner_bound(defs: Seq<CountryDef>, id: u32)
    ensures
        def_owner(defs, id) matches Some(c) ==> 0 <= c < defs.len(),
    decreases defs.len(),
{
    if defs.len() > 0 {
        lemma_def_owner_bound(defs.drop_last(), id);
    }
}

fn lists(list: &Vec<u32>, id: u32) -> (r: bool)
    ensures
        r == list@.contains(id),
{
    let mut k: usize = 0;
    while k < list.len()
        invariant
            k <= list@.len(),
            forall|j: int| 0 <= j < k ==> list@[j] != id,
        decreases list@.len() - k,
    {
        if list[k] == id {
            return true;
        }
        k = k + 1;
    }
    false
}

fn def_owner_exec(defs: &Vec<CountryDef>, id: u32) -> (r: Option<usize>)
    ensures
        match def_owner(defs@, id) {
            None => r is None,
            Some(c) => r == Some(c as usize),
        },
{
    let mut found: Option<usize> = None;
    let mut c: usize = 0;
    while c < defs.len()
        invariant
            c <= defs@.len(),
            match def_owner(defs@.subrange(0, c as int), id) {
                None => found is None,
                Some(k) => found == Some(k as usize),
            },
        decreases defs@.len() - c,
    {
        assert(defs@.subrange(0, c as int + 1).drop_last() =~= defs@.subrange(0, c as int));
        if lists(&defs[c].owned_provinces, id) {
            found = Some(c);
        }
        c = c + 1;
    }
    assert(defs@.subrange(0, defs@.len() as int) =~= defs@);
    found
}

fn clone_path(s: &Option<String>) -> (r: Option<String>)
    ensures
        r == *s,
{
    match s {
        None => None,
        Some(x) => Some(x.clone()),
    }
}

/// A new game on the map `map`: one AI country per definition, at peace with
/// all, owning the provinces its definition lists (a province listed twice
/// goes to the later definition; unknown ids are ignored). No armies, no
/// player country yet.
pub fn initialize_new_game(map: Vec<Province>, defs: &Vec<CountryDef>) -> (w: World)
    requires
        crate::save::map_wf(map@),
    ensures
        w.wf(),
        w.countries@.len() == defs@.len(),
        forall|c: int| 0 <= c < defs@.len() ==> {
            let (x, y) = (#[trigger] w.countries@[c], defs@[c]);
            &&& x.id == y.id
            &&& x.name == y.name
            &&& x.color == y.color
            &&& x.gold == y.gold
            &&& x.flag_path == y.flag_path
            &&& x.ai_controlled
            &&& x.relations.relations@.len() == 0
        },
        w.provinces@ == Seq::new(
            map@.len(),
            |p: int|
                Province {
                    owned_by: match def_owner(defs@, map@[p].id) {
                        None => None,
                        Some(c) => Some(OwnedBy { owner: c as usize }),
                    },
                    occupied: None,
                    ..map@[p]
                },
        ),
        w.armies@.len() == 0,
        w.player is None,
        w.phase == GamePhase::PlayerTurn,
{
    let nc = defs.len();
    let mut countries: Vec<Country> = Vec::new();
    let mut c: usize = 0;
    while c < nc
        invariant
            nc == defs@.len(),
            c <= nc,
            countries@.len() == c,
            forall|k: int| 0 <= k < c ==> {
                let (x, y) = (#[trigger] countries@[k], defs@[k]);
                &&& x.id == y.id
                &&& x.name == y.name
                &&& x.color == y.color
                &&& x.gold == y.gold
                &&& x.flag_path == y.flag_path
                &&& x.ai_controlled
                &&& x.relations.relations@.len() == 0
            },
        decreases nc - c,
    {
        let d = &defs[c];
        countries.push(
            Country {
                id: d.id,
                name: d.name.clone(),
                color: d.color,
                gold: d.gold,
                flag_path: clone_path(&d.flag_path),
                relations: Relations { relations: Vec::new() },
                ai_controlled: true,
            },
        );
        c = c + 1;
    }
    let mut provinces = map;
    let ghost ps = provinces@;
    let np = provinces.len();
    let mut p: usize = 0;
    while p < np
        invariant
            np == ps.len(),
            nc == defs@.len(),
            provinces@.len() == np,
            crate::save::map_wf(ps),
            p <= np,
            forall|k: int| 0 <= k < p ==> #[trigger] provinces@[k] == (Province {
                owned_by: match def_owner(defs@, ps[k].id) {
                    None => None,
                    Some(c) => Some(OwnedBy { owner: c as usize }),
                },
                occupied: None,
                ..ps[k]
            }),
            forall|k: int| p <= k < np ==> #[trigger] provinces@[k] == ps[k],
            forall|k: int| 0 <= k < p ==> crate::model::province_wf(#[trigger] provinces@[k], np as int, nc as int),
        decreases np - p,
    {
        let id = provinces[p].id;
        let owner = def_owner_exec(defs, id);
        proof {
            lemma_def_owner_bound(defs@, id);
        }
        provinces[p].owned_by = match owner {
            None => None,
            Some(c) => Some(OwnedBy { owner: c }),
        };
        provinces[p].occupied = None;
        proof {
            assert forall|k: int| 0 <= k < provinces@[p as int].neighbors@.len() implies #[trigger] provinces@[p as int].neighbors@[k] < np by {
                assert(ps[p as int].neighbors@[k] < ps.len());
            }
        }
        p = p + 1;
    }
    let w = World { provinces, countries, armies: Vec::new(), player: None, phase: GamePhase::PlayerTurn };
    assert(w.provinces@ =~= Seq::new(
        ps.len(),
        |p: int|
            Province {
                owned_by: match def_owner(defs@, ps[p].id) {
                    None => None,
                    Some(c) => Some(OwnedBy { owner: c as usize }),
                },
                occupied: None,
                ..ps[p]
            },
    ));
    w
}

/// A site of the fixed hexagon map: its centre on the ground plane and its
/// terrain.
#[derive(Clone, Copy, Debug, PartialEq, Eq, Structural)]
pub struct HexSite {
    pub id: u32,
    pub x: i32,
    pub z: i32,
    pub terrain: TerrainType,
}

/// The fixed ten-province hexagon map, site `i` having id `i`.
pub open spec fn hex_sites() -> Seq<HexSite> {
    seq![
        HexSite { id: 0, x: 0, z: 0, terrain: TerrainType::City },
        HexSite { id: 1, x: 100, z: 50, terrain: TerrainType::Plains },
        HexSite { id: 2, x: -100i32, z: 50, terrain: TerrainType::Forest },
        HexSite { id: 3, x: 50, z: 150, terrain: TerrainType::Mountains },
        HexSite { id: 4, x: -50i32, z: 150, terrain: TerrainType::Plains },
        HexSite { id: 5, x: 150, z: -50i32, terrain: TerrainType::Forest },
        HexSite { id: 6, x: -150i32, z: -50i32, terrain: TerrainType::Plains },
        HexSite { id: 7, x: 0, z: -150i32, terrain: TerrainType::Mountains },
        HexSite { id: 8, x: 100, z: -150i32, terrain: TerrainType::Plains },
        HexSite { id: 9, x: -100i32, z: -150i32, terrain: TerrainType::Forest },
    ]
}

/// The sites of the fixed hexagon map.
pub fn setup_new_map() -> (r: Vec<HexSite>)
    ensures
        r@ == hex_sites(),
{
    let r = vec![
        HexSite { id: 0, x: 0, z: 0, terrain: TerrainType::City },
        HexSite { id: 1, x: 100, z: 50, terrain: TerrainType::Plains },
        HexSite { id: 2, x: -100i32, z: 50, terrain: TerrainType::Forest },
        HexSite { id: 3, x: 50, z: 150, terrain: TerrainType::Mountains },
        HexSite { id: 4, x: -50i32, z: 150, terrain: TerrainType::Plains },
        HexSite { id: 5, x: 150, z: -50i32, terrain: TerrainType::Forest },
        HexSite { id: 6, x: -150i32, z: -50i32, terrain: TerrainType::Plains },
        HexSite { id: 7, x: 0, z: -150i32, terrain: TerrainType::Mountains },
        HexSite { id: 8, x: 100, z: -150i32, terrain: TerrainType::Plains },
        HexSite { id: 9, x: -100i32, z: -150i32, terrain: TerrainType::Forest },
    ];
    assert(r@ =~= hex_sites());
    r
}

} // verus!
