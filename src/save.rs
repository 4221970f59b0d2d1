use vstd::prelude::*;
use crate::model::{
    Army, Country, GamePhase, Occupied, OwnedBy, Province, Relation, Relations, World, indices_where,
    lemma_indices_where_bound, relation_in,
};

verus! {

/// What a save records of one country. Relations are keyed by the other
/// country's id.
#[derive(Clone, Debug)]
pub struct CountrySaveData {
    pub id: u32,
    pub name: String,
    pub color: u32,
    pub gold: u64,
    pub owned_provinces: Vec<u32>,
    pub flag_path: Option<String>,
    pub relations: Vec<(u32, Relation)>,
}

/// What a save records of one army.
#[derive(Clone, Copy, Debug, PartialEq, Eq, Structural)]
pub struct ArmySaveData {
    pub owner_id: u32,
    pub province_id: u32,
    pub units: u32,
}

/// A province held by a country other than its owner.
#[derive(Clone, Copy, Debug, PartialEq, Eq, Structural)]
pub struct OccupiedData {
    pub province_id: u32,
    pub occupier_id: u32,
}

/// A whole saved game, in terms of stable ids rather than handles.
#[derive(Clone, Debug)]
pub struct SaveData {
    pub countries: Vec<CountrySaveData>,
    pub armies: Vec<ArmySaveData>,
    pub occupied_provinces: Vec<OccupiedData>,
    pub player_country_id: Option<u32>,
}

/// Why a save could not be loaded: it refers to an id that does not exist,
/// or gives one id to two countries.
#[derive(Clone, Copy, Debug, PartialEq, Eq, Structural)]
pub enum SaveLoadError {
    UnknownCountry(u32),
    UnknownProvince(u32),
    /// Two countries of the save share this id.
    DuplicateCountry(u32),
}

/// Ids of the provinces that country `c` owns, in province order.
pub open spec fn owned_ids(provs: Seq<Province>, c: usize) -> Seq<u32> {
    indices_where(provs.len() as int, owned_test(provs, c)).map_values(|i: usize| provs[i as int].id)
}

pub open spec fn owned_test(provs: Seq<Province>, c: usize) -> spec_fn(int) -> bool {
    |i: int| provs[i].owned_by == Some(OwnedBy { owner: c })
}

pub open spec fn occupied_test(provs: Seq<Province>) -> spec_fn(int) -> bool {
    |i: int| provs[i].occupied is Some
}

/// The relation entries saved for country `c`: one per known country.
pub open spec fn relation_entries(w: World, c: int) -> Seq<(u32, Relation)> {
    let rels = w.countries@[c].relations.relations@;
    let m = if rels.len() < w.countries@.len() { rels.len() } else { w.countries@.len() };
    Seq::new(m, |d: int| (w.countries@[d].id, rels[d]))
}

/// The saved form of army `a`.
pub open spec fn saved_army(w: World, a: Army) -> ArmySaveData {
    ArmySaveData {
        owner_id: w.countries@[a.owner as int].id,
        province_id: w.provinces@[a.province as int].id,
        units: a.units,
    }
}

/// The saved occupation markers, in province order.
pub open spec fn occupied_entries(w: World) -> Seq<OccupiedData> {
    indices_where(w.provinces@.len() as int, occupied_test(w.provinces@)).map_values(
        |i: usize|
            OccupiedData {
                province_id: w.provinces@[i as int].id,
                occupier_id: w.countries@[w.provinces@[i as int].occupied.unwrap().occupier as int].id,
            },
    )
}

/// `s` records world `w`.
pub open spec fn saved(w: World, s: SaveData) -> bool {
    &&& s.countries@.len() == w.countries@.len()
    &&& forall|c: int| 0 <= c < w.countries@.len() ==> {
        let (x, y) = (#[trigger] s.countries@[c], w.countries@[c]);
        &&& x.id == y.id
        &&& x.name == y.name
        &&& x.color == y.color
        &&& x.gold == y.gold
        &&& x.flag_path == y.flag_path
        &&& x.owned_provinces@ == owned_ids(w.provinces@, c as usize)
        &&& x.relations@ == relation_entries(w, c)
    }
    &&& s.armies@ == w.armies@.map_values(|a: Army| saved_army(w, a))
    &&& s.occupied_provinces@ == occupied_entries(w)
    &&& s.player_country_id == match w.player {
        None => None,
        Some(c) => Some(w.countries@[c as int].id),
    }
}

fn clone_name(s: &Option<String>) -> (r: Option<String>)
    ensures
        r == *s,
{
    match s {
        None => None,
        Some(x) => Some(x.clone()),
    }
}

fn owned_ids_exec(world: &World, c: usize) -> (r: Vec<u32>)
    ensures
        r@ == owned_ids(world.provinces@, c),
{
    let ghost provs = world.provinces@;
    let mut r: Vec<u32> = Vec::new();
    let mut i: usize = 0;
    while i < world.provinces.len()
        invariant
            provs == world.provinces@,
            i <= provs.len(),
            r@ == indices_where(i as int, owned_test(provs, c)).map_values(|k: usize| provs[k as int].id),
        decreases provs.len() - i,
    {
        if world.provinces[i].owned_by == Some(OwnedBy { owner: c }) {
            r.push(world.provinces[i].id);
        }
        assert(indices_where(i as int + 1, owned_test(provs, c)).map_values(|k: usize| provs[k as int].id) =~= r@);
        i = i + 1;
    }
    r
}

fn relation_entries_exec(world: &World, c: usize) -> (r: Vec<(u32, Relation)>)
    requires
        c < world.countries@.len(),
    ensures
        r@ == relation_entries(*world, c as int),
{
    let rels = &world.countries[c].relations.relations;
    let m = if rels.len() < world.countries.len() {
        rels.len()
    } else {
        world.countries.len()
    };
    let mut r: Vec<(u32, Relation)> = Vec::new();
    let mut d: usize = 0;
    while d < m
        invariant
            d <= m,
            m <= rels@.len(),
            m <= world.countries@.len(),
            *rels == world.countries@[c as int].relations.relations,
            r@ == Seq::new(d as nat, |k: int| (world.countries@[k].id, rels@[k])),
        decreases m - d,
    {
        r.push((world.countries[d].id, rels[d]));
        assert(r@ =~= Seq::new(d as nat + 1, |k: int| (world.countries@[k].id, rels@[k])));
        d = d + 1;
    }
    assert(r@ =~= relation_entries(*world, c as int));
    r
}

/// Records the world in terms of ids.
pub fn save_game(world: &World) -> (s: SaveData)
    requires
        world.wf(),
    ensures
        saved(*world, s),
{
    let nc = world.countries.len();
    let mut countries: Vec<CountrySaveData> = Vec::new();
    let mut c: usize = 0;
    while c < nc
        invariant
            nc == world.countries@.len(),
            c <= nc,
            countries@.len() == c,
            forall|k: int| 0 <= k < c ==> {
                let (x, y) = (#[trigger] countries@[k], world.countries@[k]);
                &&& x.id == y.id
                &&& x.name == y.name
                &&& x.color == y.color
                &&& x.gold == y.gold
                &&& x.flag_path == y.flag_path
                &&& x.owned_provinces@ == owned_ids(world.provinces@, k as usize)
                &&& x.relations@ == relation_entries(*world, k)
            },
        decreases nc - c,
    {
        let country = &world.countries[c];
        countries.push(
            CountrySaveData {
                id: country.id,
                name: country.name.clone(),
                color: country.color,
                gold: country.gold,
                owned_provinces: owned_ids_exec(world, c),
                flag_path: clone_name(&country.flag_path),
                relations: relation_entries_exec(world, c),
            },
        );
        c = c + 1;
    }
    let mut armies: Vec<ArmySaveData> = Vec::new();
    let mut i: usize = 0;
    while i < world.armies.len()
        invariant
            world.wf(),
            i <= world.armies@.len(),
            armies@ == world.armies@.subrange(0, i as int).map_values(|a: Army| saved_army(*world, a)),
        decreases world.armies@.len() - i,
    {
        let a = world.armies[i];
        proof {
            assert(crate::model::army_wf(a, world.provinces@.len() as int, world.countries@.len() as int));
        }
        armies.push(
            ArmySaveData {
                owner_id: world.countries[a.owner].id,
                province_id: world.provinces[a.province].id,
                units: a.units,
            },
        );
        assert(armies@ =~= world.armies@.subrange(0, i as int + 1).map_values(|a: Army| saved_army(*world, a)));
        i = i + 1;
    }
    assert(world.armies@.subrange(0, world.armies@.len() as int) =~= world.armies@);
    let ghost provs = world.provinces@;
    let mut occupied: Vec<OccupiedData> = Vec::new();
    let mut p: usize = 0;
    while p < world.provinces.len()
        invariant
            world.wf(),
            provs == world.provinces@,
            p <= provs.len(),
            occupied@ == indices_where(p as int, occupied_test(provs)).map_values(
                |i: usize|
                    OccupiedData {
                        province_id: provs[i as int].id,
                        occupier_id: world.countries@[provs[i as int].occupied.unwrap().occupier as int].id,
                    },
            ),
        decreases provs.len() - p,
    {
        proof {
            assert(crate::model::province_wf(provs[p as int], provs.len() as int, world.countries@.len() as int));
        }
        if let Some(o) = world.provinces[p].occupied {
            occupied.push(OccupiedData { province_id: world.provinces[p].id, occupier_id: world.countries[o.occupier].id });
        }
        assert(indices_where(p as int + 1, occupied_test(provs)).map_values(
            |i: usize|
                OccupiedData {
                    province_id: provs[i as int].id,
                    occupier_id: world.countries@[provs[i as int].occupied.unwrap().occupier as int].id,
                },
        ) =~= occupied@);
        p = p + 1;
    }
    let player_country_id = match world.player {
        None => None,
        Some(c) => Some(world.countries[c].id),
    };
    SaveData { countries, armies, occupied_provinces: occupied, player_country_id }
}

/// Ids of the countries of a save, in order.
pub open spec fn country_ids(s: SaveData) -> Seq<u32> {
    s.countries@.map_values(|c: CountrySaveData| c.id)
}

/// Ids of the provinces of a map, in order.
pub open spec fn province_ids(ps: Seq<Province>) -> Seq<u32> {
    ps.map_values(|p: Province| p.id)
}

/// Position of the last occurrence of `id` in `ids`.
pub open spec fn last_index(ids: Seq<u32>, id: u32) -> Option<int>
    decreases ids.len(),
{
    if ids.len() == 0 {
        None
    } else if ids.last() == id {
        Some(ids.len() - 1)
    } else {
        last_index(ids.drop_last(), id)
    }
}

/// The last country whose list of owned provinces names `id`.
pub open spec fn owner_claim(cs: Seq<CountrySaveData>, id: u32) -> Option<int>
    decreases cs.len(),
{
    if cs.len() == 0 {
        None
    } else if cs.last().owned_provinces@.contains(id) {
        Some(cs.len() - 1)
    } else {
        owner_claim(cs.drop_last(), id)
    }
}

/// The occupier id of the last occupation entry for province `id`.
pub open spec fn occupier_claim(os: Seq<OccupiedData>, id: u32) -> Option<u32>
    decreases os.len(),
{
    if os.len() == 0 {
        None
    } else if os.last().province_id == id {
        Some(os.last().occupier_id)
    } else {
        occupier_claim(os.drop_last(), id)
    }
}

/// The relation of the last entry for country `id`; peace if there is none.
pub open spec fn relation_claim(es: Seq<(u32, Relation)>, id: u32) -> Relation
    decreases es.len(),
{
    if es.len() == 0 {
        Relation::Peace
    } else if es.last().0 == id {
        es.last().1
    } else {
        relation_claim(es.drop_last(), id)
    }
}

/// The countries of `s` have distinct ids, and every id that `s` refers to
/// exists: provinces on the map `ps`, countries in the save itself. (Relations naming unknown countries are ignored.)
pub open spec fn save_consistent(ps: Seq<Province>, s: SaveData) -> bool {
    &&& country_ids_distinct(s)
    &&& forall|c: int, k: int| 0 <= c < s.countries@.len() && 0 <= k < s.countries@[c].owned_provinces@.len()
        ==> province_ids(ps).contains(#[trigger] s.countries@[c].owned_provinces@[k])
    &&& forall|i: int| 0 <= i < s.armies@.len() ==> country_ids(s).contains(#[trigger] s.armies@[i].owner_id)
        && province_ids(ps).contains(s.armies@[i].province_id)
    &&& forall|i: int| 0 <= i < s.occupied_provinces@.len() ==> province_ids(ps).contains(
        #[trigger] s.occupied_provinces@[i].province_id,
    ) && country_ids(s).contains(s.occupied_provinces@[i].occupier_id)
}

/// No two countries of `s` share an id.
pub open spec fn country_ids_distinct(s: SaveData) -> bool {
    forall|i: int, j: int| 0 <= i < j < country_ids(s).len() ==> #[trigger] country_ids(s)[i] != #[trigger] country_ids(s)[j]
}

/// Handle of the country with id `id` in `s`.
pub open spec fn country_handle(s: SaveData, id: u32) -> usize {
    last_index(country_ids(s), id).unwrap() as usize
}

/// Province `p` of the map once the save's ownership and occupation apply.
pub open spec fn loaded_province(ps: Seq<Province>, s: SaveData, p: int) -> Province {
    Province {
        owned_by: match owner_claim(s.countries@, ps[p].id) {
            None => None,
            Some(c) => Some(OwnedBy { owner: c as usize }),
        },
        occupied: match occupier_claim(s.occupied_provinces@, ps[p].id) {
            None => None,
            Some(oid) => Some(Occupied { occupier: country_handle(s, oid) }),
        },
        ..ps[p]
    }
}

/// Army `i` of the save, placed by handles.
pub open spec fn loaded_army(ps: Seq<Province>, s: SaveData, a: ArmySaveData) -> Army {
    Army {
        owner: country_handle(s, a.owner_id),
        province: last_index(province_ids(ps), a.province_id).unwrap() as usize,
        units: a.units,
        pending_move: None,
        has_acted: false,
    }
}

/// `w` is the world that loading `s` onto the map `ps` builds.
pub open spec fn loaded(ps: Seq<Province>, s: SaveData, w: World) -> bool {
    &&& w.provinces@ == Seq::new(ps.len(), |p: int| loaded_province(ps, s, p))
    &&& w.countries@.len() == s.countries@.len()
    &&& forall|c: int| 0 <= c < s.countries@.len() ==> {
        let (x, y) = (#[trigger] w.countries@[c], s.countries@[c]);
        &&& x.id == y.id
        &&& x.name == y.name
        &&& x.color == y.color
        &&& x.gold == y.gold
        &&& x.flag_path == y.flag_path
        &&& x.ai_controlled == (w.player != Some(c as usize))
        &&& x.relations.relations@ == Seq::new(
            s.countries@.len(),
            |d: int| relation_claim(y.relations@, s.countries@[d].id),
        )
    }
    &&& w.armies@ == s.armies@.map_values(|a: ArmySaveData| loaded_army(ps, s, a))
    &&& w.player == match s.player_country_id {
        None => None,
        Some(id) => match last_index(country_ids(s), id) {
            None => None,
            Some(c) => Some(c as usize),
        },
    }
    &&& w.phase == GamePhase::PlayerTurn
}

/// The neighbours listed on a map all exist.
pub open spec fn map_wf(ps: Seq<Province>) -> bool {
    forall|i: int, k: int| 0 <= i < ps.len() && 0 <= k < ps[i].neighbors@.len() ==> #[trigger] ps[i].neighbors@[k]
        < ps.len()
}

fn find_id(ids: &Vec<u32>, id: u32) -> (r: Option<usize>)
    ensures
        match last_index(ids@, id) {
            None => r is None,
            Some(k) => r == Some(k as usize),
        },
        r is Some <==> ids@.contains(id),
        r matches Some(k) ==> k < ids@.len(),
{
    let mut found: Option<usize> = None;
    let mut i: usize = 0;
    while i < ids.len()
        invariant
            i <= ids@.len(),
            match last_index(ids@.subrange(0, i as int), id) {
                None => found is None,
                Some(k) => found == Some(k as usize),
            },
            found is Some <==> ids@.subrange(0, i as int).contains(id),
            found matches Some(k) ==> k < i,
        decreases ids@.len() - i,
    {
        proof {
            assert(ids@.subrange(0, i as int + 1).drop_last() =~= ids@.subrange(0, i as int));
            let pre = ids@.subrange(0, i as int);
            let nxt = ids@.subrange(0, i as int + 1);
            if pre.contains(id) {
                let k = choose|k: int| 0 <= k < pre.len() && #[trigger] pre[k] == id;
                assert(nxt[k] == id);
            }
            if nxt.contains(id) && ids[i as int] != id {
                let k = choose|k: int| 0 <= k < nxt.len() && #[trigger] nxt[k] == id;
                assert(pre[k] == id);
            }
        }
        if ids[i] == id {
            found = Some(i);
            assert(ids@.subrange(0, i as int + 1)[i as int] == id);
        }
        i = i + 1;
    }
    assert(ids@.subrange(0, ids@.len() as int) =~= ids@);
    found
}

fn owner_claim_exec(cs: &Vec<CountrySaveData>, id: u32) -> (r: Option<usize>)
    ensures
        match owner_claim(cs@, id) {
            None => r is None,
            Some(c) => r == Some(c as usize),
        },
{
    let mut found: Option<usize> = None;
    let mut c: usize = 0;
    while c < cs.len()
        invariant
            c <= cs@.len(),
            match owner_claim(cs@.subrange(0, c as int), id) {
                None => found is None,
                Some(k) => found == Some(k as usize),
            },
        decreases cs@.len() - c,
    {
        proof {
            assert(cs@.subrange(0, c as int + 1).drop_last() =~= cs@.subrange(0, c as int));
        }
        let list = &cs[c].owned_provinces;
        let mut hit = false;
        let mut k: usize = 0;
        while k < list.len()
            invariant
                k <= list@.len(),
                hit == list@.subrange(0, k as int).contains(id),
            decreases list@.len() - k,
        {
            proof {
                let pre = list@.subrange(0, k as int);
                let nxt = list@.subrange(0, k as int + 1);
                if pre.contains(id) {
                    let j = choose|j: int| 0 <= j < pre.len() && #[trigger] pre[j] == id;
                    assert(nxt[j] == id);
                }
                if nxt.contains(id) && list[k as int] != id {
                    let j = choose|j: int| 0 <= j < nxt.len() && #[trigger] nxt[j] == id;
                    assert(pre[j] == id);
                }
                if list[k as int] == id {
                    assert(list@.subrange(0, k as int + 1)[k as int] == id);
                }
            }
            if list[k] == id {
                hit = true;
            }
            k = k + 1;
        }
        assert(list@.subrange(0, list@.len() as int) =~= list@);
        if hit {
            found = Some(c);
        }
        c = c + 1;
    }
    assert(cs@.subrange(0, cs@.len() as int) =~= cs@);
    found
}

fn occupier_claim_exec(os: &Vec<OccupiedData>, id: u32) -> (r: Option<u32>)
    ensures
        r == occupier_claim(os@, id),
{
    let mut found: Option<u32> = None;
    let mut i: usize = 0;
    while i < os.len()
        invariant
            i <= os@.len(),
            found == occupier_claim(os@.subrange(0, i as int), id),
        decreases os@.len() - i,
    {
        assert(os@.subrange(0, i as int + 1).drop_last() =~= os@.subrange(0, i as int));
        if os[i].province_id == id {
            found = Some(os[i].occupier_id);
        }
        i = i + 1;
    }
    assert(os@.subrange(0, os@.len() as int) =~= os@);
    found
}

fn relation_claim_exec(es: &Vec<(u32, Relation)>, id: u32) -> (r: Relation)
    ensures
        r == relation_claim(es@, id),
{
    let mut found = Relation::Peace;
    let mut i: usize = 0;
    while i < es.len()
        invariant
            i <= es@.len(),
            found == relation_claim(es@.subrange(0, i as int), id),
        decreases es@.len() - i,
    {
        assert(es@.subrange(0, i as int + 1).drop_last() =~= es@.subrange(0, i as int));
        if es[i].0 == id {
            found = es[i].1;
        }
        i = i + 1;
    }
    assert(es@.subrange(0, es@.len() as int) =~= es@);
    found
}

proof fn lemma_owner_claim_bound(cs: Seq<CountrySaveData>, id: u32)
    ensures
        owner_claim(cs, id) matches Some(c) ==> 0 <= c < cs.len(),
    decreases cs.len(),
{
    if cs.len() > 0 {
        lemma_owner_claim_bound(cs.drop_last(), id);
    }
}

fn ids_of_countries(save: &SaveData) -> (r: Vec<u32>)
    ensures
        r@ == country_ids(*save),
{
    let mut r: Vec<u32> = Vec::new();
    let mut c: usize = 0;
    while c < save.countries.len()
        invariant
            c <= save.countries@.len(),
            r@ == save.countries@.subrange(0, c as int).map_values(|x: CountrySaveData| x.id),
        decreases save.countries@.len() - c,
    {
        r.push(save.countries[c].id);
        assert(r@ =~= save.countries@.subrange(0, c as int + 1).map_values(|x: CountrySaveData| x.id));
        c = c + 1;
    }
    assert(save.countries@.subrange(0, save.countries@.len() as int) =~= save.countries@);
    r
}

fn ids_of_provinces(map: &Vec<Province>) -> (r: Vec<u32>)
    ensures
        r@ == province_ids(map@),
{
    let mut r: Vec<u32> = Vec::new();
    let mut p: usize = 0;
    while p < map.len()
        invariant
            p <= map@.len(),
            r@ == map@.subrange(0, p as int).map_values(|x: Province| x.id),
        decreases map@.len() - p,
    {
        r.push(map[p].id);
        assert(r@ =~= map@.subrange(0, p as int + 1).map_values(|x: Province| x.id));
        p = p + 1;
    }
    assert(map@.subrange(0, map@.len() as int) =~= map@);
    r
}

/// Rebuilds a world from the map `map` and a save. Every province, country
/// and army id the save refers to must exist; otherwise nothing is built and
/// the error names a missing id.
pub fn load_and_apply_save(map: Vec<Province>, save: &SaveData) -> (r: Result<World, SaveLoadError>)
    requires
        map_wf(map@),
    ensures
        r is Ok <==> save_consistent(map@, *save),
        r matches Ok(w) ==> loaded(map@, *save, w) && w.wf(),
        r matches Err(SaveLoadError::UnknownCountry(id)) ==> !country_ids(*save).contains(id),
        r matches Err(SaveLoadError::UnknownProvince(id)) ==> !province_ids(map@).contains(id),
        r matches Err(SaveLoadError::DuplicateCountry(id)) ==> exists|i: int, j: int|
            0 <= i < j < country_ids(*save).len() && #[trigger] country_ids(*save)[i] == id && #[trigger] country_ids(*save)[j]
                == id,
{
    let cids = ids_of_countries(save);
    let pids = ids_of_provinces(&map);
    let nc = save.countries.len();
    let np = map.len();
    // Country ids are distinct.
    let mut a: usize = 0;
    while a < nc
        invariant
            nc == cids@.len(),
            cids@ == country_ids(*save),
            a <= nc,
            forall|x: int, y: int| 0 <= x < y < nc && x < a ==> #[trigger] cids@[x] != #[trigger] cids@[y],
        decreases nc - a,
    {
        let mut b: usize = a + 1;
        while b < nc
            invariant
                nc == cids@.len(),
                cids@ == country_ids(*save),
                a < nc,
                a + 1 <= b <= nc,
                forall|x: int, y: int| 0 <= x < y < nc && x < a ==> #[trigger] cids@[x] != #[trigger] cids@[y],
                forall|y: int| a < y < b ==> cids@[a as int] != #[trigger] cids@[y],
            decreases nc - b,
        {
            if cids[a] == cids[b] {
                assert(country_ids(*save)[a as int] == cids@[a as int] && country_ids(*save)[b as int] == cids@[a as int]);
                return Err(SaveLoadError::DuplicateCountry(cids[a]));
            }
            b = b + 1;
        }
        a = a + 1;
    }
    assert(country_ids_distinct(*save));
    // Every owned province exists.
    let mut c: usize = 0;
    while c < nc
        invariant
            nc == save.countries@.len(),
            pids@ == province_ids(map@),
            country_ids_distinct(*save),
            c <= nc,
            forall|c2: int, k: int| 0 <= c2 < c && 0 <= k < save.countries@[c2].owned_provinces@.len()
                ==> province_ids(map@).contains(#[trigger] save.countries@[c2].owned_provinces@[k]),
        decreases nc - c,
    {
        let list = &save.countries[c].owned_provinces;
        let mut k: usize = 0;
        while k < list.len()
            invariant
                nc == save.countries@.len(),
                c < nc,
                *list == save.countries@[c as int].owned_provinces,
                pids@ == province_ids(map@),
                country_ids_distinct(*save),
            country_ids_distinct(*save),
                k <= list@.len(),
                forall|c2: int, k2: int| 0 <= c2 < c && 0 <= k2 < save.countries@[c2].owned_provinces@.len()
                    ==> province_ids(map@).contains(#[trigger] save.countries@[c2].owned_provinces@[k2]),
                forall|k2: int| 0 <= k2 < k ==> province_ids(map@).contains(#[trigger] list@[k2]),
            decreases list@.len() - k,
        {
            if find_id(&pids, list[k]).is_none() {
                return Err(SaveLoadError::UnknownProvince(list[k]));
            }
            k = k + 1;
        }
        c = c + 1;
    }
    // Armies, placed by handles.
    let mut armies: Vec<Army> = Vec::new();
    let mut i: usize = 0;
    while i < save.armies.len()
        invariant
            cids@ == country_ids(*save),
            pids@ == province_ids(map@),
            country_ids_distinct(*save),
            nc == save.countries@.len(),
            np == map@.len(),
            i <= save.armies@.len(),
            forall|c2: int, k: int| 0 <= c2 < nc && 0 <= k < save.countries@[c2].owned_provinces@.len()
                ==> province_ids(map@).contains(#[trigger] save.countries@[c2].owned_provinces@[k]),
            forall|k: int| 0 <= k < i ==> country_ids(*save).contains(#[trigger] save.armies@[k].owner_id)
                && province_ids(map@).contains(save.armies@[k].province_id),
            armies@ == save.armies@.subrange(0, i as int).map_values(|a: ArmySaveData| loaded_army(map@, *save, a)),
            crate::model::armies_wf(armies@, np as int, nc as int),
        decreases save.armies@.len() - i,
    {
        let a = save.armies[i];
        let owner = match find_id(&cids, a.owner_id) {
            None => {
                return Err(SaveLoadError::UnknownCountry(a.owner_id));
            },
            Some(o) => o,
        };
        let province = match find_id(&pids, a.province_id) {
            None => {
                return Err(SaveLoadError::UnknownProvince(a.province_id));
            },
            Some(p) => p,
        };
        assert(country_ids(*save).contains(save.armies@[i as int].owner_id) && province_ids(map@).contains(
            save.armies@[i as int].province_id,
        ));
        armies.push(Army { owner, province, units: a.units, pending_move: None, has_acted: false });
        assert(armies@ =~= save.armies@.subrange(0, i as int + 1).map_values(
            |a: ArmySaveData| loaded_army(map@, *save, a),
        ));
        assert forall|k: int| 0 <= k < i + 1 implies country_ids(*save).contains(#[trigger] save.armies@[k].owner_id)
            && province_ids(map@).contains(save.armies@[k].province_id) by {
            if k < i {
                assert(country_ids(*save).contains(save.armies@[k].owner_id));
            }
        }
        i = i + 1;
    }
    assert(save.armies@.subrange(0, save.armies@.len() as int) =~= save.armies@);
    // Occupations refer to existing provinces and countries.
    let mut i: usize = 0;
    while i < save.occupied_provinces.len()
        invariant
            cids@ == country_ids(*save),
            pids@ == province_ids(map@),
            country_ids_distinct(*save),
            i <= save.occupied_provinces@.len(),
            forall|k: int| 0 <= k < i ==> province_ids(map@).contains(#[trigger] save.occupied_provinces@[k].province_id)
                && country_ids(*save).contains(save.occupied_provinces@[k].occupier_id),
        decreases save.occupied_provinces@.len() - i,
    {
        let o = save.occupied_provinces[i];
        if find_id(&pids, o.province_id).is_none() {
            return Err(SaveLoadError::UnknownProvince(o.province_id));
        }
        if find_id(&cids, o.occupier_id).is_none() {
            return Err(SaveLoadError::UnknownCountry(o.occupier_id));
        }
        assert forall|k: int| 0 <= k < i + 1 implies province_ids(map@).contains(
            #[trigger] save.occupied_provinces@[k].province_id,
        ) && country_ids(*save).contains(save.occupied_provinces@[k].occupier_id) by {
            if k < i {
                assert(province_ids(map@).contains(save.occupied_provinces@[k].province_id));
            }
        }
        i = i + 1;
    }
    proof {
        assert(save_consistent(map@, *save));
    }
    // The player's country: the one its id names (the last, were it listed twice).
    let player = match save.player_country_id {
        None => None,
        Some(id) => find_id(&cids, id),
    };
    // Countries; only the player's is not AI-controlled.
    let mut countries: Vec<Country> = Vec::new();
    let mut c: usize = 0;
    while c < nc
        invariant
            nc == save.countries@.len(),
            c <= nc,
            countries@.len() == c,
            forall|k: int| 0 <= k < c ==> {
                let (x, y) = (#[trigger] countries@[k], save.countries@[k]);
                &&& x.id == y.id
                &&& x.name == y.name
                &&& x.color == y.color
                &&& x.gold == y.gold
                &&& x.flag_path == y.flag_path
                &&& x.ai_controlled == (player != Some(k as usize))
                &&& x.relations.relations@ == Seq::new(
                    save.countries@.len(),
                    |d: int| relation_claim(y.relations@, save.countries@[d].id),
                )
            },
        decreases nc - c,
    {
        let data = &save.countries[c];
        let mut rels: Vec<Relation> = Vec::new();
        let mut d: usize = 0;
        while d < nc
            invariant
                nc == save.countries@.len(),
                c < nc,
                *data == save.countries@[c as int],
                d <= nc,
                rels@ == Seq::new(d as nat, |k: int| relation_claim(data.relations@, save.countries@[k].id)),
            decreases nc - d,
        {
            rels.push(relation_claim_exec(&data.relations, save.countries[d].id));
            assert(rels@ =~= Seq::new(d as nat + 1, |k: int| relation_claim(data.relations@, save.countries@[k].id)));
            d = d + 1;
        }
        let ai_controlled = match player {
            Some(k) => k != c,
            None => true,
        };
        countries.push(
            Country {
                id: data.id,
                name: data.name.clone(),
                color: data.color,
                gold: data.gold,
                flag_path: clone_name(&data.flag_path),
                relations: Relations { relations: rels },
                ai_controlled,
            },
        );
        c = c + 1;
    }
    // Provinces: ownership and occupation from the save.
    let mut provinces = map;
    let ghost ps = provinces@;
    let mut p: usize = 0;
    while p < np
        invariant
            np == ps.len(),
            nc == save.countries@.len(),
            provinces@.len() == np,
            cids@ == country_ids(*save),
            map_wf(ps),
            save_consistent(ps, *save),
            p <= np,
            forall|k: int| 0 <= k < p ==> #[trigger] provinces@[k] == loaded_province(ps, *save, k),
            forall|k: int| p <= k < np ==> #[trigger] provinces@[k] == ps[k],
            forall|k: int| 0 <= k < p ==> crate::model::province_wf(#[trigger] provinces@[k], np as int, nc as int),
        decreases np - p,
    {
        let id = provinces[p].id;
        let owner = owner_claim_exec(&save.countries, id);
        proof {
            lemma_owner_claim_bound(save.countries@, id);
        }
        let owned_by = match owner {
            None => None,
            Some(c) => Some(OwnedBy { owner: c }),
        };
        let occupied = match occupier_claim_exec(&save.occupied_provinces, id) {
            None => None,
            Some(oid) => {
                proof {
                    lemma_occupier_claim_member(save.occupied_provinces@, id);
                }
                match find_id(&cids, oid) {
                    Some(k) => Some(Occupied { occupier: k }),
                    None => None,
                }
            },
        };
        provinces[p].owned_by = owned_by;
        provinces[p].occupied = occupied;
        proof {
            assert(provinces@[p as int] == loaded_province(ps, *save, p as int));
            assert forall|k: int| 0 <= k < provinces@[p as int].neighbors@.len() implies #[trigger] provinces@[p as int].neighbors@[k] < np by {
                assert(ps[p as int].neighbors@[k] < ps.len());
            }
        }
        p = p + 1;
    }
    let world = World { provinces, countries, armies, player, phase: GamePhase::PlayerTurn };
    proof {
        assert(world.provinces@ =~= Seq::new(ps.len(), |k: int| loaded_province(ps, *save, k)));
    }
    Ok(world)
}

proof fn lemma_occupier_claim_member(os: Seq<OccupiedData>, id: u32)
    ensures
        occupier_claim(os, id) matches Some(oid) ==> exists|i: int| 0 <= i < os.len() && #[trigger] os[i].province_id == id
            && os[i].occupier_id == oid,
    decreases os.len(),
{
    if os.len() > 0 {
        lemma_occupier_claim_member(os.drop_last(), id);
        if os.last().province_id != id {
            match occupier_claim(os, id) {
                Some(oid) => {
                    let i = choose|i: int| 0 <= i < os.drop_last().len() && #[trigger] os.drop_last()[i].province_id == id
                        && os.drop_last()[i].occupier_id == oid;
                    assert(os[i] == os.drop_last()[i]);
                },
                None => {},
            }
        } else {
            assert(os[os.len() - 1] == os.last());
        }
    }
}

/// No two countries share an id, and no two provinces do.
pub open spec fn ids_unique(w: World) -> bool {
    &&& forall|i: int, j: int| 0 <= i < j < w.countries@.len() ==> #[trigger] w.countries@[i].id != #[trigger] w.countries@[j].id
    &&& forall|i: int, j: int| 0 <= i < j < w.provinces@.len() ==> #[trigger] w.provinces@[i].id != #[trigger] w.provinces@[j].id
}

proof fn lemma_last_index_unique(ids: Seq<u32>, k: int)
    requires
        forall|i: int, j: int| 0 <= i < j < ids.len() ==> #[trigger] ids[i] != #[trigger] ids[j],
        0 <= k < ids.len(),
    ensures
        last_index(ids, ids[k]) == Some(k),
        ids.contains(ids[k]),
    decreases ids.len(),
{
    if k < ids.len() - 1 {
        assert(ids.last() == ids[ids.len() - 1]);
        assert(ids.drop_last()[k] == ids[k]);
        lemma_last_index_unique(ids.drop_last(), k);
    }
}

proof fn lemma_owner_claim_exact(cs: Seq<CountrySaveData>, id: u32, owner: Option<int>)
    requires
        forall|c: int| 0 <= c < cs.len() ==> (#[trigger] cs[c].owned_provinces@.contains(id) <==> owner == Some(c)),
        owner matches Some(c) ==> 0 <= c,
    ensures
        owner_claim(cs, id) == if (owner matches Some(c) && c < cs.len()) { owner } else { None },
    decreases cs.len(),
{
    if cs.len() > 0 {
        assert(cs.last() == cs[cs.len() - 1]);
        assert forall|c: int| 0 <= c < cs.drop_last().len() implies (#[trigger] cs.drop_last()[c].owned_provinces@.contains(id)
            <==> owner == Some(c)) by {
            assert(cs.drop_last()[c] == cs[c]);
        }
        lemma_owner_claim_exact(cs.drop_last(), id, owner);
    }
}

proof fn lemma_occupier_claim_agree(os: Seq<OccupiedData>, id: u32, v: Option<u32>)
    requires
        forall|i: int| 0 <= i < os.len() && #[trigger] os[i].province_id == id ==> v == Some(os[i].occupier_id),
        v is Some ==> exists|i: int| 0 <= i < os.len() && #[trigger] os[i].province_id == id,
    ensures
        occupier_claim(os, id) == v,
    decreases os.len(),
{
    if os.len() > 0 {
        assert(os.last() == os[os.len() - 1]);
        if os.last().province_id != id {
            assert forall|i: int| 0 <= i < os.drop_last().len() && #[trigger] os.drop_last()[i].province_id == id implies v
                == Some(os.drop_last()[i].occupier_id) by {
                assert(os.drop_last()[i] == os[i]);
            }
            if v is Some {
                let i = choose|i: int| 0 <= i < os.len() && #[trigger] os[i].province_id == id;
                assert(os.drop_last()[i].province_id == id);
            }
            lemma_occupier_claim_agree(os.drop_last(), id, v);
        }
    }
}

proof fn lemma_relation_claim_agree(es: Seq<(u32, Relation)>, id: u32, v: Relation)
    requires
        forall|i: int| 0 <= i < es.len() && (#[trigger] es[i]).0 == id ==> es[i].1 == v,
        v != Relation::Peace ==> exists|i: int| 0 <= i < es.len() && (#[trigger] es[i]).0 == id,
    ensures
        relation_claim(es, id) == v,
    decreases es.len(),
{
    if es.len() > 0 {
        assert(es.last() == es[es.len() - 1]);
        if es.last().0 != id {
            assert forall|i: int| 0 <= i < es.drop_last().len() && (#[trigger] es.drop_last()[i]).0 == id implies es.drop_last()[i].1
                == v by {
                assert(es.drop_last()[i] == es[i]);
            }
            if v != Relation::Peace {
                let i = choose|i: int| 0 <= i < es.len() && (#[trigger] es[i]).0 == id;
                assert(es.drop_last()[i].0 == id);
            }
            lemma_relation_claim_agree(es.drop_last(), id, v);
        }
    }
}

proof fn lemma_ids_views(w: World, s: SaveData)
    requires
        ids_unique(w),
        saved(w, s),
    ensures
        country_ids(s).len() == w.countries@.len(),
        forall|c: int| 0 <= c < w.countries@.len() ==> #[trigger] country_ids(s)[c] == w.countries@[c].id,
        forall|i: int, j: int| 0 <= i < j < country_ids(s).len() ==> #[trigger] country_ids(s)[i] != #[trigger] country_ids(s)[j],
        province_ids(w.provinces@).len() == w.provinces@.len(),
        forall|p: int| 0 <= p < w.provinces@.len() ==> #[trigger] province_ids(w.provinces@)[p] == w.provinces@[p].id,
        forall|i: int, j: int| 0 <= i < j < province_ids(w.provinces@).len() ==> #[trigger] province_ids(w.provinces@)[i]
            != #[trigger] province_ids(w.provinces@)[j],
{
    assert forall|c: int| 0 <= c < w.countries@.len() implies #[trigger] country_ids(s)[c] == w.countries@[c].id by {
        assert(s.countries@[c].id == w.countries@[c].id);
    }
    assert forall|i: int, j: int| 0 <= i < j < country_ids(s).len() implies #[trigger] country_ids(s)[i] != #[trigger] country_ids(s)[j] by {
        assert(country_ids(s)[i] == w.countries@[i].id);
        assert(country_ids(s)[j] == w.countries@[j].id);
    }
}

/// Province `p`'s id occurs in country `c`'s saved list exactly when `c`
/// owns `p`.
proof fn lemma_owned_ids_member(w: World, c: usize, p: int)
    requires
        ids_unique(w),
        0 <= p < w.provinces@.len(),
    ensures
        owned_ids(w.provinces@, c).contains(w.provinces@[p].id) <==> w.provinces@[p].owned_by == Some(OwnedBy { owner: c }),
{
    let provs = w.provinces@;
    assert(provs.len() == w.provinces.len());
    let idx = indices_where(provs.len() as int, owned_test(provs, c));
    lemma_indices_where_bound(provs.len() as int, owned_test(provs, c));
    if provs[p].owned_by == Some(OwnedBy { owner: c }) {
        crate::model::lemma_indices_where_complete(provs.len() as int, owned_test(provs, c), p);
        let k = choose|k: int| 0 <= k < idx.len() && idx[k] == p as usize;
        assert(owned_ids(provs, c)[k] == provs[p].id);
    }
    if owned_ids(provs, c).contains(provs[p].id) {
        let k = choose|k: int| 0 <= k < owned_ids(provs, c).len() && owned_ids(provs, c)[k] == provs[p].id;
        let q = idx[k] as int;
        assert(provs[q].id == provs[p].id);
        assert(q == p);
    }
}

/// Loading a save of a world, onto a map with that world's province ids,
/// gives back the same treasuries, province ownerships and occupations,
/// armies with their owners, provinces and unit counts, diplomatic relations,
/// and player country.
/// Ids must be unique for a save to identify its entities.
pub proof fn lemma_save_load_round_trip(w: World, s: SaveData, map: Seq<Province>, w2: World)
    requires
        w.wf(),
        ids_unique(w),
        saved(w, s),
        province_ids(map) == province_ids(w.provinces@),
        loaded(map, s, w2),
    ensures
        save_consistent(map, s),
        w2.countries@.len() == w.countries@.len(),
        forall|c: int| 0 <= c < w.countries@.len() ==> (#[trigger] w2.countries@[c]).gold == w.countries@[c].gold
            && w2.countries@[c].id == w.countries@[c].id,
        forall|c: usize, d: usize| c < w.countries@.len() && d < w.countries@.len() ==> #[trigger]
            crate::diplomacy::relation_between(w2.countries@, c, d) == crate::diplomacy::relation_between(
                w.countries@,
                c,
                d,
            ),
        w2.provinces@.len() == w.provinces@.len(),
        forall|p: int| 0 <= p < w.provinces@.len() ==> (#[trigger] w2.provinces@[p]).owned_by == w.provinces@[p].owned_by
            && w2.provinces@[p].occupied == w.provinces@[p].occupied,
        w2.armies@.len() == w.armies@.len(),
        forall|i: int| 0 <= i < w.armies@.len() ==> {
            let (x, y) = (#[trigger] w2.armies@[i], w.armies@[i]);
            x.owner == y.owner && x.province == y.province && x.units == y.units
        },
        w2.player == w.player,
{
    let ps = w.provinces@;
    let np = ps.len() as int;
    assert(map.len() == province_ids(map).len());
    assert forall|p: int| 0 <= p < np implies #[trigger] map[p].id == ps[p].id by {
        assert(province_ids(map)[p] == province_ids(ps)[p]);
    }
    let nc = w.countries@.len() as int;
    assert(ps.len() == w.provinces.len());
    assert(w.countries@.len() == w.countries.len());
    lemma_ids_views(w, s);
    // Every referenced id exists.
    assert forall|c: int, k: int| 0 <= c < s.countries@.len() && 0 <= k < s.countries@[c].owned_provinces@.len()
        implies province_ids(ps).contains(#[trigger] s.countries@[c].owned_provinces@[k]) by {
        let idx = indices_where(np, owned_test(ps, c as usize));
        lemma_indices_where_bound(np, owned_test(ps, c as usize));
        let q = idx[k] as int;
        assert(s.countries@[c].owned_provinces@[k] == ps[q].id);
        lemma_last_index_unique(province_ids(ps), q);
    }
    assert forall|i: int| 0 <= i < s.armies@.len() implies country_ids(s).contains(#[trigger] s.armies@[i].owner_id)
        && province_ids(ps).contains(s.armies@[i].province_id) by {
        let a = w.armies@[i];
        assert(crate::model::army_wf(a, np, nc));
        lemma_last_index_unique(country_ids(s), a.owner as int);
        lemma_last_index_unique(province_ids(ps), a.province as int);
    }
    let occ_idx = indices_where(np, occupied_test(ps));
    lemma_indices_where_bound(np, occupied_test(ps));
    assert forall|i: int| 0 <= i < s.occupied_provinces@.len() implies province_ids(ps).contains(
        #[trigger] s.occupied_provinces@[i].province_id,
    ) && country_ids(s).contains(s.occupied_provinces@[i].occupier_id) by {
        let q = occ_idx[i] as int;
        assert(crate::model::province_wf(ps[q], np, nc));
        lemma_last_index_unique(province_ids(ps), q);
        lemma_last_index_unique(country_ids(s), ps[q].occupied.unwrap().occupier as int);
    }
    // Countries.
    assert forall|c: usize, d: usize| c < nc && d < nc implies #[trigger] crate::diplomacy::relation_between(
        w2.countries@,
        c,
        d,
    ) == crate::diplomacy::relation_between(w.countries@, c, d) by {
        let es = s.countries@[c as int].relations@;
        let rels = w.countries@[c as int].relations.relations@;
        let v = relation_in(rels, d as int);
        assert(es == relation_entries(w, c as int));
        assert forall|i: int| 0 <= i < es.len() && (#[trigger] es[i]).0 == s.countries@[d as int].id implies es[i].1 == v by {
            assert(w.countries@[i].id == w.countries@[d as int].id);
            if i != d {
                if i < d {
                    assert(w.countries@[i].id != w.countries@[d as int].id);
                } else {
                    assert(w.countries@[d as int].id != w.countries@[i].id);
                }
            }
        }
        if v != Relation::Peace {
            assert(es[d as int].0 == s.countries@[d as int].id);
        }
        lemma_relation_claim_agree(es, s.countries@[d as int].id, v);
    }
    // Provinces.
    assert forall|p: int| 0 <= p < np implies (#[trigger] w2.provinces@[p]).owned_by == w.provinces@[p].owned_by
        && w2.provinces@[p].occupied == w.provinces@[p].occupied by {
        assert(crate::model::province_wf(ps[p], np, nc));
        let id = ps[p].id;
        assert(map[p].id == id);
        let owner: Option<int> = match ps[p].owned_by {
            None => None,
            Some(o) => Some(o.owner as int),
        };
        assert forall|c: int| 0 <= c < s.countries@.len() implies (#[trigger] s.countries@[c].owned_provinces@.contains(id)
            <==> owner == Some(c)) by {
            lemma_owned_ids_member(w, c as usize, p);
            assert(s.countries@[c].owned_provinces@ == owned_ids(ps, c as usize));
        }
        lemma_owner_claim_exact(s.countries@, id, owner);
        let v: Option<u32> = match ps[p].occupied {
            None => None,
            Some(o) => Some(w.countries@[o.occupier as int].id),
        };
        let os = s.occupied_provinces@;
        assert forall|i: int| 0 <= i < os.len() && #[trigger] os[i].province_id == id implies v == Some(os[i].occupier_id) by {
            let q = occ_idx[i] as int;
            assert(ps[q].id == id);
            if q != p {
                if q < p {
                    assert(ps[q].id != ps[p].id);
                } else {
                    assert(ps[p].id != ps[q].id);
                }
            }
        }
        if v is Some {
            crate::model::lemma_indices_where_complete(np, occupied_test(ps), p);
            let k = choose|k: int| 0 <= k < occ_idx.len() && occ_idx[k] == p as usize;
            assert(os[k].province_id == id);
        }
        lemma_occupier_claim_agree(os, id, v);
        match ps[p].occupied {
            None => {},
            Some(o) => {
                lemma_last_index_unique(country_ids(s), o.occupier as int);
            },
        }
    }
    // Armies.
    assert forall|i: int| 0 <= i < w.armies@.len() implies {
        let (x, y) = (#[trigger] w2.armies@[i], w.armies@[i]);
        x.owner == y.owner && x.province == y.province && x.units == y.units
    } by {
        let a = w.armies@[i];
        assert(crate::model::army_wf(a, np, nc));
        lemma_last_index_unique(country_ids(s), a.owner as int);
        lemma_last_index_unique(province_ids(ps), a.province as int);
    }
    match w.player {
        None => {},
        Some(c) => {
            lemma_last_index_unique(country_ids(s), c as int);
        },
    }
}

/// A loaded world has at most one country that is not AI-controlled: the
/// player's, if the save names one that exists.
pub proof fn lemma_loaded_single_player(ps: Seq<Province>, s: SaveData, w: World)
    requires
        loaded(ps, s, w),
    ensures
        forall|a: int, b: int|
            0 <= a < w.countries@.len() && 0 <= b < w.countries@.len() && !(#[trigger] w.countries@[a]).ai_controlled
                && !(#[trigger] w.countries@[b]).ai_controlled ==> a == b,
        forall|a: int| 0 <= a < w.countries@.len() && !(#[trigger] w.countries@[a]).ai_controlled ==> w.player == Some(
            a as usize,
        ),
{
    assert forall|a: int| 0 <= a < w.countries@.len() && !(#[trigger] w.countries@[a]).ai_controlled implies w.player == Some(
        a as usize,
    ) by {
        assert(w.countries@[a].ai_controlled == (w.player != Some(a as usize)));
    }
    assert forall|a: int, b: int|
        0 <= a < w.countries@.len() && 0 <= b < w.countries@.len() && !(#[trigger] w.countries@[a]).ai_controlled
            && !(#[trigger] w.countries@[b]).ai_controlled implies a == b by {
        assert(w.countries@[a].ai_controlled == (w.player != Some(a as usize)));
        assert(w.countries@[b].ai_controlled == (w.player != Some(b as usize)));
        assert(w.countries@.len() == w.countries.len());
    }
}

} // verus!
