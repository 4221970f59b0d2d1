use vstd::prelude::*;

verus! {

/// Classification of a province's land.
#[derive(Clone, Copy, Debug, PartialEq, Eq, Structural)]
pub enum TerrainType {
    Water,
    Plains,
    Forest,
    Mountains,
    City,
}

/// The kinds of building a province can hold, each at most once.
#[derive(Clone, Copy, Debug, PartialEq, Eq, Structural)]
pub enum BuildingType {
    Farm,
    Mine,
    Barracks,
}

impl BuildingType {
    pub open spec fn spec_cost(self) -> u64 {
        match self {
            BuildingType::Farm => 100,
            BuildingType::Mine => 200,
            BuildingType::Barracks => 300,
        }
    }

    pub open spec fn spec_income_bonus(self) -> u32 {
        match self {
            BuildingType::Mine => 10,
            _ => 0,
        }
    }

    /// Extra growth, in thousandths per turn.
    pub open spec fn spec_growth_bonus(self) -> i32 {
        match self {
            BuildingType::Farm => 10,
            _ => 0,
        }
    }

    pub open spec fn spec_population_bonus(self) -> u32 {
        match self {
            BuildingType::Farm => 500,
            _ => 0,
        }
    }

    pub fn name(&self) -> (r: &'static str)
        ensures
            *self == BuildingType::Farm ==> r@ == "Farm"@,
            *self == BuildingType::Mine ==> r@ == "Mine"@,
            *self == BuildingType::Barracks ==> r@ == "Barracks"@,
    {
        match self {
            BuildingType::Farm => "Farm",
            BuildingType::Mine => "Mine",
            BuildingType::Barracks => "Barracks",
        }
    }

    pub fn description(&self) -> (r: &'static str)
        ensures
            *self == BuildingType::Farm ==> r@ == "Increases population growth"@,
            *self == BuildingType::Mine ==> r@ == "Increases province income"@,
            *self == BuildingType::Barracks ==> r@ == "Allows recruiting troops"@,
    {
        match self {
            BuildingType::Farm => "Increases population growth",
            BuildingType::Mine => "Increases province income",
            BuildingType::Barracks => "Allows recruiting troops",
        }
    }

    pub fn cost(&self) -> (r: u64)
        ensures
            r == self.spec_cost(),
    {
        match self {
            BuildingType::Farm => 100,
            BuildingType::Mine => 200,
            BuildingType::Barracks => 300,
        }
    }

    pub fn income_bonus(&self) -> (r: u32)
        ensures
            r == self.spec_income_bonus(),
    {
        match self {
            BuildingType::Mine => 10,
            _ => 0,
        }
    }

    pub fn growth_bonus(&self) -> (r: i32)
        ensures
            r == self.spec_growth_bonus(),
    {
        match self {
            BuildingType::Farm => 10,
            _ => 0,
        }
    }

    pub fn population_bonus(&self) -> (r: u32)
        ensures
            r == self.spec_population_bonus(),
    {
        match self {
            BuildingType::Farm => 500,
            _ => 0,
        }
    }
}

/// Every building type, in the order they are offered.
pub fn all_buildings() -> (r: Vec<BuildingType>)
    ensures
        r@ == seq![BuildingType::Farm, BuildingType::Mine, BuildingType::Barracks],
{
    vec![BuildingType::Farm, BuildingType::Mine, BuildingType::Barracks]
}

/// The set of building types constructed in one province.
#[derive(Clone, Copy, Debug, PartialEq, Eq, Structural)]
pub struct Buildings {
    pub farm: bool,
    pub mine: bool,
    pub barracks: bool,
}

impl Buildings {
    pub open spec fn has(self, b: BuildingType) -> bool {
        match b {
            BuildingType::Farm => self.farm,
            BuildingType::Mine => self.mine,
            BuildingType::Barracks => self.barracks,
        }
    }

    pub open spec fn view(self) -> Set<BuildingType> {
        Set::new(|b: BuildingType| self.has(b))
    }

    /// Sum of the income bonuses of the buildings present.
    pub open spec fn income_bonus_total(self) -> int {
        (if self.farm { BuildingType::Farm.spec_income_bonus() as int } else { 0 })
            + (if self.mine { BuildingType::Mine.spec_income_bonus() as int } else { 0 })
            + (if self.barracks { BuildingType::Barracks.spec_income_bonus() as int } else { 0 })
    }

    /// Sum of the growth bonuses of the buildings present.
    pub open spec fn growth_bonus_total(self) -> int {
        (if self.farm { BuildingType::Farm.spec_growth_bonus() as int } else { 0 })
            + (if self.mine { BuildingType::Mine.spec_growth_bonus() as int } else { 0 })
            + (if self.barracks { BuildingType::Barracks.spec_growth_bonus() as int } else { 0 })
    }

    pub fn new() -> (r: Buildings)
        ensures
            r@ == Set::<BuildingType>::empty(),
    {
        let r = Buildings { farm: false, mine: false, barracks: false };
        assert(r@ =~= Set::<BuildingType>::empty());
        r
    }

    pub fn contains(&self, b: BuildingType) -> (r: bool)
        ensures
            r == self.has(b),
    {
        match b {
            BuildingType::Farm => self.farm,
            BuildingType::Mine => self.mine,
            BuildingType::Barracks => self.barracks,
        }
    }

    pub fn add(&mut self, b: BuildingType)
        ensures
            final(self)@ == old(self)@.insert(b),
            forall|x: BuildingType| #[trigger] final(self).has(x) == (old(self).has(x) || x == b),
    {
        match b {
            BuildingType::Farm => self.farm = true,
            BuildingType::Mine => self.mine = true,
            BuildingType::Barracks => self.barracks = true,
        }
        assert(self@ =~= old(self)@.insert(b));
    }

    pub fn income_bonus(&self) -> (r: u32)
        ensures
            r == self.income_bonus_total(),
    {
        let mut r: u32 = 0;
        if self.farm {
            r = r + BuildingType::Farm.income_bonus();
        }
        if self.mine {
            r = r + BuildingType::Mine.income_bonus();
        }
        if self.barracks {
            r = r + BuildingType::Barracks.income_bonus();
        }
        r
    }

    pub fn growth_bonus(&self) -> (r: i32)
        ensures
            r == self.growth_bonus_total(),
    {
        let mut r: i32 = 0;
        if self.farm {
            r = r + BuildingType::Farm.growth_bonus();
        }
        if self.mine {
            r = r + BuildingType::Mine.growth_bonus();
        }
        if self.barracks {
            r = r + BuildingType::Barracks.growth_bonus();
        }
        r
    }
}

/// Diplomatic state between two countries.
#[derive(Clone, Copy, Debug, PartialEq, Eq, Structural)]
pub enum Relation {
    Peace,
    War,
}

/// One country's relations, indexed by the other country's handle.
/// A country with no entry is at peace.
#[derive(Clone, Debug)]
pub struct Relations {
    pub relations: Vec<Relation>,
}

pub open spec fn relation_in(s: Seq<Relation>, c: int) -> Relation {
    if 0 <= c < s.len() {
        s[c]
    } else {
        Relation::Peace
    }
}

impl Relations {
    pub open spec fn spec_get(&self, c: int) -> Relation {
        relation_in(self.relations@, c)
    }

    pub fn new() -> (r: Relations)
        ensures
            forall|c: int| #[trigger] r.spec_get(c) == Relation::Peace,
    {
        Relations { relations: Vec::new() }
    }

    pub fn get(&self, country: usize) -> (r: Relation)
        ensures
            r == self.spec_get(country as int),
    {
        if country < self.relations.len() {
            self.relations[country]
        } else {
            Relation::Peace
        }
    }

    pub fn set(&mut self, country: usize, relation: Relation)
        ensures
            final(self).spec_get(country as int) == relation,
            forall|c: int| c != country ==> #[trigger] final(self).spec_get(c) == old(self).spec_get(c),
    {
        let ghost start = self.relations@;
        while self.relations.len() <= country
            invariant
                start.len() <= self.relations@.len() <= country + 1 || self.relations@.len() == start.len(),
                self.relations@.subrange(0, start.len() as int) == start,
                forall|k: int| start.len() <= k < self.relations@.len() ==> self.relations@[k] == Relation::Peace,
            decreases country + 1 - self.relations.len(),
        {
            self.relations.push(Relation::Peace);
            assert(self.relations@.subrange(0, start.len() as int) =~= start);
        }
        self.relations.set(country, relation);
        assert forall|c: int| c != country implies #[trigger] self.spec_get(c) == old(self).spec_get(c) by {
            if 0 <= c < start.len() {
                assert(self.relations@[c] == start[c]);
            }
        }
    }
}

/// The indices below `n` that satisfy `pred`, in increasing order.
pub open spec fn indices_where(n: int, pred: spec_fn(int) -> bool) -> Seq<usize>
    decreases n,
{
    if n <= 0 {
        Seq::empty()
    } else if pred(n - 1) {
        indices_where(n - 1, pred).push((n - 1) as usize)
    } else {
        indices_where(n - 1, pred)
    }
}

pub proof fn lemma_indices_where_bound(n: int, pred: spec_fn(int) -> bool)
    requires
        n <= usize::MAX,
    ensures
        indices_where(n, pred).len() <= if n < 0 { 0 } else { n },
        forall|k: int| 0 <= k < indices_where(n, pred).len() ==> #[trigger] indices_where(n, pred)[k] < n
            && pred(indices_where(n, pred)[k] as int),
    decreases n,
{
    if n > 0 {
        lemma_indices_where_bound(n - 1, pred);
        let prev = indices_where(n - 1, pred);
        assert forall|k: int| 0 <= k < indices_where(n, pred).len() implies #[trigger] indices_where(n, pred)[k] < n
            && pred(indices_where(n, pred)[k] as int) by {
            if k < prev.len() {
                assert(indices_where(n, pred)[k] == prev[k]);
            }
        }
    }
}

pub proof fn lemma_indices_where_complete(n: int, pred: spec_fn(int) -> bool, i: int)
    requires
        0 <= i < n,
        pred(i),
    ensures
        indices_where(n, pred).contains(i as usize),
    decreases n,
{
    if i < n - 1 {
        lemma_indices_where_complete(n - 1, pred, i);
        let prev = indices_where(n - 1, pred);
        let k = choose|k: int| 0 <= k < prev.len() && #[trigger] prev[k] == i as usize;
        if pred(n - 1) {
            assert(indices_where(n, pred)[k] == i as usize);
        }
    } else {
        assert(indices_where(n, pred).last() == i as usize);
    }
}

/// Legal ownership of a province.
#[derive(Clone, Copy, Debug, PartialEq, Eq, Structural)]
pub struct OwnedBy {
    pub owner: usize,
}

impl OwnedBy {
    pub fn owner(&self) -> (r: usize)
        ensures
            r == self.owner,
    {
        self.owner
    }
}

/// De-facto control of a province by a country other than its owner.
#[derive(Clone, Copy, Debug, PartialEq, Eq, Structural)]
pub struct Occupied {
    pub occupier: usize,
}

impl Occupied {
    pub fn occupier(&self) -> (r: usize)
        ensures
            r == self.occupier,
    {
        self.occupier
    }
}

/// A map region. `neighbors` holds handles (indices) of adjacent provinces.
#[derive(Clone, Debug)]
pub struct Province {
    pub id: u32,
    pub terrain: TerrainType,
    pub neighbors: Vec<usize>,
    pub population: u32,
    /// Growth per turn, in thousandths of the population.
    pub base_growth: i32,
    pub base_income: u32,
    pub owned_by: Option<OwnedBy>,
    pub occupied: Option<Occupied>,
    pub buildings: Buildings,
}

/// A nation. Its handle is its index in the world's country list.
#[derive(Clone, Debug)]
pub struct Country {
    pub id: u32,
    pub name: String,
    /// Colour as 0xRRGGBB.
    pub color: u32,
    pub gold: u64,
    pub flag_path: Option<String>,
    pub relations: Relations,
    pub ai_controlled: bool,
}

/// A queued intent to move an army into a neighbouring province.
#[derive(Clone, Copy, Debug, PartialEq, Eq, Structural)]
pub struct PendingMove {
    pub target_province: usize,
}

/// A stack of units belonging to one country, standing in one province.
#[derive(Clone, Copy, Debug, PartialEq, Eq, Structural)]
pub struct Army {
    pub owner: usize,
    pub province: usize,
    pub units: u32,
    pub pending_move: Option<PendingMove>,
    pub has_acted: bool,
}

/// Phase of the turn cycle.
#[derive(Clone, Copy, Debug, PartialEq, Eq, Structural, Hash)]
pub enum GamePhase {
    PlayerTurn,
    Processing,
}

/// Top-level state of the application.
#[derive(Clone, Copy, Debug, PartialEq, Eq, Structural, Hash)]
pub enum AppState {
    InMainMenu,
    InGame,
}

impl Default for AppState {
    fn default() -> (r: AppState)
        ensures
            r == AppState::InMainMenu,
    {
        AppState::InMainMenu
    }
}

impl Default for GamePhase {
    fn default() -> (r: GamePhase)
        ensures
            r == GamePhase::PlayerTurn,
    {
        GamePhase::PlayerTurn
    }
}

/// The whole simulation state. Provinces, countries and armies refer to one
/// another by their index in these lists.
#[derive(Clone, Debug)]
pub struct World {
    pub provinces: Vec<Province>,
    pub countries: Vec<Country>,
    pub armies: Vec<Army>,
    pub player: Option<usize>,
    pub phase: GamePhase,
}

pub open spec fn army_wf(a: Army, np: int, nc: int) -> bool {
    &&& a.owner < nc
    &&& a.province < np
    &&& a.pending_move matches Some(m) ==> m.target_province < np
}

pub open spec fn armies_wf(armies: Seq<Army>, np: int, nc: int) -> bool {
    forall|i: int| 0 <= i < armies.len() ==> army_wf(#[trigger] armies[i], np, nc)
}

pub open spec fn province_wf(p: Province, np: int, nc: int) -> bool {
    &&& p.owned_by matches Some(o) ==> o.owner < nc
    &&& p.occupied matches Some(o) ==> o.occupier < nc
    &&& forall|k: int| 0 <= k < p.neighbors@.len() ==> #[trigger] p.neighbors@[k] < np
}

pub open spec fn provinces_wf(provinces: Seq<Province>, nc: int) -> bool {
    forall|i: int| 0 <= i < provinces.len() ==> province_wf(#[trigger] provinces[i], provinces.len() as int, nc)
}

impl World {
    /// Every handle held in the world names an existing entity.
    pub open spec fn wf(&self) -> bool {
        &&& provinces_wf(self.provinces@, self.countries@.len() as int)
        &&& armies_wf(self.armies@, self.provinces@.len() as int, self.countries@.len() as int)
        &&& self.player matches Some(c) ==> c < self.countries@.len()
    }

    /// Number of provinces that country `c` owns.
    pub fn province_count(&self, c: usize) -> (r: usize)
        ensures
            r == indices_where(
                self.provinces@.len() as int,
                |i: int| self.provinces@[i].owned_by == Some(OwnedBy { owner: c }),
            ).len(),
    {
        let ghost pred = |i: int| self.provinces@[i].owned_by == Some(OwnedBy { owner: c });
        let mut n: usize = 0;
        let mut i: usize = 0;
        while i < self.provinces.len()
            invariant
                i <= self.provinces@.len(),
                pred == (|i: int| self.provinces@[i].owned_by == Some(OwnedBy { owner: c })),
                n == indices_where(i as int, pred).len(),
            decreases self.provinces@.len() - i,
        {
            proof {
                lemma_indices_where_bound(i as int, pred);
            }
            if self.provinces[i].owned_by == Some(OwnedBy { owner: c }) {
                n = n + 1;
            }
            i = i + 1;
        }
        n
    }

    /// Decides `wf`: every handle in the world names an existing entity.
    pub fn is_well_formed(&self) -> (r: bool)
        ensures
            r == self.wf(),
    {
        let np = self.provinces.len();
        let nc = self.countries.len();
        let mut i: usize = 0;
        while i < np
            invariant
                np == self.provinces@.len(),
                nc == self.countries@.len(),
                i <= np,
                forall|k: int| 0 <= k < i ==> province_wf(#[trigger] self.provinces@[k], np as int, nc as int),
            decreases np - i,
        {
            let p = &self.provinces[i];
            if let Some(o) = p.owned_by {
                if o.owner >= nc {
                    return false;
                }
            }
            if let Some(o) = p.occupied {
                if o.occupier >= nc {
                    return false;
                }
            }
            let mut k: usize = 0;
            while k < p.neighbors.len()
                invariant
                    i < np,
                    *p == self.provinces@[i as int],
                    np == self.provinces@.len(),
                    k <= p.neighbors@.len(),
                    forall|j: int| 0 <= j < k ==> #[trigger] p.neighbors@[j] < np,
                decreases p.neighbors@.len() - k,
            {
                if p.neighbors[k] >= np {
                    assert(!province_wf(self.provinces@[i as int], np as int, nc as int));
                    return false;
                }
                k = k + 1;
            }
            i = i + 1;
        }
        let mut a: usize = 0;
        while a < self.armies.len()
            invariant
                np == self.provinces@.len(),
                nc == self.countries@.len(),
                a <= self.armies@.len(),
                provinces_wf(self.provinces@, nc as int),
                forall|k: int| 0 <= k < a ==> army_wf(#[trigger] self.armies@[k], np as int, nc as int),
            decreases self.armies@.len() - a,
        {
            let army = self.armies[a];
            if army.owner >= nc || army.province >= np {
                return false;
            }
            if let Some(m) = army.pending_move {
                if m.target_province >= np {
                    return false;
                }
            }
            a = a + 1;
        }
        match self.player {
            Some(c) => c < nc,
            None => true,
        }
    }
}

} // verus!
