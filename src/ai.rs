use vstd::prelude::*;
use crate::diplomacy::{relation_between, same_but_relations, set_relation};
use crate::movement::{borders, move_error, order_error};
use crate::model::{Army, BuildingType, Country, OwnedBy, PendingMove, Province, Relation, World, indices_where, lemma_indices_where_bound};
use crate::random::{Dice, determined, drawn, lemma_next_draw, nth_draw};

verus! {

/// Gold an AI country must hold, and spends, to raise an army.
pub const RECRUIT_COST: u64 = 100;

/// Units in a newly raised army.
pub const RECRUIT_UNITS: u32 = 100;

/// Percent chance that an AI army considers moving this turn.
pub const MOVE_CHANCE: u64 = 20;

/// Percent chance that an AI army with an enemy in reach goes for it.
pub const ATTACK_CHANCE: u64 = 90;

/// Percent chances, per turn, of a round of war declarations, and of a round
/// of peace offers.
pub const WAR_CHANCE: u64 = 20;
pub const PEACE_CHANCE: u64 = 20;

/// Building types that `gold` pays for, in offer order.
pub open spec fn affordable(gold: u64) -> Seq<BuildingType> {
    let s0 = if gold >= 100 { seq![BuildingType::Farm] } else { Seq::empty() };
    let s1 = if gold >= 200 { s0.push(BuildingType::Mine) } else { s0 };
    if gold >= 300 { s1.push(BuildingType::Barracks) } else { s1 }
}

/// Provinces of `c` that lack a building of type `b`.
pub open spec fn build_sites(provs: Seq<Province>, c: usize, b: BuildingType) -> spec_fn(int) -> bool {
    |i: int| provs[i].owned_by == Some(crate::model::OwnedBy { owner: c }) && !provs[i].buildings.has(b)
}

/// Provinces of `c` that have barracks.
pub open spec fn barracks_sites(provs: Seq<Province>, c: usize) -> spec_fn(int) -> bool {
    |i: int| provs[i].owned_by == Some(crate::model::OwnedBy { owner: c }) && provs[i].buildings.has(
        BuildingType::Barracks,
    )
}

fn affordable_exec(gold: u64) -> (r: Vec<BuildingType>)
    ensures
        r@ == affordable(gold),
{
    let mut r: Vec<BuildingType> = Vec::new();
    if gold >= 100 {
        r.push(BuildingType::Farm);
    }
    if gold >= 200 {
        r.push(BuildingType::Mine);
    }
    if gold >= 300 {
        r.push(BuildingType::Barracks);
    }
    assert(r@ =~= affordable(gold));
    r
}

fn sites_for_building(world: &World, c: usize, b: BuildingType) -> (r: Vec<usize>)
    ensures
        r@ == indices_where(world.provinces@.len() as int, build_sites(world.provinces@, c, b)),
{
    let mut r: Vec<usize> = Vec::new();
    let mut i: usize = 0;
    while i < world.provinces.len()
        invariant
            i <= world.provinces@.len(),
            r@ == indices_where(i as int, build_sites(world.provinces@, c, b)),
        decreases world.provinces@.len() - i,
    {
        let p = &world.provinces[i];
        if p.owned_by == Some(crate::model::OwnedBy { owner: c }) && !p.buildings.contains(b) {
            r.push(i);
        }
        i = i + 1;
    }
    r
}

fn sites_with_barracks(world: &World, c: usize) -> (r: Vec<usize>)
    ensures
        r@ == indices_where(world.provinces@.len() as int, barracks_sites(world.provinces@, c)),
{
    let mut r: Vec<usize> = Vec::new();
    let mut i: usize = 0;
    while i < world.provinces.len()
        invariant
            i <= world.provinces@.len(),
            r@ == indices_where(i as int, barracks_sites(world.provinces@, c)),
        decreases world.provinces@.len() - i,
    {
        let p = &world.provinces[i];
        if p.owned_by == Some(crate::model::OwnedBy { owner: c }) && p.buildings.contains(BuildingType::Barracks) {
            r.push(i);
        }
        i = i + 1;
    }
    r
}

/// The building decision of country `c`: the building type picked by
/// `pick_building` among those it can afford, and the province picked by
/// `pick_province` among its provinces lacking that type.
pub open spec fn build_choice(w: World, c: usize, pick_building: u64, pick_province: u64) -> Option<(usize, BuildingType)> {
    let options = affordable(w.countries@[c as int].gold);
    if options.len() == 0 {
        None
    } else {
        let b = options[(pick_building % options.len() as u64) as int];
        let sites = indices_where(w.provinces@.len() as int, build_sites(w.provinces@, c, b));
        if sites.len() == 0 {
            None
        } else {
            Some((sites[(pick_province % sites.len() as u64) as int], b))
        }
    }
}

/// Lets country `c` build once, as `build_choice` decides, paying the cost.
pub fn ai_build_for(world: &mut World, c: usize, pick_building: u64, pick_province: u64) -> (r: Option<(usize, BuildingType)>)
    requires
        old(world).wf(),
        c < old(world).countries@.len(),
    ensures
        r == build_choice(*old(world), c, pick_building, pick_province),
        final(world).wf(),
        final(world).provinces@.len() == old(world).provinces@.len(),
        final(world).countries@.len() == old(world).countries@.len(),
        final(world).armies@ == old(world).armies@,
        final(world).player == old(world).player,
        final(world).phase == old(world).phase,
        match r {
            None => *final(world) == *old(world),
            Some((p, b)) => {
                &&& final(world).provinces@ == old(world).provinces@.update(
                    p as int,
                    Province {
                        buildings: crate::model::Buildings {
                            farm: old(world).provinces@[p as int].buildings.farm || b == BuildingType::Farm,
                            mine: old(world).provinces@[p as int].buildings.mine || b == BuildingType::Mine,
                            barracks: old(world).provinces@[p as int].buildings.barracks || b == BuildingType::Barracks,
                        },
                        ..old(world).provinces@[p as int]
                    },
                )
                &&& final(world).countries@ == old(world).countries@.update(
                    c as int,
                    crate::model::Country {
                        gold: (old(world).countries@[c as int].gold - b.spec_cost()) as u64,
                        ..old(world).countries@[c as int]
                    },
                )
                &&& old(world).countries@[c as int].gold >= b.spec_cost()
            },
        },
{
    let gold = world.countries[c].gold;
    let options = affordable_exec(gold);
    if options.len() == 0 {
        return None;
    }
    let b = options[(pick_building % options.len() as u64) as usize];
    let sites = sites_for_building(world, c, b);
    if sites.len() == 0 {
        return None;
    }
    let p = sites[(pick_province % sites.len() as u64) as usize];
    let np = world.provinces.len();
    proof {
        lemma_indices_where_bound(np as int, build_sites(world.provinces@, c, b));
    }
    let ghost before = world.provinces@[p as int];
    world.provinces[p].buildings.add(b);
    let cost = b.cost();
    world.countries[c].gold = gold - cost;
    proof {
        assert(world.provinces@[p as int].buildings.has(BuildingType::Farm) == (before.buildings.farm || b
            == BuildingType::Farm));
        assert(world.provinces@[p as int].buildings.has(BuildingType::Mine) == (before.buildings.mine || b
            == BuildingType::Mine));
        assert(world.provinces@[p as int].buildings.has(BuildingType::Barracks) == (before.buildings.barracks
            || b == BuildingType::Barracks));
        let np = world.provinces@.len() as int;
        let nc = world.countries@.len() as int;
        assert forall|i: int| 0 <= i < np implies crate::model::province_wf(#[trigger] world.provinces@[i], np, nc) by {
            assert(crate::model::province_wf(old(world).provinces@[i], np, nc));
        }
    }
    Some((p, b))
}

/// The province picked by `pick` among the barracks provinces of `c`, if `c`
/// can pay for an army.
pub open spec fn recruit_choice(w: World, c: usize, pick: u64) -> Option<usize> {
    let sites = indices_where(w.provinces@.len() as int, barracks_sites(w.provinces@, c));
    if w.countries@[c as int].gold < RECRUIT_COST || sites.len() == 0 {
        None
    } else {
        Some(sites[(pick % sites.len() as u64) as int])
    }
}

/// Lets country `c` raise one army, as `recruit_choice` decides, paying for it.
pub fn ai_recruit_for(world: &mut World, c: usize, pick: u64) -> (r: Option<usize>)
    requires
        old(world).wf(),
        c < old(world).countries@.len(),
    ensures
        r == recruit_choice(*old(world), c, pick),
        final(world).wf(),
        final(world).provinces@ == old(world).provinces@,
        final(world).player == old(world).player,
        final(world).phase == old(world).phase,
        match r {
            None => *final(world) == *old(world),
            Some(p) => {
                &&& final(world).armies@ == old(world).armies@.push(
                    Army { owner: c, province: p, units: RECRUIT_UNITS, pending_move: None, has_acted: false },
                )
                &&& final(world).countries@ == old(world).countries@.update(
                    c as int,
                    crate::model::Country {
                        gold: (old(world).countries@[c as int].gold - RECRUIT_COST) as u64,
                        ..old(world).countries@[c as int]
                    },
                )
            },
        },
{
    let gold = world.countries[c].gold;
    let sites = sites_with_barracks(world, c);
    if gold < RECRUIT_COST || sites.len() == 0 {
        return None;
    }
    let p = sites[(pick % sites.len() as u64) as usize];
    let np = world.provinces.len();
    proof {
        lemma_indices_where_bound(np as int, barracks_sites(world.provinces@, c));
    }
    world.armies.push(Army { owner: c, province: p, units: RECRUIT_UNITS, pending_move: None, has_acted: false });
    world.countries[c].gold = gold - RECRUIT_COST;
    proof {
        let np = world.provinces@.len() as int;
        let nc = world.countries@.len() as int;
        assert forall|i: int| 0 <= i < world.armies@.len() implies crate::model::army_wf(#[trigger] world.armies@[i], np, nc) by {
            if i < old(world).armies@.len() {
                assert(crate::model::army_wf(old(world).armies@[i], np, nc));
            }
        }
    }
    Some(p)
}

/// Test for a neighbour `army` may be sent to: a valid order (not water, and
/// enterable) into a province of its own country (`enemy == false`), or into
/// one owned by a country its owner is at war with (`enemy == true`).
pub open spec fn target_test(provs: Seq<Province>, countries: Seq<Country>, army: Army, enemy: bool) -> spec_fn(usize) -> bool {
    |t: usize|
        order_error(provs, countries, army, t) is None && match provs[t as int].owned_by {
            None => false,
            Some(o) => if enemy {
                o.owner != army.owner && relation_between(countries, army.owner, o.owner) == Relation::War
            } else {
                o.owner == army.owner
            },
        }
}

/// Neighbours of `army`'s province that pass `target_test`, in neighbour order.
pub open spec fn targets(provs: Seq<Province>, countries: Seq<Country>, army: Army, enemy: bool) -> Seq<usize> {
    provs[army.province as int].neighbors@.filter(target_test(provs, countries, army, enemy))
}

/// Where `army` decides to go: with a `MOVE_CHANCE` in a hundred it moves;
/// it then goes for an enemy target with an `ATTACK_CHANCE` in a hundred when
/// there is one, and otherwise for a friendly target.
pub open spec fn army_choice(provs: Seq<Province>, countries: Seq<Country>, army: Army, go: u64, attack: u64, pick: u64) -> Option<usize> {
    let enemies = targets(provs, countries, army, true);
    let friends = targets(provs, countries, army, false);
    if go % 100 >= MOVE_CHANCE {
        None
    } else if enemies.len() > 0 && attack % 100 < ATTACK_CHANCE {
        Some(enemies[(pick % enemies.len() as u64) as int])
    } else if friends.len() > 0 {
        Some(friends[(pick % friends.len() as u64) as int])
    } else {
        None
    }
}

/// Where army `a` of `w` decides to go.
pub open spec fn move_choice(w: World, a: int, go: u64, attack: u64, pick: u64) -> Option<usize> {
    army_choice(w.provinces@, w.countries@, w.armies@[a], go, attack, pick)
}

proof fn lemma_choice_valid(provs: Seq<Province>, countries: Seq<Country>, army: Army, go: u64, attack: u64, pick: u64)
    requires
        provs[army.province as int].neighbors@.len() <= u64::MAX,
    ensures
        army_choice(provs, countries, army, go, attack, pick) matches Some(t) ==> order_error(provs, countries, army, t) is None,
{
    let enemies = targets(provs, countries, army, true);
    let friends = targets(provs, countries, army, false);
    let nb = provs[army.province as int].neighbors@;
    nb.lemma_filter_len(target_test(provs, countries, army, true));
    nb.lemma_filter_len(target_test(provs, countries, army, false));
    if enemies.len() > 0 {
        nb.lemma_filter_pred(target_test(provs, countries, army, true), (pick % enemies.len() as u64) as int);
    }
    if friends.len() > 0 {
        nb.lemma_filter_pred(target_test(provs, countries, army, false), (pick % friends.len() as u64) as int);
    }
}

fn filter_neighbors(world: &World, a: usize, enemy: bool) -> (r: Vec<usize>)
    requires
        world.wf(),
        a < world.armies@.len(),
    ensures
        r@ == targets(world.provinces@, world.countries@, world.armies@[a as int], enemy),
{
    let army = world.armies[a];
    let ghost pred = target_test(world.provinces@, world.countries@, army, enemy);
    proof {
        assert(crate::model::army_wf(army, world.provinces@.len() as int, world.countries@.len() as int));
    }
    let ghost here = world.provinces@[army.province as int];
    let mut r: Vec<usize> = Vec::new();
    let mut k: usize = 0;
    let n = world.provinces[army.province].neighbors.len();
    proof {
        assert(crate::model::province_wf(here, world.provinces@.len() as int, world.countries@.len() as int));
    }
    while k < n
        invariant
            world.wf(),
            a < world.armies@.len(),
            army == world.armies@[a as int],
            army.province < world.provinces@.len(),
            army.owner < world.countries@.len(),
            k <= n,
            n == here.neighbors@.len(),
            here == world.provinces@[army.province as int],
            crate::model::province_wf(here, world.provinces@.len() as int, world.countries@.len() as int),
            pred == target_test(world.provinces@, world.countries@, army, enemy),
            r@ == here.neighbors@.subrange(0, k as int).filter(pred),
        decreases n - k,
    {
        let t = world.provinces[army.province].neighbors[k];
        assert(t < world.provinces@.len());
        let owned = match world.provinces[t].owned_by {
            Some(o) => if enemy {
                o.owner != army.owner && world.countries[army.owner].relations.get(o.owner) == Relation::War
            } else {
                o.owner == army.owner
            },
            None => false,
        };
        let keep = owned && crate::movement::check_move(world, a, t).is_none();
        proof {
            assert(here.neighbors@.subrange(0, k as int + 1) =~= here.neighbors@.subrange(0, k as int).push(t));
            here.neighbors@.subrange(0, k as int).lemma_filter_push(t, pred);
            assert(pred(t) == keep);
        }
        if keep {
            r.push(t);
        }
        k = k + 1;
    }
    assert(here.neighbors@.subrange(0, n as int) =~= here.neighbors@);
    r
}

/// Decides where army `a` goes, as `move_choice` says, and queues that move,
/// which is always a valid order. When it stays, its queued move is kept.
pub fn ai_move_army(world: &mut World, a: usize, go: u64, attack: u64, pick: u64) -> (r: Option<usize>)
    requires
        old(world).wf(),
        a < old(world).armies@.len(),
    ensures
        r == move_choice(*old(world), a as int, go, attack, pick),
        r matches Some(t) ==> move_error(*old(world), a as int, t) is None,
        final(world).wf(),
        final(world).provinces@ == old(world).provinces@,
        final(world).countries@ == old(world).countries@,
        final(world).player == old(world).player,
        final(world).phase == old(world).phase,
        match r {
            None => final(world).armies@ == old(world).armies@,
            Some(t) => final(world).armies@ == old(world).armies@.update(
                a as int,
                Army { pending_move: Some(PendingMove { target_province: t }), ..old(world).armies@[a as int] },
            ),
        },
{
    let army = world.armies[a];
    proof {
        assert(crate::model::army_wf(army, world.provinces@.len() as int, world.countries@.len() as int));
        assert(world.provinces@[army.province as int].neighbors@.len() == world.provinces@[army.province as int].neighbors.len());
        lemma_choice_valid(world.provinces@, world.countries@, army, go, attack, pick);
    }
    let enemies = filter_neighbors(world, a, true);
    let friends = filter_neighbors(world, a, false);
    let target = if go % 100 >= MOVE_CHANCE {
        None
    } else if enemies.len() > 0 && attack % 100 < ATTACK_CHANCE {
        Some(enemies[(pick % enemies.len() as u64) as usize])
    } else if friends.len() > 0 {
        Some(friends[(pick % friends.len() as u64) as usize])
    } else {
        None
    };
    if let Some(t) = target {
        proof {
            let here = world.provinces@[army.province as int];
            assert(crate::model::province_wf(here, world.provinces@.len() as int, world.countries@.len() as int));
            assert(borders(here, t));
        }
        world.armies[a].pending_move = Some(PendingMove { target_province: t });
        proof {
            let np = world.provinces@.len() as int;
            let nc = world.countries@.len() as int;
            assert forall|i: int| 0 <= i < world.armies@.len() implies crate::model::army_wf(#[trigger] world.armies@[i], np, nc) by {
                assert(crate::model::army_wf(old(world).armies@[i], np, nc));
            }
        }
    }
    target
}

/// Countries other than `c` that `c` is at peace with (`war == false`) or at
/// war with (`war == true`).
pub open spec fn rivals(w: World, c: usize, war: bool) -> Seq<usize> {
    indices_where(w.countries@.len() as int, rival_test(w, c, war))
}

/// The test a country `d` passes to count among the rivals of `c`.
pub open spec fn rival_test(w: World, c: usize, war: bool) -> spec_fn(int) -> bool {
    |d: int| d != c && (relation_between(w.countries@, c, d as usize) == Relation::War) == war
}

fn rivals_exec(world: &World, c: usize, war: bool) -> (r: Vec<usize>)
    requires
        c < world.countries@.len(),
    ensures
        r@ == rivals(*world, c, war),
{
    let ghost pred = rival_test(*world, c, war);
    let mut r: Vec<usize> = Vec::new();
    let mut d: usize = 0;
    while d < world.countries.len()
        invariant
            d <= world.countries@.len(),
            c < world.countries@.len(),
            pred == rival_test(*world, c, war),
            r@ == indices_where(d as int, pred),
        decreases world.countries@.len() - d,
    {
        if d != c && (world.countries[c].relations.get(d) == Relation::War) == war {
            r.push(d);
        }
        d = d + 1;
    }
    r
}

/// Country `c` turns on the rival picked by `pick`: it declares war on a
/// country it is at peace with (`war`), or makes peace with one it is at war
/// with (`!war`). Returns the notification, if a rival was available.
pub fn ai_change_relation(world: &mut World, c: usize, war: bool, pick: u64) -> (r: Option<crate::diplomacy::DiplomacyChanged>)
    requires
        old(world).wf(),
        c < old(world).countries@.len(),
    ensures
        final(world).wf(),
        final(world).countries@.len() == old(world).countries@.len(),
        final(world).provinces@.len() == old(world).provinces@.len(),
        final(world).armies@ == old(world).armies@,
        final(world).player == old(world).player,
        final(world).phase == old(world).phase,
        rivals(*old(world), c, !war).len() == 0 <==> r is None,
        r is None ==> *final(world) == *old(world),
        r matches Some(ev) ==> {
            let targets = rivals(*old(world), c, !war);
            &&& ev.declarer == c
            &&& ev.target == targets[(pick % targets.len() as u64) as int]
            &&& ev.new_relation == if war { Relation::War } else { Relation::Peace }
            &&& crate::diplomacy::relation_applied(*old(world), *final(world), ev)
        },
{
    let targets = rivals_exec(world, c, !war);
    if targets.len() == 0 {
        return None;
    }
    let t = targets[(pick % targets.len() as u64) as usize];
    let nc = world.countries.len();
    proof {
        lemma_indices_where_bound(nc as int, rival_test(*world, c, !war));
    }
    let relation = if war {
        Relation::War
    } else {
        Relation::Peace
    };
    Some(set_relation(world, c, t, relation))
}

/// `prov` with a building of type `b` added.
pub open spec fn with_building(prov: Province, b: BuildingType) -> Province {
    Province {
        buildings: crate::model::Buildings {
            farm: prov.buildings.farm || b == BuildingType::Farm,
            mine: prov.buildings.mine || b == BuildingType::Mine,
            barracks: prov.buildings.barracks || b == BuildingType::Barracks,
        },
        ..prov
    }
}

/// `prov` belongs to an AI country of `w` whose handle is below `bound`.
pub open spec fn ai_owned_below(w: World, prov: Province, bound: int) -> bool {
    match prov.owned_by {
        None => false,
        Some(o) => o.owner < bound && o.owner < w.countries@.len() && w.countries@[o.owner as int].ai_controlled,
    }
}

/// What country `c` did in the building phase, given its decision `choice`:
/// nothing, or it paid for building `b` in its province `p`, which lacked
/// one. Its other provinces are untouched.
pub open spec fn build_outcome(old: World, new: World, c: int, choice: Option<(usize, BuildingType)>) -> bool {
    match choice {
        None => new.countries@[c] == old.countries@[c] && forall|q: int|
            0 <= q < old.provinces@.len() && old.provinces@[q].owned_by == Some(OwnedBy { owner: c as usize })
                ==> #[trigger] new.provinces@[q] == old.provinces@[q],
        Some((p, b)) => {
            &&& old.countries@[c].gold >= b.spec_cost()
            &&& new.countries@[c] == (Country { gold: (old.countries@[c].gold - b.spec_cost()) as u64, ..old.countries@[c] })
            &&& p < old.provinces@.len()
            &&& old.provinces@[p as int].owned_by == Some(OwnedBy { owner: c as usize })
            &&& !old.provinces@[p as int].buildings.has(b)
            &&& new.provinces@[p as int] == with_building(old.provinces@[p as int], b)
            &&& forall|q: int|
                0 <= q < old.provinces@.len() && q != p && old.provinces@[q].owned_by == Some(OwnedBy { owner: c as usize })
                    ==> #[trigger] new.provinces@[q] == old.provinces@[q]
        },
    }
}

/// `new` is `old` after the building phase: every AI country did what
/// `build_choice` decides for some picks, and nothing else changed.
pub open spec fn build_phase(old: World, new: World) -> bool {
    let nc = old.countries@.len();
    &&& new.armies@ == old.armies@
    &&& new.player == old.player
    &&& new.phase == old.phase
    &&& new.countries@.len() == nc
    &&& new.provinces@.len() == old.provinces@.len()
    &&& forall|p: int|
        0 <= p < old.provinces@.len() && !ai_owned_below(old, old.provinces@[p], nc as int) ==> #[trigger] new.provinces@[p]
            == old.provinces@[p]
    &&& forall|c: int| 0 <= c < nc && !old.countries@[c].ai_controlled ==> #[trigger] new.countries@[c] == old.countries@[c]
    &&& forall|c: int|
        0 <= c < nc && (#[trigger] old.countries@[c]).ai_controlled ==> exists|pb: u64, pp: u64|
            #[trigger] build_outcome(old, new, c, build_choice(old, c as usize, pb, pp))
}

proof fn lemma_indices_where_agree(n: int, f: spec_fn(int) -> bool, g: spec_fn(int) -> bool)
    requires
        forall|i: int| 0 <= i < n ==> #[trigger] f(i) == g(i),
    ensures
        indices_where(n, f) == indices_where(n, g),
    decreases n,
{
    if n > 0 {
        lemma_indices_where_agree(n - 1, f, g);
        assert(f(n - 1) == g(n - 1));
    }
}

/// Test for an AI-controlled country.
pub open spec fn ai_country_test(w: World) -> spec_fn(int) -> bool {
    |c: int| w.countries@[c].ai_controlled
}

/// The AI's building phase, as `build_phase` describes: each AI country draws
/// two picks from `dice` and builds at most once. When those picks are
/// determined, each country's outcome is what they decide.
pub fn ai_build_buildings(world: &mut World, dice: &mut Dice)
    requires
        old(world).wf(),
    ensures
        final(world).wf(),
        build_phase(*old(world), *final(world)),
        determined(*old(dice), (2 * old(world).countries@.len()) as int) ==> forall|c: int|
            #![trigger old(world).countries@[c]]
            0 <= c < old(world).countries@.len() && (ai_country_test(*old(world)))(c) ==> {
                let k = (2 * indices_where(c, ai_country_test(*old(world))).len()) as int;
                let (sc, c0) = (old(dice).script@, old(dice).cursor as int);
                build_outcome(
                    *old(world),
                    *final(world),
                    c,
                    build_choice(*old(world), c as usize, nth_draw(sc, c0, k), nth_draw(sc, c0, k + 1)),
                )
            },
{
    let ghost start = *world;
    let ghost test = ai_country_test(start);
    let ghost sc = dice.script@;
    let ghost dice0 = *dice;
    let ghost c0 = dice.cursor as int;
    let ghost exact = determined(dice0, (2 * start.countries@.len()) as int);
    let ghost mut picks: Seq<(u64, u64)> = Seq::empty();
    let nc = world.countries.len();
    let np = world.provinces.len();
    let mut c: usize = 0;
    while c < nc
        invariant
            world.wf(),
            start == *old(world),
            nc == start.countries@.len(),
            np == start.provinces@.len(),
            c <= nc,
            picks.len() == c,
            test == ai_country_test(start),
            sc == old(dice).script@,
            dice0 == *old(dice),
            c0 == dice0.cursor,
            exact == determined(dice0, (2 * start.countries@.len()) as int),
            exact ==> drawn(dice0, *dice, (2 * indices_where(c as int, test).len()) as int),
            exact ==> forall|k: int| 0 <= k < c && test(k) ==> {
                let j = (2 * indices_where(k, test).len()) as int;
                #[trigger] picks[k] == (nth_draw(sc, c0, j), nth_draw(sc, c0, j + 1))
            },
            world.armies@ == start.armies@,
            world.player == start.player,
            world.phase == start.phase,
            world.countries@.len() == nc,
            world.provinces@.len() == np,
            forall|p: int| 0 <= p < np ==> #[trigger] world.provinces@[p] == (Province {
                buildings: world.provinces@[p].buildings,
                ..start.provinces@[p]
            }),
            forall|p: int| 0 <= p < np && !ai_owned_below(start, start.provinces@[p], c as int) ==> #[trigger] world.provinces@[p]
                == start.provinces@[p],
            forall|k: int| c <= k < nc ==> #[trigger] world.countries@[k] == start.countries@[k],
            forall|k: int| 0 <= k < c && !start.countries@[k].ai_controlled ==> #[trigger] world.countries@[k] == start.countries@[k],
            forall|k: int|
                0 <= k < c && (#[trigger] start.countries@[k]).ai_controlled ==> build_outcome(
                    start,
                    *world,
                    k,
                    build_choice(start, k as usize, picks[k].0, picks[k].1),
                ),
        decreases nc - c,
    {
        let ghost before = *world;
        proof {
            lemma_indices_where_bound(c as int, test);
            assert(test(c as int) == start.countries@[c as int].ai_controlled);
        }
        if world.countries[c].ai_controlled {
            let ghost j = (2 * indices_where(c as int, test).len()) as int;
            let ghost d0 = *dice;
            let pick_building = dice.draw();
            let ghost d1 = *dice;
            let pick_province = dice.draw();
            proof {
                if exact {
                    lemma_next_draw(dice0, d0, j, d1, pick_building);
                    lemma_next_draw(dice0, d1, j + 1, *dice, pick_province);
                    assert(indices_where(c as int + 1, test) == indices_where(c as int, test).push(c));
                }
                assert forall|b: BuildingType| indices_where(np as int, build_sites(before.provinces@, c, b)) == indices_where(
                    np as int,
                    build_sites(start.provinces@, c, b),
                ) by {
                    assert forall|i: int| 0 <= i < np implies #[trigger] build_sites(before.provinces@, c, b)(i) == build_sites(
                        start.provinces@,
                        c,
                        b,
                    )(i) by {
                        assert(before.provinces@[i] == (Province { buildings: before.provinces@[i].buildings, ..start.provinces@[i] }));
                        if start.provinces@[i].owned_by == Some(OwnedBy { owner: c }) {
                            assert(!ai_owned_below(start, start.provinces@[i], c as int));
                        }
                    }
                    lemma_indices_where_agree(np as int, build_sites(before.provinces@, c, b), build_sites(start.provinces@, c, b));
                }
                assert(build_choice(before, c, pick_building, pick_province) == build_choice(start, c, pick_building, pick_province));
            }
            let r = ai_build_for(world, c, pick_building, pick_province);
            proof {
                picks = picks.push((pick_building, pick_province));
                let after = *world;
                match r {
                    None => {},
                    Some((p, b)) => {
                        lemma_indices_where_bound(np as int, build_sites(start.provinces@, c, b));
                        let sites = indices_where(np as int, build_sites(start.provinces@, c, b));
                        assert(build_sites(start.provinces@, c, b)(sites[(pick_province % sites.len() as u64) as int] as int));
                        assert(start.provinces@[p as int].owned_by == Some(OwnedBy { owner: c }));
                        assert(!ai_owned_below(start, start.provinces@[p as int], c as int));
                        assert(before.provinces@[p as int] == start.provinces@[p as int]);
                    },
                }
                assert forall|k: int|
                    0 <= k < c + 1 && (#[trigger] start.countries@[k]).ai_controlled implies build_outcome(
                        start,
                        after,
                        k,
                        build_choice(start, k as usize, picks[k].0, picks[k].1),
                    ) by {
                    if k < c {
                        assert(build_outcome(start, before, k, build_choice(start, k as usize, picks[k].0, picks[k].1)));
                        match build_choice(start, k as usize, picks[k].0, picks[k].1) {
                            None => {
                                assert forall|q: int|
                                    0 <= q < np && start.provinces@[q].owned_by == Some(OwnedBy { owner: k as usize })
                                        implies #[trigger] after.provinces@[q] == start.provinces@[q] by {
                                    assert(before.provinces@[q] == start.provinces@[q]);
                                }
                            },
                            Some((site, kind)) => {
                                assert(after.provinces@[site as int] == before.provinces@[site as int]);
                                assert forall|q: int|
                                    0 <= q < np && q != site && start.provinces@[q].owned_by == Some(OwnedBy { owner: k as usize })
                                        implies #[trigger] after.provinces@[q] == start.provinces@[q] by {
                                    assert(before.provinces@[q] == start.provinces@[q]);
                                }
                            },
                        }
                    } else {
                        assert(picks[k] == (pick_building, pick_province));
                    }
                }
            }
        } else {
            proof {
                picks = picks.push((0, 0));
            }
        }
        proof {
            assert forall|p: int| 0 <= p < np && !ai_owned_below(start, start.provinces@[p], c as int + 1) implies #[trigger] world.provinces@[p]
                == start.provinces@[p] by {
                assert(!ai_owned_below(start, start.provinces@[p], c as int));
            }
        }
        c = c + 1;
    }
    proof {
        if exact {
            assert forall|k: int| #![trigger start.countries@[k]] 0 <= k < nc && test(k) implies {
                let j = (2 * indices_where(k, test).len()) as int;
                build_outcome(start, *world, k, build_choice(start, k as usize, nth_draw(sc, c0, j), nth_draw(sc, c0, j + 1)))
            } by {
                assert(start.countries@[k].ai_controlled);
                assert(build_outcome(start, *world, k, build_choice(start, k as usize, picks[k].0, picks[k].1)));
            }
        }
        assert forall|k: int| 0 <= k < nc && (#[trigger] start.countries@[k]).ai_controlled implies exists|pb: u64, pp: u64|
            #[trigger] build_outcome(start, *world, k, build_choice(start, k as usize, pb, pp)) by {
            assert(build_outcome(start, *world, k, build_choice(start, k as usize, picks[k].0, picks[k].1)));
        }
    }
}

/// Country `c` raises an army in the recruiting phase: it is AI-controlled,
/// can pay, and owns a province with barracks.
pub open spec fn recruits(w: World, c: int) -> bool {
    &&& w.countries@[c].ai_controlled
    &&& w.countries@[c].gold >= RECRUIT_COST
    &&& indices_where(w.provinces@.len() as int, barracks_sites(w.provinces@, c as usize)).len() > 0
}

pub open spec fn recruit_test(w: World) -> spec_fn(int) -> bool {
    |c: int| recruits(w, c)
}

/// The countries that raise an army, in country order.
pub open spec fn recruiters(w: World) -> Seq<usize> {
    indices_where(w.countries@.len() as int, recruit_test(w))
}

/// `new` is `old` after the recruiting phase: each recruiting country pays
/// `RECRUIT_COST` and gets one new army of `RECRUIT_UNITS` in one of its
/// barracks provinces; the new armies follow the old ones in country order.
pub open spec fn recruit_phase(old: World, new: World) -> bool {
    let fresh = recruiters(old);
    &&& new.provinces@ == old.provinces@
    &&& new.player == old.player
    &&& new.phase == old.phase
    &&& new.countries@.len() == old.countries@.len()
    &&& forall|c: int| 0 <= c < old.countries@.len() ==> #[trigger] new.countries@[c] == if recruits(old, c) {
        Country { gold: (old.countries@[c].gold - RECRUIT_COST) as u64, ..old.countries@[c] }
    } else {
        old.countries@[c]
    }
    &&& new.armies@.len() == old.armies@.len() + fresh.len()
    &&& new.armies@.subrange(0, old.armies@.len() as int) == old.armies@
    &&& forall|i: int| old.armies@.len() <= i < new.armies@.len() ==> {
        let a = #[trigger] new.armies@[i];
        let c = fresh[i - old.armies@.len()];
        &&& a.owner == c
        &&& a.units == RECRUIT_UNITS
        &&& a.pending_move is None
        &&& !a.has_acted
        &&& a.province < old.provinces@.len()
        &&& barracks_sites(old.provinces@, c)(a.province as int)
    }
}

/// The AI's recruiting phase, as `recruit_phase` describes; `dice` only picks
/// among a country's barracks provinces.
pub fn ai_recruit_armies(world: &mut World, dice: &mut Dice)
    requires
        old(world).wf(),
    ensures
        final(world).wf(),
        recruit_phase(*old(world), *final(world)),
        determined(*old(dice), old(world).countries@.len() as int) ==> forall|i: int|
            old(world).armies@.len() <= i < final(world).armies@.len() ==> {
                let c = final(world).armies@[i].owner;
                let k = indices_where(c as int, ai_country_test(*old(world))).len() as int;
                #[trigger] final(world).armies@[i].province == recruit_choice(
                    *old(world),
                    c,
                    nth_draw(old(dice).script@, old(dice).cursor as int, k),
                )->0
            },
{
    let ghost start = *world;
    let ghost test = recruit_test(start);
    let ghost aitest = ai_country_test(start);
    let ghost dice0 = *dice;
    let ghost sc = dice.script@;
    let ghost c0 = dice.cursor as int;
    let n0 = world.armies.len();
    let nc = world.countries.len();
    let mut c: usize = 0;
    while c < nc
        invariant
            world.wf(),
            start == *old(world),
            test == recruit_test(start),
            aitest == ai_country_test(start),
            dice0 == *old(dice),
            sc == dice0.script@,
            c0 == dice0.cursor,
            determined(dice0, nc as int) ==> drawn(dice0, *dice, indices_where(c as int, aitest).len() as int),
            determined(dice0, nc as int) ==> forall|i: int| n0 <= i < world.armies@.len() ==> {
                let k = indices_where(world.armies@[i].owner as int, aitest).len() as int;
                #[trigger] world.armies@[i].province == recruit_choice(start, world.armies@[i].owner, nth_draw(sc, c0, k))->0
            },
            n0 == start.armies@.len(),
            nc == start.countries@.len(),
            c <= nc,
            world.provinces@ == start.provinces@,
            world.player == start.player,
            world.phase == start.phase,
            world.countries@.len() == nc,
            forall|k: int| 0 <= k < c ==> #[trigger] world.countries@[k] == if recruits(start, k) {
                Country { gold: (start.countries@[k].gold - RECRUIT_COST) as u64, ..start.countries@[k] }
            } else {
                start.countries@[k]
            },
            forall|k: int| c <= k < nc ==> #[trigger] world.countries@[k] == start.countries@[k],
            world.armies@.len() == n0 + indices_where(c as int, test).len(),
            world.armies@.subrange(0, n0 as int) == start.armies@,
            forall|i: int| n0 <= i < world.armies@.len() ==> {
                let a = #[trigger] world.armies@[i];
                let k = indices_where(c as int, test)[i - n0];
                &&& a.owner == k
                &&& a.units == RECRUIT_UNITS
                &&& a.pending_move is None
                &&& !a.has_acted
                &&& a.province < start.provinces@.len()
                &&& barracks_sites(start.provinces@, k)(a.province as int)
            },
        decreases nc - c,
    {
        let ghost before = *world;
        let ghost fresh = indices_where(c as int, test);
        proof {
            lemma_indices_where_bound(c as int, aitest);
            assert(aitest(c as int) == start.countries@[c as int].ai_controlled);
        }
        if world.countries[c].ai_controlled {
            let ghost j = indices_where(c as int, aitest).len() as int;
            let ghost d0 = *dice;
            let pick = dice.draw();
            proof {
                if determined(dice0, nc as int) {
                    lemma_next_draw(dice0, d0, j, *dice, pick);
                    assert(indices_where(c as int + 1, aitest) == indices_where(c as int, aitest).push(c));
                }
            }
            let np = world.provinces.len();
            let r = ai_recruit_for(world, c, pick);
            proof {
                assert(recruit_choice(before, c, pick) == recruit_choice(start, c, pick));
                lemma_indices_where_bound(np as int, barracks_sites(start.provinces@, c));
                assert(r is Some <==> recruits(start, c as int));
                assert(world.armies@.subrange(0, n0 as int) =~= before.armies@.subrange(0, n0 as int));
                if let Some(p) = r {
                    let last = world.armies@[world.armies@.len() - 1];
                    assert(last.province == p);
                    assert(barracks_sites(start.provinces@, c)(p as int) && p < np);
                }
            }
        }
        proof {
            assert(test(c as int) == recruits(start, c as int));
            let next = indices_where(c as int + 1, test);
            assert forall|i: int| n0 <= i < world.armies@.len() implies {
                let a = #[trigger] world.armies@[i];
                let k = next[i - n0];
                &&& a.owner == k
                &&& a.units == RECRUIT_UNITS
                &&& a.pending_move is None
                &&& !a.has_acted
                &&& a.province < start.provinces@.len()
                &&& barracks_sites(start.provinces@, k)(a.province as int)
            } by {
                if i < before.armies@.len() {
                    assert(world.armies@[i] == before.armies@[i]);
                    assert(next[i - n0] == fresh[i - n0]);
                } else {
                    assert(recruits(start, c as int));
                    assert(next == fresh.push(c));
                    assert(next[i - n0] == c);
                }
            }
            if determined(dice0, nc as int) {
                assert forall|i: int| n0 <= i < world.armies@.len() implies {
                    let k = indices_where(world.armies@[i].owner as int, aitest).len() as int;
                    #[trigger] world.armies@[i].province == recruit_choice(start, world.armies@[i].owner, nth_draw(sc, c0, k))->0
                } by {
                    if i < before.armies@.len() {
                        assert(world.armies@[i] == before.armies@[i]);
                    }
                }
            }
        }
        c = c + 1;
    }
    proof {
        assert(world.countries@.len() == nc);
    }
}

/// `m` is a move that army `i` of `w` may choose: a valid order, and what
/// `move_choice` gives for some draws.
pub open spec fn chosen_move(w: World, i: int, m: Option<PendingMove>) -> bool {
    match m {
        None => false,
        Some(m) => move_error(w, i, m.target_province) is None && exists|go: u64, attack: u64, pick: u64|
            #[trigger] move_choice(w, i, go, attack, pick) == Some(m.target_province),
    }
}

/// `new` is `old` after the movement phase: only queued moves change, only for
/// armies of AI countries, and every newly queued move is a valid order that
/// `move_choice` makes for some draws.
pub open spec fn move_phase(old: World, new: World) -> bool {
    &&& new.provinces@ == old.provinces@
    &&& new.countries@ == old.countries@
    &&& new.player == old.player
    &&& new.phase == old.phase
    &&& new.armies@.len() == old.armies@.len()
    &&& forall|i: int| 0 <= i < old.armies@.len() ==> {
        let (x, y) = (#[trigger] new.armies@[i], old.armies@[i]);
        &&& x == (Army { pending_move: x.pending_move, ..y })
        &&& !old.countries@[y.owner as int].ai_controlled ==> x == y
        &&& x.pending_move != y.pending_move ==> chosen_move(old, i, x.pending_move)
    }
}

/// Test for an army whose owner is AI-controlled.
pub open spec fn ai_army_test(w: World) -> spec_fn(int) -> bool {
    |i: int| w.countries@[w.armies@[i].owner as int].ai_controlled
}

/// The queued move of army `i` after the movement phase, when its draws are
/// `go`, `attack` and `pick`.
pub open spec fn scripted_move(w: World, i: int, go: u64, attack: u64, pick: u64) -> Option<PendingMove> {
    match move_choice(w, i, go, attack, pick) {
        Some(t) => Some(PendingMove { target_province: t }),
        None => w.armies@[i].pending_move,
    }
}

/// The AI's movement phase, as `move_phase` describes: each army of an AI
/// country may queue a move, drawing three numbers from `dice`. When the
/// script holds those numbers, the outcome is exactly what they decide.
pub fn ai_move_armies(world: &mut World, dice: &mut Dice)
    requires
        old(world).wf(),
    ensures
        final(world).wf(),
        move_phase(*old(world), *final(world)),
        determined(*old(dice), (3 * old(world).armies@.len()) as int) ==> forall|i: int|
            0 <= i < old(world).armies@.len() && (ai_army_test(*old(world)))(i) ==> {
                let k = (3 * indices_where(i, ai_army_test(*old(world))).len()) as int;
                let (sc, c0) = (old(dice).script@, old(dice).cursor as int);
                #[trigger] final(world).armies@[i].pending_move == scripted_move(
                    *old(world),
                    i,
                    nth_draw(sc, c0, k),
                    nth_draw(sc, c0, k + 1),
                    nth_draw(sc, c0, k + 2),
                )
            },
{
    let ghost start = *world;
    let ghost test = ai_army_test(start);
    let ghost dice0 = *dice;
    let ghost sc = dice.script@;
    let ghost c0 = dice.cursor as int;
    let ghost exact = determined(dice0, (3 * start.armies@.len()) as int);
    let mut a: usize = 0;
    while a < world.armies.len()
        invariant
            world.wf(),
            start == *old(world),
            test == ai_army_test(start),
            dice0 == *old(dice),
            sc == dice0.script@,
            c0 == dice0.cursor,
            exact == determined(dice0, (3 * start.armies@.len()) as int),
            a <= start.armies@.len(),
            exact ==> drawn(dice0, *dice, (3 * indices_where(a as int, test).len()) as int),
            exact ==> forall|i: int| 0 <= i < a && test(i) ==> {
                let k = (3 * indices_where(i, test).len()) as int;
                #[trigger] world.armies@[i].pending_move == scripted_move(
                    start,
                    i,
                    nth_draw(sc, c0, k),
                    nth_draw(sc, c0, k + 1),
                    nth_draw(sc, c0, k + 2),
                )
            },
            world.provinces@ == start.provinces@,
            world.countries@ == start.countries@,
            world.player == start.player,
            world.phase == start.phase,
            world.armies@.len() == start.armies@.len(),
            forall|i: int| 0 <= i < a ==> {
                let (x, y) = (#[trigger] world.armies@[i], start.armies@[i]);
                &&& x == (Army { pending_move: x.pending_move, ..y })
                &&& !start.countries@[y.owner as int].ai_controlled ==> x == y
                &&& x.pending_move != y.pending_move ==> chosen_move(start, i, x.pending_move)
            },
            forall|i: int| a <= i < start.armies@.len() ==> #[trigger] world.armies@[i] == start.armies@[i],
        decreases start.armies@.len() - a,
    {
        let owner = world.armies[a].owner;
        let ghost before = *world;
        proof {
            assert(crate::model::army_wf(world.armies@[a as int], world.provinces@.len() as int, world.countries@.len() as int));
            lemma_indices_where_bound(a as int, test);
            assert(test(a as int) == world.countries@[owner as int].ai_controlled);
        }
        if world.countries[owner].ai_controlled {
            let ghost k = (3 * indices_where(a as int, test).len()) as int;
            let ghost d0 = *dice;
            let go = dice.draw();
            let ghost d1 = *dice;
            let attack = dice.draw();
            let ghost d2 = *dice;
            let pick = dice.draw();
            proof {
                if exact {
                    lemma_next_draw(dice0, d0, k, d1, go);
                    lemma_next_draw(dice0, d1, k + 1, d2, attack);
                    lemma_next_draw(dice0, d2, k + 2, *dice, pick);
                    assert(indices_where(a as int + 1, test) == indices_where(a as int, test).push(a as usize));
                }
            }
            let r = ai_move_army(world, a, go, attack, pick);
            proof {
                if let Some(t) = r {
                    assert(move_choice(start, a as int, go, attack, pick) == Some(t));
                }
                assert(world.armies@[a as int].pending_move == scripted_move(start, a as int, go, attack, pick));
            }
        }
        proof {
            if exact {
                assert forall|i: int| 0 <= i < a + 1 && test(i) implies {
                    let k = (3 * indices_where(i, test).len()) as int;
                    #[trigger] world.armies@[i].pending_move == scripted_move(
                        start,
                        i,
                        nth_draw(sc, c0, k),
                        nth_draw(sc, c0, k + 1),
                        nth_draw(sc, c0, k + 2),
                    )
                } by {
                    if i < a {
                        assert(world.armies@[i] == before.armies@[i]);
                    }
                }
            }
        }
        a = a + 1;
    }
}

/// `x` is `y`, or `y` handed to its occupier by a peace.
pub open spec fn same_or_transferred(y: Province, x: Province) -> bool {
    x == y || match y.occupied {
        None => false,
        Some(o) => x == (Province { owned_by: Some(OwnedBy { owner: o.occupier }), occupied: None, ..y }),
    }
}

/// `new` differs from `old` only by relation changes in which an AI country
/// takes part, and by the peace transfers those cause.
pub open spec fn diplomacy_phase(old: World, new: World) -> bool {
    let nc = old.countries@.len();
    &&& new.countries@.len() == nc
    &&& new.provinces@.len() == old.provinces@.len()
    &&& new.armies@ == old.armies@
    &&& new.player == old.player
    &&& new.phase == old.phase
    &&& forall|c: int| 0 <= c < nc ==> same_but_relations(#[trigger] new.countries@[c], old.countries@[c])
    &&& forall|a: usize, b: usize|
        a < nc && #[trigger] relation_between(new.countries@, a, b) != relation_between(old.countries@, a, b) ==> b < nc
            && (old.countries@[a as int].ai_controlled || old.countries@[b as int].ai_controlled)
    &&& forall|p: int| 0 <= p < old.provinces@.len() ==> same_or_transferred(old.provinces@[p], #[trigger] new.provinces@[p])
}

/// The countries that `c` may turn on in a round: those at peace with it
/// in a round of declarations (`war`), those at war with it otherwise.
pub open spec fn turnable(w: World, c: usize, war: bool) -> Seq<usize> {
    rivals(w, c, !war)
}

/// The relation a round of declarations (`war`) or of peace offers sets.
pub open spec fn round_relation(war: bool) -> Relation {
    if war {
        Relation::War
    } else {
        Relation::Peace
    }
}

/// `new` is `old` after a round in which every AI country, in order, does
/// what `ai_change_relation` does: every changed relation takes the round's
/// value, and every AI country that had a rival to turn on ends the round
/// with the round's relation towards one of them.
pub open spec fn diplomacy_round(old: World, new: World, war: bool) -> bool {
    let nc = old.countries@.len();
    &&& diplomacy_phase(old, new)
    &&& forall|a: usize, b: usize|
        a < nc && #[trigger] relation_between(new.countries@, a, b) != relation_between(old.countries@, a, b)
            ==> relation_between(new.countries@, a, b) == round_relation(war)
    &&& forall|c: int|
        0 <= c < nc && old.countries@[c].ai_controlled && #[trigger] turnable(old, c as usize, war).len() > 0 ==> exists|d: usize|
            d < nc && d != c && relation_between(old.countries@, c as usize, d) != round_relation(war)
                && #[trigger] relation_between(new.countries@, c as usize, d) == round_relation(war)
}

proof fn lemma_rival_member(w: World, c: usize, war: bool, d: usize)
    requires
        w.countries@.len() <= usize::MAX,
        d < w.countries@.len(),
    ensures
        rivals(w, c, war).contains(d) <==> (d != c && (relation_between(w.countries@, c, d) == Relation::War) == war),
{
    let n = w.countries@.len() as int;
    lemma_indices_where_bound(n, rival_test(w, c, war));
    if d != c && (relation_between(w.countries@, c, d) == Relation::War) == war {
        crate::model::lemma_indices_where_complete(n, rival_test(w, c, war), d as int);
    }
    if rivals(w, c, war).contains(d) {
        let k = choose|k: int| 0 <= k < rivals(w, c, war).len() && rivals(w, c, war)[k] == d;
        assert(rival_test(w, c, war)(rivals(w, c, war)[k] as int));
    }
}

/// The AI's diplomacy phase. One draw from `dice` decides the round: below
/// `WAR_CHANCE` every AI country declares war on a rival at peace with it;
/// below `WAR_CHANCE + PEACE_CHANCE` every AI country makes peace with an
/// enemy; otherwise nothing happens.
pub fn ai_diplomacy(world: &mut World, dice: &mut Dice)
    requires
        old(world).wf(),
    ensures
        final(world).wf(),
        *final(world) == *old(world) || diplomacy_round(*old(world), *final(world), true) || diplomacy_round(
            *old(world),
            *final(world),
            false,
        ),
        determined(*old(dice), 1) ==> ({
            let roll = nth_draw(old(dice).script@, old(dice).cursor as int, 0) % 100;
            &&& roll >= WAR_CHANCE + PEACE_CHANCE ==> *final(world) == *old(world)
            &&& roll < WAR_CHANCE + PEACE_CHANCE ==> diplomacy_round(*old(world), *final(world), roll < WAR_CHANCE)
        }),
{
    let ghost dice0 = *dice;
    let drawn_roll = dice.draw();
    proof {
        if determined(dice0, 1) {
            lemma_next_draw(dice0, dice0, 0, *dice, drawn_roll);
        }
    }
    let roll = drawn_roll % 100;
    if roll >= WAR_CHANCE + PEACE_CHANCE {
        return;
    }
    let war = roll < WAR_CHANCE;
    let ghost start = *world;
    let ghost rr = round_relation(war);
    let nc = world.countries.len();
    let mut c: usize = 0;
    while c < nc
        invariant
            world.wf(),
            start == *old(world),
            rr == round_relation(war),
            nc == start.countries@.len(),
            c <= nc,
            diplomacy_phase(start, *world),
            forall|a: usize, b: usize|
                a < nc && #[trigger] relation_between(world.countries@, a, b) != relation_between(start.countries@, a, b)
                    ==> relation_between(world.countries@, a, b) == rr,
            forall|k: int|
                0 <= k < c && start.countries@[k].ai_controlled && #[trigger] turnable(start, k as usize, war).len() > 0
                    ==> exists|d: usize|
                    d < nc && d != k && relation_between(start.countries@, k as usize, d) != rr
                        && #[trigger] relation_between(world.countries@, k as usize, d) == rr,
        decreases nc - c,
    {
        let ghost before = *world;
        if world.countries[c].ai_controlled {
            let pick = dice.draw();
            let r = ai_change_relation(world, c, war, pick);
            proof {
                let after = *world;
                match r {
                    None => {
                        if turnable(start, c, war).len() > 0 {
                            lemma_indices_where_bound(nc as int, rival_test(start, c, !war));
                            let d = rivals(start, c, !war)[0];
                            assert(rival_test(start, c, !war)(d as int));
                            lemma_rival_member(before, c, !war, d);
                            assert(relation_between(after.countries@, c, d) == rr);
                        }
                    },
                    Some(ev) => {
                        let t = ev.target;
                        lemma_indices_where_bound(nc as int, rival_test(before, c, !war));
                        let targets = rivals(before, c, !war);
                        assert(rival_test(before, c, !war)(targets[(pick % targets.len() as u64) as int] as int));
                        assert(t != c && relation_between(before.countries@, c, t) != rr);
                        assert(relation_between(start.countries@, c, t) != rr);
                        assert(relation_between(after.countries@, c, t) == rr);
                        assert forall|a: usize, b: usize|
                            a < nc && #[trigger] relation_between(after.countries@, a, b) != relation_between(start.countries@, a, b)
                                implies b < nc && relation_between(after.countries@, a, b) == rr
                                && (start.countries@[a as int].ai_controlled || start.countries@[b as int].ai_controlled) by {
                            if !((a == c && b == t) || (a == t && b == c)) {
                                assert(relation_between(after.countries@, a, b) == relation_between(before.countries@, a, b));
                            } else {
                                assert(same_but_relations(before.countries@[c as int], start.countries@[c as int]));
                            }
                        }
                        assert forall|c2: int| 0 <= c2 < nc implies same_but_relations(
                            #[trigger] after.countries@[c2],
                            start.countries@[c2],
                        ) by {
                            assert(same_but_relations(after.countries@[c2], before.countries@[c2]));
                            assert(same_but_relations(before.countries@[c2], start.countries@[c2]));
                        }
                        assert forall|p: int| 0 <= p < start.provinces@.len() implies same_or_transferred(
                            start.provinces@[p],
                            #[trigger] after.provinces@[p],
                        ) by {
                            assert(after.provinces@[p] == crate::diplomacy::after_peace(ev, after.countries@, before.provinces@[p]));
                            assert(same_or_transferred(start.provinces@[p], before.provinces@[p]));
                        }
                        assert forall|k: int|
                            0 <= k < c + 1 && start.countries@[k].ai_controlled && #[trigger] turnable(start, k as usize, war).len() > 0
                                implies exists|d: usize|
                                d < nc && d != k && relation_between(start.countries@, k as usize, d) != rr
                                    && #[trigger] relation_between(after.countries@, k as usize, d) == rr by {
                            if k < c {
                                let d = choose|d: usize|
                                    d < nc && d != k && relation_between(start.countries@, k as usize, d) != rr
                                        && #[trigger] relation_between(before.countries@, k as usize, d) == rr;
                                assert(relation_between(after.countries@, k as usize, d) == rr);
                            } else {
                                assert(relation_between(after.countries@, c, t) == rr);
                            }
                        }
                    },
                }
            }
        }
        c = c + 1;
    }
    proof {
        assert(diplomacy_round(start, *world, war));
    }
}

} // verus!
