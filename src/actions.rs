use vstd::prelude::*;
use crate::ai::{RECRUIT_COST, RECRUIT_UNITS};
use crate::diplomacy::{DiplomacyChanged, relation_applied, relation_between, set_relation};
use crate::model::{Army, BuildingType, Country, OwnedBy, Province, Relation, World};

verus! {

/// Why a player action was refused.
#[derive(Clone, Copy, Debug, PartialEq, Eq, Structural)]
pub enum ActionError {
    /// The province does not belong to the acting country.
    NotOwner,
    /// The province already has a building of that type.
    AlreadyBuilt,
    /// The province has no barracks to recruit from.
    NoBarracks,
    /// The acting country cannot pay.
    NotEnoughGold,
    /// A country cannot change its relation with itself.
    SameCountry,
}

/// Country `c` buys a building of type `b` in its province `p`.
pub fn purchase_building(world: &mut World, c: usize, p: usize, b: BuildingType) -> (r: Result<(), ActionError>)
    requires
        old(world).wf(),
        c < old(world).countries@.len(),
        p < old(world).provinces@.len(),
    ensures
        final(world).wf(),
        ({
            let prov = old(world).provinces@[p as int];
            let gold = old(world).countries@[c as int].gold;
            if prov.owned_by != Some(OwnedBy { owner: c }) {
                r == Err::<(), ActionError>(ActionError::NotOwner)
            } else if prov.buildings.has(b) {
                r == Err::<(), ActionError>(ActionError::AlreadyBuilt)
            } else if gold < b.spec_cost() {
                r == Err::<(), ActionError>(ActionError::NotEnoughGold)
            } else {
                r is Ok
            }
        }),
        r is Err ==> *final(world) == *old(world),
        r is Ok ==> {
            &&& final(world).provinces@.len() == old(world).provinces@.len()
            &&& forall|q: int| 0 <= q < old(world).provinces@.len() && q != p ==> #[trigger] final(world).provinces@[q]
                == old(world).provinces@[q]
            &&& final(world).provinces@[p as int].buildings@ == old(world).provinces@[p as int].buildings@.insert(b)
            &&& final(world).provinces@[p as int] == (Province {
                buildings: final(world).provinces@[p as int].buildings,
                ..old(world).provinces@[p as int]
            })
            &&& final(world).countries@ == old(world).countries@.update(
                c as int,
                Country { gold: (old(world).countries@[c as int].gold - b.spec_cost()) as u64, ..old(world).countries@[c as int] },
            )
            &&& final(world).armies@ == old(world).armies@
            &&& final(world).player == old(world).player
            &&& final(world).phase == old(world).phase
        },
{
    if world.provinces[p].owned_by != Some(OwnedBy { owner: c }) {
        return Err(ActionError::NotOwner);
    }
    if world.provinces[p].buildings.contains(b) {
        return Err(ActionError::AlreadyBuilt);
    }
    let cost = b.cost();
    let gold = world.countries[c].gold;
    if gold < cost {
        return Err(ActionError::NotEnoughGold);
    }
    world.provinces[p].buildings.add(b);
    world.countries[c].gold = gold - cost;
    proof {
        let np = world.provinces@.len() as int;
        let nc = world.countries@.len() as int;
        assert forall|i: int| 0 <= i < np implies crate::model::province_wf(#[trigger] world.provinces@[i], np, nc) by {
            assert(crate::model::province_wf(old(world).provinces@[i], np, nc));
        }
    }
    Ok(())
}

/// Country `c` raises an army in its province `p`, which must have barracks.
pub fn recruit_army(world: &mut World, c: usize, p: usize) -> (r: Result<(), ActionError>)
    requires
        old(world).wf(),
        c < old(world).countries@.len(),
        p < old(world).provinces@.len(),
    ensures
        final(world).wf(),
        ({
            let prov = old(world).provinces@[p as int];
            if prov.owned_by != Some(OwnedBy { owner: c }) {
                r == Err::<(), ActionError>(ActionError::NotOwner)
            } else if !prov.buildings.has(BuildingType::Barracks) {
                r == Err::<(), ActionError>(ActionError::NoBarracks)
            } else if old(world).countries@[c as int].gold < RECRUIT_COST {
                r == Err::<(), ActionError>(ActionError::NotEnoughGold)
            } else {
                r is Ok
            }
        }),
        r is Err ==> *final(world) == *old(world),
        r is Ok ==> {
            &&& final(world).armies@ == old(world).armies@.push(
                Army { owner: c, province: p, units: RECRUIT_UNITS, pending_move: None, has_acted: false },
            )
            &&& final(world).countries@ == old(world).countries@.update(
                c as int,
                Country { gold: (old(world).countries@[c as int].gold - RECRUIT_COST) as u64, ..old(world).countries@[c as int] },
            )
            &&& final(world).provinces@ == old(world).provinces@
            &&& final(world).player == old(world).player
            &&& final(world).phase == old(world).phase
        },
{
    if world.provinces[p].owned_by != Some(OwnedBy { owner: c }) {
        return Err(ActionError::NotOwner);
    }
    if !world.provinces[p].buildings.contains(BuildingType::Barracks) {
        return Err(ActionError::NoBarracks);
    }
    let gold = world.countries[c].gold;
    if gold < RECRUIT_COST {
        return Err(ActionError::NotEnoughGold);
    }
    world.armies.push(Army { owner: c, province: p, units: RECRUIT_UNITS, pending_move: None, has_acted: false });
    world.countries[c].gold = gold - RECRUIT_COST;
    proof {
        let np = world.provinces@.len() as int;
        let nc = world.countries@.len() as int;
        assert forall|i: int| 0 <= i < world.armies@.len() implies crate::model::army_wf(#[trigger] world.armies@[i], np, nc) by {
            if i < old(world).armies@.len() {
                assert(crate::model::army_wf(old(world).armies@[i], np, nc));
            }
        }
    }
    Ok(())
}

/// Country `c` flips its relation with `target`, war to peace or peace to
/// war, on both sides; the change then takes effect as `set_relation` says.
pub fn toggle_relation(world: &mut World, c: usize, target: usize) -> (r: Result<DiplomacyChanged, ActionError>)
    requires
        old(world).wf(),
        c < old(world).countries@.len(),
        target < old(world).countries@.len(),
    ensures
        final(world).wf(),
        c == target <==> r == Err::<DiplomacyChanged, ActionError>(ActionError::SameCountry),
        c != target ==> r is Ok,
        r is Err ==> *final(world) == *old(world),
        r matches Ok(ev) ==> {
            &&& ev.declarer == c
            &&& ev.target == target
            &&& ev.new_relation == if relation_between(old(world).countries@, c, target) == Relation::War {
                Relation::Peace
            } else {
                Relation::War
            }
            &&& relation_applied(*old(world), *final(world), ev)
        },
{
    if c == target {
        return Err(ActionError::SameCountry);
    }
    let next = match world.countries[c].relations.get(target) {
        Relation::Peace => Relation::War,
        Relation::War => Relation::Peace,
    };
    Ok(set_relation(world, c, target, next))
}

/// Hands country `c` to the human player: it stops being AI-controlled.
pub fn choose_player_country(world: &mut World, c: usize)
    requires
        old(world).wf(),
        c < old(world).countries@.len(),
    ensures
        final(world).wf(),
        final(world).player == Some(c),
        final(world).countries@ == old(world).countries@.update(
            c as int,
            Country { ai_controlled: false, ..old(world).countries@[c as int] },
        ),
        final(world).provinces@ == old(world).provinces@,
        final(world).armies@ == old(world).armies@,
        final(world).phase == old(world).phase,
{
    world.countries[c].ai_controlled = false;
    world.player = Some(c);
}

} // verus!
