use vstd::prelude::*;
use crate::model::{Country, OwnedBy, Province, Relation, World, provinces_wf, relation_in};

verus! {

/// Notification of a change of relation between two countries.
#[derive(Clone, Copy, Debug, PartialEq, Eq, Structural)]
pub struct DiplomacyChanged {
    pub declarer: usize,
    pub target: usize,
    pub new_relation: Relation,
}

/// Relation of country `a` towards country `b` in `countries`.
pub open spec fn relation_between(countries: Seq<Country>, a: usize, b: usize) -> Relation {
    relation_in(countries[a as int].relations.relations@, b as int)
}

/// A province after a relation change: when peace is made, a province
/// occupied by either party passes to its occupier, and its marker is
/// cleared, if the occupier is at peace with the owner.
pub open spec fn after_peace(ev: DiplomacyChanged, countries: Seq<Country>, prov: Province) -> Province {
    match (prov.owned_by, prov.occupied) {
        (Some(o), Some(occ)) => if ev.new_relation == Relation::Peace && (occ.occupier == ev.declarer
            || occ.occupier == ev.target) && relation_between(countries, occ.occupier, o.owner)
            == Relation::Peace {
            Province { owned_by: Some(OwnedBy { owner: occ.occupier }), occupied: None, ..prov }
        } else {
            prov
        },
        _ => prov,
    }
}

/// Applies the ownership consequences of `ev` to every province.
pub fn on_peace_transfer_occupations(world: &mut World, ev: DiplomacyChanged)
    requires
        provinces_wf(old(world).provinces@, old(world).countries@.len() as int),
    ensures
        final(world).provinces@ == old(world).provinces@.map_values(
            |p: Province| after_peace(ev, old(world).countries@, p),
        ),
        final(world).armies@ == old(world).armies@,
        final(world).countries@ == old(world).countries@,
        final(world).player == old(world).player,
        final(world).phase == old(world).phase,
{
    let n = world.provinces.len();
    let mut i: usize = 0;
    while i < n
        invariant
            n == world.provinces@.len(),
            n == old(world).provinces@.len(),
            provinces_wf(old(world).provinces@, old(world).countries@.len() as int),
            i <= n,
            forall|k: int| 0 <= k < i ==> #[trigger] world.provinces@[k] == after_peace(ev, old(world).countries@, old(world).provinces@[k]),
            forall|k: int| i <= k < n ==> #[trigger] world.provinces@[k] == old(world).provinces@[k],
            world.armies@ == old(world).armies@,
            world.countries@ == old(world).countries@,
            world.player == old(world).player,
            world.phase == old(world).phase,
        decreases n - i,
    {
        proof {
            assert(crate::model::province_wf(old(world).provinces@[i as int], n as int, world.countries@.len() as int));
        }
        if ev.new_relation == Relation::Peace {
            if let (Some(o), Some(occ)) = (world.provinces[i].owned_by, world.provinces[i].occupied) {
                if (occ.occupier == ev.declarer || occ.occupier == ev.target)
                    && world.countries[occ.occupier].relations.get(o.owner) == Relation::Peace {
                    world.provinces[i].owned_by = Some(OwnedBy { owner: occ.occupier });
                    world.provinces[i].occupied = None;
                }
            }
        }
        i = i + 1;
    }
    assert(world.provinces@ =~= old(world).provinces@.map_values(
        |p: Province| after_peace(ev, old(world).countries@, p),
    ));
}

/// The countries after `a` and `b` both record `r` towards each other.
pub open spec fn relation_set(countries: Seq<Country>, a: usize, b: usize, r: Relation) -> bool {
    &&& relation_between(countries, a, b) == r
    &&& relation_between(countries, b, a) == r
}

/// `x` is `y` with, at most, other relations.
pub open spec fn same_but_relations(x: Country, y: Country) -> bool {
    x.id == y.id && x.name == y.name && x.color == y.color && x.gold == y.gold && x.flag_path == y.flag_path
        && x.ai_controlled == y.ai_controlled
}

/// `new` is `old` after the relation change `ev`: both parties record the new
/// relation, every other relation stays, the countries are otherwise
/// unchanged, and provinces pass as `after_peace` says.
pub open spec fn relation_applied(old: World, new: World, ev: DiplomacyChanged) -> bool {
    &&& new.countries@.len() == old.countries@.len()
    &&& relation_set(new.countries@, ev.declarer, ev.target, ev.new_relation)
    &&& forall|a: usize, b: usize|
        !((a == ev.declarer && b == ev.target) || (a == ev.target && b == ev.declarer)) && a < old.countries@.len()
            ==> #[trigger] relation_between(new.countries@, a, b) == relation_between(old.countries@, a, b)
    &&& forall|c: int| 0 <= c < old.countries@.len() ==> same_but_relations(#[trigger] new.countries@[c], old.countries@[c])
    &&& new.provinces@.len() == old.provinces@.len()
    &&& forall|p: int| 0 <= p < old.provinces@.len() ==> #[trigger] new.provinces@[p] == after_peace(ev, new.countries@, old.provinces@[p])
    &&& new.armies@ == old.armies@
    &&& new.player == old.player
    &&& new.phase == old.phase
}

/// Sets the relation between `declarer` and `target` on both sides, then
/// applies its ownership consequences. Returns the notification.
pub fn set_relation(world: &mut World, declarer: usize, target: usize, relation: Relation) -> (ev: DiplomacyChanged)
    requires
        old(world).wf(),
        declarer < old(world).countries@.len(),
        target < old(world).countries@.len(),
        declarer != target,
    ensures
        ev == (DiplomacyChanged { declarer, target, new_relation: relation }),
        final(world).wf(),
        relation_applied(*old(world), *final(world), ev),
{
    world.countries[declarer].relations.set(target, relation);
    world.countries[target].relations.set(declarer, relation);
    let ev = DiplomacyChanged { declarer, target, new_relation: relation };
    proof {
        assert forall|a: usize, b: usize|
            !((a == declarer && b == target) || (a == target && b == declarer)) && a < old(world).countries@.len()
                implies #[trigger] relation_between(world.countries@, a, b) == relation_between(old(world).countries@, a, b) by {
            if a == declarer {
                assert(world.countries@[a as int].relations.spec_get(b as int) == old(world).countries@[a as int].relations.spec_get(b as int));
            } else if a == target {
                assert(world.countries@[a as int].relations.spec_get(b as int) == old(world).countries@[a as int].relations.spec_get(b as int));
            }
        }
        assert(relation_between(world.countries@, declarer, target) == relation);
    }
    on_peace_transfer_occupations(world, ev);
    proof {
        let np = world.provinces@.len() as int;
        let nc = world.countries@.len() as int;
        assert forall|i: int| 0 <= i < np implies crate::model::province_wf(#[trigger] world.provinces@[i], np, nc) by {
            assert(crate::model::province_wf(old(world).provinces@[i], np, nc));
        }
    }
    ev
}

/// After peace between two parties, no province that either of them
/// occupies while at peace with its owner stays occupied: it belongs to the
/// occupier and carries no marker.
pub proof fn lemma_peace_transfers_occupations(
    ev: DiplomacyChanged,
    countries: Seq<Country>,
    provinces: Seq<Province>,
    i: int,
)
    requires
        ev.new_relation == Relation::Peace,
        0 <= i < provinces.len(),
        provinces[i].owned_by is Some,
        provinces[i].occupied matches Some(occ) && (occ.occupier == ev.declarer || occ.occupier == ev.target)
            && relation_between(countries, occ.occupier, provinces[i].owned_by.unwrap().owner) == Relation::Peace,
    ensures
        ({
            let after = provinces.map_values(|p: Province| after_peace(ev, countries, p))[i];
            &&& after.owned_by == Some(OwnedBy { owner: provinces[i].occupied.unwrap().occupier })
            &&& after.occupied is None
        }),
{
}

} // verus!
