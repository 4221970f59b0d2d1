use vstd::prelude::*;
use crate::combat::{present, strength};
use crate::model::{Army, Country, PendingMove, Province, Relation, TerrainType, World, relation_in};

verus! {

/// Why a move order was refused.
#[derive(Clone, Copy, Debug, PartialEq, Eq, Structural)]
pub enum MoveError {
    /// The target does not border the army's province.
    NotNeighbor,
    /// Armies cannot enter water.
    Water,
    /// The target is held by a country the army's owner is not at war with.
    NotAtWar,
}

/// `t` is listed among the neighbours of `prov`.
pub open spec fn borders(prov: Province, t: usize) -> bool {
    prov.neighbors@.contains(t)
}

/// The country in control of a province: its occupier, else its owner.
pub open spec fn controller(prov: Province) -> Option<usize> {
    match prov.occupied {
        Some(o) => Some(o.occupier),
        None => match prov.owned_by {
            Some(o) => Some(o.owner),
            None => None,
        },
    }
}

/// Country `c` may enter `prov`: it is unheld, `c` owns or controls it, or
/// `c` is at war with whoever controls it.
pub open spec fn may_enter(countries: Seq<Country>, c: usize, prov: Province) -> bool {
    match controller(prov) {
        None => true,
        Some(k) => k == c || (prov.owned_by matches Some(o) && o.owner == c) || relation_in(
            countries[c as int].relations.relations@,
            k as int,
        ) == Relation::War,
    }
}

/// The reason an order sending `army` to province `t` is refused, if any.
pub open spec fn order_error(provs: Seq<Province>, countries: Seq<Country>, army: Army, t: usize) -> Option<MoveError> {
    if !borders(provs[army.province as int], t) {
        Some(MoveError::NotNeighbor)
    } else if provs[t as int].terrain == TerrainType::Water {
        Some(MoveError::Water)
    } else if !may_enter(countries, army.owner, provs[t as int]) {
        Some(MoveError::NotAtWar)
    } else {
        None
    }
}

/// The reason a move of army `a` to province `t` is refused, if any.
pub open spec fn move_error(w: World, a: int, t: usize) -> Option<MoveError> {
    order_error(w.provinces@, w.countries@, w.armies@[a], t)
}

/// Army `a` after a player order to `t`: issuing the queued target again
/// cancels it, any other target replaces it.
pub open spec fn toggled(army: Army, t: usize) -> Army {
    Army {
        pending_move: if army.pending_move == Some(PendingMove { target_province: t }) {
            None
        } else {
            Some(PendingMove { target_province: t })
        },
        ..army
    }
}

fn borders_exec(prov: &Province, t: usize) -> (r: bool)
    ensures
        r == borders(*prov, t),
{
    let mut k: usize = 0;
    while k < prov.neighbors.len()
        invariant
            k <= prov.neighbors@.len(),
            forall|j: int| 0 <= j < k ==> prov.neighbors@[j] != t,
        decreases prov.neighbors@.len() - k,
    {
        if prov.neighbors[k] == t {
            return true;
        }
        k = k + 1;
    }
    false
}

/// Checks a move of army `a` into province `t`.
pub fn check_move(world: &World, a: usize, t: usize) -> (r: Option<MoveError>)
    requires
        world.wf(),
        a < world.armies@.len(),
        t < world.provinces@.len(),
    ensures
        r == move_error(*world, a as int, t),
{
    let army = world.armies[a];
    if !borders_exec(&world.provinces[army.province], t) {
        return Some(MoveError::NotNeighbor);
    }
    let target = &world.provinces[t];
    if target.terrain == TerrainType::Water {
        return Some(MoveError::Water);
    }
    let allowed = match target.occupied {
        Some(o) => {
            o.occupier == army.owner || (match target.owned_by {
                Some(ob) => ob.owner == army.owner,
                None => false,
            }) || world.countries[army.owner].relations.get(o.occupier) == Relation::War
        },
        None => match target.owned_by {
            Some(o) => o.owner == army.owner || world.countries[army.owner].relations.get(o.owner)
                == Relation::War,
            None => true,
        },
    };
    if !allowed {
        return Some(MoveError::NotAtWar);
    }
    None
}

/// Queues (or, for the target already queued, cancels) a move of army `a`
/// into province `t`. A refused order leaves the world untouched. On success
/// the result tells whether a move is now queued.
pub fn queue_move(world: &mut World, a: usize, t: usize) -> (r: Result<bool, MoveError>)
    requires
        old(world).wf(),
        a < old(world).armies@.len(),
        t < old(world).provinces@.len(),
    ensures
        match move_error(*old(world), a as int, t) {
            Some(e) => r == Err::<bool, MoveError>(e) && *final(world) == *old(world),
            None => {
                &&& r == Ok::<bool, MoveError>(old(world).armies@[a as int].pending_move != Some(PendingMove { target_province: t }))
                &&& final(world).armies@ == old(world).armies@.update(a as int, toggled(old(world).armies@[a as int], t))
                &&& final(world).provinces@ == old(world).provinces@
                &&& final(world).countries@ == old(world).countries@
                &&& final(world).player == old(world).player
                &&& final(world).phase == old(world).phase
            },
        },
{
    if let Some(e) = check_move(world, a, t) {
        return Err(e);
    }
    let order = PendingMove { target_province: t };
    let queued = world.armies[a].pending_move != Some(order);
    if queued {
        world.armies[a].pending_move = Some(order);
    } else {
        world.armies[a].pending_move = None;
    }
    Ok(queued)
}

/// An army after the movement pass.
pub open spec fn moved(army: Army) -> Army {
    match army.pending_move {
        Some(m) => Army { province: m.target_province, ..army },
        None => army,
    }
}

/// An army once the turn's transient markers are cleared.
pub open spec fn cleared(army: Army) -> Army {
    Army { pending_move: None, has_acted: false, ..army }
}

/// Moves every army with a queued move into its target province. Orders are
/// trusted: they were checked when queued.
pub fn process_turn_moves(world: &mut World)
    ensures
        final(world).armies@ == old(world).armies@.map_values(|a: Army| moved(a)),
        final(world).provinces@ == old(world).provinces@,
        final(world).countries@ == old(world).countries@,
        final(world).player == old(world).player,
        final(world).phase == old(world).phase,
{
    let n = world.armies.len();
    let mut i: usize = 0;
    while i < n
        invariant
            n == world.armies@.len(),
            n == old(world).armies@.len(),
            i <= n,
            forall|k: int| 0 <= k < i ==> #[trigger] world.armies@[k] == moved(old(world).armies@[k]),
            forall|k: int| i <= k < n ==> #[trigger] world.armies@[k] == old(world).armies@[k],
            world.provinces@ == old(world).provinces@,
            world.countries@ == old(world).countries@,
            world.player == old(world).player,
            world.phase == old(world).phase,
        decreases n - i,
    {
        if let Some(m) = world.armies[i].pending_move {
            world.armies[i].province = m.target_province;
        }
        i = i + 1;
    }
    assert(world.armies@ =~= old(world).armies@.map_values(|a: Army| moved(a)));
}

/// Clears every army's queued move and acted-this-turn marker.
pub fn clear_turn_markers(world: &mut World)
    ensures
        final(world).armies@ == old(world).armies@.map_values(|a: Army| cleared(a)),
        final(world).provinces@ == old(world).provinces@,
        final(world).countries@ == old(world).countries@,
        final(world).player == old(world).player,
        final(world).phase == old(world).phase,
{
    let n = world.armies.len();
    let mut i: usize = 0;
    while i < n
        invariant
            n == world.armies@.len(),
            n == old(world).armies@.len(),
            i <= n,
            forall|k: int| 0 <= k < i ==> #[trigger] world.armies@[k] == cleared(old(world).armies@[k]),
            forall|k: int| i <= k < n ==> #[trigger] world.armies@[k] == old(world).armies@[k],
            world.provinces@ == old(world).provinces@,
            world.countries@ == old(world).countries@,
            world.player == old(world).player,
            world.phase == old(world).phase,
        decreases n - i,
    {
        world.armies[i].pending_move = None;
        world.armies[i].has_acted = false;
        i = i + 1;
    }
    assert(world.armies@ =~= old(world).armies@.map_values(|a: Army| cleared(a)));
}

/// The first army of each (owner, province) group, in order.
pub open spec fn group_heads(s: Seq<Army>) -> Seq<Army>
    decreases s.len(),
{
    if s.len() == 0 {
        s
    } else {
        let rest = group_heads(s.drop_last());
        if present(s.drop_last(), s.last().province, s.last().owner) {
            rest
        } else {
            rest.push(s.last())
        }
    }
}

/// A group's head carrying the whole group's units, capped at `u32::MAX`.
pub open spec fn merged_head(all: Seq<Army>, a: Army) -> Army {
    let total = strength(all, a.province, a.owner);
    Army { units: if total > u32::MAX as int { u32::MAX } else { total as u32 }, ..a }
}

/// The armies after merging each (owner, province) group into its first army.
pub open spec fn merged(s: Seq<Army>) -> Seq<Army> {
    group_heads(s).map_values(|a: Army| merged_head(s, a))
}

/// Merges armies of one owner that share a province into the first of them,
/// which takes the sum of their units.
pub fn merge_armies_in_same_province(world: &mut World)
    ensures
        final(world).armies@ == merged(old(world).armies@),
        final(world).provinces@ == old(world).provinces@,
        final(world).countries@ == old(world).countries@,
        final(world).player == old(world).player,
        final(world).phase == old(world).phase,
{
    let ghost s = world.armies@;
    let mut out: Vec<Army> = Vec::new();
    let mut i: usize = 0;
    while i < world.armies.len()
        invariant
            world.armies@ == s,
            i <= s.len(),
            out@ == group_heads(s.subrange(0, i as int)).map_values(|a: Army| merged_head(s, a)),
        decreases s.len() - i,
    {
        let a = world.armies[i];
        let ghost pre = s.subrange(0, i as int);
        proof {
            assert(s.subrange(0, i as int + 1).drop_last() =~= pre);
            assert(s.subrange(0, i as int + 1).last() == a);
        }
        let mut seen = false;
        let mut j: usize = 0;
        while j < i
            invariant
                j <= i,
                i < s.len(),
                world.armies@ == s,
                a == s[i as int],
                seen == exists|k: int| 0 <= k < j && #[trigger] s[k].province == a.province && s[k].owner == a.owner,
            decreases i - j,
        {
            if world.armies[j].province == a.province && world.armies[j].owner == a.owner {
                seen = true;
            }
            j = j + 1;
        }
        proof {
            if seen {
                let k = choose|k: int| 0 <= k < i && #[trigger] s[k].province == a.province && s[k].owner == a.owner;
                assert(pre[k] == s[k]);
            }
            if present(pre, a.province, a.owner) {
                let k = choose|k: int| 0 <= k < pre.len() && #[trigger] pre[k].province == a.province && pre[k].owner == a.owner;
                assert(s[k] == pre[k]);
            }
        }
        if !seen {
            let total = crate::combat::strength_of(&world.armies, a.province, a.owner);
            let units: u32 = if total > u32::MAX as u128 {
                u32::MAX
            } else {
                total as u32
            };
            out.push(Army { units, ..a });
        }
        proof {
            let f = |x: Army| merged_head(s, x);
            assert(group_heads(s.subrange(0, i as int + 1)).map_values(f) =~= out@);
        }
        i = i + 1;
    }
    assert(s.subrange(0, s.len() as int) =~= s);
    world.armies = out;
}

} // verus!
