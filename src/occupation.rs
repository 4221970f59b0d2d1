use vstd::prelude::*;
use crate::combat::present;
use crate::model::{Army, Occupied, Province, World};

verus! {

/// Some army, of any owner, stands in province `p`.
pub open spec fn any_army(armies: Seq<Army>, p: usize) -> bool {
    exists|i: int| 0 <= i < armies.len() && #[trigger] armies[i].province == p
}

/// `c` is the lowest handle among the owners present in `p`.
pub open spec fn lowest_present(armies: Seq<Army>, p: usize, c: usize) -> bool {
    &&& present(armies, p, c)
    &&& forall|d: usize| d < c ==> !#[trigger] present(armies, p, d)
}

/// Occupation of province `p` (state `prov`) once the armies in `armies` are
/// taken into account: unowned provinces and provinces without armies keep
/// their marker, the owner's presence clears it, and otherwise the lowest
/// foreign owner present becomes the occupier.
pub open spec fn occupation_of(armies: Seq<Army>, prov: Province, p: usize) -> Option<Occupied> {
    match prov.owned_by {
        None => prov.occupied,
        Some(o) => if !any_army(armies, p) {
            prov.occupied
        } else if present(armies, p, o.owner) {
            None
        } else {
            Some(Occupied { occupier: choose|c: usize| lowest_present(armies, p, c) })
        },
    }
}

/// The provinces after one occupation pass.
pub open spec fn occupation_pass(armies: Seq<Army>, provinces: Seq<Province>) -> Seq<Province> {
    Seq::new(
        provinces.len(),
        |i: int| Province { occupied: occupation_of(armies, provinces[i], i as usize), ..provinces[i] },
    )
}

proof fn lemma_lowest_unique(armies: Seq<Army>, p: usize, c: usize)
    requires
        lowest_present(armies, p, c),
    ensures
        (choose|d: usize| lowest_present(armies, p, d)) == c,
{
    let d = choose|d: usize| lowest_present(armies, p, d);
    assert(lowest_present(armies, p, d));
    if d < c {
        assert(!present(armies, p, d));
    } else if c < d {
        assert(!present(armies, p, c));
    }
}

/// Sets or clears every owned province's occupation marker from the armies
/// present in it.
pub fn resolve_occupation(world: &mut World)
    ensures
        final(world).provinces@ == occupation_pass(old(world).armies@, old(world).provinces@),
        final(world).armies@ == old(world).armies@,
        final(world).countries@ == old(world).countries@,
        final(world).player == old(world).player,
        final(world).phase == old(world).phase,
{
    let ghost start = world.provinces@;
    let n = world.provinces.len();
    let mut i: usize = 0;
    while i < n
        invariant
            n == start.len(),
            world.provinces@.len() == n,
            world.armies@ == old(world).armies@,
            world.countries@ == old(world).countries@,
            world.player == old(world).player,
            world.phase == old(world).phase,
            start == old(world).provinces@,
            i <= n,
            forall|k: int| 0 <= k < i ==> #[trigger] world.provinces@[k] == occupation_pass(world.armies@, start)[k],
            forall|k: int| i <= k < n ==> #[trigger] world.provinces@[k] == start[k],
        decreases n - i,
    {
        let owned = world.provinces[i].owned_by;
        if let Some(o) = owned {
            let mut any = false;
            let mut owner_here = false;
            let mut lowest: Option<usize> = None;
            let mut j: usize = 0;
            while j < world.armies.len()
                invariant
                    j <= world.armies@.len(),
                    any == exists|k: int| 0 <= k < j && #[trigger] world.armies@[k].province == i,
                    owner_here == exists|k: int| 0 <= k < j && #[trigger] world.armies@[k].province == i
                        && world.armies@[k].owner == o.owner,
                    lowest is None <==> !any,
                    lowest matches Some(c) ==> (exists|k: int| 0 <= k < j && #[trigger] world.armies@[k].province == i
                        && world.armies@[k].owner == c) && forall|k: int| 0 <= k < j
                        && #[trigger] world.armies@[k].province == i ==> c <= world.armies@[k].owner,
                decreases world.armies@.len() - j,
            {
                let a = world.armies[j];
                if a.province == i {
                    any = true;
                    if a.owner == o.owner {
                        owner_here = true;
                    }
                    match lowest {
                        Some(c) => {
                            if a.owner < c {
                                lowest = Some(a.owner);
                            }
                        },
                        None => {
                            lowest = Some(a.owner);
                        },
                    }
                }
                j = j + 1;
            }
            if any && owner_here {
                world.provinces[i].occupied = None;
            } else if any {
                match lowest {
                    Some(c) => {
                        proof {
                            assert forall|d: usize| d < c implies !#[trigger] present(world.armies@, i, d) by {
                                if present(world.armies@, i, d) {
                                    let k = choose|k: int| 0 <= k < world.armies@.len()
                                        && #[trigger] world.armies@[k].province == i && world.armies@[k].owner == d;
                                    assert(c <= world.armies@[k].owner);
                                }
                            }
                            lemma_lowest_unique(world.armies@, i, c);
                        }
                        world.provinces[i].occupied = Some(Occupied { occupier: c });
                    },
                    None => {},
                }
            }
            proof {
                if !owner_here {
                    assert(!present(world.armies@, i, o.owner));
                }
            }
        }
        i = i + 1;
    }
    assert(world.provinces@ =~= occupation_pass(world.armies@, start));
}

/// Running the occupation pass a second time, with the same armies, leaves
/// every province as the first pass left it.
pub proof fn lemma_occupation_idempotent(armies: Seq<Army>, provinces: Seq<Province>)
    ensures
        occupation_pass(armies, occupation_pass(armies, provinces)) == occupation_pass(armies, provinces),
{
    assert(occupation_pass(armies, occupation_pass(armies, provinces)) =~= occupation_pass(armies, provinces));
}

} // verus!
