use vstd::prelude::*;
use crate::model::{Army, World, armies_wf};

verus! {

/// Total units that country `c` has in province `p`.
pub open spec fn strength(armies: Seq<Army>, p: usize, c: usize) -> int
    decreases armies.len(),
{
    if armies.len() == 0 {
        0
    } else {
        let a = armies.last();
        strength(armies.drop_last(), p, c) + if a.province == p && a.owner == c {
            a.units as int
        } else {
            0
        }
    }
}

/// Country `c` has at least one army in province `p`.
pub open spec fn present(armies: Seq<Army>, p: usize, c: usize) -> bool {
    exists|i: int| 0 <= i < armies.len() && #[trigger] armies[i].province == p && armies[i].owner == c
}

/// `c` is strictly weaker in `p` than `d`, ties going against the higher handle.
pub open spec fn weaker(armies: Seq<Army>, p: usize, c: usize, d: usize) -> bool {
    strength(armies, p, c) < strength(armies, p, d) || (strength(armies, p, c) == strength(armies, p, d)
        && c < d)
}

/// `c` loses the battle in `p`: at least two owners are present there and `c`
/// is the weakest of them (lowest handle among equals).
pub open spec fn is_loser(armies: Seq<Army>, p: usize, c: usize) -> bool {
    &&& present(armies, p, c)
    &&& exists|d: usize| d != c && #[trigger] present(armies, p, d)
    &&& forall|d: usize| d != c && #[trigger] present(armies, p, d) ==> weaker(armies, p, c, d)
}

/// The armies that survive one combat pass.
pub open spec fn combat_survivors(armies: Seq<Army>) -> Seq<Army> {
    armies.filter(survives(armies))
}

/// The test that an army passes to survive combat among `armies`.
pub open spec fn survives(armies: Seq<Army>) -> spec_fn(Army) -> bool {
    |a: Army| !is_loser(armies, a.province, a.owner)
}

proof fn lemma_strength_bound(armies: Seq<Army>, p: usize, c: usize)
    ensures
        0 <= strength(armies, p, c) <= armies.len() * 0xffff_ffff,
    decreases armies.len(),
{
    if armies.len() > 0 {
        lemma_strength_bound(armies.drop_last(), p, c);
    }
}

/// Sum of the units of `c` in `p`.
pub(crate) fn strength_of(armies: &Vec<Army>, p: usize, c: usize) -> (r: u128)
    ensures
        r == strength(armies@, p, c),
{
    let mut sum: u128 = 0;
    let mut i: usize = 0;
    while i < armies.len()
        invariant
            i <= armies@.len(),
            sum == strength(armies@.subrange(0, i as int), p, c),
        decreases armies.len() - i,
    {
        let ghost prefix = armies@.subrange(0, i as int + 1);
        assert(prefix.drop_last() =~= armies@.subrange(0, i as int));
        proof {
            lemma_strength_bound(armies@.subrange(0, i as int), p, c);
            let n = i as int;
            assert(n * 0xffff_ffff <= 0x1_0000_0000_0000_0000 * 0xffff_ffff) by (nonlinear_arith)
                requires 0 <= n <= 0x1_0000_0000_0000_0000;
        }
        if armies[i].province == p && armies[i].owner == c {
            sum = sum + armies[i].units as u128;
        }
        i = i + 1;
    }
    assert(armies@.subrange(0, armies@.len() as int) =~= armies@);
    sum
}

/// Decides `is_loser(armies, p, c)`.
fn loses_in(armies: &Vec<Army>, p: usize, c: usize) -> (r: bool)
    ensures
        r == is_loser(armies@, p, c),
{
    let mine = strength_of(armies, p, c);
    let mut mine_present = false;
    let mut rival = false;
    let mut weakest = true;
    let mut i: usize = 0;
    while i < armies.len()
        invariant
            i <= armies@.len(),
            mine == strength(armies@, p, c),
            mine_present == exists|j: int| 0 <= j < i && #[trigger] armies@[j].province == p && armies@[j].owner == c,
            rival == exists|j: int| 0 <= j < i && #[trigger] armies@[j].province == p && armies@[j].owner != c,
            weakest == forall|j: int| 0 <= j < i && #[trigger] armies@[j].province == p && armies@[j].owner != c
                ==> weaker(armies@, p, c, armies@[j].owner),
        decreases armies.len() - i,
    {
        let a = armies[i];
        if a.province == p {
            if a.owner == c {
                mine_present = true;
            } else {
                rival = true;
                let theirs = strength_of(armies, p, a.owner);
                if !(mine < theirs || (mine == theirs && c < a.owner)) {
                    weakest = false;
                }
            }
        }
        i = i + 1;
    }
    proof {
        if rival {
            let j = choose|j: int| 0 <= j < armies@.len() && #[trigger] armies@[j].province == p && armies@[j].owner != c;
            assert(present(armies@, p, armies@[j].owner));
        }
        if exists|d: usize| d != c && #[trigger] present(armies@, p, d) {
            let d = choose|d: usize| d != c && #[trigger] present(armies@, p, d);
            let j = choose|j: int| 0 <= j < armies@.len() && #[trigger] armies@[j].province == p && armies@[j].owner == d;
            assert(armies@[j].owner != c);
        }
        if weakest {
            assert forall|d: usize| d != c && #[trigger] present(armies@, p, d) implies weaker(armies@, p, c, d) by {
                let j = choose|j: int| 0 <= j < armies@.len() && #[trigger] armies@[j].province == p && armies@[j].owner == d;
                assert(armies@[j].owner != c);
            }
        } else {
            let j = choose|j: int| 0 <= j < armies@.len() && #[trigger] armies@[j].province == p && armies@[j].owner != c
                && !weaker(armies@, p, c, armies@[j].owner);
            assert(present(armies@, p, armies@[j].owner));
        }
    }
    mine_present && rival && weakest
}

/// Resolves every battle: in each province with two or more owners present,
/// the weakest owner (lowest handle among equals) loses all of its armies
/// there. Winners keep their unit counts.
pub fn resolve_combat(world: &mut World)
    ensures
        final(world).armies@ == combat_survivors(old(world).armies@),
        final(world).provinces@ == old(world).provinces@,
        final(world).countries@ == old(world).countries@,
        final(world).player == old(world).player,
        final(world).phase == old(world).phase,
{
    let ghost start = world.armies@;
    let ghost keep = survives(start);
    let mut survivors: Vec<Army> = Vec::new();
    let mut i: usize = 0;
    while i < world.armies.len()
        invariant
            world.armies@ == start,
            keep == survives(start),
            i <= start.len(),
            survivors@ == start.subrange(0, i as int).filter(keep),
        decreases world.armies@.len() - i,
    {
        let a = world.armies[i];
        let lost = loses_in(&world.armies, a.province, a.owner);
        proof {
            assert(start.subrange(0, i as int + 1) =~= start.subrange(0, i as int).push(a));
            start.subrange(0, i as int).lemma_filter_push(a, keep);
            assert(keep(a) == !lost);
        }
        if !lost {
            survivors.push(a);
        }
        i = i + 1;
    }
    assert(start.subrange(0, start.len() as int) =~= start);
    world.armies = survivors;
}

/// Surviving armies still name existing entities.
pub proof fn lemma_survivors_wf(armies: Seq<Army>, np: int, nc: int)
    requires
        armies_wf(armies, np, nc),
    ensures
        armies_wf(combat_survivors(armies), np, nc),
{
    let keep = survives(armies);
    assert forall|i: int| 0 <= i < combat_survivors(armies).len() implies crate::model::army_wf(
        #[trigger] combat_survivors(armies)[i],
        np,
        nc,
    ) by {
        armies.lemma_filter_contains_rev(keep, combat_survivors(armies)[i]);
    }
}

proof fn lemma_strength_kept(s: Seq<Army>, keep: spec_fn(Army) -> bool, p: usize, c: usize)
    requires
        forall|i: int| 0 <= i < s.len() && #[trigger] s[i].province == p && s[i].owner == c ==> keep(s[i]),
    ensures
        strength(s.filter(keep), p, c) == strength(s, p, c),
    decreases s.len(),
{
    if s.len() > 0 {
        let init = s.drop_last();
        assert forall|i: int| 0 <= i < init.len() && #[trigger] init[i].province == p && init[i].owner == c implies keep(init[i]) by {
            assert(init[i] == s[i]);
        }
        lemma_strength_kept(init, keep, p, c);
        assert(s =~= init.push(s.last()));
        init.lemma_filter_push(s.last(), keep);
        assert(s.last() == s[s.len() - 1]);
        let f = init.filter(keep);
        if keep(s.last()) {
            assert(f.push(s.last()).drop_last() =~= f);
        }
    }
}

/// In a province where exactly two countries have armies, with different
/// totals, the weaker loses every army there and the stronger keeps every
/// army there, with its units.
pub proof fn lemma_two_owner_battle(armies: Seq<Army>, p: usize, weak: usize, strong: usize)
    requires
        weak != strong,
        present(armies, p, weak),
        present(armies, p, strong),
        forall|d: usize| #[trigger] present(armies, p, d) ==> d == weak || d == strong,
        strength(armies, p, weak) < strength(armies, p, strong),
    ensures
        !present(combat_survivors(armies), p, weak),
        forall|i: int| 0 <= i < armies.len() && #[trigger] armies[i].province == p && armies[i].owner == strong
            ==> combat_survivors(armies).contains(armies[i]),
        strength(combat_survivors(armies), p, strong) == strength(armies, p, strong),
{
    let keep = survives(armies);
    assert(is_loser(armies, p, weak));
    assert(!is_loser(armies, p, strong)) by {
        assert(present(armies, p, weak) && weak != strong);
    }
    if present(combat_survivors(armies), p, weak) {
        let i = choose|i: int| 0 <= i < combat_survivors(armies).len() && #[trigger] combat_survivors(armies)[i].province == p
            && combat_survivors(armies)[i].owner == weak;
        armies.lemma_filter_pred(keep, i);
    }
    assert forall|i: int| 0 <= i < armies.len() && #[trigger] armies[i].province == p && armies[i].owner == strong implies combat_survivors(
        armies,
    ).contains(armies[i]) by {
        armies.lemma_filter_contains(keep, i);
    }
    lemma_strength_kept(armies, keep, p, strong);
}

} // verus!
