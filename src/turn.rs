use vstd::prelude::*;
use crate::combat::{combat_survivors, lemma_survivors_wf, present, resolve_combat};
use crate::economy::{EconomyRules, grown, paid, process_economy};
use crate::model::{Army, GamePhase, Province, World, army_wf, armies_wf, province_wf, provinces_wf};
use crate::movement::{cleared, clear_turn_markers, group_heads, merge_armies_in_same_province, merged, moved, process_turn_moves};
use crate::occupation::{lowest_present, occupation_pass, resolve_occupation};
use crate::ai::{build_phase, diplomacy_round, move_phase, recruit_phase};
use crate::random::Dice;

verus! {

/// The armies once moves are carried out and battles fought.
pub open spec fn armies_after_battle(armies: Seq<Army>) -> Seq<Army> {
    combat_survivors(armies.map_values(|a: Army| moved(a)))
}

/// The provinces once occupation is settled, before the economy runs.
pub open spec fn provinces_after_occupation(armies: Seq<Army>, provinces: Seq<Province>) -> Seq<Province> {
    occupation_pass(armies_after_battle(armies), provinces)
}

proof fn lemma_moved_wf(armies: Seq<Army>, np: int, nc: int)
    requires
        armies_wf(armies, np, nc),
    ensures
        armies_wf(armies.map_values(|a: Army| moved(a)), np, nc),
{
    assert forall|i: int| #![trigger armies[i]] 0 <= i < armies.len() implies army_wf(armies.map_values(|a: Army| moved(a))[i], np, nc) by {
        assert(army_wf(armies[i], np, nc));
    }
}

proof fn lemma_cleared_wf(armies: Seq<Army>, np: int, nc: int)
    requires
        armies_wf(armies, np, nc),
    ensures
        armies_wf(armies.map_values(|a: Army| cleared(a)), np, nc),
{
    assert forall|i: int| #![trigger armies[i]] 0 <= i < armies.len() implies army_wf(armies.map_values(|a: Army| cleared(a))[i], np, nc) by {
        assert(army_wf(armies[i], np, nc));
    }
}

proof fn lemma_group_heads_from(s: Seq<Army>)
    ensures
        forall|i: int| 0 <= i < group_heads(s).len() ==> s.contains(#[trigger] group_heads(s)[i]),
    decreases s.len(),
{
    if s.len() > 0 {
        lemma_group_heads_from(s.drop_last());
        let prev = group_heads(s.drop_last());
        assert forall|i: int| 0 <= i < group_heads(s).len() implies s.contains(#[trigger] group_heads(s)[i]) by {
            if i < prev.len() {
                assert(group_heads(s)[i] == prev[i]);
                let j = choose|j: int| 0 <= j < s.drop_last().len() && s.drop_last()[j] == prev[i];
                assert(s[j] == prev[i]);
            } else {
                assert(s[s.len() - 1] == s.last());
            }
        }
    }
}

proof fn lemma_merged_wf(armies: Seq<Army>, np: int, nc: int)
    requires
        armies_wf(armies, np, nc),
    ensures
        armies_wf(merged(armies), np, nc),
{
    lemma_group_heads_from(armies);
    assert forall|i: int| 0 <= i < merged(armies).len() implies army_wf(#[trigger] merged(armies)[i], np, nc) by {
        let j = choose|j: int| 0 <= j < armies.len() && armies[j] == group_heads(armies)[i];
        assert(army_wf(armies[j], np, nc));
    }
}

proof fn lemma_occupation_wf(armies: Seq<Army>, provinces: Seq<Province>, nc: int)
    requires
        armies_wf(armies, provinces.len() as int, nc),
        provinces_wf(provinces, nc),
    ensures
        provinces_wf(occupation_pass(armies, provinces), nc),
{
    let np = provinces.len() as int;
    assert forall|i: int| 0 <= i < np implies province_wf(#[trigger] occupation_pass(armies, provinces)[i], np, nc) by {
        assert(province_wf(provinces[i], np, nc));
        let p = i as usize;
        if crate::occupation::any_army(armies, p) {
            let j = choose|j: int| 0 <= j < armies.len() && #[trigger] armies[j].province == p;
            let c0 = armies[j].owner;
            assert(present(armies, p, c0));
            lemma_some_lowest(armies, p, c0);
            let c = choose|c: usize| lowest_present(armies, p, c);
            assert(present(armies, p, c));
            let k = choose|k: int| 0 <= k < armies.len() && #[trigger] armies[k].province == p && armies[k].owner == c;
            assert(army_wf(armies[k], np, nc));
        }
    }
}

/// Some owner present is the lowest one present.
proof fn lemma_some_lowest(armies: Seq<Army>, p: usize, c: usize)
    requires
        present(armies, p, c),
    ensures
        exists|d: usize| lowest_present(armies, p, d),
    decreases c,
{
    if !lowest_present(armies, p, c) {
        let d = choose|d: usize| d < c && #[trigger] present(armies, p, d);
        lemma_some_lowest(armies, p, d);
    }
}

/// `after` is the world that resolving a turn makes of `before`: moves,
/// battles, occupation and economy, in that order, then cleared markers,
/// merged stacks, and the player's turn.
pub open spec fn resolved(before: World, after: World, rules: EconomyRules) -> bool {
    &&& after.armies@ == merged(armies_after_battle(before.armies@).map_values(|a: Army| cleared(a)))
    &&& after.provinces@ == Seq::new(
        before.provinces@.len(),
        |i: int| grown(provinces_after_occupation(before.armies@, before.provinces@)[i], rules),
    )
    &&& after.countries@ == Seq::new(
        before.countries@.len(),
        |c: int| paid(before.countries@[c], provinces_after_occupation(before.armies@, before.provinces@), rules, c as usize),
    )
    &&& after.player == before.player
    &&& after.phase == GamePhase::PlayerTurn
}

/// The AI's four phases, in order: `built` after building, `raised` after
/// recruiting, `marched` after queuing moves, `decided` after diplomacy.
pub open spec fn ai_turn(start: World, built: World, raised: World, marched: World, decided: World) -> bool {
    &&& build_phase(start, built)
    &&& recruit_phase(built, raised)
    &&& move_phase(raised, marched)
    &&& (decided == marched || diplomacy_round(marched, decided, true) || diplomacy_round(marched, decided, false))
}

/// Resolves one turn from the queued orders, in the fixed order movement,
/// combat, occupation, economy, then clears the turn's markers, merges armies
/// that share an owner and a province, and hands control back to the player.
pub fn resolve_turn(world: &mut World, rules: EconomyRules)
    requires
        old(world).wf(),
    ensures
        final(world).wf(),
        final(world).armies@ == merged(armies_after_battle(old(world).armies@).map_values(|a: Army| cleared(a))),
        final(world).provinces@ == Seq::new(
            old(world).provinces@.len(),
            |i: int| grown(provinces_after_occupation(old(world).armies@, old(world).provinces@)[i], rules),
        ),
        final(world).countries@ == Seq::new(
            old(world).countries@.len(),
            |c: int|
                paid(
                    old(world).countries@[c],
                    provinces_after_occupation(old(world).armies@, old(world).provinces@),
                    rules,
                    c as usize,
                ),
        ),
        final(world).player == old(world).player,
        final(world).phase == GamePhase::PlayerTurn,
        resolved(*old(world), *final(world), rules),
{
    let ghost np = world.provinces@.len() as int;
    let ghost nc = world.countries@.len() as int;
    process_turn_moves(world);
    proof {
        lemma_moved_wf(old(world).armies@, np, nc);
    }
    resolve_combat(world);
    proof {
        lemma_survivors_wf(old(world).armies@.map_values(|a: Army| moved(a)), np, nc);
    }
    let ghost fought = world.armies@;
    resolve_occupation(world);
    proof {
        lemma_occupation_wf(fought, old(world).provinces@, nc);
    }
    let ghost occupied = world.provinces@;
    process_economy(world, rules);
    proof {
        assert forall|i: int| 0 <= i < np implies province_wf(#[trigger] world.provinces@[i], np, nc) by {
            assert(province_wf(occupied[i], np, nc));
        }
    }
    clear_turn_markers(world);
    proof {
        lemma_cleared_wf(fought, np, nc);
    }
    merge_armies_in_same_province(world);
    proof {
        lemma_merged_wf(fought.map_values(|a: Army| cleared(a)), np, nc);
    }
    world.phase = GamePhase::PlayerTurn;
    assert(world.provinces@ =~= Seq::new(
        old(world).provinces@.len(),
        |i: int| grown(provinces_after_occupation(old(world).armies@, old(world).provinces@)[i], rules),
    ));
    assert(world.countries@ =~= Seq::new(
        old(world).countries@.len(),
        |c: int|
            paid(old(world).countries@[c], provinces_after_occupation(old(world).armies@, old(world).provinces@), rules, c as usize),
    ));
}

/// Ends the player's turn: from `PlayerTurn` the world moves to `Processing`.
/// Returns whether it did; in any other phase nothing changes.
pub fn end_turn(world: &mut World) -> (r: bool)
    ensures
        r == (old(world).phase == GamePhase::PlayerTurn),
        r ==> *final(world) == (World { phase: GamePhase::Processing, ..*old(world) }),
        !r ==> *final(world) == *old(world),
{
    if world.phase == GamePhase::PlayerTurn {
        world.phase = GamePhase::Processing;
        true
    } else {
        false
    }
}

/// Runs one processing cycle: the AI countries build, recruit, move and
/// conduct diplomacy (drawing from `dice`), then the turn is resolved as
/// `resolve_turn` describes. Does nothing outside the `Processing` phase.
pub fn process_turn(world: &mut World, dice: &mut Dice, rules: EconomyRules)
    requires
        old(world).wf(),
    ensures
        final(world).wf(),
        old(world).phase != GamePhase::Processing ==> *final(world) == *old(world),
        old(world).phase == GamePhase::Processing ==> {
            &&& exists|built: World, raised: World, marched: World, decided: World|
                #[trigger] ai_turn(*old(world), built, raised, marched, decided) && decided.wf() && resolved(
                    decided,
                    *final(world),
                    rules,
                )
            &&& final(world).phase == GamePhase::PlayerTurn
            &&& final(world).countries@.len() == old(world).countries@.len()
            &&& final(world).provinces@.len() == old(world).provinces@.len()
            &&& forall|i: int| 0 <= i < final(world).armies@.len() ==> {
                let a = #[trigger] final(world).armies@[i];
                a.pending_move is None && !a.has_acted
            }
            &&& forall|i: int, j: int| 0 <= i < j < final(world).armies@.len() ==> {
                let (a, b) = (#[trigger] final(world).armies@[i], #[trigger] final(world).armies@[j]);
                !(a.owner == b.owner && a.province == b.province)
            }
        },
        final(world).player == old(world).player,
{
    if world.phase != GamePhase::Processing {
        return;
    }
    crate::ai::ai_build_buildings(world, dice);
    let ghost built = *world;
    crate::ai::ai_recruit_armies(world, dice);
    let ghost raised = *world;
    crate::ai::ai_move_armies(world, dice);
    let ghost marched = *world;
    crate::ai::ai_diplomacy(world, dice);
    let ghost before = world.armies@;
    let ghost decided = *world;
    resolve_turn(world, rules);
    proof {
        assert(resolved(decided, *world, rules));
        assert(ai_turn(*old(world), built, raised, marched, decided));
        let s = armies_after_battle(before).map_values(|a: Army| cleared(a));
        lemma_merged_shape(s);
    }
}

proof fn lemma_group_heads_cleared(s: Seq<Army>)
    requires
        forall|i: int| 0 <= i < s.len() ==> (#[trigger] s[i]).pending_move is None && !s[i].has_acted,
    ensures
        forall|i: int| 0 <= i < group_heads(s).len() ==> (#[trigger] group_heads(s)[i]).pending_move is None
            && !group_heads(s)[i].has_acted,
{
    lemma_group_heads_from(s);
}

proof fn lemma_group_heads_distinct(s: Seq<Army>)
    ensures
        forall|i: int, j: int| 0 <= i < j < group_heads(s).len() ==> {
            let (a, b) = (#[trigger] group_heads(s)[i], #[trigger] group_heads(s)[j]);
            !(a.owner == b.owner && a.province == b.province)
        },
    decreases s.len(),
{
    if s.len() > 0 {
        let prev = group_heads(s.drop_last());
        lemma_group_heads_distinct(s.drop_last());
        lemma_group_heads_from(s.drop_last());
        if !present(s.drop_last(), s.last().province, s.last().owner) {
            assert forall|i: int, j: int| 0 <= i < j < group_heads(s).len() implies {
                let (a, b) = (#[trigger] group_heads(s)[i], #[trigger] group_heads(s)[j]);
                !(a.owner == b.owner && a.province == b.province)
            } by {
                if j == prev.len() {
                    let a = prev[i];
                    assert(group_heads(s)[i] == a);
                    let k = choose|k: int| 0 <= k < s.drop_last().len() && s.drop_last()[k] == a;
                    if a.owner == s.last().owner && a.province == s.last().province {
                        assert(s.drop_last()[k].province == s.last().province);
                    }
                } else {
                    assert(group_heads(s)[i] == prev[i]);
                    assert(group_heads(s)[j] == prev[j]);
                }
            }
        }
    }
}

proof fn lemma_merged_shape(s: Seq<Army>)
    requires
        forall|i: int| 0 <= i < s.len() ==> (#[trigger] s[i]).pending_move is None && !s[i].has_acted,
    ensures
        forall|i: int| 0 <= i < merged(s).len() ==> {
            let a = #[trigger] merged(s)[i];
            a.pending_move is None && !a.has_acted
        },
        forall|i: int, j: int| 0 <= i < j < merged(s).len() ==> {
            let (a, b) = (#[trigger] merged(s)[i], #[trigger] merged(s)[j]);
            !(a.owner == b.owner && a.province == b.province)
        },
{
    lemma_group_heads_cleared(s);
    lemma_group_heads_distinct(s);
    assert forall|i: int, j: int| 0 <= i < j < merged(s).len() implies {
        let (a, b) = (#[trigger] merged(s)[i], #[trigger] merged(s)[j]);
        !(a.owner == b.owner && a.province == b.province)
    } by {
        assert(group_heads(s)[i].owner == merged(s)[i].owner);
        assert(group_heads(s)[j].owner == merged(s)[j].owner);
    }
}

} // verus!
