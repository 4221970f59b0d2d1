use vstd::prelude::*;
use crate::model::{Army, Country, OwnedBy, Province, World};
use crate::random::{Dice, determined, lemma_next_draw, nth_draw};

verus! {

/// The kinds of random event that can befall the player's country.
#[derive(Clone, Copy, Debug, PartialEq, Eq, Structural)]
pub enum EventType {
    ArmyDesertion,
    TaxRevolt,
}

/// What choosing an option does. Losses are percentages, rounded down.
#[derive(Clone, Copy, Debug, PartialEq, Eq, Structural)]
pub enum EventEffect {
    PayGold(u32),
    LoseArmyUnits(u32),
    LoseGold(u32),
    GainGold(u32),
    LosePopulation(u32),
}

/// One answer the player can give to an event.
#[derive(Clone, Debug)]
pub struct EventOption {
    pub description: String,
    pub effect: EventEffect,
}

/// An event offered to the player, with its options.
#[derive(Clone, Debug)]
pub struct GameEvent {
    pub event_type: EventType,
    pub title: String,
    pub description: String,
    pub options: Vec<EventOption>,
}

/// The event waiting for the player's answer.
#[derive(Clone, Debug)]
pub struct PendingEvent {
    pub event: GameEvent,
}

impl PendingEvent {
    pub fn new(event: GameEvent) -> (r: PendingEvent)
        ensures
            r.event == event,
    {
        PendingEvent { event }
    }
}

/// The effects offered, in order, by an event of type `t`.
pub open spec fn effects_of(t: EventType) -> Seq<EventEffect> {
    match t {
        EventType::ArmyDesertion => seq![EventEffect::PayGold(2000), EventEffect::LoseArmyUnits(10)],
        EventType::TaxRevolt => seq![EventEffect::LoseGold(1500), EventEffect::LosePopulation(5)],
    }
}

impl GameEvent {
    /// The event of type `event_type`, with its text and options.
    pub fn of_type(event_type: EventType) -> (r: GameEvent)
        ensures
            r.event_type == event_type,
            r.options@.len() == 2,
            forall|i: int| 0 <= i < 2 ==> (#[trigger] r.options@[i]).effect == effects_of(event_type)[i],
    {
        match event_type {
            EventType::ArmyDesertion => GameEvent {
                event_type,
                title: "Army Unrest".to_owned(),
                description: "Your armies grow restless without pay. The soldiers threaten to desert if their demands are not met.".to_owned(),
                options: vec![
                    EventOption {
                        description: "Pay them 2000 gold to maintain morale".to_owned(),
                        effect: EventEffect::PayGold(2000),
                    },
                    EventOption {
                        description: "Refuse their demands (desertion of 10% of all units)".to_owned(),
                        effect: EventEffect::LoseArmyUnits(10),
                    },
                ],
            },
            EventType::TaxRevolt => GameEvent {
                event_type,
                title: "Tax Revolt".to_owned(),
                description: "The people are angry about high taxes. Protests break out in your provinces.".to_owned(),
                options: vec![
                    EventOption {
                        description: "Lower taxes and compensate (-1500 gold)".to_owned(),
                        effect: EventEffect::LoseGold(1500),
                    },
                    EventOption {
                        description: "Crack down on protests (lose 5% population)".to_owned(),
                        effect: EventEffect::LosePopulation(5),
                    },
                ],
            },
        }
    }

    /// An event of either type, with even odds, drawn from `dice`.
    pub fn generate_random(dice: &mut Dice) -> (r: GameEvent)
        ensures
            r.options@.len() == 2,
            determined(*old(dice), 1) ==> r.event_type == if nth_draw(old(dice).script@, old(dice).cursor as int, 0) % 2
                == 0 {
                EventType::ArmyDesertion
            } else {
                EventType::TaxRevolt
            },
    {
        let ghost dice0 = *dice;
        let roll = dice.draw();
        proof {
            if determined(dice0, 1) {
                lemma_next_draw(dice0, dice0, 0, *dice, roll);
            }
        }
        let t = if roll % 2 == 0 {
            EventType::ArmyDesertion
        } else {
            EventType::TaxRevolt
        };
        GameEvent::of_type(t)
    }
}

/// `x` less `percent` percent of it, rounded down, and never below zero.
pub open spec fn reduced(x: u32, percent: u32) -> u32 {
    let loss = x as int * percent as int / 100;
    if loss >= x {
        0
    } else {
        (x - loss) as u32
    }
}

/// `gold` after `effect`: payments never go below zero, gains stop at the
/// largest treasury.
pub open spec fn gold_after(gold: u64, effect: EventEffect) -> u64 {
    match effect {
        EventEffect::PayGold(a) | EventEffect::LoseGold(a) => if a >= gold {
            0
        } else {
            (gold - a) as u64
        },
        EventEffect::GainGold(a) => if gold as int + a as int > u64::MAX as int {
            u64::MAX
        } else {
            (gold + a) as u64
        },
        _ => gold,
    }
}

fn reduce(x: u32, percent: u32) -> (r: u32)
    ensures
        r == reduced(x, percent),
{
    proof {
        let (a, b) = (x as int, percent as int);
        assert(0 <= a * b <= 0xffff_ffff * 0xffff_ffff) by (nonlinear_arith)
            requires 0 <= a <= 0xffff_ffff, 0 <= b <= 0xffff_ffff;
    }
    let loss: u64 = (x as u64 * percent as u64) / 100;
    if loss >= x as u64 {
        0
    } else {
        x - loss as u32
    }
}

/// Applies the chosen effect to the player's country: its treasury, or the
/// units of each of its armies, or the population of each of its provinces.
/// Without a player country nothing changes.
pub fn apply_event_effect(world: &mut World, effect: EventEffect)
    requires
        old(world).wf(),
    ensures
        final(world).wf(),
        final(world).player == old(world).player,
        final(world).phase == old(world).phase,
        old(world).player is None ==> *final(world) == *old(world),
        old(world).player matches Some(c) ==> {
            &&& final(world).countries@ == old(world).countries@.update(
                c as int,
                Country { gold: gold_after(old(world).countries@[c as int].gold, effect), ..old(world).countries@[c as int] },
            )
            &&& final(world).armies@ == old(world).armies@.map_values(
                |a: Army|
                    match effect {
                        EventEffect::LoseArmyUnits(pct) => if a.owner == c {
                            Army { units: reduced(a.units, pct), ..a }
                        } else {
                            a
                        },
                        _ => a,
                    },
            )
            &&& final(world).provinces@ == old(world).provinces@.map_values(
                |p: Province|
                    match effect {
                        EventEffect::LosePopulation(pct) => if p.owned_by == Some(OwnedBy { owner: c }) {
                            Province { population: reduced(p.population, pct), ..p }
                        } else {
                            p
                        },
                        _ => p,
                    },
            )
        },
{
    let c = match world.player {
        None => {
            return;
        },
        Some(c) => c,
    };
    let gold = world.countries[c].gold;
    let new_gold = match effect {
        EventEffect::PayGold(a) | EventEffect::LoseGold(a) => if a as u64 >= gold {
            0
        } else {
            gold - a as u64
        },
        EventEffect::GainGold(a) => if gold > u64::MAX - a as u64 {
            u64::MAX
        } else {
            gold + a as u64
        },
        _ => gold,
    };
    world.countries[c].gold = new_gold;
    assert(world.countries@ =~= old(world).countries@.update(
        c as int,
        Country { gold: gold_after(old(world).countries@[c as int].gold, effect), ..old(world).countries@[c as int] },
    ));
    let ghost paid = world.countries@;
    let ghost armies0 = world.armies@;
    let n = world.armies.len();
    let mut i: usize = 0;
    while i < n
        invariant
            n == world.armies@.len(),
            n == armies0.len(),
            armies0 == old(world).armies@,
            i <= n,
            forall|k: int| 0 <= k < i ==> #[trigger] world.armies@[k] == match effect {
                EventEffect::LoseArmyUnits(pct) => if armies0[k].owner == c {
                    Army { units: reduced(armies0[k].units, pct), ..armies0[k] }
                } else {
                    armies0[k]
                },
                _ => armies0[k],
            },
            forall|k: int| i <= k < n ==> #[trigger] world.armies@[k] == armies0[k],
            world.provinces@ == old(world).provinces@,
            world.countries@ == paid,
            world.player == old(world).player,
            world.phase == old(world).phase,
        decreases n - i,
    {
        if let EventEffect::LoseArmyUnits(pct) = effect {
            if world.armies[i].owner == c {
                let units = reduce(world.armies[i].units, pct);
                world.armies[i].units = units;
            }
        }
        i = i + 1;
    }
    let ghost mid_armies = world.armies@;
    let ghost mid_countries = world.countries@;
    let np = world.provinces.len();
    let mut p: usize = 0;
    while p < np
        invariant
            world.armies@ == mid_armies,
            world.countries@ == mid_countries,
            world.player == old(world).player,
            world.phase == old(world).phase,
            np == world.provinces@.len(),
            np == old(world).provinces@.len(),
            p <= np,
            forall|k: int| 0 <= k < p ==> #[trigger] world.provinces@[k] == match effect {
                EventEffect::LosePopulation(pct) => if old(world).provinces@[k].owned_by == Some(OwnedBy { owner: c }) {
                    Province { population: reduced(old(world).provinces@[k].population, pct), ..old(world).provinces@[k] }
                } else {
                    old(world).provinces@[k]
                },
                _ => old(world).provinces@[k],
            },
            forall|k: int| p <= k < np ==> #[trigger] world.provinces@[k] == old(world).provinces@[k],
        decreases np - p,
    {
        if let EventEffect::LosePopulation(pct) = effect {
            if world.provinces[p].owned_by == Some(OwnedBy { owner: c }) {
                let population = reduce(world.provinces[p].population, pct);
                world.provinces[p].population = population;
            }
        }
        p = p + 1;
    }
    proof {
        let np = world.provinces@.len() as int;
        let nc = world.countries@.len() as int;
        assert forall|i: int| 0 <= i < np implies crate::model::province_wf(#[trigger] world.provinces@[i], np, nc) by {
            assert(crate::model::province_wf(old(world).provinces@[i], np, nc));
        }
        assert forall|i: int| 0 <= i < world.armies@.len() implies crate::model::army_wf(#[trigger] world.armies@[i], np, nc) by {
            assert(crate::model::army_wf(old(world).armies@[i], np, nc));
        }
    }
    assert(world.armies@ =~= old(world).armies@.map_values(
        |a: Army|
            match effect {
                EventEffect::LoseArmyUnits(pct) => if a.owner == c {
                    Army { units: reduced(a.units, pct), ..a }
                } else {
                    a
                },
                _ => a,
            },
    ));
    assert(world.provinces@ =~= old(world).provinces@.map_values(
        |p: Province|
            match effect {
                EventEffect::LosePopulation(pct) => if p.owned_by == Some(OwnedBy { owner: c }) {
                    Province { population: reduced(p.population, pct), ..p }
                } else {
                    p
                },
                _ => p,
            },
    ));
}

} // verus!
