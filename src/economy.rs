use vstd::prelude::*;
use crate::model::{Country, Province, World, provinces_wf};

verus! {

/// Tunable penalties applied to occupied provinces, as percentages of the
/// unoccupied value.
#[derive(Clone, Copy, Debug, PartialEq, Eq, Structural)]
pub struct EconomyRules {
    pub occupied_growth_percent: u32,
    pub occupied_income_percent: u32,
}

impl EconomyRules {
    /// Occupied provinces do not grow and yield half their income.
    pub fn standard() -> (r: EconomyRules)
        ensures
            r.occupied_growth_percent == 0,
            r.occupied_income_percent == 50,
    {
        EconomyRules { occupied_growth_percent: 0, occupied_income_percent: 50 }
    }
}

/// `n / d` rounded to the nearest integer, halves away from zero.
pub open spec fn round_div(n: int, d: int) -> int {
    if n >= 0 {
        (n + d / 2) / d
    } else {
        -((-n + d / 2) / d)
    }
}

/// Growth percentage in force for a province.
pub open spec fn growth_percent(prov: Province, rules: EconomyRules) -> int {
    if prov.occupied is Some {
        rules.occupied_growth_percent as int
    } else {
        100
    }
}

/// Effective growth rate, in thousandths, before any occupation penalty.
pub open spec fn growth_rate(prov: Province) -> int {
    prov.base_growth as int + prov.buildings.growth_bonus_total()
}

/// Change of population over one turn: population × rate × percentage,
/// rounded to the nearest unit.
pub open spec fn growth_amount(prov: Province, rules: EconomyRules) -> int {
    round_div(prov.population as int * growth_rate(prov) * growth_percent(prov, rules), 100_000)
}

/// Population after one turn: never below zero, and capped at `u32::MAX`.
pub open spec fn next_population_of(prov: Province, rules: EconomyRules) -> int {
    let raw = prov.population as int + growth_amount(prov, rules);
    if raw < 0 {
        0
    } else if raw > u32::MAX as int {
        u32::MAX as int
    } else {
        raw
    }
}

/// Income before any occupation penalty: base, buildings, and one gold per
/// thousand inhabitants.
pub open spec fn gross_income(prov: Province) -> int {
    prov.base_income as int + prov.buildings.income_bonus_total() + prov.population as int / 1000
}

/// Income of a province for one turn, rounded down after the penalty.
pub open spec fn income_of(prov: Province, rules: EconomyRules) -> int {
    if prov.occupied is Some {
        gross_income(prov) * rules.occupied_income_percent as int / 100
    } else {
        gross_income(prov)
    }
}

/// The country that receives a province's income: its occupier if occupied,
/// else its owner. Unowned provinces yield nothing.
pub open spec fn beneficiary(prov: Province) -> Option<usize> {
    match prov.owned_by {
        None => None,
        Some(o) => match prov.occupied {
            Some(occ) => Some(occ.occupier),
            None => Some(o.owner),
        },
    }
}

/// Total income owed to country `c` by the provinces in `provs`.
pub open spec fn income_due(provs: Seq<Province>, rules: EconomyRules, c: usize) -> int
    decreases provs.len(),
{
    if provs.len() == 0 {
        0
    } else {
        income_due(provs.drop_last(), rules, c) + if beneficiary(provs.last()) == Some(c) {
            income_of(provs.last(), rules)
        } else {
            0
        }
    }
}

/// A province after the economy pass: owned provinces grow.
pub open spec fn grown(prov: Province, rules: EconomyRules) -> Province {
    if prov.owned_by is Some {
        Province { population: next_population_of(prov, rules) as u32, ..prov }
    } else {
        prov
    }
}

/// A treasury after receiving `amount`, capped at `u64::MAX`.
pub open spec fn credited(gold: u64, amount: int) -> u64 {
    if gold as int + amount > u64::MAX as int {
        u64::MAX
    } else {
        (gold as int + amount) as u64
    }
}

/// A country after being paid what `provs` owe it.
pub open spec fn paid(country: Country, provs: Seq<Province>, rules: EconomyRules, c: usize) -> Country {
    Country { gold: credited(country.gold, income_due(provs, rules, c)), ..country }
}

/// Population of `prov` after one turn.
pub fn next_population(prov: &Province, rules: EconomyRules) -> (r: u32)
    ensures
        r == next_population_of(*prov, rules),
        prov.population as int + growth_amount(*prov, rules) < 0 ==> r == 0,
{
    let rate: i128 = prov.base_growth as i128 + prov.buildings.growth_bonus() as i128;
    let percent: i128 = if prov.occupied.is_some() {
        rules.occupied_growth_percent as i128
    } else {
        100
    };
    let pop: i128 = prov.population as i128;
    proof {
        let (p, g, q) = (pop as int, rate as int, percent as int);
        assert(-0x1_0000_0000_0000 * 0x1_0000_0000 <= p * g <= 0x1_0000_0000_0000 * 0x1_0000_0000)
            by (nonlinear_arith)
            requires 0 <= p <= 0xffff_ffff, -0x1_0000 * 0x1_0000 <= g <= 0x1_0000 * 0x1_0000;
        assert(-0x1_0000_0000_0000_0000_0000 * 0x1_0000_0000 <= (p * g) * q <= 0x1_0000_0000_0000_0000_0000
            * 0x1_0000_0000) by (nonlinear_arith)
            requires
                -0x1_0000_0000_0000 * 0x1_0000_0000 <= p * g <= 0x1_0000_0000_0000 * 0x1_0000_0000,
                0 <= q <= 0xffff_ffff;
    }
    let n: i128 = pop * rate * percent;
    let amount: i128 = if n >= 0 {
        (n + 50_000) / 100_000
    } else {
        -((-n + 50_000) / 100_000)
    };
    let raw: i128 = pop + amount;
    if raw < 0 {
        0
    } else if raw > u32::MAX as i128 {
        u32::MAX
    } else {
        raw as u32
    }
}

/// Income of `prov` for one turn.
pub fn province_income(prov: &Province, rules: EconomyRules) -> (r: u64)
    ensures
        r == income_of(*prov, rules),
{
    let gross: u64 = prov.base_income as u64 + prov.buildings.income_bonus() as u64 + (prov.population / 1000) as u64;
    if prov.occupied.is_some() {
        proof {
            lemma_income_bound(*prov, rules);
        }
        ((gross as u128 * rules.occupied_income_percent as u128) / 100) as u64
    } else {
        gross
    }
}

/// Bound on one province's income: below 2^59.
pub open spec fn income_cap() -> int {
    0x800_0000_0000_0000
}

proof fn lemma_income_bound(prov: Province, rules: EconomyRules)
    ensures
        0 <= income_of(prov, rules) <= income_cap(),
        0 <= gross_income(prov) * rules.occupied_income_percent as int <= 0x2_0000_0000 * 0x1_0000_0000,
{
    let (g, q) = (gross_income(prov), rules.occupied_income_percent as int);
    assert(0 <= g * q <= 0x2_0000_0000 * 0x1_0000_0000) by (nonlinear_arith)
        requires 0 <= g <= 0x2_0000_0000, 0 <= q <= 0xffff_ffff;
    vstd::arithmetic::div_mod::lemma_div_is_ordered(g * q, (0x2_0000_0000 * 0x1_0000_0000) as int, 100);
}

proof fn lemma_due_bound(provs: Seq<Province>, rules: EconomyRules, c: usize)
    ensures
        0 <= income_due(provs, rules, c) <= provs.len() * income_cap(),
    decreases provs.len(),
{
    if provs.len() > 0 {
        lemma_due_bound(provs.drop_last(), rules, c);
        lemma_income_bound(provs.last(), rules);
        let n = provs.len() as int;
        assert((n - 1) * income_cap() + income_cap() == n * income_cap()) by (nonlinear_arith);
    }
}

proof fn lemma_due_fits(provs: Seq<Province>, rules: EconomyRules, c: usize)
    requires
        provs.len() <= 0x1_0000_0000_0000_0000,
    ensures
        0 <= income_due(provs, rules, c) <= 0x1_0000_0000_0000_0000 * income_cap(),
{
    lemma_due_bound(provs, rules, c);
    let n = provs.len() as int;
    assert(n * income_cap() <= 0x1_0000_0000_0000_0000 * income_cap()) by (nonlinear_arith)
        requires 0 <= n <= 0x1_0000_0000_0000_0000;
}

/// Grows every owned province and pays each country the income of the
/// provinces it benefits from. All incomes are read from the provinces as
/// they stood before the pass, then credited at once.
pub fn process_economy(world: &mut World, rules: EconomyRules)
    requires
        provinces_wf(old(world).provinces@, old(world).countries@.len() as int),
    ensures
        final(world).provinces@ == Seq::new(
            old(world).provinces@.len(),
            |i: int| grown(old(world).provinces@[i], rules),
        ),
        final(world).countries@ == Seq::new(
            old(world).countries@.len(),
            |c: int| paid(old(world).countries@[c], old(world).provinces@, rules, c as usize),
        ),
        final(world).armies@ == old(world).armies@,
        final(world).player == old(world).player,
        final(world).phase == old(world).phase,
{
    let ghost start = world.provinces@;
    let nc = world.countries.len();
    let mut due: Vec<u128> = Vec::new();
    let mut c: usize = 0;
    while c < nc
        invariant
            c <= nc,
            due@.len() == c,
            forall|k: int| 0 <= k < c ==> due@[k] == 0,
        decreases nc - c,
    {
        due.push(0);
        c = c + 1;
    }
    let np = world.provinces.len();
    let mut i: usize = 0;
    while i < np
        invariant
            np == start.len(),
            start == old(world).provinces@,
            nc == world.countries@.len(),
            world.countries@ == old(world).countries@,
            world.armies@ == old(world).armies@,
            world.player == old(world).player,
            world.phase == old(world).phase,
            provinces_wf(start, nc as int),
            world.provinces@.len() == np,
            i <= np,
            due@.len() == nc,
            forall|k: int| 0 <= k < nc ==> #[trigger] due@[k] == income_due(start.subrange(0, i as int), rules, k as usize),
            forall|k: int| 0 <= k < i ==> #[trigger] world.provinces@[k] == grown(start[k], rules),
            forall|k: int| i <= k < np ==> #[trigger] world.provinces@[k] == start[k],
        decreases np - i,
    {
        let prov = &world.provinces[i];
        let ghost before = start.subrange(0, i as int);
        proof {
            assert(start.subrange(0, i as int + 1).drop_last() =~= before);
            assert(start.subrange(0, i as int + 1).last() == start[i as int]);
            assert(crate::model::province_wf(start[i as int], np as int, nc as int));
        }
        let target: Option<usize> = match prov.owned_by {
            None => None,
            Some(o) => match prov.occupied {
                Some(occ) => Some(occ.occupier),
                None => Some(o.owner),
            },
        };
        let income = province_income(prov, rules);
        let population = next_population(prov, rules);
        let owned = prov.owned_by.is_some();
        if let Some(b) = target {
            proof {
                lemma_due_fits(start.subrange(0, i as int + 1), rules, b);
            }
            let current = due[b];
            due.set(b, current + income as u128);
        }
        if owned {
            world.provinces[i].population = population;
        }
        i = i + 1;
    }
    assert(start.subrange(0, np as int) =~= start);
    let mut c: usize = 0;
    while c < nc
        invariant
            c <= nc,
            nc == world.countries@.len(),
            due@.len() == nc,
            forall|k: int| 0 <= k < nc ==> #[trigger] due@[k] == income_due(start, rules, k as usize),
            forall|k: int| 0 <= k < c ==> #[trigger] world.countries@[k] == paid(old(world).countries@[k], start, rules, k as usize),
            forall|k: int| c <= k < nc ==> #[trigger] world.countries@[k] == old(world).countries@[k],
            world.provinces@ == Seq::new(start.len(), |k: int| grown(start[k], rules)),
            world.armies@ == old(world).armies@,
            world.player == old(world).player,
            world.phase == old(world).phase,
            start == old(world).provinces@,
            np == start.len(),
        decreases nc - c,
    {
        let gold = world.countries[c].gold;
        let amount = due[c];
        proof {
            lemma_due_fits(start, rules, c);
        }
        let new_gold: u64 = if gold as u128 + amount > u64::MAX as u128 {
            u64::MAX
        } else {
            (gold as u128 + amount) as u64
        };
        world.countries[c].gold = new_gold;
        c = c + 1;
    }
    assert(world.countries@ =~= Seq::new(
        old(world).countries@.len(),
        |k: int| paid(old(world).countries@[k], start, rules, k as usize),
    ));
}

/// Every population the economy pass produces lies in `0 ..= u32::MAX`, and a
/// decline larger than the population leaves exactly zero, whatever the
/// growth rates and occupation penalties.
pub proof fn lemma_population_never_negative(prov: Province, rules: EconomyRules)
    ensures
        0 <= next_population_of(prov, rules) <= u32::MAX,
        prov.population as int + growth_amount(prov, rules) < 0 ==> next_population_of(prov, rules) == 0,
        grown(prov, rules).population >= 0,
{
}

} // verus!
