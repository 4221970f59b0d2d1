use vstd::prelude::*;

verus! {

/// Relies on `rand::random::<u64>`: a value drawn from the thread-local
/// generator. Nothing is promised of it.
#[verifier::external_body]
fn random_u64() -> (r: u64) {
    rand::random::<u64>()
}

/// Source of the numbers behind every random choice. A scripted source hands
/// out its script in order; once that runs out, a live source draws from the
/// system generator and a scripted one yields zero.
#[derive(Clone, Debug)]
pub struct Dice {
    pub script: Vec<u64>,
    pub cursor: usize,
    pub live: bool,
}

/// Draw number `k` (from 0) of a source whose script is `script` and whose
/// cursor starts at `start`, when it is known: a script entry, or zero past
/// the end of the script.
pub open spec fn nth_draw(script: Seq<u64>, start: int, k: int) -> u64 {
    if 0 <= start + k < script.len() {
        script[start + k]
    } else {
        0
    }
}

/// The cursor after `k` draws from `start` on a script of length `len`.
pub open spec fn cursor_after(start: int, len: int, k: int) -> int {
    if start + k <= len {
        start + k
    } else if start <= len {
        len
    } else {
        start
    }
}

/// `d` is `from` after `k` draws.
pub open spec fn drawn(from: Dice, d: Dice, k: int) -> bool {
    &&& d.script@ == from.script@
    &&& d.live == from.live
    &&& d.cursor == cursor_after(from.cursor as int, from.script@.len() as int, k)
}

/// The first `k` draws from `from` are fixed: it is scripted, or its script
/// holds them all.
pub open spec fn determined(from: Dice, k: int) -> bool {
    !from.live || from.cursor + k <= from.script@.len()
}

/// One draw took `before` to `after` and gave `r`.
pub open spec fn draw_result(before: Dice, after: Dice, r: u64) -> bool {
    &&& after.script@ == before.script@
    &&& after.live == before.live
    &&& before.cursor < before.script@.len() ==> r == before.script@[before.cursor as int] && after.cursor == before.cursor
        + 1
    &&& before.cursor >= before.script@.len() ==> after.cursor == before.cursor
    &&& before.cursor >= before.script@.len() && !before.live ==> r == 0
}

/// Draw number `k` of a determined source is `nth_draw`, and leaves it after
/// `k + 1` draws.
pub proof fn lemma_next_draw(from: Dice, d: Dice, k: int, d2: Dice, r: u64)
    requires
        0 <= k,
        drawn(from, d, k),
        determined(from, k + 1),
        draw_result(d, d2, r),
    ensures
        r == nth_draw(from.script@, from.cursor as int, k),
        drawn(from, d2, k + 1),
{
}

impl Dice {
    /// A reproducible source that yields `script`, then zeros.
    pub fn scripted(script: Vec<u64>) -> (r: Dice)
        ensures
            r.script@ == script@,
            r.cursor == 0,
            !r.live,
    {
        Dice { script, cursor: 0, live: false }
    }

    /// A source that draws every number from the system generator.
    pub fn live() -> (r: Dice)
        ensures
            r.script@.len() == 0,
            r.cursor == 0,
            r.live,
    {
        Dice { script: Vec::new(), cursor: 0, live: true }
    }

    /// The next number.
    pub fn draw(&mut self) -> (r: u64)
        ensures
            final(self).script@ == old(self).script@,
            final(self).live == old(self).live,
            old(self).cursor < old(self).script@.len() ==> r == old(self).script@[old(self).cursor as int]
                && final(self).cursor == old(self).cursor + 1,
            old(self).cursor >= old(self).script@.len() ==> final(self).cursor == old(self).cursor,
            old(self).cursor >= old(self).script@.len() && !old(self).live ==> r == 0,
            draw_result(*old(self), *final(self), r),
    {
        if self.cursor < self.script.len() {
            let r = self.script[self.cursor];
            self.cursor = self.cursor + 1;
            r
        } else if self.live {
            random_u64()
        } else {
            0
        }
    }
}

} // verus!
