//! The rounds of the type solver. Each round solves every function, `let`
//! and assertion, then monomorphizes what the poly solvers pick; the
//! rounds go on while they make progress. What a round does is the caller's;
//! whether another round follows, and how the pass ends, is decided here.
use vstd::prelude::*;

verus! {

/// How many rounds can run; a pass that would need another one has run
/// into an internal error.
pub const MAX_ROUNDS: u32 = 31;

/// What the caller saw in one round.
#[derive(Clone, Copy, Debug, PartialEq, Eq, Structural)]
pub enum RoundOutcome {
    /// Solving, setting up the poly solvers or planning the
    /// monomorphizations met an error.
    Failed,
    /// Calls of poly functions were dispatched to implementations: their
    /// types have to be solved in another round.
    Dispatched,
    /// Nothing was dispatched, and `blocked` type variables are still too
    /// hard to solve.
    Settled { blocked: usize },
}

/// How the pass goes on after a round.
#[derive(Clone, Copy, Debug, PartialEq, Eq, Structural)]
pub enum Decision {
    /// Run the next round.
    Continue,
    /// The pass is over: `has_error` says whether it failed. `cannot_infer`
    /// asks for an error for each type variable that is still blocked;
    /// `too_many_rounds` for the internal error of a pass that does not end.
    Stop { has_error: bool, cannot_infer: bool, too_many_rounds: bool },
}

/// Where the rounds stand: the number of the next round, and the fewest
/// blocked type variables that a round has ended with (`usize::MAX` before
/// any).
#[derive(Clone, Copy, Debug, PartialEq, Eq, Structural)]
pub struct Rounds {
    pub round: u32,
    pub prev_blocked: usize,
}

/// The decision after round `r.round` ended with `o`, and where the rounds
/// stand then.
pub open spec fn round_spec(r: Rounds, o: RoundOutcome) -> (Rounds, Decision) {
    let next = Rounds { round: (r.round + 1) as u32, ..r };
    let go_on = (next, if r.round + 1 >= MAX_ROUNDS {
        Decision::Stop { has_error: true, cannot_infer: false, too_many_rounds: true }
    } else {
        Decision::Continue
    });
    match o {
        RoundOutcome::Failed => (
            r,
            Decision::Stop { has_error: true, cannot_infer: false, too_many_rounds: false },
        ),
        RoundOutcome::Dispatched => go_on,
        RoundOutcome::Settled { blocked } => if blocked == 0 {
            (r, Decision::Stop { has_error: false, cannot_infer: false, too_many_rounds: false })
        } else if blocked < r.prev_blocked {
            (Rounds { round: next.round, prev_blocked: blocked }, go_on.1)
        } else {
            (r, Decision::Stop { has_error: true, cannot_infer: true, too_many_rounds: false })
        },
    }
}

impl Rounds {
    /// Before the first round.
    pub fn new() -> (r: Rounds)
        ensures
            r == (Rounds { round: 0, prev_blocked: usize::MAX }),
    {
        Rounds { round: 0, prev_blocked: usize::MAX }
    }

    /// Decides what follows the round that just ended with `outcome`. An
    /// error ends the pass. Dispatched calls ask for another round. A round
    /// that leaves no type variable blocked ends the pass; one that leaves
    /// fewer blocked than any round before asks for another; one that makes
    /// no progress ends the pass with an error for each blocked variable.
    /// No more than `MAX_ROUNDS` rounds run.
    pub fn after_round(&mut self, outcome: RoundOutcome) -> (d: Decision)
        requires
            old(self).round < MAX_ROUNDS,
        ensures
            (*final(self), d) == round_spec(*old(self), outcome),
            d is Continue ==> final(self).round == old(self).round + 1
                && final(self).round < MAX_ROUNDS,
            outcome == RoundOutcome::Failed ==> d == (Decision::Stop {
                has_error: true,
                cannot_infer: false,
                too_many_rounds: false,
            }),
            outcome == (RoundOutcome::Settled { blocked: 0 }) ==> d == (Decision::Stop {
                has_error: false,
                cannot_infer: false,
                too_many_rounds: false,
            }),
            outcome matches RoundOutcome::Settled { blocked } ==> (0 < blocked && blocked
                >= old(self).prev_blocked ==> d == (Decision::Stop {
                has_error: true,
                cannot_infer: true,
                too_many_rounds: false,
            })),
            outcome matches RoundOutcome::Settled { blocked } ==> (0 < blocked && blocked
                < old(self).prev_blocked ==> final(self).prev_blocked == blocked
                && final(self).round == old(self).round + 1),
            outcome == RoundOutcome::Dispatched ==> final(self).prev_blocked
                == old(self).prev_blocked && final(self).round == old(self).round + 1,
            outcome == RoundOutcome::Dispatched ==> (if old(self).round + 1 < MAX_ROUNDS {
                d == Decision::Continue
            } else {
                d == (Decision::Stop { has_error: true, cannot_infer: false, too_many_rounds: true })
            }),
            outcome matches RoundOutcome::Settled { blocked } ==> (0 < blocked && blocked
                < old(self).prev_blocked ==> (if old(self).round + 1 < MAX_ROUNDS {
                d == Decision::Continue
            } else {
                d == (Decision::Stop { has_error: true, cannot_infer: false, too_many_rounds: true })
            })),
    {
        let go_on = if self.round + 1 >= MAX_ROUNDS {
            Decision::Stop { has_error: true, cannot_infer: false, too_many_rounds: true }
        } else {
            Decision::Continue
        };
        match outcome {
            RoundOutcome::Failed => {
                Decision::Stop { has_error: true, cannot_infer: false, too_many_rounds: false }
            },
            RoundOutcome::Dispatched => {
                self.round = self.round + 1;
                go_on
            },
            RoundOutcome::Settled { blocked } => {
                if blocked == 0 {
                    Decision::Stop { has_error: false, cannot_infer: false, too_many_rounds: false }
                } else if blocked < self.prev_blocked {
                    self.round = self.round + 1;
                    self.prev_blocked = blocked;
                    go_on
                } else {
                    Decision::Stop { has_error: true, cannot_infer: true, too_many_rounds: false }
                }
            },
        }
    }
}

/// Whatever each round brings, the pass ends: every round that is not the
/// last moves on to the next, and no more than `MAX_ROUNDS` rounds run; a
/// round that leaves blocked type variables either leaves fewer than every
/// round before it or ends the pass.
pub proof fn lemma_rounds_end(r: Rounds, o: RoundOutcome)
    requires
        r.round < MAX_ROUNDS,
    ensures
        round_spec(r, o).1 is Continue ==> round_spec(r, o).0.round == r.round + 1
            && round_spec(r, o).0.round < MAX_ROUNDS,
        round_spec(r, o).0.prev_blocked <= r.prev_blocked,
        (o matches RoundOutcome::Settled { blocked } && blocked > 0 && round_spec(r, o).1 is Continue)
            ==> round_spec(r, o).0.prev_blocked < r.prev_blocked,
{
}

} // verus!
