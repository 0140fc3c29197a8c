//! Bringing a chip into download mode: the reset pulses on the modem-control
//! lines, and the rounds of sync tries that follow them.
//!
//! Nothing here touches a serial port. `Connector` says which action comes
//! next; the caller performs it and reports how a sync try went.

use crate::protocol::Error;
use vstd::prelude::*;

verus! {

/// How many rounds of sync tries one connection attempt makes.
pub const ROUNDS: usize = 10;

/// How many sync tries one round makes.
pub const TRIES_PER_ROUND: usize = 5;

/// Read timeout while polling for a sync reply, in milliseconds.
pub const SYNC_TIMEOUT_MS: u64 = 100;

/// Read timeout for the replies to commands, in milliseconds.
pub const COMMAND_TIMEOUT_MS: u64 = 3000;

/// Pause after a failed sync try, in milliseconds.
pub const RETRY_PAUSE_MS: u64 = 50;

/// Progress mark of a failed sync try after the fast reset.
pub const GLYPH_FAST: char = '.';

/// Progress mark of a failed sync try after the slow reset.
pub const GLYPH_SLOW: char = '_';

/// One step of a reset pulse.
#[derive(Debug, Clone, Copy, PartialEq, Eq, Structural)]
pub enum LineStep {
    /// Set the DTR line.
    Dtr(bool),
    /// Set the RTS line.
    Rts(bool),
    /// Wait for so many milliseconds.
    Sleep(u64),
}

/// The steps of the reset pulse. The slow profile (`delay`) holds the chip in
/// reset for 1200 ms longer and waits 400 ms longer after releasing it.
pub open spec fn reset_steps(delay: bool) -> Seq<LineStep> {
    if delay {
        seq![
            LineStep::Dtr(false),
            LineStep::Rts(true),
            LineStep::Sleep(100),
            LineStep::Sleep(1200),
            LineStep::Dtr(true),
            LineStep::Rts(false),
            LineStep::Sleep(400),
            LineStep::Sleep(50),
            LineStep::Dtr(false),
        ]
    } else {
        seq![
            LineStep::Dtr(false),
            LineStep::Rts(true),
            LineStep::Sleep(100),
            LineStep::Dtr(true),
            LineStep::Rts(false),
            LineStep::Sleep(50),
            LineStep::Dtr(false),
        ]
    }
}

/// Lists the steps of the reset pulse, fast or slow.
pub fn reset_sequence(delay: bool) -> (steps: Vec<LineStep>)
    ensures
        steps@ == reset_steps(delay),
{
    let mut steps: Vec<LineStep> = Vec::new();
    steps.push(LineStep::Dtr(false));
    steps.push(LineStep::Rts(true));
    steps.push(LineStep::Sleep(100));
    if delay {
        steps.push(LineStep::Sleep(1200));
    }
    steps.push(LineStep::Dtr(true));
    steps.push(LineStep::Rts(false));
    if delay {
        steps.push(LineStep::Sleep(400));
    }
    steps.push(LineStep::Sleep(50));
    steps.push(LineStep::Dtr(false));
    assert(steps@ =~= reset_steps(delay));
    steps
}

/// What the caller is to do next.
#[derive(Debug, Clone, Copy, PartialEq, Eq)]
pub enum Action {
    /// Pulse the reset lines through `reset_sequence` with this profile.
    Reset(bool),
    /// Open the port with the sync timeout, drop pending input, run one sync
    /// exchange, and report whether it succeeded.
    TrySync,
    /// Show this progress mark and wait for `RETRY_PAUSE_MS`.
    Pause(char),
    /// The attempt is over: the chip answered, or every try was used up and
    /// the error is `Connection`.
    Finish(Result<(), Error>),
}

/// Where a connection attempt stands.
#[derive(Debug, Clone, Copy, PartialEq, Eq, Structural)]
pub enum Phase {
    /// A reset pulse is due.
    Reset,
    /// A sync try is due.
    Sync,
    /// A sync try failed, and the pause behind it is due.
    Pause,
    /// The chip answered.
    Connected,
    /// Every try was used up.
    Failed,
}

/// State of a connection attempt.
pub struct ConnectState {
    /// What is due.
    pub phase: Phase,
    /// The reset profile in use: fast at first, slow from the second round on.
    pub delay: bool,
    /// How many rounds are over.
    pub round: nat,
    /// How many sync tries of this round have failed.
    pub tries: nat,
}

impl ConnectState {
    /// The start of a connection attempt: a fast reset is due.
    pub open spec fn start() -> ConnectState {
        ConnectState { phase: Phase::Reset, delay: false, round: 0, tries: 0 }
    }

    /// The states that a connection attempt can be in.
    pub open spec fn wf(self) -> bool {
        &&& self.round < ROUNDS
        &&& self.tries <= TRIES_PER_ROUND
        &&& (self.phase == Phase::Reset ==> self.tries == 0)
        &&& (self.phase == Phase::Sync ==> self.tries < TRIES_PER_ROUND)
        &&& (self.phase == Phase::Pause ==> self.tries >= 1)
        &&& (self.round >= 1 ==> self.delay)
    }

    /// The progress mark of a failed sync try under the profile `delay`.
    pub open spec fn glyph(delay: bool) -> char {
        if delay {
            GLYPH_SLOW
        } else {
            GLYPH_FAST
        }
    }

    /// What the caller is to do in this state.
    pub open spec fn action(self) -> Action {
        match self.phase {
            Phase::Reset => Action::Reset(self.delay),
            Phase::Sync => Action::TrySync,
            Phase::Pause => Action::Pause(ConnectState::glyph(self.delay)),
            Phase::Connected => Action::Finish(Ok(())),
            Phase::Failed => Action::Finish(Err(Error::Connection)),
        }
    }

    /// The state after the action of this state was performed. `synced` tells
    /// how a sync try went, and is read in no other phase.
    ///
    /// A reset is followed by the sync tries of the round. A sync try that
    /// succeeds ends the attempt. One that fails is followed by a pause, and
    /// the pause by the next try, until the round has used up its tries.
    /// Then the next round begins: with the slow reset where the profile was
    /// fast until now, without a reset otherwise. After the last round the
    /// attempt has failed.
    pub open spec fn advance(self, synced: bool) -> ConnectState {
        match self.phase {
            Phase::Reset => ConnectState { phase: Phase::Sync, tries: 0, ..self },
            Phase::Sync => if synced {
                ConnectState { phase: Phase::Connected, ..self }
            } else {
                ConnectState { phase: Phase::Pause, tries: self.tries + 1, ..self }
            },
            Phase::Pause => if self.tries < TRIES_PER_ROUND {
                ConnectState { phase: Phase::Sync, ..self }
            } else if self.round + 1 >= ROUNDS {
                ConnectState { phase: Phase::Failed, ..self }
            } else if self.delay {
                ConnectState { phase: Phase::Sync, round: self.round + 1, tries: 0, ..self }
            } else {
                ConnectState {
                    phase: Phase::Reset,
                    delay: true,
                    round: self.round + 1,
                    tries: 0,
                }
            },
            Phase::Connected => self,
            Phase::Failed => self,
        }
    }

    /// How many actions can follow this one before the next sync try.
    pub open spec fn actions_before_sync(self) -> nat {
        match self.phase {
            Phase::Pause => 2,
            Phase::Reset => 1,
            _ => 0,
        }
    }

    /// The actions of an attempt whose sync tries go as `outcomes` say, from
    /// this state on: up to the end of the attempt, or up to the sync try for
    /// which `outcomes` holds nothing any more.
    pub open spec fn run(self, outcomes: Seq<bool>) -> Seq<Action>
        decreases outcomes.len(), self.actions_before_sync(),
    {
        match self.phase {
            Phase::Connected | Phase::Failed => seq![self.action()],
            Phase::Sync => if outcomes.len() == 0 {
                seq![self.action()]
            } else {
                seq![self.action()] + self.advance(outcomes[0]).run(outcomes.skip(1))
            },
            Phase::Reset | Phase::Pause => seq![self.action()] + self.advance(false).run(outcomes),
        }
    }

    /// The state in which the sync try is due that follows `failures` failed ones.
    pub open spec fn at_try(failures: nat) -> ConnectState {
        ConnectState {
            phase: Phase::Sync,
            delay: failures >= TRIES_PER_ROUND,
            round: failures / (TRIES_PER_ROUND as nat),
            tries: failures % (TRIES_PER_ROUND as nat),
        }
    }
}

/// So many failed sync tries in a row.
pub open spec fn failed_tries(count: nat) -> Seq<bool> {
    Seq::new(count, |i: int| false)
}

/// The actions of so many failed sync tries under one profile: a sync try and
/// a pause with the mark `glyph`, `count` times.
pub open spec fn try_actions(count: nat, glyph: char) -> Seq<Action>
    decreases count,
{
    if count == 0 {
        Seq::empty()
    } else {
        seq![Action::TrySync, Action::Pause(glyph)] + try_actions((count - 1) as nat, glyph)
    }
}

/// One failed sync try that neither ends the fast round nor the attempt.
proof fn lemma_failed_try(failures: nat, rest: Seq<bool>)
    requires
        failures + 1 < ROUNDS * TRIES_PER_ROUND,
        failures + 1 != TRIES_PER_ROUND,
    ensures
        ConnectState::at_try(failures).run(seq![false] + rest) == seq![
            Action::TrySync,
            Action::Pause(ConnectState::glyph(failures >= TRIES_PER_ROUND)),
        ] + ConnectState::at_try(failures + 1).run(rest),
{
    let state = ConnectState::at_try(failures);
    let outcomes = seq![false] + rest;
    let paused = state.advance(false);
    let next = paused.advance(false);
    assert(outcomes.skip(1) =~= rest);
    assert(state.run(outcomes) == seq![state.action()] + paused.run(rest));
    assert(paused.run(rest) == seq![paused.action()] + next.run(rest));
    assert(next == ConnectState::at_try(failures + 1));
    assert(seq![state.action()] + (seq![paused.action()] + next.run(rest)) =~= seq![
        Action::TrySync,
        Action::Pause(ConnectState::glyph(failures >= TRIES_PER_ROUND)),
    ] + next.run(rest));
}

/// The failed sync try that ends the fast round: the slow reset follows.
proof fn lemma_last_fast_try(rest: Seq<bool>)
    ensures
        ConnectState::at_try((TRIES_PER_ROUND - 1) as nat).run(seq![false] + rest) == seq![
            Action::TrySync,
            Action::Pause(GLYPH_FAST),
            Action::Reset(true),
        ] + ConnectState::at_try(TRIES_PER_ROUND as nat).run(rest),
{
    let state = ConnectState::at_try((TRIES_PER_ROUND - 1) as nat);
    let outcomes = seq![false] + rest;
    let paused = state.advance(false);
    let reset = paused.advance(false);
    let next = reset.advance(false);
    assert(outcomes.skip(1) =~= rest);
    assert(state.run(outcomes) == seq![state.action()] + paused.run(rest));
    assert(paused.run(rest) == seq![paused.action()] + reset.run(rest));
    assert(reset.run(rest) == seq![reset.action()] + next.run(rest));
    assert(next == ConnectState::at_try(TRIES_PER_ROUND as nat));
    assert(seq![state.action()] + (seq![paused.action()] + (seq![reset.action()] + next.run(
        rest,
    ))) =~= seq![Action::TrySync, Action::Pause(GLYPH_FAST), Action::Reset(true)] + next.run(
        rest,
    ));
}

/// The failed sync try that ends the attempt.
proof fn lemma_last_try(rest: Seq<bool>)
    ensures
        ConnectState::at_try((ROUNDS * TRIES_PER_ROUND - 1) as nat).run(seq![false] + rest)
            == seq![
            Action::TrySync,
            Action::Pause(GLYPH_SLOW),
            Action::Finish(Err(Error::Connection)),
        ],
{
    let state = ConnectState::at_try((ROUNDS * TRIES_PER_ROUND - 1) as nat);
    let outcomes = seq![false] + rest;
    let paused = state.advance(false);
    let failed = paused.advance(false);
    assert(outcomes.skip(1) =~= rest);
    assert(state.run(outcomes) == seq![state.action()] + paused.run(rest));
    assert(paused.run(rest) == seq![paused.action()] + failed.run(rest));
    assert(failed.run(rest) == seq![failed.action()]);
    assert(seq![state.action()] + (seq![paused.action()] + seq![failed.action()]) =~= seq![
        Action::TrySync,
        Action::Pause(GLYPH_SLOW),
        Action::Finish(Err(Error::Connection)),
    ]);
}

/// Failed sync tries in a row that stay under one profile and do not end the
/// attempt.
proof fn lemma_failed_tries(failures: nat, count: nat, rest: Seq<bool>)
    requires
        failures + count < ROUNDS * TRIES_PER_ROUND,
        failures + count < TRIES_PER_ROUND || failures >= TRIES_PER_ROUND,
    ensures
        ConnectState::at_try(failures).run(failed_tries(count) + rest) == try_actions(
            count,
            ConnectState::glyph(failures >= TRIES_PER_ROUND),
        ) + ConnectState::at_try(failures + count).run(rest),
    decreases count,
{
    let glyph = ConnectState::glyph(failures >= TRIES_PER_ROUND);
    if count == 0 {
        assert(failed_tries(count) + rest =~= rest);
        assert(try_actions(count, glyph) + ConnectState::at_try(failures).run(rest)
            =~= ConnectState::at_try(failures).run(rest));
    } else {
        let later = failed_tries((count - 1) as nat) + rest;
        assert(failed_tries(count) + rest =~= seq![false] + later);
        lemma_failed_try(failures, later);
        lemma_failed_tries(failures + 1, (count - 1) as nat, rest);
        let after = ConnectState::at_try(failures + count).run(rest);
        assert(seq![Action::TrySync, Action::Pause(glyph)] + (try_actions(
            (count - 1) as nat,
            glyph,
        ) + after) =~= try_actions(count, glyph) + after);
    }
}

/// A sync try that succeeds ends the attempt.
proof fn lemma_successful_try(failures: nat, rest: Seq<bool>)
    ensures
        ConnectState::at_try(failures).run(seq![true] + rest) == seq![
            Action::TrySync,
            Action::Finish(Ok(())),
        ],
{
    let state = ConnectState::at_try(failures);
    let connected = state.advance(true);
    assert((seq![true] + rest).skip(1) =~= rest);
    assert(state.run(seq![true] + rest) == seq![state.action()] + connected.run(rest));
    assert(connected.run(rest) == seq![connected.action()]);
    assert(seq![state.action()] + seq![connected.action()] =~= seq![
        Action::TrySync,
        Action::Finish(Ok(())),
    ]);
}

/// The attempt begins with the fast reset.
proof fn lemma_first_reset(outcomes: Seq<bool>)
    ensures
        ConnectState::start().run(outcomes) == seq![Action::Reset(false)]
            + ConnectState::at_try(0).run(outcomes),
{
    let state = ConnectState::start();
    assert(state.advance(false) == ConnectState::at_try(0));
}

/// What an attempt does whose sync tries fail `failures` times and then
/// succeed, with `failures` below the fifty tries that an attempt has.
///
/// The attempt begins with the fast reset. Every failed try is followed by a
/// pause with its mark: `.` for the first five, `_` for all later ones. The
/// profile is switched once, by a slow reset after the fifth failure, and
/// never where fewer tries fail. The attempt ends with success right after
/// the try that succeeds.
pub proof fn lemma_connects_after_failures(failures: nat, rest: Seq<bool>)
    requires
        failures < ROUNDS * TRIES_PER_ROUND,
    ensures
        ConnectState::start().run(failed_tries(failures) + seq![true] + rest) == (if failures
            < TRIES_PER_ROUND {
            seq![Action::Reset(false)] + try_actions(failures, GLYPH_FAST) + seq![
                Action::TrySync,
                Action::Finish(Ok(())),
            ]
        } else {
            seq![Action::Reset(false)] + try_actions(TRIES_PER_ROUND as nat, GLYPH_FAST) + seq![
                Action::Reset(true),
            ] + try_actions((failures - TRIES_PER_ROUND) as nat, GLYPH_SLOW) + seq![
                Action::TrySync,
                Action::Finish(Ok(())),
            ]
        }),
{
    let outcomes = failed_tries(failures) + seq![true] + rest;
    let success = seq![Action::TrySync, Action::Finish(Ok(()))];
    lemma_first_reset(outcomes);
    lemma_successful_try(failures, rest);
    if failures < TRIES_PER_ROUND {
        assert(outcomes =~= failed_tries(failures) + (seq![true] + rest));
        lemma_failed_tries(0, failures, seq![true] + rest);
        assert(seq![Action::Reset(false)] + (try_actions(failures, GLYPH_FAST) + success)
            =~= seq![Action::Reset(false)] + try_actions(failures, GLYPH_FAST) + success);
    } else {
        let fast = (TRIES_PER_ROUND - 1) as nat;
        let slow = (failures - TRIES_PER_ROUND) as nat;
        let after_switch = failed_tries(slow) + (seq![true] + rest);
        let after_fast = seq![false] + after_switch;
        assert(outcomes =~= failed_tries(fast) + after_fast);
        lemma_failed_tries(0, fast, after_fast);
        lemma_last_fast_try(after_switch);
        lemma_failed_tries(TRIES_PER_ROUND as nat, slow, seq![true] + rest);
        lemma_try_actions_push(fast, GLYPH_FAST);
        let tail = try_actions(slow, GLYPH_SLOW) + success;
        assert(seq![Action::Reset(false)] + (try_actions(fast, GLYPH_FAST) + (seq![
            Action::TrySync,
            Action::Pause(GLYPH_FAST),
            Action::Reset(true),
        ] + tail)) =~= seq![Action::Reset(false)] + try_actions(
            TRIES_PER_ROUND as nat,
            GLYPH_FAST,
        ) + seq![Action::Reset(true)] + try_actions(slow, GLYPH_SLOW) + success);
    }
}

/// What an attempt does whose fifty sync tries all fail: the fast reset, five
/// tries with the mark `.`, the slow reset, forty-five tries with the mark
/// `_`, and then it gives up with `Connection`, whatever `rest` holds.
pub proof fn lemma_connection_fails(rest: Seq<bool>)
    ensures
        ConnectState::start().run(failed_tries((ROUNDS * TRIES_PER_ROUND) as nat) + rest)
            == seq![Action::Reset(false)] + try_actions(TRIES_PER_ROUND as nat, GLYPH_FAST)
            + seq![Action::Reset(true)] + try_actions(
            ((ROUNDS - 1) * TRIES_PER_ROUND) as nat,
            GLYPH_SLOW,
        ) + seq![Action::Finish(Err(Error::Connection))],
{
    let all = (ROUNDS * TRIES_PER_ROUND) as nat;
    let outcomes = failed_tries(all) + rest;
    let fast = (TRIES_PER_ROUND - 1) as nat;
    let slow = ((ROUNDS - 1) * TRIES_PER_ROUND - 1) as nat;
    let last = seq![false] + rest;
    let after_switch = failed_tries(slow) + last;
    let after_fast = seq![false] + after_switch;
    lemma_first_reset(outcomes);
    assert(outcomes =~= failed_tries(fast) + after_fast);
    lemma_failed_tries(0, fast, after_fast);
    lemma_last_fast_try(after_switch);
    lemma_failed_tries(TRIES_PER_ROUND as nat, slow, last);
    lemma_last_try(rest);
    lemma_try_actions_push(fast, GLYPH_FAST);
    lemma_try_actions_push(slow, GLYPH_SLOW);
    assert(seq![Action::Reset(false)] + (try_actions(fast, GLYPH_FAST) + (seq![
        Action::TrySync,
        Action::Pause(GLYPH_FAST),
        Action::Reset(true),
    ] + (try_actions(slow, GLYPH_SLOW) + seq![
        Action::TrySync,
        Action::Pause(GLYPH_SLOW),
        Action::Finish(Err(Error::Connection)),
    ]))) =~= seq![Action::Reset(false)] + try_actions(TRIES_PER_ROUND as nat, GLYPH_FAST) + seq![
        Action::Reset(true),
    ] + try_actions(((ROUNDS - 1) * TRIES_PER_ROUND) as nat, GLYPH_SLOW) + seq![
        Action::Finish(Err(Error::Connection)),
    ]);
}

/// One more failed try at the end of a row of them.
proof fn lemma_try_actions_push(count: nat, glyph: char)
    ensures
        try_actions(count + 1, glyph) == try_actions(count, glyph) + seq![
            Action::TrySync,
            Action::Pause(glyph),
        ],
    decreases count,
{
    let pair = seq![Action::TrySync, Action::Pause(glyph)];
    if count == 0 {
        assert(try_actions(0, glyph) =~= Seq::<Action>::empty());
        assert(try_actions(1, glyph) =~= pair + try_actions(0, glyph));
        assert(try_actions(1, glyph) =~= try_actions(0, glyph) + pair);
    } else {
        lemma_try_actions_push((count - 1) as nat, glyph);
        assert(pair + (try_actions((count - 1) as nat, glyph) + pair) =~= (pair + try_actions(
            (count - 1) as nat,
            glyph,
        )) + pair);
    }
}

/// Decides the next action of a connection attempt.
pub struct Connector {
    phase: Phase,
    delay: bool,
    round: usize,
    tries: usize,
}

impl View for Connector {
    type V = ConnectState;

    closed spec fn view(&self) -> ConnectState {
        ConnectState {
            phase: self.phase,
            delay: self.delay,
            round: self.round as nat,
            tries: self.tries as nat,
        }
    }
}

impl Connector {
    #[verifier::type_invariant]
    spec fn inv(self) -> bool {
        self@.wf()
    }

    /// The start of a connection attempt.
    pub fn new() -> (connector: Connector)
        ensures
            connector@ == ConnectState::start(),
    {
        Connector { phase: Phase::Reset, delay: false, round: 0, tries: 0 }
    }

    /// The action to perform now.
    pub fn action(&self) -> (action: Action)
        ensures
            action == self@.action(),
    {
        match self.phase {
            Phase::Reset => Action::Reset(self.delay),
            Phase::Sync => Action::TrySync,
            Phase::Pause => Action::Pause(
                if self.delay {
                    GLYPH_SLOW
                } else {
                    GLYPH_FAST
                },
            ),
            Phase::Connected => Action::Finish(Ok(())),
            Phase::Failed => Action::Finish(Err(Error::Connection)),
        }
    }

    /// Moves on after the action was performed. `synced` tells whether a sync
    /// try succeeded, and is read after no other action.
    pub fn advance(&mut self, synced: bool)
        ensures
            final(self)@ == old(self)@.advance(synced),
            final(self)@.wf(),
    {
        proof {
            use_type_invariant(&*self);
        }
        let Connector { phase, delay, round, tries } = *self;
        match phase {
            Phase::Reset => {
                *self = Connector { phase: Phase::Sync, delay, round, tries: 0 };
            },
            Phase::Sync => {
                if synced {
                    *self = Connector { phase: Phase::Connected, delay, round, tries };
                } else {
                    *self = Connector { phase: Phase::Pause, delay, round, tries: tries + 1 };
                }
            },
            Phase::Pause => {
                if tries < TRIES_PER_ROUND {
                    *self = Connector { phase: Phase::Sync, delay, round, tries };
                } else if round + 1 >= ROUNDS {
                    *self = Connector { phase: Phase::Failed, delay, round, tries };
                } else if delay {
                    *self = Connector { phase: Phase::Sync, delay, round: round + 1, tries: 0 };
                } else {
                    *self = Connector {
                        phase: Phase::Reset,
                        delay: true,
                        round: round + 1,
                        tries: 0,
                    };
                }
            },
            Phase::Connected => {},
            Phase::Failed => {},
        }
    }
}

} // verus!
