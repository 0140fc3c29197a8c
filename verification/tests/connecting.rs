use esptool::connect::{
    reset_sequence, Action, Connector, LineStep, COMMAND_TIMEOUT_MS, GLYPH_FAST, GLYPH_SLOW,
    RETRY_PAUSE_MS, ROUNDS, SYNC_TIMEOUT_MS, TRIES_PER_ROUND,
};
use esptool::protocol::Error;

/// What an attempt did: the profiles of its resets, the marks that it showed, the number of
/// its sync tries, and how it ended.
struct Run {
    resets: Vec<bool>,
    glyphs: String,
    tries: usize,
    actions: Vec<Action>,
    end: Result<(), Error>,
}

/// Runs an attempt whose sync tries go as `outcomes` say, and fail once `outcomes` is used up.
fn run(outcomes: &[bool]) -> Run {
    let mut connector = Connector::new();
    let mut done = Run {
        resets: Vec::new(),
        glyphs: String::new(),
        tries: 0,
        actions: Vec::new(),
        end: Ok(()),
    };
    loop {
        let action = connector.action();
        done.actions.push(action);
        match action {
            Action::Reset(delay) => {
                done.resets.push(delay);
                connector.advance(false);
            }
            Action::TrySync => {
                let synced = outcomes.get(done.tries).copied().unwrap_or(false);
                done.tries += 1;
                connector.advance(synced);
            }
            Action::Pause(glyph) => {
                done.glyphs.push(glyph);
                connector.advance(false);
            }
            Action::Finish(end) => {
                done.end = end;
                return done;
            }
        }
    }
}

#[test]
fn connect_constants() {
    assert_eq!(ROUNDS, 10);
    assert_eq!(TRIES_PER_ROUND, 5);
    assert_eq!(SYNC_TIMEOUT_MS, 100);
    assert_eq!(COMMAND_TIMEOUT_MS, 3000);
    assert_eq!(RETRY_PAUSE_MS, 50);
    assert_eq!(GLYPH_FAST, '.');
    assert_eq!(GLYPH_SLOW, '_');
}

#[test]
fn fast_reset_sequence() {
    assert_eq!(
        reset_sequence(false),
        vec![
            LineStep::Dtr(false),
            LineStep::Rts(true),
            LineStep::Sleep(100),
            LineStep::Dtr(true),
            LineStep::Rts(false),
            LineStep::Sleep(50),
            LineStep::Dtr(false),
        ]
    );
}

#[test]
fn slow_reset_sequence() {
    assert_eq!(
        reset_sequence(true),
        vec![
            LineStep::Dtr(false),
            LineStep::Rts(true),
            LineStep::Sleep(100),
            LineStep::Sleep(1200),
            LineStep::Dtr(true),
            LineStep::Rts(false),
            LineStep::Sleep(400),
            LineStep::Sleep(50),
            LineStep::Dtr(false),
        ]
    );
}

#[test]
fn connect_switches_profile_once_after_five_failures() {
    // Five tries fail after the fast reset, one after the slow reset, the next succeeds.
    let done = run(&[false, false, false, false, false, false, true]);
    assert_eq!(done.end, Ok(()));
    assert_eq!(done.resets, vec![false, true]);
    assert_eq!(done.glyphs, "....._");
    assert_eq!(done.tries, 7);
}

#[test]
fn connect_succeeds_at_the_first_try() {
    let done = run(&[true]);
    assert_eq!(
        done.actions,
        vec![Action::Reset(false), Action::TrySync, Action::Finish(Ok(()))]
    );
}

#[test]
fn connect_succeeds_at_the_first_slow_try() {
    let done = run(&[false, false, false, false, false, true]);
    assert_eq!(done.end, Ok(()));
    assert_eq!(done.resets, vec![false, true]);
    assert_eq!(done.glyphs, ".....");
    let tail: Vec<Action> = done.actions[done.actions.len() - 5..].to_vec();
    assert_eq!(
        tail,
        vec![
            Action::TrySync,
            Action::Pause('.'),
            Action::Reset(true),
            Action::TrySync,
            Action::Finish(Ok(())),
        ]
    );
}

#[test]
fn connect_keeps_the_fast_profile_within_the_first_round() {
    let done = run(&[false, false, false, false, true]);
    assert_eq!(done.end, Ok(()));
    assert_eq!(done.resets, vec![false]);
    assert_eq!(done.glyphs, "....");
}

#[test]
fn connect_does_not_reset_again_in_later_rounds() {
    let mut outcomes = vec![false; 23];
    outcomes.push(true);
    let done = run(&outcomes);
    assert_eq!(done.end, Ok(()));
    assert_eq!(done.resets, vec![false, true]);
    assert_eq!(done.glyphs, format!("{}{}", ".".repeat(5), "_".repeat(18)));
    assert_eq!(done.tries, 24);
}

#[test]
fn connect_succeeds_at_the_last_try() {
    let mut outcomes = vec![false; 49];
    outcomes.push(true);
    let done = run(&outcomes);
    assert_eq!(done.end, Ok(()));
    assert_eq!(done.tries, 50);
    assert_eq!(done.glyphs.len(), 49);
}

#[test]
fn connect_fails_after_fifty_tries() {
    let done = run(&[]);
    assert_eq!(done.end, Err(Error::Connection));
    assert_eq!(done.tries, 50);
    assert_eq!(done.resets, vec![false, true]);
    assert_eq!(done.glyphs, format!("{}{}", ".".repeat(5), "_".repeat(45)));
    assert_eq!(done.actions.len(), 2 + 2 * 50 + 1);
}

#[test]
fn connector_stays_at_its_end() {
    let mut connector = Connector::new();
    connector.advance(false);
    connector.advance(true);
    assert_eq!(connector.action(), Action::Finish(Ok(())));
    connector.advance(false);
    assert_eq!(connector.action(), Action::Finish(Ok(())));
}

#[test]
fn connector_reads_the_outcome_only_after_a_sync_try() {
    let mut connector = Connector::new();
    assert_eq!(connector.action(), Action::Reset(false));
    connector.advance(true);
    assert_eq!(connector.action(), Action::TrySync);
    connector.advance(false);
    assert_eq!(connector.action(), Action::Pause('.'));
    connector.advance(true);
    assert_eq!(connector.action(), Action::TrySync);
}
