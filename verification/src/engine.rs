//! The execution engine: interprets one transition table against a single
//! growing tape, step by step, until the machine halts or a fixed step
//! ceiling is exceeded.

use vstd::prelude::*;

use crate::machine::table_wf;
use crate::machine::Cards;
use crate::machine::Direction;
use crate::machine::Instructions;
use crate::machine::State;
use crate::stats::score_of;
use crate::stats::Stats;
use crate::tape::Tape;
use crate::tape::Typewriter;

verus! {

/// The step ceiling: a run that has not halted after `STEP_CEILING + 1`
/// steps is abandoned.
pub const STEP_CEILING: usize = 100;

/// One machine configuration: the state about to execute, the materialized
/// tape, and the head's index into it.
pub struct Config {
    pub state: State,
    pub tape: Seq<u8>,
    pub head: int,
}

/// The starting configuration: a single blank cell, head on it, state 0.
pub open spec fn init_config() -> Config {
    Config { state: State::Card(0), tape: seq![0u8], head: 0 }
}

/// One step of the machine: read the symbol under the head, write the
/// instruction's symbol, move the head — growing the tape by a zero cell
/// at each edge if the move would leave it — and enter the instruction's
/// next state. A halted configuration does not change.
pub open spec fn step_config(table: Seq<Seq<Instructions>>, c: Config) -> Config {
    match c.state {
        State::Halt => c,
        State::Card(ci) => {
            let inst = table[ci as int][c.tape[c.head] as int];
            let written = c.tape.update(c.head, inst.write.0);
            match inst.direction {
                Direction::Left => {
                    if c.head == 0 {
                        Config {
                            state: inst.state,
                            tape: seq![0u8] + written + seq![0u8],
                            head: 0,
                        }
                    } else {
                        Config { state: inst.state, tape: written, head: c.head - 1 }
                    }
                },
                Direction::Right => {
                    if c.head + 1 == written.len() {
                        Config {
                            state: inst.state,
                            tape: seq![0u8] + written + seq![0u8],
                            head: c.head + 2,
                        }
                    } else {
                        Config { state: inst.state, tape: written, head: c.head + 1 }
                    }
                },
            }
        },
    }
}

/// The configuration after `t` steps from the start.
pub open spec fn run_config(table: Seq<Seq<Instructions>>, t: nat) -> Config
    decreases t,
{
    if t == 0 {
        init_config()
    } else {
        step_config(table, run_config(table, (t - 1) as nat))
    }
}

/// A configuration consistent with a well-formed table: head on the tape,
/// every cell a readable symbol, and the state within the table.
pub open spec fn cfg_wf(table: Seq<Seq<Instructions>>, c: Config) -> bool {
    &&& 0 <= c.head < c.tape.len()
    &&& forall|i: int| 0 <= i < c.tape.len() ==> (#[trigger] c.tape[i]) < table[0].len()
    &&& match c.state {
        State::Card(ci) => (ci as nat) < table.len(),
        State::Halt => true,
    }
}

/// One step preserves configuration well-formedness and grows the tape by
/// at most two cells.
pub proof fn lemma_step_wf(table: Seq<Seq<Instructions>>, c: Config)
    requires
        table_wf(table),
        cfg_wf(table, c),
    ensures
        cfg_wf(table, step_config(table, c)),
        step_config(table, c).tape.len() <= c.tape.len() + 2,
{
    match c.state {
        State::Halt => {},
        State::Card(ci) => {
            assert(table[ci as int].len() == table[0].len());
            let sym = c.tape[c.head];
            let inst = table[ci as int][sym as int];
            assert(crate::machine::instruction_wf(inst, table.len(), table[0].len()));
        },
    }
}

/// Every reachable configuration is well formed, and after `t` steps the
/// tape holds at most `1 + 2 * t` cells.
pub proof fn lemma_run_wf(table: Seq<Seq<Instructions>>, t: nat)
    requires
        table_wf(table),
    ensures
        cfg_wf(table, run_config(table, t)),
        run_config(table, t).tape.len() <= 1 + 2 * t,
    decreases t,
{
    if t > 0 {
        lemma_run_wf(table, (t - 1) as nat);
        lemma_step_wf(table, run_config(table, (t - 1) as nat));
    }
}

/// What the statistics of a completed run say: `action` is the number of
/// the first halting step and lies within the budget, the snapshots record
/// the tape and the head's offset from the tape's middle after every step,
/// the initial snapshot first, and the score counts the marker cells of
/// the final tape — one snapshot more than there are steps.
pub open spec fn run_report(table: Seq<Seq<Instructions>>, stats: Stats) -> bool {
    let a = stats.action as nat;
    &&& 1 <= a <= STEP_CEILING + 1
    &&& run_config(table, a).state == State::Halt
    &&& forall|s: nat| s < a ==> (#[trigger] run_config(table, s)).state != State::Halt
    &&& stats.cards@ == table
    &&& stats.score == score_of(run_config(table, a).tape)
    &&& stats.tapes@.len() == a + 1
    &&& forall|s: int|
        0 <= s <= a ==> (#[trigger] stats.tapes@[s])@ == run_config(table, s as nat).tape
    &&& stats.head_positions@.len() == a + 1
    &&& forall|s: int|
        0 <= s <= a ==> (#[trigger] stats.head_positions@[s]) as int == run_config(
            table,
            s as nat,
        ).head - run_config(table, s as nat).tape.len() as int / 2
    &&& stats.action + 1 == stats.tapes@.len()
    &&& stats.score == score_of(stats.tapes@.last()@)
}

/// Execution is deterministic: any two statistics records that report a
/// completed run of the same table agree on every observable — the step
/// count, the score, every tape snapshot and every head position.
pub proof fn lemma_run_report_deterministic(table: Seq<Seq<Instructions>>, a: Stats, b: Stats)
    requires
        run_report(table, a),
        run_report(table, b),
    ensures
        a.action == b.action,
        a.score == b.score,
        a.cards@ == b.cards@,
        a.tapes@.len() == b.tapes@.len(),
        forall|s: int| 0 <= s < a.tapes@.len() ==> (#[trigger] a.tapes@[s])@ == b.tapes@[s]@,
        a.head_positions@ == b.head_positions@,
{
    if (a.action as nat) < (b.action as nat) {
        assert(run_config(table, a.action as nat).state != State::Halt);
        assert(false);
    }
    if (b.action as nat) < (a.action as nat) {
        assert(run_config(table, b.action as nat).state != State::Halt);
        assert(false);
    }
    assert forall|s: int|
        0 <= s < a.head_positions@.len() implies a.head_positions@[s] == b.head_positions@[s] by {
        assert(a.head_positions@[s] as int == b.head_positions@[s] as int);
    }
    assert(a.head_positions@ =~= b.head_positions@);
}

/// Runs one candidate machine from an all-zero one-cell tape. Returns the
/// accumulated statistics exactly when the machine reaches `Halt` within
/// `STEP_CEILING + 1` steps; a run that is still going then is abandoned
/// and yields nothing, having performed exactly `STEP_CEILING + 1` steps.
pub fn busy_beaver(cards: &Cards) -> (r: Option<Stats>)
    requires
        table_wf(cards@),
    ensures
        r.is_some() <==> exists|t: nat|
            1 <= t <= STEP_CEILING + 1 && (#[trigger] run_config(cards@, t)).state == State::Halt,
        r matches Some(stats) ==> run_report(cards@, stats),
{
    let mut tape = Tape(vec![0u8]);
    let mut tw = Typewriter { head: 0 };
    let mut stats = Stats::init(cards.clone());
    let mut cur: usize = 0;
    let mut rounds: usize = 0;
    proof {
        assert(tape@ =~= init_config().tape);
        lemma_run_wf(cards@, 0);
    }
    stats.update(&tape, &tw);
    while rounds <= STEP_CEILING
        invariant
            table_wf(cards@),
            rounds <= STEP_CEILING + 1,
            run_config(cards@, rounds as nat).state == State::Card(cur),
            tape@ == run_config(cards@, rounds as nat).tape,
            tw.head as int == run_config(cards@, rounds as nat).head,
            stats.cards@ == cards@,
            stats.action == rounds,
            stats.score == score_of(run_config(cards@, rounds as nat).tape),
            stats.tapes@.len() == rounds + 1,
            forall|s: int|
                0 <= s <= rounds ==> (#[trigger] stats.tapes@[s])@ == run_config(
                    cards@,
                    s as nat,
                ).tape,
            stats.head_positions@.len() == rounds + 1,
            forall|s: int|
                0 <= s <= rounds ==> (#[trigger] stats.head_positions@[s]) as int == run_config(
                    cards@,
                    s as nat,
                ).head - run_config(cards@, s as nat).tape.len() as int / 2,
            forall|s: nat|
                s <= rounds ==> (#[trigger] run_config(cards@, s)).state != State::Halt,
        decreases STEP_CEILING + 1 - rounds,
    {
        let ghost c = run_config(cards@, rounds as nat);
        proof {
            lemma_run_wf(cards@, rounds as nat);
            assert(cards@[cur as int].len() == cards@[0].len());
        }
        let inst = *cards.get_card(cur).get_instruction(&tw, &tape);
        proof {
            assert(inst == cards@[cur as int][c.tape[c.head] as int]);
        }
        tw.write(&inst.write, &mut tape);
        tw.move_head(&inst.direction, &mut tape);
        proof {
            let next = step_config(cards@, c);
            assert(run_config(cards@, (rounds + 1) as nat) == next);
            assert(tape@ == next.tape);
            assert(tw.head as int == next.head);
            lemma_run_wf(cards@, (rounds + 1) as nat);
        }
        stats.update(&tape, &tw);
        match inst.state {
            State::Halt => {
                proof {
                    assert(run_config(cards@, (rounds + 1) as nat).state == State::Halt);
                    assert(stats.tapes@.last()@ == run_config(
                        cards@,
                        (rounds + 1) as nat,
                    ).tape);
                }
                return Some(stats);
            },
            State::Card(i2) => {
                cur = i2;
            },
        }
        rounds = rounds + 1;
    }
    proof {
        assert forall|t: nat|
            1 <= t <= STEP_CEILING + 1 implies (#[trigger] run_config(cards@, t)).state
            != State::Halt by {
            assert(run_config(cards@, t).state != State::Halt);
        }
    }
    None
}

} // verus!
