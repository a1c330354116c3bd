use busy_beaver::busy_beaver;
use busy_beaver::highest_action;
use busy_beaver::highest_score;
use busy_beaver::Card;
use busy_beaver::Cards;
use busy_beaver::Direction;
use busy_beaver::Instructions;
use busy_beaver::Machines;
use busy_beaver::State;
use busy_beaver::Stats;
use busy_beaver::Symbol;
use busy_beaver::Tape;
use busy_beaver::Typewriter;

fn inst(write: u8, direction: Direction, state: State) -> Instructions {
    Instructions::new(Symbol(write), direction, state)
}

#[test]
fn one_state_busiest_machine_halts_after_one_step_with_score_one() {
    let table = Cards::new(vec![Card::new(vec![
        inst(1, Direction::Right, State::Halt),
        inst(0, Direction::Right, State::Card(0)),
    ])]);
    let stats = busy_beaver(&table).expect("the machine halts on its first step");
    assert_eq!(stats.action, 1);
    assert_eq!(stats.score, 1);
    // An initial snapshot precedes the first step.
    assert_eq!(stats.tapes.len(), 2);
    assert_eq!(stats.tapes[0].0, vec![0]);
    // Writing 1 and moving right off the edge grows the tape at both ends.
    assert_eq!(stats.tapes[1].0, vec![0, 1, 0]);
    // Head offsets from the middle of the tape: center, then one right.
    assert_eq!(stats.head_positions, vec![0, 1]);
}

#[test]
fn action_is_snapshot_count_minus_one_and_score_counts_final_marks() {
    // Writes a mark and bounces right, then left, then halts.
    let table = Cards::new(vec![
        Card::new(vec![
            inst(1, Direction::Right, State::Card(1)),
            inst(1, Direction::Left, State::Card(1)),
        ]),
        Card::new(vec![
            inst(1, Direction::Left, State::Halt),
            inst(1, Direction::Right, State::Halt),
        ]),
    ]);
    let stats = busy_beaver(&table).expect("the machine halts within the budget");
    assert_eq!(stats.action, stats.tapes.len() - 1);
    let last = stats.tapes.last().unwrap();
    let marks = last.0.iter().filter(|c| **c == 1).count();
    assert_eq!(stats.score, marks);
    assert_eq!(stats.head_positions.len(), stats.tapes.len());
}

#[test]
fn haltless_machine_is_abandoned() {
    let table = Cards::new(vec![Card::new(vec![
        inst(1, Direction::Right, State::Card(0)),
        inst(0, Direction::Right, State::Card(0)),
    ])]);
    assert!(busy_beaver(&table).is_none());
}

#[test]
fn machine_with_unreachable_halt_is_abandoned() {
    // Symbol 1 would halt, but the machine only ever writes zeros.
    let table = Cards::new(vec![Card::new(vec![
        inst(0, Direction::Right, State::Card(0)),
        inst(0, Direction::Right, State::Halt),
    ])]);
    assert!(busy_beaver(&table).is_none());
}

#[test]
fn execution_is_deterministic() {
    let table = Cards::new(vec![
        Card::new(vec![
            inst(1, Direction::Right, State::Card(1)),
            inst(1, Direction::Left, State::Card(1)),
        ]),
        Card::new(vec![
            inst(1, Direction::Left, State::Halt),
            inst(1, Direction::Right, State::Halt),
        ]),
    ]);
    let a = busy_beaver(&table).unwrap();
    let b = busy_beaver(&table).unwrap();
    assert_eq!(a.score, b.score);
    assert_eq!(a.action, b.action);
    assert_eq!(a.tapes, b.tapes);
    assert_eq!(a.head_positions, b.head_positions);
    assert_eq!(a.cards, b.cards);
}

#[test]
fn moving_left_from_the_edge_grows_the_tape() {
    let table = Cards::new(vec![Card::new(vec![
        inst(1, Direction::Left, State::Halt),
        inst(0, Direction::Left, State::Card(0)),
    ])]);
    let stats = busy_beaver(&table).unwrap();
    assert_eq!(stats.action, 1);
    assert_eq!(stats.score, 1);
    assert_eq!(stats.tapes[1].0, vec![0, 1, 0]);
    // The head sits one cell left of the middle of the grown tape.
    assert_eq!(stats.head_positions[1], -1);
}

#[test]
fn tape_extend_pads_both_edges_and_shifts_the_head() {
    let mut tape = Tape(vec![1, 1]);
    let mut tw = Typewriter { head: 1 };
    tape.extend(&mut tw);
    assert_eq!(tape.0, vec![0, 1, 1, 0]);
    assert_eq!(tw.head, 2);
}

#[test]
fn typewriter_reads_and_writes_under_the_head() {
    let mut tape = Tape(vec![0, 2, 0]);
    let tw = Typewriter { head: 1 };
    assert_eq!(tw.read(&tape).0, 2);
    tw.write(&Symbol(1), &mut tape);
    assert_eq!(tape.0, vec![0, 1, 0]);
    assert_eq!(tw.read(&tape).0, 1);
}

#[test]
fn card_lookup_follows_the_symbol_under_the_head() {
    let card = Card::new(vec![
        inst(1, Direction::Right, State::Halt),
        inst(0, Direction::Left, State::Card(0)),
    ]);
    let tape = Tape(vec![1, 0]);
    let tw = Typewriter { head: 0 };
    let picked = *card.get_instruction(&tw, &tape);
    assert_eq!(picked, inst(0, Direction::Left, State::Card(0)));
}

#[test]
fn stats_update_records_score_tape_and_head_offset() {
    let table = Cards::new(vec![Card::new(vec![inst(0, Direction::Left, State::Halt)])]);
    let mut stats = Stats::init(table);
    let tape = Tape(vec![1, 0, 1, 1, 0]);
    let tw = Typewriter { head: 3 };
    stats.update(&tape, &tw);
    assert_eq!(stats.score, 3);
    assert_eq!(stats.action, 0);
    assert_eq!(stats.tapes.len(), 1);
    assert_eq!(stats.tapes[0].0, vec![1, 0, 1, 1, 0]);
    assert_eq!(stats.head_positions, vec![1]);
    stats.update(&tape, &tw);
    assert_eq!(stats.action, 1);
}

#[test]
fn stats_default_holds_a_trivial_halting_machine() {
    let stats = Stats::default();
    assert_eq!(stats.score, 0);
    assert_eq!(stats.action, 0);
    assert_eq!(stats.cards.0.len(), 1);
    assert_eq!(stats.cards.0[0].0, vec![inst(0, Direction::Left, State::Halt)]);
}

fn completed_run(score: usize, action: usize) -> Stats {
    let mut stats = Stats::init(Cards::new(vec![Card::new(vec![inst(
        0,
        Direction::Left,
        State::Halt,
    )])]));
    stats.score = score;
    stats.action = action;
    stats
}

#[test]
fn best_score_and_best_action_are_selected_independently() {
    let runs = vec![
        completed_run(2, 10),
        completed_run(5, 4),
        completed_run(3, 20),
    ];
    let by_score = highest_score(&runs);
    assert_eq!(by_score.score, 5);
    assert_eq!(by_score.action, 4);
    let by_action = highest_action(&runs);
    assert_eq!(by_action.action, 20);
    assert_eq!(by_action.score, 3);
}

#[test]
fn ties_keep_the_first_encountered_run() {
    let runs = vec![
        completed_run(4, 1),
        completed_run(4, 2),
        completed_run(1, 2),
    ];
    let by_score = highest_score(&runs);
    assert_eq!(by_score.action, 1);
    let by_action = highest_action(&runs);
    assert_eq!(by_action.score, 4);
    assert_eq!(by_action.action, 2);
}

#[test]
fn stats_clone_copies_every_snapshot() {
    let table = Cards::new(vec![Card::new(vec![
        inst(1, Direction::Right, State::Halt),
        inst(0, Direction::Right, State::Card(0)),
    ])]);
    let stats = busy_beaver(&table).unwrap();
    let copy = stats.clone();
    assert_eq!(copy.score, stats.score);
    assert_eq!(copy.action, stats.action);
    assert_eq!(copy.tapes, stats.tapes);
    assert_eq!(copy.head_positions, stats.head_positions);
    assert_eq!(copy.cards, stats.cards);
}

#[test]
fn best_one_state_run_over_the_full_enumeration() {
    let machines = Machines::generate(1, 2);
    let mut completed: Vec<Stats> = Vec::new();
    for m in machines.0.iter() {
        if let Some(stats) = busy_beaver(m) {
            completed.push(stats);
        }
    }
    assert!(!completed.is_empty());
    // The one-state busy beaver writes a single mark and halts at once.
    let best = highest_score(&completed);
    assert_eq!(best.score, 1);
    assert_eq!(best.action, 1);
}
