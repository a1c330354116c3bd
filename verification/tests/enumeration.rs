use busy_beaver::generate_combinations;
use busy_beaver::Card;
use busy_beaver::Cards;
use busy_beaver::Direction;
use busy_beaver::Instructions;
use busy_beaver::Machines;
use busy_beaver::State;
use busy_beaver::Symbol;

fn inst(write: u8, direction: Direction, state: State) -> Instructions {
    Instructions::new(Symbol(write), direction, state)
}

#[test]
fn combinations_of_two_elements_length_two() {
    let pool: Vec<u8> = vec![1, 2];
    let res = generate_combinations(&pool, 2);
    let expected: Vec<Vec<u8>> = vec![vec![1, 1], vec![1, 2], vec![2, 1], vec![2, 2]];
    assert_eq!(res, expected);
}

#[test]
fn combinations_count_is_pool_size_to_the_length() {
    let pool: Vec<u8> = vec![4, 7, 9];
    let res = generate_combinations(&pool, 2);
    assert_eq!(res.len(), 9);
    let res3 = generate_combinations(&pool, 3);
    assert_eq!(res3.len(), 27);
    for s in res3.iter() {
        assert_eq!(s.len(), 3);
        for x in s.iter() {
            assert!(pool.contains(x));
        }
    }
}

#[test]
fn combinations_entries_are_distinct() {
    let pool: Vec<u8> = vec![0, 1, 2];
    let res = generate_combinations(&pool, 3);
    for a in 0..res.len() {
        for b in (a + 1)..res.len() {
            assert_ne!(res[a], res[b]);
        }
    }
}

#[test]
fn combinations_empty_pool_yields_nothing() {
    let pool: Vec<u8> = Vec::new();
    let res = generate_combinations(&pool, 2);
    assert_eq!(res.len(), 0);
}

#[test]
fn instruction_alphabet_size_and_order() {
    let inst_list = Machines::generate_instructions(1, 2);
    // (N + 1) * 2 * K = 2 * 2 * 2
    assert_eq!(inst_list.len(), 8);
    // Symbols cycle fastest, then direction, then next state (Halt first).
    assert_eq!(inst_list[0], inst(0, Direction::Left, State::Halt));
    assert_eq!(inst_list[1], inst(1, Direction::Left, State::Halt));
    assert_eq!(inst_list[2], inst(0, Direction::Right, State::Halt));
    assert_eq!(inst_list[3], inst(1, Direction::Right, State::Halt));
    assert_eq!(inst_list[4], inst(0, Direction::Left, State::Card(0)));
    assert_eq!(inst_list[7], inst(1, Direction::Right, State::Card(0)));
}

#[test]
fn all_rows_count_before_admission() {
    // (K * 2 * (N + 1))^K = 8^2 rows for N = 1, K = 2.
    let inst_list = Machines::generate_instructions(1, 2);
    let rows = Machines::generate_all_possible_cards(inst_list, 2);
    assert_eq!(rows.len(), 64);
    // And 12^2 rows for N = 2, K = 2.
    let inst_list2 = Machines::generate_instructions(2, 2);
    let rows2 = Machines::generate_all_possible_cards(inst_list2, 2);
    assert_eq!(rows2.len(), 144);
}

#[test]
fn admitted_machines_all_contain_halt() {
    let machines = Machines::generate(1, 2);
    // Of the 64 one-state tables, 16 lack a halting transition.
    assert_eq!(machines.0.len(), 48);
    for m in machines.0.iter() {
        assert!(m.contains_halt_state());
    }
}

#[test]
fn busiest_one_state_table_is_enumerated() {
    let machines = Machines::generate(1, 2);
    let wanted = Cards::new(vec![Card::new(vec![
        inst(1, Direction::Right, State::Halt),
        inst(0, Direction::Right, State::Card(0)),
    ])]);
    assert!(machines.0.iter().any(|m| *m == wanted));
}

#[test]
fn haltless_table_is_never_enumerated() {
    let machines = Machines::generate(1, 2);
    let haltless = Cards::new(vec![Card::new(vec![
        inst(0, Direction::Left, State::Card(0)),
        inst(1, Direction::Right, State::Card(0)),
    ])]);
    assert!(!machines.0.iter().any(|m| *m == haltless));
    // More broadly: nothing without a halting transition appears.
    for m in machines.0.iter() {
        assert!(m
            .get_states()
            .iter()
            .any(|s| matches!(s, State::Halt)));
    }
}

#[test]
fn enumerated_tables_are_pairwise_distinct() {
    let machines = Machines::generate(1, 2);
    for a in 0..machines.0.len() {
        for b in (a + 1)..machines.0.len() {
            assert_ne!(machines.0[a], machines.0[b]);
        }
    }
}

#[test]
fn enumeration_is_deterministic() {
    let a = Machines::generate(2, 2);
    let b = Machines::generate(2, 2);
    assert_eq!(a.0.len(), b.0.len());
    assert_eq!(a.0, b.0);
}

#[test]
fn get_states_lists_every_instruction_in_order() {
    let table = Cards::new(vec![
        Card::new(vec![
            inst(0, Direction::Left, State::Card(1)),
            inst(1, Direction::Right, State::Halt),
        ]),
        Card::new(vec![
            inst(1, Direction::Left, State::Card(0)),
            inst(0, Direction::Right, State::Card(1)),
        ]),
    ]);
    let states = table.get_states();
    assert_eq!(
        states,
        vec![
            State::Card(1),
            State::Halt,
            State::Card(0),
            State::Card(1),
        ]
    );
    assert!(table.contains_halt_state());
}

#[test]
fn contains_halt_state_is_false_without_halt() {
    let table = Cards::new(vec![Card::new(vec![
        inst(0, Direction::Left, State::Card(0)),
        inst(1, Direction::Right, State::Card(0)),
    ])]);
    assert!(!table.contains_halt_state());
}
