//! The transition model: symbols, head directions, state references, single
//! instructions, instruction rows ("cards") and whole transition tables.

use vstd::prelude::*;

use crate::tape::Tape;
use crate::tape::Typewriter;

verus! {

/// A tape symbol. A valid symbol for a `K`-symbol machine lies in `[0, K)`.
#[derive(Debug, Clone, Copy, PartialEq, Eq, Structural)]
pub struct Symbol(pub u8);

/// The direction the typewriter head moves after writing.
#[derive(Debug, Clone, Copy, PartialEq, Eq, Structural)]
pub enum Direction {
    Left,
    Right,
}

/// The state a machine transitions into: either the terminal `Halt` state or
/// the non-halting state (card) with the given index.
#[derive(Debug, Clone, Copy, PartialEq, Eq, Structural)]
pub enum State {
    Card(usize),
    Halt,
}

/// One instruction of a transition table: the symbol to write, the direction
/// to move, and the state to enter next.
#[derive(Debug, Clone, Copy, PartialEq, Eq, Structural)]
pub struct Instructions {
    /// Symbol to be written on the tape.
    pub write: Symbol,
    /// The direction the typewriter moves after the write.
    pub direction: Direction,
    /// State of the next operation.
    pub state: State,
}

impl Instructions {
    pub fn new(write: Symbol, direction: Direction, state: State) -> (r: Self)
        ensures
            r == (Instructions { write, direction, state }),
    {
        Self { write, direction, state }
    }
}

/// An instruction is valid for a machine with `n` states and `k` symbols if
/// it writes a symbol below `k` and refers only to states below `n`.
pub open spec fn instruction_wf(inst: Instructions, n: nat, k: nat) -> bool {
    &&& (inst.write.0 as nat) < k
    &&& match inst.state {
        State::Card(m) => (m as nat) < n,
        State::Halt => true,
    }
}

/// The states named by the instructions of one row, in row order.
pub open spec fn row_states(row: Seq<Instructions>) -> Seq<State>
    decreases row.len(),
{
    if row.len() == 0 {
        Seq::empty()
    } else {
        row_states(row.drop_last()).push(row.last().state)
    }
}

/// The states named by all instructions of a table, row by row.
pub open spec fn states_of(table: Seq<Seq<Instructions>>) -> Seq<State>
    decreases table.len(),
{
    if table.len() == 0 {
        Seq::empty()
    } else {
        states_of(table.drop_last()) + row_states(table.last())
    }
}

/// Whether some instruction of the table transitions into `Halt`.
pub open spec fn has_halt(table: Seq<Seq<Instructions>>) -> bool {
    exists|i: int, j: int|
        0 <= i < table.len() && 0 <= j < table[i].len() && (#[trigger] table[i][j]).state
            == State::Halt
}

/// A well-formed transition table: at least one row, all rows of one common
/// positive length (the symbol count), and every instruction valid for the
/// table's state and symbol counts.
pub open spec fn table_wf(table: Seq<Seq<Instructions>>) -> bool {
    &&& table.len() >= 1
    &&& table[0].len() >= 1
    &&& forall|i: int| 0 <= i < table.len() ==> (#[trigger] table[i]).len() == table[0].len()
    &&& forall|i: int, j: int|
        0 <= i < table.len() && 0 <= j < table[i].len() ==> instruction_wf(
            #[trigger] table[i][j],
            table.len(),
            table[0].len(),
        )
}

/// `row_states` lists, position by position, the `state` field of each
/// instruction of the row.
pub proof fn lemma_row_states(row: Seq<Instructions>)
    ensures
        row_states(row).len() == row.len(),
        forall|j: int| 0 <= j < row.len() ==> row_states(row)[j] == (#[trigger] row[j]).state,
    decreases row.len(),
{
    if row.len() > 0 {
        lemma_row_states(row.drop_last());
        assert forall|j: int| 0 <= j < row.len() implies row_states(row)[j] == (#[trigger] row[j]).state by {
            if j < row.len() - 1 {
                assert(row.drop_last()[j] == row[j]);
            }
        }
    }
}

/// The flattened state list mentions `Halt` exactly when some instruction of
/// the table halts.
pub proof fn lemma_states_of_halt(table: Seq<Seq<Instructions>>)
    ensures
        states_of(table).contains(State::Halt) <==> has_halt(table),
    decreases table.len(),
{
    if table.len() > 0 {
        let dl = table.drop_last();
        let last = table.last();
        lemma_states_of_halt(dl);
        lemma_row_states(last);
        if has_halt(table) {
            let (i, j) = choose|i: int, j: int|
                0 <= i < table.len() && 0 <= j < table[i].len() && (#[trigger] table[i][j]).state
                    == State::Halt;
            if i < table.len() - 1 {
                assert(dl[i] == table[i]);
                assert((dl[i][j]).state == State::Halt);
                assert(has_halt(dl));
                let m = choose|m: int|
                    0 <= m < states_of(dl).len() && states_of(dl)[m] == State::Halt;
                assert(states_of(table)[m] == State::Halt);
            } else {
                assert(row_states(last)[j] == State::Halt);
                assert(states_of(table)[states_of(dl).len() + j] == State::Halt);
            }
        }
        if states_of(table).contains(State::Halt) {
            let m = choose|m: int|
                0 <= m < states_of(table).len() && states_of(table)[m] == State::Halt;
            if m < states_of(dl).len() {
                assert(states_of(dl)[m] == State::Halt);
                assert(states_of(dl).contains(State::Halt));
                let (i, j) = choose|i: int, j: int|
                    0 <= i < dl.len() && 0 <= j < dl[i].len() && (#[trigger] dl[i][j]).state
                        == State::Halt;
                assert(table[i] == dl[i]);
                assert((table[i][j]).state == State::Halt);
            } else {
                let j = m - states_of(dl).len();
                assert(row_states(last)[j] == State::Halt);
                assert(last[j].state == State::Halt);
                assert((table[table.len() - 1][j]).state == State::Halt);
            }
        }
    }
}

/// An instruction row ("card"): one instruction per readable symbol, indexed
/// by the symbol currently under the head.
#[derive(Debug, PartialEq)]
pub struct Card(pub Vec<Instructions>);

impl View for Card {
    type V = Seq<Instructions>;

    open spec fn view(&self) -> Seq<Instructions> {
        self.0@
    }
}

impl Clone for Card {
    fn clone(&self) -> (res: Self)
        ensures
            res@ == self@,
    {
        let mut v: Vec<Instructions> = Vec::new();
        let mut i: usize = 0;
        while i < self.0.len()
            invariant
                i <= self.0.len(),
                v@ == self@.take(i as int),
            decreases self.0.len() - i,
        {
            v.push(self.0[i]);
            proof {
                assert(self@.take(i + 1 as int) =~= self@.take(i as int).push(self@[i as int]));
            }
            i = i + 1;
        }
        proof {
            assert(self@.take(self.0.len() as int) =~= self@);
        }
        Card(v)
    }
}

impl Card {
    pub fn new(instructions: Vec<Instructions>) -> (r: Self)
        ensures
            r@ == instructions@,
    {
        Self(instructions)
    }

    /// Fetch the instruction corresponding to the symbol currently under the
    /// typewriter's head.
    pub fn get_instruction<'a>(&'a self, tw: &Typewriter, tape: &Tape) -> (r: &'a Instructions)
        requires
            tw.head < tape@.len(),
            (tape@[tw.head as int] as nat) < self@.len(),
        ensures
            *r == self@[tape@[tw.head as int] as int],
    {
        match tw.read(tape) {
            Symbol(i) => &self.0[i as usize],
        }
    }
}

/// A complete transition table ("cards"): one instruction row per non-halting
/// state, indexed by the current state.
#[derive(Debug, PartialEq)]
pub struct Cards(pub Vec<Card>);

impl View for Cards {
    type V = Seq<Seq<Instructions>>;

    open spec fn view(&self) -> Seq<Seq<Instructions>> {
        self.0@.map_values(|c: Card| c@)
    }
}

impl Clone for Cards {
    fn clone(&self) -> (res: Self)
        ensures
            res@ == self@,
    {
        let mut v: Vec<Card> = Vec::new();
        let mut i: usize = 0;
        while i < self.0.len()
            invariant
                i <= self.0.len(),
                v@.len() == i,
                forall|m: int| 0 <= m < i ==> (#[trigger] v@[m])@ == self@[m],
            decreases self.0.len() - i,
        {
            v.push(self.0[i].clone());
            i = i + 1;
        }
        proof {
            assert(v@.map_values(|c: Card| c@) =~= self@);
        }
        Cards(v)
    }
}

impl Cards {
    pub fn new(card_vec: Vec<Card>) -> (r: Self)
        ensures
            r@ == card_vec@.map_values(|c: Card| c@),
    {
        Self(card_vec)
    }

    pub fn get_card(&self, ind: usize) -> (r: &Card)
        requires
            ind < self@.len(),
        ensures
            r@ == self@[ind as int],
    {
        &self.0[ind]
    }

    /// The states named by every instruction of the table, in row order.
    pub fn get_states(&self) -> (r: Vec<State>)
        ensures
            r@ == states_of(self@),
    {
        let mut states: Vec<State> = Vec::new();
        let mut i: usize = 0;
        while i < self.0.len()
            invariant
                i <= self.0.len(),
                states@ == states_of(self@.take(i as int)),
            decreases self.0.len() - i,
        {
            let ghost pre = states@;
            let mut j: usize = 0;
            while j < self.0[i].0.len()
                invariant
                    i < self.0.len(),
                    j <= self@[i as int].len(),
                    states@ == pre + row_states(self@[i as int].take(j as int)),
                decreases self@[i as int].len() - j,
            {
                states.push(self.0[i].0[j].state);
                proof {
                    let row = self@[i as int];
                    assert(row.take(j + 1 as int).drop_last() =~= row.take(j as int));
                    assert(row.take(j + 1 as int).last() == row[j as int]);
                }
                j = j + 1;
            }
            proof {
                let row = self@[i as int];
                assert(row.take(row.len() as int) =~= row);
                assert(self@.take(i + 1 as int).drop_last() =~= self@.take(i as int));
                assert(self@.take(i + 1 as int).last() == row);
            }
            i = i + 1;
        }
        proof {
            assert(self@.take(self.0.len() as int) =~= self@);
        }
        states
    }

    /// Whether some instruction of this table transitions into `Halt`: the
    /// admission filter of the enumerator.
    pub fn contains_halt_state(&self) -> (r: bool)
        ensures
            r == has_halt(self@),
    {
        let states = self.get_states();
        let mut found = false;
        let mut i: usize = 0;
        while i < states.len()
            invariant
                i <= states@.len(),
                found == exists|m: int| 0 <= m < i && states@[m] == State::Halt,
            decreases states@.len() - i,
        {
            if states[i] == State::Halt {
                found = true;
            }
            i = i + 1;
        }
        proof {
            lemma_states_of_halt(self@);
            if found {
                assert(states@.contains(State::Halt));
            }
            if states@.contains(State::Halt) {
                let m = choose|m: int|
                    0 <= m < states@.len() && states@[m] == State::Halt;
                assert(exists|m: int| 0 <= m < states@.len() && states@[m] == State::Halt);
            }
        }
        found
    }
}

} // verus!
