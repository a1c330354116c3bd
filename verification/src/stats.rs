//! Per-run statistics: the score (count of marker cells), the action count
//! (steps executed), and a snapshot of the tape and head position after
//! every step, for later comparison and rendering.

use vstd::prelude::*;

use crate::machine::Card;
use crate::machine::Cards;
use crate::machine::Direction;
use crate::machine::Instructions;
use crate::machine::State;
use crate::machine::Symbol;
use crate::tape::Tape;
use crate::tape::Typewriter;

verus! {

/// The score of a tape: the number of cells holding the distinguished
/// marker symbol `1` (exactly the value `1`, whatever the symbol count).
pub open spec fn score_of(t: Seq<u8>) -> nat
    decreases t.len(),
{
    if t.len() == 0 {
        0
    } else {
        score_of(t.drop_last()) + if t.last() == 1 {
            1nat
        } else {
            0nat
        }
    }
}

/// Keeps track of the statistics during one run of a candidate machine.
#[derive(Debug)]
pub struct Stats {
    /// The transition table the run interprets.
    pub cards: Cards,
    /// Number of tape cells equal to the marker symbol `1` at the latest
    /// snapshot.
    pub score: usize,
    /// Number of steps executed so far: one less than the number of
    /// recorded snapshots, since an initial snapshot precedes the first
    /// step.
    pub action: usize,
    /// The tape contents after every step, the initial tape first.
    pub tapes: Vec<Tape>,
    /// The head position after every step, as a signed offset from the
    /// middle of the tape at that moment.
    pub head_positions: Vec<i64>,
}

impl Clone for Stats {
    fn clone(&self) -> (res: Self)
        ensures
            res.cards@ == self.cards@,
            res.score == self.score,
            res.action == self.action,
            res.tapes@.map_values(|t: Tape| t@) == self.tapes@.map_values(|t: Tape| t@),
            res.head_positions@ == self.head_positions@,
    {
        let mut tapes: Vec<Tape> = Vec::new();
        let mut i: usize = 0;
        while i < self.tapes.len()
            invariant
                i <= self.tapes@.len(),
                tapes@.len() == i,
                forall|m: int| 0 <= m < i ==> (#[trigger] tapes@[m])@ == self.tapes@[m]@,
            decreases self.tapes@.len() - i,
        {
            tapes.push(self.tapes[i].clone());
            i = i + 1;
        }
        let mut head_positions: Vec<i64> = Vec::new();
        let mut j: usize = 0;
        while j < self.head_positions.len()
            invariant
                j <= self.head_positions@.len(),
                head_positions@ == self.head_positions@.take(j as int),
            decreases self.head_positions@.len() - j,
        {
            head_positions.push(self.head_positions[j]);
            proof {
                assert(self.head_positions@.take(j + 1 as int) =~= self.head_positions@.take(
                    j as int,
                ).push(self.head_positions@[j as int]));
            }
            j = j + 1;
        }
        proof {
            assert(tapes@.map_values(|t: Tape| t@) =~= self.tapes@.map_values(|t: Tape| t@));
            assert(self.head_positions@.take(self.head_positions@.len() as int)
                =~= self.head_positions@);
        }
        Stats {
            cards: self.cards.clone(),
            score: self.score,
            action: self.action,
            tapes,
            head_positions,
        }
    }
}

impl Stats {
    /// A fresh record for a run of the given table: no snapshots yet.
    pub fn init(cards: Cards) -> (r: Self)
        ensures
            r.cards@ == cards@,
            r.score == 0,
            r.action == 0,
            r.tapes@.len() == 0,
            r.head_positions@.len() == 0,
    {
        Self { cards, action: 0, score: 0, tapes: Vec::new(), head_positions: Vec::new() }
    }

    /// A placeholder record holding a trivial one-instruction machine that
    /// halts immediately: useful as the seed of a best-run fold.
    pub fn default() -> (r: Self)
        ensures
            r.cards@ == seq![
                seq![
                    Instructions {
                        write: Symbol(0),
                        direction: Direction::Left,
                        state: State::Halt,
                    },
                ],
            ],
            r.score == 0,
            r.action == 0,
            r.tapes@.len() == 0,
            r.head_positions@.len() == 0,
    {
        let inst = Instructions::new(Symbol(0), Direction::Left, State::Halt);
        let mut instructions: Vec<Instructions> = Vec::new();
        instructions.push(inst);
        let card = Card::new(instructions);
        let mut card_vec: Vec<Card> = Vec::new();
        card_vec.push(card);
        let cards = Cards::new(card_vec);
        proof {
            assert(cards@ =~~= seq![
                seq![
                    Instructions {
                        write: Symbol(0),
                        direction: Direction::Left,
                        state: State::Halt,
                    },
                ],
            ]);
        }
        Self { cards, action: 0, score: 0, tapes: Vec::new(), head_positions: Vec::new() }
    }

    /// Records one snapshot: recomputes the score from the tape, appends a
    /// copy of the tape and the head's offset from the tape's middle, and
    /// sets the action count to the number of steps seen so far.
    pub fn update(&mut self, tape: &Tape, tw: &Typewriter)
        requires
            tape@.len() <= 0x7fff_ffff_ffff_ffff,
            tw.head <= 0x7fff_ffff_ffff_ffff,
        ensures
            final(self).cards == old(self).cards,
            final(self).score == score_of(tape@),
            final(self).tapes@.len() == old(self).tapes@.len() + 1,
            forall|s: int|
                0 <= s < old(self).tapes@.len() ==> (#[trigger] final(self).tapes@[s])@ == old(
                    self,
                ).tapes@[s]@,
            final(self).tapes@[old(self).tapes@.len() as int]@ == tape@,
            final(self).action == old(self).tapes@.len(),
            final(self).head_positions@ == old(self).head_positions@.push(
                (tw.head - tape@.len() as int / 2) as i64,
            ),
    {
        let mut count: usize = 0;
        let mut i: usize = 0;
        while i < tape.0.len()
            invariant
                i <= tape@.len(),
                count <= i,
                count == score_of(tape@.take(i as int)),
            decreases tape@.len() - i,
        {
            proof {
                assert(tape@.take(i + 1 as int).drop_last() =~= tape@.take(i as int));
                assert(tape@.take(i + 1 as int).last() == tape@[i as int]);
            }
            if tape.0[i] == 1 {
                count = count + 1;
            }
            i = i + 1;
        }
        proof {
            assert(tape@.take(tape@.len() as int) =~= tape@);
        }
        self.score = count;
        self.tapes.push(tape.clone());
        self.action = self.tapes.len() - 1;
        let half = tape.0.len() / 2;
        let pos: i64 = (tw.head as i64) - (half as i64);
        self.head_positions.push(pos);
    }
}

} // verus!
