//! The storage medium of a run: a dynamically growing tape of symbols and
//! the typewriter head that reads, writes and moves over it.

use vstd::pervasive::VecAdditionalExecFns;
use vstd::prelude::*;

use crate::machine::Direction;
use crate::machine::Symbol;

verus! {

/// The tape on which a run unfolds. Conceptually infinite in both
/// directions; materialized lazily by growing one zero cell at each edge
/// whenever the head would run off.
#[derive(Debug, PartialEq)]
pub struct Tape(pub Vec<u8>);

impl View for Tape {
    type V = Seq<u8>;

    open spec fn view(&self) -> Seq<u8> {
        self.0@
    }
}

impl Clone for Tape {
    fn clone(&self) -> (res: Self)
        ensures
            res@ == self@,
    {
        let mut v: Vec<u8> = Vec::new();
        let mut i: usize = 0;
        while i < self.0.len()
            invariant
                i <= self.0.len(),
                v@ == self@.take(i as int),
            decreases self.0.len() - i,
        {
            v.push(self.0[i]);
            proof {
                assert(self@.take(i + 1 as int) =~= self@.take(i as int).push(self@[i as int]));
            }
            i = i + 1;
        }
        proof {
            assert(self@.take(self.0.len() as int) =~= self@);
        }
        Tape(v)
    }
}

impl Tape {
    /// Extends the tape by putting a zero at the beginning and the end of
    /// the current tape. The head index is shifted right by one so that it
    /// keeps pointing at the same logical cell.
    pub fn extend(&mut self, tw: &mut Typewriter)
        requires
            old(tw).head < usize::MAX,
        ensures
            final(self)@ == seq![0u8] + old(self)@ + seq![0u8],
            final(tw).head == old(tw).head + 1,
    {
        tw.head = tw.head + 1;
        self.0.insert(0, 0);
        self.0.push(0);
        proof {
            assert(self@ =~= seq![0u8] + old(self)@ + seq![0u8]);
        }
    }
}

/// Typewriter: holds and controls the position of the moving head.
pub struct Typewriter {
    pub head: usize,
}

impl Typewriter {
    /// Move the head one step left or right; if the move would leave the
    /// materialized tape, the tape grows by a zero cell at each edge first,
    /// so the move always succeeds.
    pub fn move_head(&mut self, dir: &Direction, tape: &mut Tape)
        requires
            old(self).head < old(tape)@.len(),
            old(tape)@.len() < usize::MAX,
        ensures
            final(self).head < final(tape)@.len(),
            *dir == Direction::Left && old(self).head == 0 ==> final(tape)@ == seq![0u8]
                + old(tape)@ + seq![0u8] && final(self).head == 0,
            *dir == Direction::Left && old(self).head > 0 ==> final(tape)@ == old(tape)@
                && final(self).head == old(self).head - 1,
            *dir == Direction::Right && old(self).head + 1 < old(tape)@.len() ==> final(tape)@
                == old(tape)@ && final(self).head == old(self).head + 1,
            *dir == Direction::Right && old(self).head + 1 == old(tape)@.len() ==> final(tape)@
                == seq![0u8] + old(tape)@ + seq![0u8] && final(self).head == old(self).head + 2,
    {
        match dir {
            Direction::Left => {
                if self.head == 0 {
                    tape.extend(self);
                    self.head = self.head - 1;
                } else {
                    self.head = self.head - 1;
                }
            },
            Direction::Right => {
                self.head = self.head + 1;
                if self.head > tape.0.len() - 1 {
                    tape.extend(self);
                }
            },
        }
    }

    /// Writes the new symbol onto the tape at the head's position.
    pub fn write(&self, sym: &Symbol, tape: &mut Tape)
        requires
            self.head < old(tape)@.len(),
        ensures
            final(tape)@ == old(tape)@.update(self.head as int, sym.0),
    {
        match sym {
            Symbol(i) => tape.0.set(self.head, *i),
        }
    }

    /// Reads the symbol of the tape cell over which the head is hovering.
    pub fn read(&self, tape: &Tape) -> (r: Symbol)
        requires
            self.head < tape@.len(),
        ensures
            r.0 == tape@[self.head as int],
    {
        Symbol(tape.0[self.head])
    }
}

} // verus!
