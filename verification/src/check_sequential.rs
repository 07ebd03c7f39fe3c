//! A sink that checks the order of blocks and counts changes.
use crate::format::{wrap_u32, Event};
use crate::parser::BlockCallback;
use vstd::prelude::*;

verus! {

/// Height of the block that `history` announced last, or `u32::MAX` (one
/// below block 0, with wraparound) if it announced none.
pub open spec fn last_begun(history: Seq<Event>) -> u32
    decreases history.len(),
{
    if history.len() == 0 {
        u32::MAX
    } else {
        match history.last() {
            Event::BeginBlock { block_height } => block_height,
            _ => last_begun(history.drop_last()),
        }
    }
}

/// Number of changes in `history`.
pub open spec fn changes_in(history: Seq<Event>) -> nat
    decreases history.len(),
{
    if history.len() == 0 {
        0
    } else if history.last() is Change {
        changes_in(history.drop_last()) + 1
    } else {
        changes_in(history.drop_last())
    }
}

/// Watches the order of the blocks of a stream: remembers the block that
/// began last, so that the next one can be held against it, and counts the
/// changes (modulo 2^32).
pub struct CheckSequential {
    last_block: u32,
    num_changes: u32,
    seen: Ghost<Seq<Event>>,
}

impl CheckSequential {
    /// Both counters are what the calls seen so far make them.
    #[verifier::type_invariant]
    spec fn counters_follow_history(self) -> bool {
        &&& self.last_block == last_begun(self.seen@)
        &&& self.num_changes == changes_in(self.seen@) % 0x1_0000_0000
    }

    /// A sink that has seen nothing yet; block 0 is the one it expects.
    pub fn new() -> (r: CheckSequential)
        ensures
            r.history() == Seq::<Event>::empty(),
    {
        CheckSequential {
            last_block: 0_u32.wrapping_sub(1),
            num_changes: 0,
            seen: Ghost(Seq::empty()),
        }
    }

    /// Height of the block that began last.
    pub fn last_block(&self) -> (r: u32)
        ensures
            r == last_begun(self.history()),
    {
        proof {
            use_type_invariant(self);
        }
        self.last_block
    }

    /// Number of changes seen, modulo 2^32.
    pub fn num_changes(&self) -> (r: u32)
        ensures
            r == changes_in(self.history()) % 0x1_0000_0000,
    {
        proof {
            use_type_invariant(self);
        }
        self.num_changes
    }

    /// Height of the block that is due next: one above the block that began
    /// last, with wraparound.
    pub fn next_block(&self) -> (r: u32)
        ensures
            r == wrap_u32(last_begun(self.history()) + 1),
    {
        proof {
            use_type_invariant(self);
        }
        self.last_block.wrapping_add(1)
    }

    /// Whether a block of this height is the one that is due next.
    pub fn is_next(&self, block_height: u32) -> (r: bool)
        ensures
            r == (block_height == wrap_u32(last_begun(self.history()) + 1)),
    {
        block_height == self.next_block()
    }

    /// Whether `block_height` is the height of the block that began last.
    pub fn is_current(&self, block_height: u32) -> (r: bool)
        ensures
            r == (block_height == last_begun(self.history())),
    {
        proof {
            use_type_invariant(self);
        }
        block_height == self.last_block
    }
}

impl BlockCallback for CheckSequential {
    open spec fn tracks_history(&self) -> bool {
        true
    }

    closed spec fn history(&self) -> Seq<Event> {
        self.seen@
    }

    fn begin_block(&mut self, block_height: u32) {
        proof {
            use_type_invariant(&*self);
        }
        let ghost seen = self.seen@.push(Event::BeginBlock { block_height });
        assert(seen.drop_last() =~= self.seen@);
        *self = CheckSequential {
            last_block: block_height,
            num_changes: self.num_changes,
            seen: Ghost(seen),
        };
    }

    fn change(&mut self, block_height: u32, amount_satoshi: i64, is_null_delta: bool) {
        proof {
            use_type_invariant(&*self);
        }
        let ghost seen = self.seen@.push(
            Event::Change { block_height, amount_satoshi, is_null_delta },
        );
        assert(seen.drop_last() =~= self.seen@);
        *self = CheckSequential {
            last_block: self.last_block,
            num_changes: self.num_changes.wrapping_add(1),
            seen: Ghost(seen),
        };
    }

    fn end_block(&mut self, block_height: u32) {
        proof {
            use_type_invariant(&*self);
        }
        let ghost seen = self.seen@.push(Event::EndBlock { block_height });
        assert(seen.drop_last() =~= self.seen@);
        *self = CheckSequential {
            last_block: self.last_block,
            num_changes: self.num_changes,
            seen: Ghost(seen),
        };
    }
}

} // verus!
