//! The state that the commands of a pass work on.
use vstd::prelude::*;
use vstd::std_specs::bits::axiom_u8_trailing_zeros;

use crate::bind::{Binder, Slot, Slots};
use crate::error::DispatchError;
use crate::id::MAX_BIND_GROUPS;

verus! {

/// Whether a pipeline has been set.
#[derive(Clone, Copy, Debug, PartialEq, Eq, Structural)]
pub enum PipelineState {
    Required,
    Provided,
}

/// What a pass keeps between its commands.
#[derive(Debug)]
pub struct State {
    pub binder: Binder,
    pub pipeline: PipelineState,
    /// How many debug groups are open.
    pub debug_scope_depth: u32,
}

/// The first of the first `n` slots that conflicts with what is expected of it.
pub open spec fn first_conflict(slots: Seq<Slot>, n: int) -> Option<int>
    decreases n,
{
    if n <= 0 {
        None
    } else {
        match first_conflict(slots, n - 1) {
            Some(i) => Some(i),
            None => if slots[n - 1].conflicting() {
                Some(n - 1)
            } else {
                None
            },
        }
    }
}

/// Whether a dispatch may be recorded: no slot conflicts with the current layout, and a pipeline
/// is set.
pub open spec fn readiness(slots: Slots, pipeline: PipelineState) -> Result<(), DispatchError> {
    match first_conflict(slots.slots, slots.slots.len() as int) {
        Some(i) => Err(DispatchError::IncompatibleBindGroup { index: i as u32 }),
        None => match pipeline {
            PipelineState::Required => Err(DispatchError::MissingPipeline),
            PipelineState::Provided => Ok(()),
        },
    }
}

/// [`first_conflict`] is the least slot that conflicts.
pub proof fn lemma_first_conflict(slots: Seq<Slot>, n: int)
    requires
        0 <= n <= slots.len(),
    ensures
        first_conflict(slots, n) matches Some(i) ==> {
            &&& 0 <= i < n
            &&& slots[i].conflicting()
            &&& forall|j: int| 0 <= j < i ==> !(#[trigger] slots[j]).conflicting()
        },
        first_conflict(slots, n) is None ==> forall|j: int|
            0 <= j < n ==> !(#[trigger] slots[j]).conflicting(),
    decreases n,
{
    if n > 0 {
        lemma_first_conflict(slots, n - 1);
    }
}

impl State {
    /// Refuses if some slot conflicts with the layout of the current pipeline, naming the first
    /// such slot, or else if no pipeline is set.
    pub fn is_ready(&self) -> (r: Result<(), DispatchError>)
        requires
            self.binder@.slots.len() <= MAX_BIND_GROUPS,
        ensures
            r == readiness(self.binder@, self.pipeline),
            match r {
                Ok(()) => self.pipeline is Provided && forall|i: int| !#[trigger] self.binder@.invalid(i),
                Err(DispatchError::MissingPipeline) => self.pipeline is Required && forall|i: int|
                    !#[trigger] self.binder@.invalid(i),
                Err(DispatchError::IncompatibleBindGroup { index }) => self.binder@.first_invalid(
                    index as int,
                ),
            },
    {
        let bind_mask: u8 = self.binder.invalid_mask();
        proof {
            lemma_first_conflict(self.binder@.slots, self.binder@.slots.len() as int);
            axiom_u8_trailing_zeros(bind_mask);
        }
        if bind_mask != 0 {
            let index: u32 = bind_mask.trailing_zeros();
            proof {
                let low = index as u8;
                assert((bind_mask >> low) & 1u8 == 1u8);
                assert(self.binder@.invalid(index as int));
                assert forall|j: int| 0 <= j < index implies !#[trigger] self.binder@.invalid(
                    j,
                ) by {
                    let below = j as u8;
                    assert((bind_mask >> below) & 1u8 == 0u8);
                }
                let first = first_conflict(self.binder@.slots, self.binder@.slots.len() as int);
                assert(first is Some && !(first->0 < index)) by {
                    assert(self.binder@.slots[index as int].conflicting());
                    if first is Some && first->0 < index {
                        assert(self.binder@.invalid(first->0));
                    }
                }
            }
            return Err(DispatchError::IncompatibleBindGroup { index });
        }
        proof {
            assert forall|i: int| !#[trigger] self.binder@.invalid(i) by {
                if 0 <= i < MAX_BIND_GROUPS {
                    assert((bind_mask >> (i as u8)) & 1u8 == 0u8);
                }
            }
            let first = first_conflict(self.binder@.slots, self.binder@.slots.len() as int);
            if first is Some {
                assert(self.binder@.invalid(first->0));
            }
        }
        if self.pipeline == PipelineState::Required {
            return Err(DispatchError::MissingPipeline);
        }
        Ok(())
    }
}

} // verus!
