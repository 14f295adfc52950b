//! The read loop as a state machine: each input either keeps accumulating,
//! finalizes the batch for the measured phases, or ends the run with an error.
use vstd::prelude::*;
use crate::accumulator::{has_room, step, Accumulator, Batch};
use crate::codec::DecodeError;
use crate::operation::{decode_operation, decode_spec, OpModel, RawOperation};

verus! {

/// What the read loop hands over for one line of input.
#[derive(Debug, Clone)]
pub enum Input {
    /// An empty line, which is skipped.
    Blank,
    /// A record read from a non-empty line.
    Record(RawOperation),
    /// The input stream ended.
    End,
}

/// Every way a run can fail; each one is fatal.
#[derive(Debug, Clone)]
pub enum HarnessError {
    /// A line that is not a record at all.
    Malformed(String),
    /// A record whose operation or fields do not decode.
    Input(DecodeError),
    /// An operation counter would pass its largest value.
    TooManyOperations,
    /// The input ended before any finalize operation.
    NoFinalize,
    /// The state engine failed.
    Engine(String),
    /// The store failed to open, write or commit.
    Store(String),
}

/// Where the read loop stands after one input.
pub enum Transition {
    /// Still reading; the accumulator holds what was merged.
    Accumulating(Accumulator),
    /// A finalize operation arrived; the batch is ready and no more input is
    /// read.
    Finalized(Batch),
    /// The run ends with this error.
    Failed(HarnessError),
}

/// The transition that one input causes, given a decoded record.
pub open spec fn advance_spec(before: Accumulator, input: Input, t: Transition) -> bool {
    match input {
        Input::Blank => t matches Transition::Accumulating(a) && a.wf() && a@ == before@,
        Input::End => t matches Transition::Failed(HarnessError::NoFinalize),
        Input::Record(r) => match decode_spec(r) {
            Err(e) => t matches Transition::Failed(HarnessError::Input(e2)) && e2 == e,
            Ok(OpModel::Finalize) => t matches Transition::Finalized(b) && b@ == before@,
            Ok(op) => if has_room(before@, op) {
                t matches Transition::Accumulating(a) && a.wf() && a@ == step(before@, op)
            } else {
                t matches Transition::Failed(HarnessError::TooManyOperations)
            },
        },
    }
}

/// Takes one input in the accumulating state.
pub fn advance(acc: Accumulator, input: Input) -> (t: Transition)
    requires
        acc.wf(),
    ensures
        advance_spec(acc, input, t),
{
    match input {
        Input::Blank => Transition::Accumulating(acc),
        Input::End => Transition::Failed(HarnessError::NoFinalize),
        Input::Record(r) => match decode_operation(&r) {
            Err(e) => Transition::Failed(HarnessError::Input(e)),
            Ok(op) => {
                if op.is_finalize() {
                    Transition::Finalized(acc.finish())
                } else if acc.has_room_for(&op) {
                    let mut a = acc;
                    a.apply(op);
                    Transition::Accumulating(a)
                } else {
                    Transition::Failed(HarnessError::TooManyOperations)
                }
            },
        },
    }
}

/// Only a record that decodes to the finalize operation ends accumulation
/// with a batch; the end of input without one ends the run with
/// `NoFinalize`. So a run that never sees finalize produces no result.
pub proof fn lemma_batch_needs_finalize(before: Accumulator, input: Input, t: Transition)
    requires
        advance_spec(before, input, t),
    ensures
        t is Finalized ==> (input matches Input::Record(r) && decode_spec(r) == Ok::<
            OpModel,
            DecodeError,
        >(OpModel::Finalize)),
        input is End ==> (t matches Transition::Failed(HarnessError::NoFinalize)),
{
}

} // verus!
