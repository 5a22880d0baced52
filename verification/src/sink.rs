//! The live output port: during path reconstruction each discovered cell can
//! be handed to a rendering collaborator over a standard channel.

use vstd::prelude::*;

verus! {

/// The sending half of a standard channel carries the discovered cells to
/// whatever renders them; its behaviour is outside this library.
#[verifier::external_type_specification]
#[verifier::external_body]
#[verifier::reject_recursive_types(T)]
pub struct ExSender<T>(std::sync::mpsc::Sender<T>);

/// Relies on `std::sync::mpsc::Sender::send` to hand one coordinate to the
/// receiving collaborator. A send failure only means the receiver is gone;
/// it is ignored, since the computed path does not depend on delivery.
#[verifier::external_body]
pub(crate) fn send_case(sender: &std::sync::mpsc::Sender<(usize, usize)>, case: (usize, usize)) {
    let _ = sender.send(case);
}

} // verus!
