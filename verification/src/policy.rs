//! From the outputs of a network to a move of the paddle.

use vstd::prelude::*;
use crate::scalar::{greater, is_nan, order_key};

verus! {

/// What the player of the paddle game can do in one step.
#[derive(Debug, Clone, Copy, PartialEq, Eq)]
pub enum Action {
    Left,
    Right,
    Stay,
    Start,
}

/// Whether the first number is greater than the second. Nothing exceeds a
/// NaN, and a NaN exceeds nothing.
pub open spec fn exceeds(a: u32, b: u32) -> bool {
    !is_nan(a) && !is_nan(b) && order_key(a) > order_key(b)
}

/// The move that three outputs ask for. The outputs stand for left, stay
/// and right, in this order. The paddle moves left if the first output
/// exceeds both others, right if the third exceeds both others, and stays
/// otherwise.
pub open spec fn action_for(left: u32, stay: u32, right: u32) -> Action {
    if exceeds(left, stay) && exceeds(left, right) {
        Action::Left
    } else if exceeds(right, stay) && exceeds(right, left) {
        Action::Right
    } else {
        Action::Stay
    }
}

/// Picks the move that the first three outputs of a network ask for.
pub fn choose_action(outputs: &Vec<u32>) -> (action: Action)
    requires
        outputs.len() >= 3,
    ensures
        action == action_for(outputs[0], outputs[1], outputs[2]),
{
    let left = outputs[0];
    let stay = outputs[1];
    let right = outputs[2];
    if greater(left, stay) && greater(left, right) {
        Action::Left
    } else if greater(right, stay) && greater(right, left) {
        Action::Right
    } else {
        Action::Stay
    }
}

} // verus!
