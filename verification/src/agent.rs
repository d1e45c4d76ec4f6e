use vstd::prelude::*;
use crate::model::Point;

verus! {

/// The interface a learning agent implements.  Decision policies live
/// outside the engine; the engine only provides the environment.
pub trait Agent {

}

/// An opaque observation placeholder for agents that define their own.
pub struct State;

/// The condensed board features an agent learns from.
#[derive(PartialEq, Eq, Copy, Clone, Debug, Structural)]
pub struct DQNState {
    pub lines_burnt: usize,
    pub sum_holes: u16,
    pub sum_bumps: u16,
    pub sum_height: u16,
    pub curr_shape_idx: usize,
}

/// A resting placement an agent can request: the anchor and rotation to
/// adopt before a hard drop.
#[derive(PartialEq, Eq, Copy, Clone, Debug, Structural)]
pub struct DQNAction {
    pub base: Point,
    pub rotation: i8,
}

} // verus!
