//! The decisions of a shell that runs one program at a time and passes
//! lines between the console and the program.

use vstd::prelude::*;

verus! {

/// What became of the child after a read from its output.
#[derive(Debug, Clone, Copy, PartialEq, Eq, Structural)]
pub enum ChildState {
    Working,
    Killed,
}

/// Whether the shell asks for a program or runs one.
#[derive(Debug, Clone, Copy, PartialEq, Eq, Structural)]
pub enum LoopState {
    Prompting,
    ProgRunning,
}

/// Where a line came from.
#[derive(Debug, Clone, Copy, PartialEq, Eq, Structural)]
pub enum LineFrom {
    Console,
    Child,
}

/// Where a line goes.
#[derive(Debug, Clone, Copy, PartialEq, Eq, Structural)]
pub enum LineTo {
    Child,
    Screen,
}

/// The state of the child after a read that returned `bytes` bytes: a
/// read of nothing is the end of its output.
pub fn child_state(bytes: usize) -> (r: ChildState)
    ensures
        r == if bytes == 0 {
            ChildState::Killed
        } else {
            ChildState::Working
        },
{
    if bytes == 0 {
        ChildState::Killed
    } else {
        ChildState::Working
    }
}

/// Whether a line from the console asks for the child to be killed: it
/// does if its first byte is 1.
pub fn kill_requested(console: &[u8]) -> (r: bool)
    ensures
        r == (console@.len() > 0 && console@[0] == 1),
{
    console.len() > 0 && console[0] == 1
}

/// Whether the shell prints its prompt before it reads.
pub fn prompts(state: LoopState) -> (r: bool)
    ensures
        r == (state == LoopState::Prompting),
{
    match state {
        LoopState::Prompting => true,
        LoopState::ProgRunning => false,
    }
}

/// What the shell does with a line while a program runs: a line from
/// the console goes to the child, a line from the child to the screen,
/// and the shell prompts again once the child has ended.
pub fn route(from: LineFrom, child: ChildState) -> (r: (LoopState, LineTo))
    ensures
        r.0 == if child == ChildState::Killed {
            LoopState::Prompting
        } else {
            LoopState::ProgRunning
        },
        r.1 == if from == LineFrom::Console {
            LineTo::Child
        } else {
            LineTo::Screen
        },
{
    let state = match child {
        ChildState::Killed => LoopState::Prompting,
        ChildState::Working => LoopState::ProgRunning,
    };
    let to = match from {
        LineFrom::Console => LineTo::Child,
        LineFrom::Child => LineTo::Screen,
    };
    (state, to)
}

} // verus!
