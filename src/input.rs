//! The commands a key press stands for.
use vstd::prelude::*;
use crate::board::Direction;

verus! {

/// The keys the game listens to; every other key is `Other`.
#[derive(Clone, Copy, Debug, PartialEq, Eq, Structural)]
pub enum Key {
    Left,
    Right,
    Up,
    Down,
    A,
    D,
    W,
    S,
    Q,
    Escape,
    R,
    H,
    Other,
}

/// A command of the player.
#[derive(Clone, Copy, Debug, PartialEq, Eq, Structural)]
pub enum UserInput {
    Move(Direction),
    Quit,
    Reset,
    About,
}

/// The command a key stands for: arrows and WASD move, Q and Escape quit,
/// R resets, H shows the about screen.
pub open spec fn command_of(key: Key) -> Option<UserInput> {
    match key {
        Key::Left | Key::A => Some(UserInput::Move(Direction::Left)),
        Key::Up | Key::W => Some(UserInput::Move(Direction::Up)),
        Key::Down | Key::S => Some(UserInput::Move(Direction::Down)),
        Key::Right | Key::D => Some(UserInput::Move(Direction::Right)),
        Key::Q | Key::Escape => Some(UserInput::Quit),
        Key::R => Some(UserInput::Reset),
        Key::H => Some(UserInput::About),
        Key::Other => None,
    }
}

/// The command a key press stands for; `None` for a key the game ignores.
pub fn get_user_input(key: Key) -> (r: Option<UserInput>)
    ensures
        r == command_of(key),
{
    match key {
        Key::Left | Key::A => Some(UserInput::Move(Direction::Left)),
        Key::Up | Key::W => Some(UserInput::Move(Direction::Up)),
        Key::Down | Key::S => Some(UserInput::Move(Direction::Down)),
        Key::Right | Key::D => Some(UserInput::Move(Direction::Right)),
        Key::Q | Key::Escape => Some(UserInput::Quit),
        Key::R => Some(UserInput::Reset),
        Key::H => Some(UserInput::About),
        Key::Other => None,
    }
}

} // verus!
