//! The choices of the main menu.

use vstd::prelude::*;

verus! {

/// What the player picked in the main menu.
#[derive(Clone, Debug, PartialEq, Eq)]
pub enum UsersIdea {
    Singleplayer,
    /// Join the game hosted at this `ip:port`.
    JoinGame(String),
    HostGame,
    ChangeName,
    ExitGame,
}

/// The lowest and highest menu numbers.
pub const FIRST_CHOICE: u8 = 1;

pub const LAST_CHOICE: u8 = 5;

/// The idea behind menu number `choice`: 1 plays alone, 2 joins the game at
/// `join_addr`, 3 hosts a game, 4 changes the name, 5 exits. `None` for any
/// other number.
pub fn idea_of(choice: u8, join_addr: String) -> (r: Option<UsersIdea>)
    ensures
        r is Some == (FIRST_CHOICE <= choice <= LAST_CHOICE),
        choice == 1 ==> r == Some(UsersIdea::Singleplayer),
        choice == 2 ==> (r matches Some(UsersIdea::JoinGame(a)) && a@ == join_addr@),
        choice == 3 ==> r == Some(UsersIdea::HostGame),
        choice == 4 ==> r == Some(UsersIdea::ChangeName),
        choice == 5 ==> r == Some(UsersIdea::ExitGame),
{
    match choice {
        1 => Some(UsersIdea::Singleplayer),
        2 => Some(UsersIdea::JoinGame(join_addr)),
        3 => Some(UsersIdea::HostGame),
        4 => Some(UsersIdea::ChangeName),
        5 => Some(UsersIdea::ExitGame),
        _ => None,
    }
}

} // verus!
