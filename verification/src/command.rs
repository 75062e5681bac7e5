//! What a player can type at the board: a move, or a command that
//! begins with a colon.

use crate::moves::{read_move, AlgebraicMove};
use crate::piece::Piece;
use crate::text::chars_of;
use vstd::prelude::*;

verus! {

/// What a player typed.
#[derive(Copy, Clone, Debug)]
pub enum Command {
    /// A move to make.
    Move(AlgebraicMove),
    /// To leave the game.
    Quit,
    /// To list the moves of the pieces of one kind.
    ShowMoves(Piece),
}

/// What the line `s` asks for: a move where it writes one; to leave for
/// `:q`; to list the moves of a kind of piece for `:m` and the letter of
/// the kind; and else the reason why it asks for nothing.
pub open spec fn command_of(s: Seq<char>) -> Result<Command, Seq<char>> {
    match read_move(s) {
        Some(mv) => Ok(Command::Move(mv)),
        None => if s =~= seq![':', 'q'] {
            Ok(Command::Quit)
        } else if s.len() == 3 && s[0] == ':' && s[1] == 'm' && (s[2] as u32) < 128 {
            if exists|p: Piece| p.letter() == s[2] {
                Ok(Command::ShowMoves(choose|p: Piece| p.letter() == s[2]))
            } else {
                Err("Invalid piece"@)
            }
        } else {
            Err("I cannot parse that"@)
        },
    }
}

impl Command {
    /// What the line `s` asks for, or the reason why it asks for nothing.
    pub fn parse(s: &str) -> (r: Result<Command, &'static str>)
        ensures
            match r {
                Ok(c) => command_of(s@) == Ok::<Command, Seq<char>>(c),
                Err(why) => command_of(s@) == Err::<Command, Seq<char>>(why@),
            },
            r matches Ok(Command::Move(mv)) ==> mv.valid(),
    {
        match AlgebraicMove::parse(s) {
            Some(alg) => Ok(Command::Move(alg)),
            None => {
                let chars = chars_of(s);
                if chars.len() == 2 && chars[0] == ':' && chars[1] == 'q' {
                    assert(s@ =~= seq![':', 'q']);
                    Ok(Command::Quit)
                } else if chars.len() == 3 && chars[0] == ':' && chars[1] == 'm' && (
                chars[2] as u32) < 128 {
                    match Piece::from_algebraic(chars[2]) {
                        Some(piece) => {
                            proof {
                                let found = choose|p: Piece| p.letter() == chars[2];
                                assert(piece.letter() == chars[2]);
                                assert(found.letter() == piece.letter());
                            }
                            Ok(Command::ShowMoves(piece))
                        },
                        None => Err("Invalid piece"),
                    }
                } else {
                    Err("I cannot parse that")
                }
            },
        }
    }
}

} // verus!
