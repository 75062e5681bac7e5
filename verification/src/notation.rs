//! From a move back to the description of it that a player would write.

use crate::bitboard::Bitboard;
use crate::board::Board;
use crate::coords::{file_of, rank_of, Square};
use crate::moves::{AlgebraicMove, Move, SimpleAlgebraicMove, SimpleMove};
use crate::piece::Piece;
use crate::utils::{group_bits, lemma_lowest_bit, lowest_bit};
use vstd::prelude::*;

verus! {

broadcast use group_bits;

impl Board {
    /// The kind of the piece on `s`, where exactly one kind has a piece there.
    pub open spec fn kind_on(self, s: int) -> Option<Piece> {
        if exists|p: Piece| #[trigger]
            self.kind(p)@.contains(s) && forall|q: Piece| #[trigger]
                self.kind(q)@.contains(s) ==> q == p {
            Some(
                choose|p: Piece| #[trigger]
                    self.kind(p)@.contains(s) && forall|q: Piece| #[trigger]
                        self.kind(q)@.contains(s) ==> q == p,
            )
        } else {
            None
        }
    }

    /// The square of its own that the side to move empties with `mv`.
    pub open spec fn origin(self, mv: SimpleMove) -> Bitboard {
        Bitboard(mv.delete.0 & self.side(self.player).0)
    }

    /// The move can be described: it fills one square, empties one square
    /// of the side to move, and one kind of piece stands on that square.
    pub open spec fn describable(self, mv: SimpleMove) -> bool {
        &&& mv.add.is_square()
        &&& self.origin(mv).is_square()
        &&& self.kind_on(self.origin(mv).spec_index()) is Some
    }

    /// The description of a move that is no castling and can be described:
    /// the kind of the piece that leaves its square, the file and rank of
    /// that square, the square it goes to, whether the move empties a
    /// square of the enemy, and what a pawn becomes.
    pub open spec fn describe_simple(self, mv: SimpleMove) -> SimpleAlgebraicMove {
        let s = self.origin(mv).spec_index();
        let t = mv.add.spec_index();
        let moved = self.kind_on(s).unwrap();
        SimpleAlgebraicMove {
            piece: moved,
            disambiguate: (Some(file_of(s) as u8), Some(rank_of(s) as u8)),
            dst_square: Square { x: file_of(t) as u8, y: rank_of(t) as u8 },
            captures: !mv.delete@.disjoint(self.side(self.player.other())@),
            check: false,
            checkmate: false,
            promotion: if moved == Piece::Pawn && mv.piece != Piece::Pawn {
                Some(mv.piece)
            } else {
                None
            },
        }
    }

    /// The description of a move.
    pub open spec fn describe(self, mv: Move) -> AlgebraicMove {
        match mv {
            Move::Simple(s) => AlgebraicMove::Simple(self.describe_simple(s)),
            Move::CastleLong => AlgebraicMove::CastleLong { check: false, checkmate: false },
            Move::CastleShort => AlgebraicMove::CastleShort { check: false, checkmate: false },
        }
    }

    /// The kind of the piece on the one square of `pos`; `None` where no
    /// kind or more than one kind has a piece there.
    pub fn kind_at(&self, pos: Bitboard) -> (r: Option<Piece>)
        requires
            pos.is_square(),
        ensures
            r == self.kind_on(pos.spec_index()),
    {
        let p = (self.pawns & pos).is_populated();
        let n = (self.knights & pos).is_populated();
        let b = (self.bishops & pos).is_populated();
        let r = (self.rooks & pos).is_populated();
        let q = (self.queens & pos).is_populated();
        let k = (self.kings & pos).is_populated();
        let ghost s = pos.spec_index();
        proof {
            pos.lemma_square(s);
            assert forall|x: Piece| #[trigger]
                self.kind(x)@.contains(s) <==> self.kind(x)@.intersect(pos@) != Set::<int>::empty() by {
                if self.kind(x)@.contains(s) {
                    assert(self.kind(x)@.intersect(pos@).contains(s));
                } else {
                    assert(self.kind(x)@.intersect(pos@) =~= Set::<int>::empty());
                }
            }
            assert(p == self.kind(Piece::Pawn)@.contains(s));
            assert(n == self.kind(Piece::Knight)@.contains(s));
            assert(b == self.kind(Piece::Bishop)@.contains(s));
            assert(r == self.kind(Piece::Rook)@.contains(s));
            assert(q == self.kind(Piece::Queen)@.contains(s));
            assert(k == self.kind(Piece::King)@.contains(s));
        }
        let found = if p && !n && !b && !r && !q && !k {
            Some(Piece::Pawn)
        } else if !p && n && !b && !r && !q && !k {
            Some(Piece::Knight)
        } else if !p && !n && b && !r && !q && !k {
            Some(Piece::Bishop)
        } else if !p && !n && !b && r && !q && !k {
            Some(Piece::Rook)
        } else if !p && !n && !b && !r && q && !k {
            Some(Piece::Queen)
        } else if !p && !n && !b && !r && !q && k {
            Some(Piece::King)
        } else {
            None
        };
        proof {
            match found {
                Some(x) => {
                    assert(self.kind(x)@.contains(s) && forall|y: Piece| #[trigger]
                        self.kind(y)@.contains(s) ==> y == x);
                },
                None => {
                    if self.kind_on(s) is Some {
                        let x = self.kind_on(s).unwrap();
                        assert(self.kind(x)@.contains(s));
                        assert(forall|y: Piece| #[trigger] self.kind(y)@.contains(s) ==> y == x);
                        assert(self.kind(Piece::Pawn)@.contains(s) ==> Piece::Pawn == x);
                        assert(self.kind(Piece::Knight)@.contains(s) ==> Piece::Knight == x);
                        assert(self.kind(Piece::Bishop)@.contains(s) ==> Piece::Bishop == x);
                        assert(self.kind(Piece::Rook)@.contains(s) ==> Piece::Rook == x);
                        assert(self.kind(Piece::Queen)@.contains(s) ==> Piece::Queen == x);
                        assert(self.kind(Piece::King)@.contains(s) ==> Piece::King == x);
                    }
                },
            }
        }
        found
    }

    /// The description of the move `mv` as a player would write it in
    /// this position, with file and rank of the square the piece comes
    /// from; `None` where the move cannot be described.
    pub fn to_algebraic(&self, mv: &Move) -> (r: Option<AlgebraicMove>)
        ensures
            r == (if *mv matches Move::Simple(s) && !self.describable(s) {
                None
            } else {
                Some(self.describe(*mv))
            }),
    {
        match mv {
            Move::CastleLong => Some(AlgebraicMove::CastleLong { check: false, checkmate: false }),
            Move::CastleShort => Some(
                AlgebraicMove::CastleShort { check: false, checkmate: false },
            ),
            Move::Simple(s) => {
                let from = s.delete & self.color_set(self.player);
                if !s.add.is_single() || !from.is_single() {
                    return None;
                }
                match self.kind_at(from) {
                    None => None,
                    Some(moved) => {
                        let (fx, fy) = from.coords();
                        let (tx, ty) = s.add.coords();
                        let taken = s.delete & self.color_set(self.player.opponent());
                        let captures = taken.is_populated();
                        proof {
                            let enemy = self.side(self.player.other())@;
                            if captures {
                                lemma_lowest_bit(taken.0);
                                assert(s.delete@.contains(lowest_bit(taken.0)) && enemy.contains(
                                    lowest_bit(taken.0),
                                ));
                            } else {
                                assert(s.delete@.intersect(enemy) == Set::<int>::empty());
                                assert forall|i: int| s.delete@.contains(i) implies !enemy.contains(
                                    i,
                                ) by {
                                    if enemy.contains(i) {
                                        assert(s.delete@.intersect(enemy).contains(i));
                                    }
                                }
                            }
                        }
                        let promotion = if moved == Piece::Pawn && s.piece != Piece::Pawn {
                            Some(s.piece)
                        } else {
                            None
                        };
                        Some(
                            AlgebraicMove::Simple(
                                SimpleAlgebraicMove {
                                    piece: moved,
                                    disambiguate: (Some(fx as u8), Some(fy as u8)),
                                    dst_square: Square { x: tx as u8, y: ty as u8 },
                                    captures,
                                    check: false,
                                    checkmate: false,
                                    promotion,
                                },
                            ),
                        )
                    },
                }
            },
        }
    }
}

} // verus!
