use vstd::prelude::*;

verus! {

/// The state of one grid cell: open terrain, impassable terrain, or one of
/// the piece kinds of either side.
#[derive(Clone, Copy, Debug, PartialEq, Eq, Structural)]
pub enum Piece {
    WhitePusher,
    WhiteMover,
    BlackPusher,
    BlackMover,
    Empty,
    Abyss,
    AnchoredWhitePusher,
    AnchoredBlackPusher,
}

/// An unanchored pusher of either side: the only piece kind that may
/// initiate a push.
pub open spec fn is_pusher(p: Piece) -> bool {
    p == Piece::WhitePusher || p == Piece::BlackPusher
}

/// An anchored pusher of either side: permanently immobile, and blocking
/// any push line through it.
pub open spec fn is_anchored(p: Piece) -> bool {
    p == Piece::AnchoredWhitePusher || p == Piece::AnchoredBlackPusher
}

/// A cell holding a piece, as opposed to open (`Empty`) or impassable
/// (`Abyss`) terrain.
pub open spec fn is_piece(p: Piece) -> bool {
    p != Piece::Empty && p != Piece::Abyss
}

/// A piece that may still relocate: anchoring is terminal, so only an
/// unanchored piece can slide.
pub open spec fn is_movable(p: Piece) -> bool {
    is_piece(p) && !is_anchored(p)
}

/// A piece that a push chain may pass over: any unanchored piece.
pub open spec fn is_chain_piece(p: Piece) -> bool {
    is_piece(p) && !is_anchored(p)
}

/// A cell that terminates a push scan: open or impassable terrain.
pub open spec fn is_terminator(p: Piece) -> bool {
    p == Piece::Empty || p == Piece::Abyss
}

/// The anchored form of a pusher.
pub open spec fn anchored_of(p: Piece) -> Piece {
    if p == Piece::WhitePusher {
        Piece::AnchoredWhitePusher
    } else if p == Piece::BlackPusher {
        Piece::AnchoredBlackPusher
    } else {
        Piece::Abyss
    }
}

/// How many cells of the sequence hold a piece.
pub open spec fn piece_count(s: Seq<Piece>) -> int
    decreases s.len(),
{
    if s.len() == 0 {
        0
    } else {
        piece_count(s.drop_last()) + if is_piece(s.last()) {
            1int
        } else {
            0int
        }
    }
}

/// Overwriting one cell changes the piece count by the difference between
/// the new and the old cell's contribution.
pub proof fn lemma_piece_count_update(s: Seq<Piece>, i: int, p: Piece)
    requires
        0 <= i < s.len(),
    ensures
        piece_count(s.update(i, p)) == piece_count(s) - (if is_piece(s[i]) {
            1int
        } else {
            0int
        }) + (if is_piece(p) {
            1int
        } else {
            0int
        }),
    decreases s.len(),
{
    let t = s.update(i, p);
    if i == s.len() - 1 {
        assert(t.drop_last() =~= s.drop_last());
    } else {
        assert(t.drop_last() =~= s.drop_last().update(i, p));
        lemma_piece_count_update(s.drop_last(), i, p);
    }
}

} // verus!
