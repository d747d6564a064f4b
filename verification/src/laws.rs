use vstd::prelude::*;

use crate::board::Universe;
use crate::board::lemma_flat_range;
use crate::piece::Piece;
use crate::piece::anchored_of;
use crate::piece::is_anchored;
use crate::piece::is_chain_piece;
use crate::piece::is_terminator;
use crate::piece::piece_count;
use crate::push::anchored_shift;
use crate::push::lemma_anchored_off_ray;
use crate::push::lemma_push_cells;
use crate::push::lemma_push_count;
use crate::push::lemma_push_frame;
use crate::push::lemma_ray_line;
use crate::push::push_applied;
use crate::push::ray;
use crate::push::unit_dir;

verus! {

/// A move from a coordinate to itself is never legal, on any board.
pub proof fn lemma_no_self_move(b: &Universe, r: int, c: int)
    ensures
        !b.spec_can_move(r, c, r, c),
{
}

/// A push whose first scanned cell is already open or abyss terrain is
/// rejected: a pusher cannot push thin air.
pub proof fn lemma_adjacent_gap_rejected(b: &Universe, sr: int, sc: int, dr: int, dc: int)
    requires
        b.spec_in_bounds(sr + dr, sc + dc),
        is_terminator(b.cell(sr + dr, sc + dc)),
    ensures
        !b.spec_can_push(sr, sc, dr, dc),
{
    if unit_dir(dr, dc) {
        lemma_ray_line(sr, dr, 1);
        lemma_ray_line(sc, dc, 1);
        assert forall|k: int| !b.chain_clear(sr, sc, dr, dc, k) by {
            if b.chain_clear(sr, sc, dr, dc, k) {
                assert(is_chain_piece(b.cell(ray(sr, dr, 1), ray(sc, dc, 1))));
            }
        }
    }
}

/// A push whose line holds an anchored pusher `m` steps out, with nothing
/// terminating before it, is rejected, whatever lies beyond the anchor.
pub proof fn lemma_anchor_blocks_push(b: &Universe, sr: int, sc: int, dr: int, dc: int, m: int)
    requires
        1 <= m,
        forall|j: int|
            #![trigger ray(sr, dr, j), ray(sc, dc, j)]
            1 <= j < m ==> b.spec_in_bounds(ray(sr, dr, j), ray(sc, dc, j)) && !is_terminator(
                b.cell(ray(sr, dr, j), ray(sc, dc, j)),
            ),
        b.spec_in_bounds(ray(sr, dr, m), ray(sc, dc, m)),
        is_anchored(b.cell(ray(sr, dr, m), ray(sc, dc, m))),
    ensures
        !b.spec_can_push(sr, sc, dr, dc),
{
    assert forall|k: int| !b.chain_clear(sr, sc, dr, dc, k) by {
        if b.chain_clear(sr, sc, dr, dc, k) {
            if k < m {
                assert(is_terminator(b.cell(ray(sr, dr, k), ray(sc, dc, k))));
                assert(!is_terminator(b.cell(ray(sr, dr, k), ray(sc, dc, k))));
            } else if k == m {
                assert(is_terminator(b.cell(ray(sr, dr, m), ray(sc, dc, m))));
            } else {
                assert(is_chain_piece(b.cell(ray(sr, dr, m), ray(sc, dc, m))));
            }
        }
    }
}

/// An anchored pusher is permanently immobile: no simple move may start
/// from its cell, wherever it could otherwise slide.
pub proof fn lemma_anchored_cannot_move(b: &Universe, sr: int, sc: int, er: int, ec: int)
    requires
        b.spec_in_bounds(sr, sc),
        is_anchored(b.cell(sr, sc)),
    ensures
        !b.spec_can_move(sr, sc, er, ec),
{
}

/// An anchored pusher can never initiate a push.
pub proof fn lemma_anchored_cannot_push(b: &Universe, sr: int, sc: int, dr: int, dc: int)
    requires
        b.spec_in_bounds(sr, sc),
        is_anchored(b.cell(sr, sc)),
    ensures
        !b.spec_can_push(sr, sc, dr, dc),
{
}

/// After a successful push the origin is vacated and the cell one step
/// out holds the anchored form of the pushing piece.
pub proof fn lemma_push_anchors(
    pre: Universe,
    post: Universe,
    sr: int,
    sc: int,
    dr: int,
    dc: int,
    k: int,
)
    requires
        pre.well_formed(),
        pre.spec_can_push(sr, sc, dr, dc),
        pre.chain_clear(sr, sc, dr, dc, k),
        push_applied(pre, post, sr, sc, dr, dc),
    ensures
        post.pieces@[pre.flat(sr, sc)] == Piece::Empty,
        post.pieces@[pre.flat(ray(sr, dr, 1), ray(sc, dc, 1))] == anchored_of(pre.cell(sr, sc)),
        is_anchored(post.pieces@[pre.flat(ray(sr, dr, 1), ray(sc, dc, 1))]),
{
    assert(post.pieces@ == anchored_shift(pre, sr, sc, dr, dc, k));
    lemma_push_cells(pre, post, sr, sc, dr, dc, k);
}

/// A successful push removes exactly one piece when its chain ran into
/// the abyss, and none when it reached an open cell.
pub proof fn lemma_push_piece_count(
    pre: Universe,
    post: Universe,
    sr: int,
    sc: int,
    dr: int,
    dc: int,
    k: int,
)
    requires
        pre.well_formed(),
        pre.spec_can_push(sr, sc, dr, dc),
        pre.chain_clear(sr, sc, dr, dc, k),
        push_applied(pre, post, sr, sc, dr, dc),
    ensures
        pre.cell(ray(sr, dr, k), ray(sc, dc, k)) == Piece::Abyss ==> piece_count(post.pieces@)
            == piece_count(pre.pieces@) - 1,
        pre.cell(ray(sr, dr, k), ray(sc, dc, k)) == Piece::Empty ==> piece_count(post.pieces@)
            == piece_count(pre.pieces@),
{
    assert(post.pieces@ == anchored_shift(pre, sr, sc, dr, dc, k));
    lemma_push_count(pre, post, sr, sc, dr, dc, k);
}

/// A piece anchored before a push still stands, unchanged, on its cell
/// after any successful push: anchored pushers are never moved or swept.
pub proof fn lemma_anchored_survives_push(
    pre: Universe,
    post: Universe,
    sr: int,
    sc: int,
    dr: int,
    dc: int,
    r: int,
    c: int,
)
    requires
        pre.well_formed(),
        pre.spec_can_push(sr, sc, dr, dc),
        push_applied(pre, post, sr, sc, dr, dc),
        pre.spec_in_bounds(r, c),
        is_anchored(pre.cell(r, c)),
    ensures
        post.cell(r, c) == pre.cell(r, c),
{
    let k = choose|k: int| pre.chain_clear(sr, sc, dr, dc, k);
    assert(pre.chain_clear(sr, sc, dr, dc, k));
    assert(post.pieces@ == anchored_shift(pre, sr, sc, dr, dc, k));
    lemma_push_frame(pre, post, sr, sc, dr, dc, k);
    lemma_anchored_off_ray(pre, sr, sc, dr, dc, k, k + 1, r, c);
    lemma_flat_range(pre, r, c);
    assert(post.pieces@[pre.flat(r, c)] == pre.pieces@[pre.flat(r, c)]);
    assert(post.flat(r, c) == pre.flat(r, c)) by {
        reveal(Universe::flat);
    }
}

} // verus!
