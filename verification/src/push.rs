use vstd::prelude::*;

use crate::board::Universe;
use crate::board::lemma_flat_coords_injective;
use crate::board::lemma_flat_range;
use crate::piece::lemma_piece_count_update;
use crate::piece::Piece;
use crate::piece::anchored_of;
use crate::piece::is_anchored;
use crate::piece::is_chain_piece;
use crate::piece::is_piece;
use crate::piece::is_pusher;
use crate::piece::is_terminator;
use crate::piece::piece_count;

verus! {

/// A unit orthogonal direction: exactly one of the four axis steps.
pub open spec fn unit_dir(dr: int, dc: int) -> bool {
    ||| (dr == 0 && (dc == 1 || dc == -1))
    ||| (dc == 0 && (dr == 1 || dr == -1))
}

/// The coordinate component `j` steps from `s` along the delta `d`.
pub open spec fn ray(s: int, d: int, j: int) -> int
    decreases j,
{
    if j <= 0 {
        s
    } else {
        ray(s, d, j - 1) + d
    }
}

/// Walking a ray is adding `j * d`, spelt out for each unit delta.
pub proof fn lemma_ray_line(s: int, d: int, j: int)
    requires
        j >= 0,
    ensures
        d == 1 ==> ray(s, d, j) == s + j,
        d == -1 ==> ray(s, d, j) == s - j,
        d == 0 ==> ray(s, d, j) == s,
    decreases j,
{
    if j > 0 {
        lemma_ray_line(s, d, j - 1);
    }
}

impl Universe {
    /// The push scan from `(sr, sc)` along `(dr, dc)` runs over a chain of
    /// unanchored pieces and meets its first terminating cell, in bounds,
    /// exactly `k` steps out; `k >= 2` keeps at least one pushed piece
    /// between the origin and the terminator.
    pub open spec fn chain_clear(&self, sr: int, sc: int, dr: int, dc: int, k: int) -> bool {
        &&& 2 <= k
        &&& forall|j: int|
            #![trigger ray(sr, dr, j), ray(sc, dc, j)]
            1 <= j < k ==> self.spec_in_bounds(ray(sr, dr, j), ray(sc, dc, j)) && is_chain_piece(
                self.cell(ray(sr, dr, j), ray(sc, dc, j)),
            )
        &&& self.spec_in_bounds(ray(sr, dr, k), ray(sc, dc, k))
        &&& is_terminator(self.cell(ray(sr, dr, k), ray(sc, dc, k)))
    }

    /// A legal push: an in-bounds unanchored pusher at the origin, a unit
    /// orthogonal direction, and a clear chain ahead of it.
    pub open spec fn spec_can_push(&self, sr: int, sc: int, dr: int, dc: int) -> bool {
        &&& self.spec_in_bounds(sr, sc)
        &&& unit_dir(dr, dc)
        &&& is_pusher(self.cell(sr, sc))
        &&& exists|k: int| self.chain_clear(sr, sc, dr, dc, k)
    }

    /// The scan meets its first terminator at one distance only.
    pub proof fn lemma_chain_clear_unique(&self, sr: int, sc: int, dr: int, dc: int, k1: int, k2: int)
        requires
            self.chain_clear(sr, sc, dr, dc, k1),
            self.chain_clear(sr, sc, dr, dc, k2),
        ensures
            k1 == k2,
    {
        if k1 < k2 {
            assert(is_chain_piece(self.cell(ray(sr, dr, k1), ray(sc, dc, k1))));
        }
        if k2 < k1 {
            assert(is_chain_piece(self.cell(ray(sr, dr, k2), ray(sc, dc, k2))));
        }
    }

    /// Whether a straight push from `(row, column)` along the given deltas
    /// is legal.
    #[verifier::loop_isolation(false)]
    pub fn can_push(&self, row: i32, column: i32, delta_row: i32, delta_col: i32) -> (r: bool)
        requires
            self.well_formed(),
        ensures
            r == self.spec_can_push(
                row as int,
                column as int,
                delta_row as int,
                delta_col as int,
            ),
    {
        let ghost sr = row as int;
        let ghost sc = column as int;
        let ghost dr = delta_row as int;
        let ghost dc = delta_col as int;
        if !self.in_bounds(row, column) {
            return false;
        }
        let unit = (delta_row == 0 && (delta_col == 1 || delta_col == -1)) || (delta_col == 0 && (
        delta_row == 1 || delta_row == -1));
        if !unit {
            return false;
        }
        let ix = self.get_index(row as u32, column as u32);
        let p = self.pieces[ix];
        if !(p == Piece::BlackPusher || p == Piece::WhitePusher) {
            return false;
        }
        proof {
            lemma_ray_line(sr, dr, 1);
            lemma_ray_line(sc, dc, 1);
        }
        let mut r: i32 = row + delta_row;
        let mut c: i32 = column + delta_col;
        let mut steps: u32 = 1;
        while self.in_bounds(r, c)
            invariant
                1 <= steps,
                r as int == ray(sr, dr, steps as int),
                c as int == ray(sc, dc, steps as int),
                -1 <= r as int <= self.height as int,
                -1 <= c as int <= self.width as int,
                steps <= 0x7fff_ffffu32,
                forall|j: int|
                    1 <= j < steps as int ==> self.spec_in_bounds(ray(sr, dr, j), ray(sc, dc, j))
                        && is_chain_piece(#[trigger] self.cell(ray(sr, dr, j), ray(sc, dc, j))),
            decreases self.height as int + self.width as int - steps as int,
        {
            let cix = self.get_index(r as u32, c as u32);
            let q = self.pieces[cix];
            if q == Piece::AnchoredBlackPusher || q == Piece::AnchoredWhitePusher {
                proof {
                    assert forall|k: int| !self.chain_clear(sr, sc, dr, dc, k) by {
                        if self.chain_clear(sr, sc, dr, dc, k) {
                            if k < steps as int {
                                assert(is_chain_piece(self.cell(ray(sr, dr, k), ray(sc, dc, k))));
                            } else if k > steps as int {
                                assert(is_chain_piece(
                                    self.cell(ray(sr, dr, steps as int), ray(sc, dc, steps as int)),
                                ));
                            }
                        }
                    }
                }
                return false;
            }
            if q == Piece::Empty || q == Piece::Abyss {
                if steps > 1 {
                    proof {
                        assert(self.chain_clear(sr, sc, dr, dc, steps as int));
                    }
                    return true;
                } else {
                    proof {
                        assert forall|k: int| !self.chain_clear(sr, sc, dr, dc, k) by {
                            if self.chain_clear(sr, sc, dr, dc, k) {
                                assert(is_chain_piece(self.cell(ray(sr, dr, 1), ray(sc, dc, 1))));
                            }
                        }
                    }
                    return false;
                }
            }
            proof {
                lemma_ray_line(sr, dr, steps as int);
                lemma_ray_line(sc, dc, steps as int);
            }
            r = r + delta_row;
            c = c + delta_col;
            steps = steps + 1;
        }
        proof {
            assert forall|k: int| !self.chain_clear(sr, sc, dr, dc, k) by {
                if self.chain_clear(sr, sc, dr, dc, k) {
                    if k < steps as int {
                        assert(is_chain_piece(self.cell(ray(sr, dr, k), ray(sc, dc, k))));
                        assert(is_terminator(self.cell(ray(sr, dr, k), ray(sc, dc, k))));
                    } else {
                        assert(self.spec_in_bounds(ray(sr, dr, steps as int), ray(sc, dc, steps as int)));
                    }
                }
            }
        }
        false
    }
}

/// Whether flat offset `i` is one of the first `n` positions of the ray
/// from `(sr, sc)` along `(dr, dc)` in the grid of `pre`.
#[verifier::opaque]
pub open spec fn on_ray_upto(
    pre: Universe,
    sr: int,
    sc: int,
    dr: int,
    dc: int,
    n: int,
    i: int,
) -> bool
    decreases n,
{
    if n <= 0 {
        false
    } else {
        pre.flat(ray(sr, dr, n - 1), ray(sc, dc, n - 1)) == i || on_ray_upto(
            pre,
            sr,
            sc,
            dr,
            dc,
            n - 1,
            i,
        )
    }
}

/// The first `n` positions of the ray all lie on the board.
pub open spec fn ray_prefix_in_bounds(
    pre: Universe,
    sr: int,
    sc: int,
    dr: int,
    dc: int,
    n: int,
) -> bool {
    forall|j: int|
        #![trigger ray(sr, dr, j), ray(sc, dc, j)]
        0 <= j < n ==> pre.spec_in_bounds(ray(sr, dr, j), ray(sc, dc, j))
}

/// What the push scan carries into position `j` of the ray: nothing at the
/// origin, and otherwise whatever stood one step behind.
pub open spec fn chain_source(
    pre: Universe,
    sr: int,
    sc: int,
    dr: int,
    dc: int,
    j: int,
) -> Piece {
    if j == 0 {
        Piece::Empty
    } else {
        pre.cell(ray(sr, dr, j - 1), ray(sc, dc, j - 1))
    }
}

/// The grid after the first `n` positions of the ray have each received
/// what the scan carried into them.
#[verifier::opaque]
pub open spec fn shifted_upto(
    pre: Universe,
    sr: int,
    sc: int,
    dr: int,
    dc: int,
    n: int,
) -> Seq<Piece>
    decreases n,
{
    if n <= 0 {
        pre.pieces@
    } else {
        shifted_upto(pre, sr, sc, dr, dc, n - 1).update(
            pre.flat(ray(sr, dr, n - 1), ray(sc, dc, n - 1)),
            chain_source(pre, sr, sc, dr, dc, n - 1),
        )
    }
}

/// The grid after a push whose scan terminates `k` steps out: the
/// shifted prefix, cut at the terminator or just past it, with the
/// anchored pusher written one step from the origin.
pub open spec fn anchored_shift(pre: Universe, sr: int, sc: int, dr: int, dc: int, k: int) -> Seq<
    Piece,
> {
    (if pre.cell(ray(sr, dr, k), ray(sc, dc, k)) == Piece::Empty {
        shifted_upto(pre, sr, sc, dr, dc, k + 1)
    } else {
        shifted_upto(pre, sr, sc, dr, dc, k)
    }).update(pre.flat(ray(sr, dr, 1), ray(sc, dc, 1)), anchored_of(pre.cell(sr, sc)))
}

/// How a board after a legal push relates to the board before it: the
/// dimensions stand, and the grid is exactly the shift-and-anchor rebuild
/// for the scan's terminator distance. `lemma_push_cells`,
/// `lemma_push_frame` and `lemma_push_count` spell out what that rebuilt
/// grid holds.
pub open spec fn push_applied(
    pre: Universe,
    post: Universe,
    sr: int,
    sc: int,
    dr: int,
    dc: int,
) -> bool {
    &&& post.width == pre.width
    &&& post.height == pre.height
    &&& post.pieces@.len() == pre.pieces@.len()
    &&& forall|k: int|
        #[trigger] pre.chain_clear(sr, sc, dr, dc, k) ==> post.pieces@ == anchored_shift(
            pre,
            sr,
            sc,
            dr,
            dc,
            k,
        )
}

/// Two distinct in-bounds positions of one ray have distinct flat offsets.
pub proof fn lemma_ray_flat_distinct(
    b: Universe,
    sr: int,
    sc: int,
    dr: int,
    dc: int,
    j1: int,
    j2: int,
)
    requires
        b.well_formed(),
        unit_dir(dr, dc),
        0 <= j1,
        0 <= j2,
        j1 != j2,
        b.spec_in_bounds(ray(sr, dr, j1), ray(sc, dc, j1)),
        b.spec_in_bounds(ray(sr, dr, j2), ray(sc, dc, j2)),
    ensures
        b.flat(ray(sr, dr, j1), ray(sc, dc, j1)) != b.flat(ray(sr, dr, j2), ray(sc, dc, j2)),
{
    lemma_ray_line(sr, dr, j1);
    lemma_ray_line(sc, dc, j1);
    lemma_ray_line(sr, dr, j2);
    lemma_ray_line(sc, dc, j2);
    if b.flat(ray(sr, dr, j1), ray(sc, dc, j1)) == b.flat(ray(sr, dr, j2), ray(sc, dc, j2)) {
        lemma_flat_coords_injective(
            b,
            ray(sr, dr, j1),
            ray(sc, dc, j1),
            ray(sr, dr, j2),
            ray(sc, dc, j2),
        );
    }
}

/// A clear chain keeps the whole scanned prefix of the ray on the board.
pub proof fn lemma_chain_prefix_bounds(pre: Universe, sr: int, sc: int, dr: int, dc: int, k: int)
    requires
        pre.spec_in_bounds(sr, sc),
        pre.chain_clear(sr, sc, dr, dc, k),
    ensures
        ray_prefix_in_bounds(pre, sr, sc, dr, dc, k + 1),
{
    assert forall|j: int|
        #![trigger ray(sr, dr, j), ray(sc, dc, j)]
        0 <= j < k + 1 implies pre.spec_in_bounds(ray(sr, dr, j), ray(sc, dc, j)) by {
        if j == 0 {
            assert(ray(sr, dr, 0) == sr && ray(sc, dc, 0) == sc);
        }
    }
}

/// A ray position at or past the handled prefix is off the prefix.
proof fn lemma_off_ray(pre: Universe, sr: int, sc: int, dr: int, dc: int, n: int, j2: int)
    requires
        pre.well_formed(),
        unit_dir(dr, dc),
        0 <= n <= j2,
        ray_prefix_in_bounds(pre, sr, sc, dr, dc, n),
        pre.spec_in_bounds(ray(sr, dr, j2), ray(sc, dc, j2)),
    ensures
        !on_ray_upto(pre, sr, sc, dr, dc, n, pre.flat(ray(sr, dr, j2), ray(sc, dc, j2))),
    decreases n,
{
    reveal(on_ray_upto);
    if n > 0 {
        lemma_ray_flat_distinct(pre, sr, sc, dr, dc, n - 1, j2);
        lemma_off_ray(pre, sr, sc, dr, dc, n - 1, j2);
    }
}

/// A position of the handled prefix is on it.
proof fn lemma_on_ray_member(pre: Universe, sr: int, sc: int, dr: int, dc: int, n: int, j: int)
    requires
        0 <= j < n,
    ensures
        on_ray_upto(pre, sr, sc, dr, dc, n, pre.flat(ray(sr, dr, j), ray(sc, dc, j))),
    decreases n,
{
    reveal(on_ray_upto);
    if j < n - 1 {
        lemma_on_ray_member(pre, sr, sc, dr, dc, n - 1, j);
    }
}

/// The partly shifted grid keeps its length and every cell off the
/// handled prefix.
proof fn lemma_shifted_len_off(pre: Universe, sr: int, sc: int, dr: int, dc: int, n: int)
    requires
        pre.well_formed(),
        unit_dir(dr, dc),
        n >= 0,
        ray_prefix_in_bounds(pre, sr, sc, dr, dc, n),
    ensures
        shifted_upto(pre, sr, sc, dr, dc, n).len() == pre.pieces@.len(),
        forall|i: int|
            0 <= i < pre.pieces@.len() && !on_ray_upto(pre, sr, sc, dr, dc, n, i) ==> shifted_upto(
                pre,
                sr,
                sc,
                dr,
                dc,
                n,
            )[i] == #[trigger] pre.pieces@[i],
    decreases n,
{
    reveal(on_ray_upto);
    reveal(shifted_upto);
    if n > 0 {
        lemma_shifted_len_off(pre, sr, sc, dr, dc, n - 1);
        lemma_flat_range(pre, ray(sr, dr, n - 1), ray(sc, dc, n - 1));
    }
}

/// The cell of the partly shifted grid at position `j` of the prefix.
proof fn lemma_shifted_at(pre: Universe, sr: int, sc: int, dr: int, dc: int, n: int, j: int)
    requires
        pre.well_formed(),
        unit_dir(dr, dc),
        0 <= j < n,
        ray_prefix_in_bounds(pre, sr, sc, dr, dc, n),
    ensures
        shifted_upto(pre, sr, sc, dr, dc, n)[pre.flat(ray(sr, dr, j), ray(sc, dc, j))]
            == chain_source(pre, sr, sc, dr, dc, j),
    decreases n,
{
    reveal(shifted_upto);
    lemma_flat_range(pre, ray(sr, dr, n - 1), ray(sc, dc, n - 1));
    lemma_flat_range(pre, ray(sr, dr, j), ray(sc, dc, j));
    lemma_shifted_len_off(pre, sr, sc, dr, dc, n - 1);
    if j == n - 1 {
    } else {
        lemma_ray_flat_distinct(pre, sr, sc, dr, dc, j, n - 1);
        lemma_shifted_at(pre, sr, sc, dr, dc, n - 1, j);
    }
}

/// The piece count of the partly shifted grid: one piece, the one carried
/// out of the last handled cell, is still in hand.
proof fn lemma_shifted_count(pre: Universe, sr: int, sc: int, dr: int, dc: int, n: int)
    requires
        pre.well_formed(),
        unit_dir(dr, dc),
        n >= 0,
        ray_prefix_in_bounds(pre, sr, sc, dr, dc, n),
    ensures
        piece_count(shifted_upto(pre, sr, sc, dr, dc, n)) == piece_count(pre.pieces@) - (if n >= 1
            && is_piece(pre.cell(ray(sr, dr, n - 1), ray(sc, dc, n - 1))) {
            1int
        } else {
            0int
        }),
    decreases n,
{
    reveal(shifted_upto);
    if n > 0 {
        lemma_shifted_count(pre, sr, sc, dr, dc, n - 1);
        lemma_shifted_len_off(pre, sr, sc, dr, dc, n - 1);
        let prev = shifted_upto(pre, sr, sc, dr, dc, n - 1);
        let pos = pre.flat(ray(sr, dr, n - 1), ray(sc, dc, n - 1));
        lemma_flat_range(pre, ray(sr, dr, n - 1), ray(sc, dc, n - 1));
        lemma_off_ray(pre, sr, sc, dr, dc, n - 1, n - 1);
        assert(prev[pos] == pre.pieces@[pos]);
        lemma_piece_count_update(prev, pos, chain_source(pre, sr, sc, dr, dc, n - 1));
    }
}

/// The cells of the ray after the shift-and-anchor grid is built: the
/// origin is vacated, its neighbour along the direction holds the
/// anchored pusher, every further chain piece has moved one step, and
/// the terminating cell received the last chain piece if it was open and
/// swallowed it if it was the abyss.
#[verifier::rlimit(100)]
pub proof fn lemma_push_cells(
    pre: Universe,
    post: Universe,
    sr: int,
    sc: int,
    dr: int,
    dc: int,
    k: int,
)
    requires
        pre.well_formed(),
        unit_dir(dr, dc),
        pre.spec_in_bounds(sr, sc),
        is_pusher(pre.cell(sr, sc)),
        pre.chain_clear(sr, sc, dr, dc, k),
        post.pieces@ == anchored_shift(pre, sr, sc, dr, dc, k),
    ensures
        post.pieces@[pre.flat(sr, sc)] == Piece::Empty,
        post.pieces@[pre.flat(ray(sr, dr, 1), ray(sc, dc, 1))] == anchored_of(pre.cell(sr, sc)),
        forall|j: int|
            #![trigger ray(sr, dr, j), ray(sc, dc, j)]
            2 <= j < k ==> post.pieces@[pre.flat(ray(sr, dr, j), ray(sc, dc, j))] == pre.cell(
                ray(sr, dr, j - 1),
                ray(sc, dc, j - 1),
            ),
        pre.cell(ray(sr, dr, k), ray(sc, dc, k)) == Piece::Empty ==> post.pieces@[pre.flat(
            ray(sr, dr, k),
            ray(sc, dc, k),
        )] == pre.cell(ray(sr, dr, k - 1), ray(sc, dc, k - 1)),
        pre.cell(ray(sr, dr, k), ray(sc, dc, k)) == Piece::Abyss ==> post.pieces@[pre.flat(
            ray(sr, dr, k),
            ray(sc, dc, k),
        )] == Piece::Abyss,
        post.pieces@.len() == pre.pieces@.len(),
{
    let term = pre.cell(ray(sr, dr, k), ray(sc, dc, k));
    let n: int = if term == Piece::Empty {
        k + 1
    } else {
        k
    };
    let shifted = shifted_upto(pre, sr, sc, dr, dc, n);
    let apos = pre.flat(ray(sr, dr, 1), ray(sc, dc, 1));
    lemma_chain_prefix_bounds(pre, sr, sc, dr, dc, k);
    lemma_shifted_len_off(pre, sr, sc, dr, dc, n);
    lemma_flat_range(pre, ray(sr, dr, 1), ray(sc, dc, 1));
    lemma_flat_range(pre, sr, sc);
    lemma_flat_range(pre, ray(sr, dr, k), ray(sc, dc, k));
    assert(ray(sr, dr, 0) == sr && ray(sc, dc, 0) == sc);
    // the moved chain cells, untouched by the later anchor write
    assert forall|j: int|
        #![trigger ray(sr, dr, j), ray(sc, dc, j)]
        2 <= j < k implies post.pieces@[pre.flat(ray(sr, dr, j), ray(sc, dc, j))] == pre.cell(
        ray(sr, dr, j - 1),
        ray(sc, dc, j - 1),
    ) by {
        lemma_flat_range(pre, ray(sr, dr, j), ray(sc, dc, j));
        lemma_shifted_at(pre, sr, sc, dr, dc, n, j);
        lemma_ray_flat_distinct(pre, sr, sc, dr, dc, 1, j);
    }
    // the vacated origin
    lemma_shifted_at(pre, sr, sc, dr, dc, n, 0);
    lemma_ray_flat_distinct(pre, sr, sc, dr, dc, 0, 1);
    // the terminating cell
    lemma_ray_flat_distinct(pre, sr, sc, dr, dc, 1, k);
    if term == Piece::Empty {
        lemma_shifted_at(pre, sr, sc, dr, dc, n, k);
    } else {
        lemma_off_ray(pre, sr, sc, dr, dc, k, k);
    }
}

/// The cells off the ray after the shift-and-anchor grid is built.
pub proof fn lemma_push_frame(
    pre: Universe,
    post: Universe,
    sr: int,
    sc: int,
    dr: int,
    dc: int,
    k: int,
)
    requires
        pre.well_formed(),
        unit_dir(dr, dc),
        pre.spec_in_bounds(sr, sc),
        pre.chain_clear(sr, sc, dr, dc, k),
        post.pieces@ == anchored_shift(pre, sr, sc, dr, dc, k),
    ensures
        forall|i: int|
            0 <= i < pre.pieces@.len() && !on_ray_upto(pre, sr, sc, dr, dc, k + 1, i)
                ==> post.pieces@[i] == #[trigger] pre.pieces@[i],
{
    let term = pre.cell(ray(sr, dr, k), ray(sc, dc, k));
    let n: int = if term == Piece::Empty {
        k + 1
    } else {
        k
    };
    let apos = pre.flat(ray(sr, dr, 1), ray(sc, dc, 1));
    reveal(on_ray_upto);
    lemma_chain_prefix_bounds(pre, sr, sc, dr, dc, k);
    lemma_shifted_len_off(pre, sr, sc, dr, dc, n);
    lemma_flat_range(pre, ray(sr, dr, 1), ray(sc, dc, 1));
    lemma_on_ray_member(pre, sr, sc, dr, dc, k + 1, 1);
    assert forall|i: int|
        0 <= i < pre.pieces@.len() && !on_ray_upto(pre, sr, sc, dr, dc, k + 1, i) implies
        post.pieces@[i] == pre.pieces@[i] by {
        assert(i != apos);
        if n == k {
            assert(!on_ray_upto(pre, sr, sc, dr, dc, k, i));
        }
    }
}

/// The piece count after the shift-and-anchor grid is built.
pub proof fn lemma_push_count(
    pre: Universe,
    post: Universe,
    sr: int,
    sc: int,
    dr: int,
    dc: int,
    k: int,
)
    requires
        pre.well_formed(),
        unit_dir(dr, dc),
        pre.spec_in_bounds(sr, sc),
        is_pusher(pre.cell(sr, sc)),
        pre.chain_clear(sr, sc, dr, dc, k),
        post.pieces@ == anchored_shift(pre, sr, sc, dr, dc, k),
    ensures
        piece_count(post.pieces@) == piece_count(pre.pieces@) - (if pre.cell(
            ray(sr, dr, k),
            ray(sc, dc, k),
        ) == Piece::Abyss {
            1int
        } else {
            0int
        }),
{
    let term = pre.cell(ray(sr, dr, k), ray(sc, dc, k));
    let n: int = if term == Piece::Empty {
        k + 1
    } else {
        k
    };
    let shifted = shifted_upto(pre, sr, sc, dr, dc, n);
    let apos = pre.flat(ray(sr, dr, 1), ray(sc, dc, 1));
    lemma_chain_prefix_bounds(pre, sr, sc, dr, dc, k);
    lemma_shifted_len_off(pre, sr, sc, dr, dc, n);
    lemma_flat_range(pre, ray(sr, dr, 1), ray(sc, dc, 1));
    assert(ray(sr, dr, 0) == sr && ray(sc, dc, 0) == sc);
    // the anchor overwrites the pusher that the shift moved one step out
    lemma_shifted_at(pre, sr, sc, dr, dc, n, 1);
    lemma_shifted_count(pre, sr, sc, dr, dc, n);
    lemma_piece_count_update(shifted, apos, anchored_of(pre.cell(sr, sc)));
    if term != Piece::Empty {
        assert(is_chain_piece(pre.cell(ray(sr, dr, k - 1), ray(sc, dc, k - 1))));
    }
}


/// A cell holding an anchored pusher lies on no scanned prefix of a clear
/// chain: the scan runs over the pusher, unanchored pieces and one
/// terminating cell only.
pub proof fn lemma_anchored_off_ray(
    pre: Universe,
    sr: int,
    sc: int,
    dr: int,
    dc: int,
    k: int,
    n: int,
    r: int,
    c: int,
)
    requires
        pre.well_formed(),
        unit_dir(dr, dc),
        pre.spec_in_bounds(sr, sc),
        is_pusher(pre.cell(sr, sc)),
        pre.chain_clear(sr, sc, dr, dc, k),
        0 <= n <= k + 1,
        pre.spec_in_bounds(r, c),
        is_anchored(pre.cell(r, c)),
    ensures
        !on_ray_upto(pre, sr, sc, dr, dc, n, pre.flat(r, c)),
    decreases n,
{
    reveal(on_ray_upto);
    if n > 0 {
        lemma_anchored_off_ray(pre, sr, sc, dr, dc, k, n - 1, r, c);
        assert(ray(sr, dr, 0) == sr && ray(sc, dc, 0) == sc);
        assert(pre.spec_in_bounds(ray(sr, dr, n - 1), ray(sc, dc, n - 1)));
        if pre.flat(ray(sr, dr, n - 1), ray(sc, dc, n - 1)) == pre.flat(r, c) {
            lemma_flat_coords_injective(pre, ray(sr, dr, n - 1), ray(sc, dc, n - 1), r, c);
            if 1 <= n - 1 < k {
                assert(is_chain_piece(pre.cell(ray(sr, dr, n - 1), ray(sc, dc, n - 1))));
            }
            if n - 1 == k {
                assert(is_terminator(pre.cell(ray(sr, dr, n - 1), ray(sc, dc, n - 1))));
            }
            assert(false);
        }
    }
}

impl Universe {
    /// Apply a push that `can_push` has validated, shifting the chain one
    /// step and anchoring the pushing piece.
    #[verifier::rlimit(100)]
    pub fn execute_push(&mut self, row: i32, column: i32, delta_row: i32, delta_col: i32)
        requires
            old(self).well_formed(),
            old(self).spec_can_push(
                row as int,
                column as int,
                delta_row as int,
                delta_col as int,
            ),
        ensures
            final(self).well_formed(),
            push_applied(
                *old(self),
                *final(self),
                row as int,
                column as int,
                delta_row as int,
                delta_col as int,
            ),
    {
        let ghost pre = *self;
        let ghost sr = row as int;
        let ghost sc = column as int;
        let ghost dr = delta_row as int;
        let ghost dc = delta_col as int;
        let ghost k = choose|k: int| pre.chain_clear(sr, sc, dr, dc, k);
        proof {
            assert(pre.chain_clear(sr, sc, dr, dc, k));
        }

        let mut new_pieces: Vec<Piece> = Vec::new();
        let mut t: usize = 0;
        while t < self.pieces.len()
            invariant
                *self == pre,
                t <= pre.pieces@.len(),
                new_pieces@.len() == t as int,
                forall|x: int| 0 <= x < t as int ==> new_pieces@[x] == #[trigger] pre.pieces@[x],
            decreases pre.pieces@.len() - t as int,
        {
            let piece = self.pieces[t];
            new_pieces.push(piece);
            t = t + 1;
        }
        proof {
            assert(new_pieces@ =~= pre.pieces@);
            reveal(shifted_upto);
            assert(new_pieces@ == shifted_upto(pre, sr, sc, dr, dc, 0));
        }

        let mut r: i32 = row;
        let mut c: i32 = column;
        let mut carried: Piece = Piece::Empty;
        let ghost mut steps: int = 0;
        loop
            invariant_except_break
                *self == pre,
                pre.well_formed(),
                pre.spec_can_push(sr, sc, dr, dc),
                pre.chain_clear(sr, sc, dr, dc, k),
                sr == row as int,
                sc == column as int,
                dr == delta_row as int,
                dc == delta_col as int,
                0 <= steps <= k,
                r as int == ray(sr, dr, steps),
                c as int == ray(sc, dc, steps),
                pre.spec_in_bounds(r as int, c as int),
                new_pieces@ == shifted_upto(pre, sr, sc, dr, dc, steps),
                new_pieces@.len() == pre.pieces@.len(),
                carried == chain_source(pre, sr, sc, dr, dc, steps),
            ensures
                *self == pre,
                steps == k,
                new_pieces@.len() == pre.pieces@.len(),
                pre.cell(ray(sr, dr, k), ray(sc, dc, k)) == Piece::Empty ==> new_pieces@
                    == shifted_upto(pre, sr, sc, dr, dc, k + 1),
                pre.cell(ray(sr, dr, k), ray(sc, dc, k)) == Piece::Abyss ==> new_pieces@
                    == shifted_upto(pre, sr, sc, dr, dc, k),
            decreases k - steps,
        {
            let cix = self.get_index(r as u32, c as u32);
            let q = self.pieces[cix];
            proof {
                assert(cix as int == pre.flat(ray(sr, dr, steps), ray(sc, dc, steps)));
                assert(q == pre.cell(ray(sr, dr, steps), ray(sc, dc, steps)));
                if steps == 0 {
                    assert(ray(sr, dr, 0) == sr && ray(sc, dc, 0) == sc);
                    assert(is_pusher(q));
                }
            }
            if q == Piece::Empty || q == Piece::Abyss {
                proof {
                    // the scan meets open or abyss terrain first at the
                    // terminator: anything nearer is the pusher or a chain
                    // piece
                    assert(steps >= 1);
                    if steps < k {
                        assert(is_chain_piece(pre.cell(ray(sr, dr, steps), ray(sc, dc, steps))));
                    }
                    assert(steps == k);
                }
                if q == Piece::Empty {
                    new_pieces.set(cix, carried);
                    proof {
                        reveal(shifted_upto);
                        assert(new_pieces@ == shifted_upto(pre, sr, sc, dr, dc, k + 1));
                    }
                }
                break;
            }
            proof {
                if steps == k {
                    assert(is_terminator(pre.cell(ray(sr, dr, k), ray(sc, dc, k))));
                }
                assert(steps < k);
            }
            new_pieces.set(cix, carried);
            carried = q;
            proof {
                reveal(shifted_upto);
                assert(new_pieces@ == shifted_upto(pre, sr, sc, dr, dc, steps + 1));
                if steps + 1 < k {
                    assert(pre.spec_in_bounds(ray(sr, dr, steps + 1), ray(sc, dc, steps + 1)));
                }
                lemma_ray_line(sr, dr, steps);
                lemma_ray_line(sc, dc, steps);
                lemma_ray_line(sr, dr, steps + 1);
                lemma_ray_line(sc, dc, steps + 1);
            }
            r = r + delta_row;
            c = c + delta_col;
            proof {
                steps = steps + 1;
            }
        }

        // the anchored pusher replaces whatever the shift left one step
        // from the origin
        proof {
            assert(pre.spec_in_bounds(ray(sr, dr, 1), ray(sc, dc, 1)));
            lemma_ray_line(sr, dr, 1);
            lemma_ray_line(sc, dc, 1);
        }
        let ar = row + delta_row;
        let ac = column + delta_col;
        let aix = self.get_index(ar as u32, ac as u32);
        let oix = self.get_index(row as u32, column as u32);
        let op = self.pieces[oix];
        let anchored = if op == Piece::WhitePusher {
            Piece::AnchoredWhitePusher
        } else if op == Piece::BlackPusher {
            Piece::AnchoredBlackPusher
        } else {
            Piece::Abyss
        };
        new_pieces.set(aix, anchored);
        self.pieces = new_pieces;
        proof {
            assert(anchored == anchored_of(pre.cell(sr, sc)));
            assert(aix as int == pre.flat(ray(sr, dr, 1), ray(sc, dc, 1)));
            assert(self.pieces@ == anchored_shift(pre, sr, sc, dr, dc, k));
            assert forall|k2: int|
                pre.chain_clear(sr, sc, dr, dc, k2) implies self.pieces@ == anchored_shift(
                pre,
                sr,
                sc,
                dr,
                dc,
                k2,
            ) by {
                pre.lemma_chain_clear_unique(sr, sc, dr, dc, k2, k);
            }
        }
    }
}

} // verus!
