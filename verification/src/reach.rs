use vstd::prelude::*;

use crate::board::Universe;
use crate::board::lemma_flat_coords_injective;
use crate::board::lemma_flat_range;
use crate::piece::Piece;
use crate::piece::is_movable;

verus! {

/// Two coordinates one orthogonal step apart.
pub open spec fn adjacent(r1: int, c1: int, r2: int, c2: int) -> bool {
    ||| (r2 == r1 - 1 && c2 == c1)
    ||| (r2 == r1 + 1 && c2 == c1)
    ||| (r2 == r1 && c2 == c1 - 1)
    ||| (r2 == r1 && c2 == c1 + 1)
}

impl Universe {
    /// A sliding path: it starts at `(sr, sc)`, each step is orthogonal,
    /// and every position after the first is an in-bounds `Empty` cell.
    pub open spec fn is_slide_path(&self, p: Seq<(int, int)>, sr: int, sc: int) -> bool {
        &&& p.len() >= 1
        &&& p[0] == (sr, sc)
        &&& forall|i: int|
            0 <= i < p.len() - 1 ==> adjacent(#[trigger] p[i].0, p[i].1, p[i + 1].0, p[i + 1].1)
        &&& forall|i: int|
            1 <= i < p.len() ==> self.spec_in_bounds(#[trigger] p[i].0, p[i].1) && self.cell(
                p[i].0,
                p[i].1,
            ) == Piece::Empty
    }

    /// A piece standing at `(sr, sc)` can slide to `(er, ec)` through
    /// `Empty` cells.
    pub open spec fn reachable(&self, sr: int, sc: int, er: int, ec: int) -> bool {
        exists|p: Seq<(int, int)>|
            #[trigger] self.is_slide_path(p, sr, sc) && p.last() == (er, ec)
    }

    /// A legal simple move: distinct in-bounds coordinates, a movable
    /// piece at the start (anchored pushers are permanently immobile),
    /// and a sliding path to the end.
    pub open spec fn spec_can_move(&self, sr: int, sc: int, er: int, ec: int) -> bool {
        &&& !(sr == er && sc == ec)
        &&& self.spec_in_bounds(sr, sc)
        &&& self.spec_in_bounds(er, ec)
        &&& is_movable(self.cell(sr, sc))
        &&& self.reachable(sr, sc, er, ec)
    }
}

/// One more step from a reached cell onto an adjacent in-bounds `Empty`
/// cell reaches that cell.
pub proof fn lemma_reach_extend(
    b: &Universe,
    sr: int,
    sc: int,
    pr: int,
    pc: int,
    nr: int,
    nc: int,
)
    requires
        (pr == sr && pc == sc) || b.reachable(sr, sc, pr, pc),
        adjacent(pr, pc, nr, nc),
        b.spec_in_bounds(nr, nc),
        b.cell(nr, nc) == Piece::Empty,
    ensures
        b.reachable(sr, sc, nr, nc),
{
    if pr == sr && pc == sc {
        let p = seq![(sr, sc), (nr, nc)];
        assert(b.is_slide_path(p, sr, sc));
        assert(p.last() == (nr, nc));
    } else {
        let p0 = choose|p: Seq<(int, int)>|
            #[trigger] b.is_slide_path(p, sr, sc) && p.last() == (pr, pc);
        let p = p0.push((nr, nc));
        assert(b.is_slide_path(p, sr, sc)) by {
            assert(p[0] == p0[0]);
            assert forall|i: int|
                0 <= i < p.len() - 1 implies adjacent(
                #[trigger] p[i].0,
                p[i].1,
                p[i + 1].0,
                p[i + 1].1,
            ) by {
                if i < p0.len() - 1 {
                    assert(p[i] == p0[i] && p[i + 1] == p0[i + 1]);
                } else {
                    assert(p[i] == p0.last() && p[i + 1] == (nr, nc));
                }
            }
            assert forall|i: int|
                1 <= i < p.len() implies b.spec_in_bounds(#[trigger] p[i].0, p[i].1) && b.cell(
                p[i].0,
                p[i].1,
            ) == Piece::Empty by {
                if i < p0.len() {
                    assert(p[i] == p0[i]);
                }
            }
        }
        assert(p.last() == (nr, nc));
    }
}

/// Whether the flat offset of `(r, c)` is marked in the visited map.
pub open spec fn marked(b: Universe, visited: Seq<bool>, r: int, c: int) -> bool {
    visited[b.flat(r, c)]
}

/// Every marked cell is the start or an `Empty` cell reached from it.
spec fn sound_inv(b: Universe, visited: Seq<bool>, sr: int, sc: int) -> bool {
    forall|r: int, c: int|
        b.spec_in_bounds(r, c) && #[trigger] marked(b, visited, r, c) ==> ((r == sr && c == sc) || (
        b.cell(r, c) == Piece::Empty && b.reachable(sr, sc, r, c)))
}

/// Every frontier entry is an in-bounds, marked coordinate.
spec fn frontier_inv(b: Universe, visited: Seq<bool>, fr: Seq<(u32, u32)>) -> bool {
    forall|j: int|
        #![trigger fr[j]]
        0 <= j < fr.len() ==> b.spec_in_bounds(fr[j].0 as int, fr[j].1 as int) && marked(
            b,
            visited,
            fr[j].0 as int,
            fr[j].1 as int,
        )
}

/// The coordinate appears somewhere in the frontier.
spec fn in_frontier(fr: Seq<(u32, u32)>, r: int, c: int) -> bool {
    exists|j: int| #![trigger fr[j]] 0 <= j < fr.len() && fr[j].0 as int == r && fr[j].1 as int == c
}

/// Every `Empty` in-bounds neighbour of the cell is marked.
spec fn expanded(b: Universe, visited: Seq<bool>, r: int, c: int) -> bool {
    forall|ar: int, ac: int|
        adjacent(r, c, ar, ac) && b.spec_in_bounds(ar, ac) && b.cell(ar, ac) == Piece::Empty
            ==> #[trigger] marked(b, visited, ar, ac)
}

/// Every marked cell still waits in the frontier or is fully expanded.
spec fn complete_inv(b: Universe, visited: Seq<bool>, fr: Seq<(u32, u32)>) -> bool {
    forall|r: int, c: int|
        b.spec_in_bounds(r, c) && #[trigger] marked(b, visited, r, c) ==> in_frontier(fr, r, c)
            || expanded(b, visited, r, c)
}

/// How many cells the search has not marked yet.
spec fn count_unmarked(s: Seq<bool>) -> nat
    decreases s.len(),
{
    if s.len() == 0 {
        0
    } else {
        count_unmarked(s.drop_last()) + if !s.last() {
            1nat
        } else {
            0nat
        }
    }
}

/// Marking one unmarked cell lowers the unmarked count by one.
proof fn lemma_count_unmarked_mark(s: Seq<bool>, i: int)
    requires
        0 <= i < s.len(),
        !s[i],
    ensures
        count_unmarked(s.update(i, true)) + 1 == count_unmarked(s),
    decreases s.len(),
{
    let t = s.update(i, true);
    if i == s.len() - 1 {
        assert(t.drop_last() =~= s.drop_last());
    } else {
        assert(t.drop_last() =~= s.drop_last().update(i, true));
        lemma_count_unmarked_mark(s.drop_last(), i);
    }
}

/// A marked set that contains the start and is closed under stepping onto
/// `Empty` neighbours contains the end of every sliding path.
proof fn lemma_closed_path(b: Universe, visited: Seq<bool>, sr: int, sc: int, p: Seq<(int, int)>)
    requires
        b.is_slide_path(p, sr, sc),
        b.spec_in_bounds(sr, sc),
        marked(b, visited, sr, sc),
        forall|r: int, c: int|
            b.spec_in_bounds(r, c) && #[trigger] marked(b, visited, r, c) ==> expanded(
                b,
                visited,
                r,
                c,
            ),
    ensures
        marked(b, visited, p.last().0, p.last().1),
    decreases p.len(),
{
    if p.len() > 1 {
        let q = p.drop_last();
        assert(b.is_slide_path(q, sr, sc)) by {
            assert(q[0] == p[0]);
            assert forall|i: int|
                0 <= i < q.len() - 1 implies adjacent(
                #[trigger] q[i].0,
                q[i].1,
                q[i + 1].0,
                q[i + 1].1,
            ) by {
                assert(q[i] == p[i] && q[i + 1] == p[i + 1]);
            }
            assert forall|i: int|
                1 <= i < q.len() implies b.spec_in_bounds(#[trigger] q[i].0, q[i].1) && b.cell(
                q[i].0,
                q[i].1,
            ) == Piece::Empty by {
                assert(q[i] == p[i]);
            }
        }
        lemma_closed_path(b, visited, sr, sc, q);
        let prev = q.last();
        assert(prev == p[p.len() - 2]);
        assert(b.spec_in_bounds(prev.0, prev.1)) by {
            if p.len() == 2 {
                assert(prev == (sr, sc));
            }
        }
        assert(expanded(b, visited, prev.0, prev.1));
        assert(adjacent(prev.0, prev.1, p.last().0, p.last().1));
        assert(marked(b, visited, p.last().0, p.last().1));
    }
}

/// A coordinate waiting in a frontier still waits after entries are
/// appended.
proof fn lemma_in_frontier_prefix(f1: Seq<(u32, u32)>, f2: Seq<(u32, u32)>, r: int, c: int)
    requires
        f1.is_prefix_of(f2),
        in_frontier(f1, r, c),
    ensures
        in_frontier(f2, r, c),
{
    let j = choose|j: int|
        #![trigger f1[j]]
        0 <= j < f1.len() && f1[j].0 as int == r && f1[j].1 as int == c;
    assert(f2[j] == f1[j]);
    assert(f2[j].0 as int == r && f2[j].1 as int == c);
}

impl Universe {
    /// Consider one neighbour of a newly expanded cell: if it is an
    /// unvisited in-bounds `Empty` cell, mark it and queue it.
    fn explore_step(
        &self,
        nr: i32,
        nc: i32,
        visited: &mut Vec<bool>,
        frontier: &mut Vec<(u32, u32)>,
        Ghost(sr): Ghost<int>,
        Ghost(sc): Ghost<int>,
        Ghost(pr): Ghost<int>,
        Ghost(pc): Ghost<int>,
    )
        requires
            self.well_formed(),
            self.spec_in_bounds(sr, sc),
            old(visited)@.len() == self.pieces@.len(),
            self.spec_in_bounds(pr, pc),
            adjacent(pr, pc, nr as int, nc as int),
            (pr == sr && pc == sc) || self.reachable(sr, sc, pr, pc),
            sound_inv(*self, old(visited)@, sr, sc),
            frontier_inv(*self, old(visited)@, old(frontier)@),
        ensures
            final(visited)@.len() == self.pieces@.len(),
            forall|x: int|
                0 <= x < self.pieces@.len() && old(visited)@[x] ==> #[trigger] final(visited)@[x],
            old(frontier)@.is_prefix_of(final(frontier)@),
            forall|j: int|
                old(frontier)@.len() <= j < final(frontier)@.len()
                    ==> #[trigger] final(frontier)@[j].0 as int == nr as int
                    && final(frontier)@[j].1 as int == nc as int,
            sound_inv(*self, final(visited)@, sr, sc),
            frontier_inv(*self, final(visited)@, final(frontier)@),
            self.spec_in_bounds(nr as int, nc as int) && self.cell(nr as int, nc as int)
                == Piece::Empty ==> marked(*self, final(visited)@, nr as int, nc as int),
            !marked(*self, old(visited)@, nr as int, nc as int) && marked(
                *self,
                final(visited)@,
                nr as int,
                nc as int,
            ) ==> in_frontier(final(frontier)@, nr as int, nc as int),
            forall|r: int, c: int|
                self.spec_in_bounds(r, c) && marked(*self, final(visited)@, r, c) ==> marked(
                    *self,
                    old(visited)@,
                    r,
                    c,
                ) || (r == nr as int && c == nc as int),
            5 * count_unmarked(final(visited)@) + final(frontier)@.len() <= 5 * count_unmarked(
                old(visited)@,
            ) + old(frontier)@.len(),
    {
        if !self.valid_step(nr, nc) {
            return ;
        }
        let ix = self.get_index(nr as u32, nc as u32);
        if visited[ix] {
            return ;
        }
        proof {
            lemma_count_unmarked_mark(visited@, ix as int);
            lemma_reach_extend(self, sr, sc, pr, pc, nr as int, nc as int);
        }
        let ghost old_visited = visited@;
        visited.set(ix, true);
        frontier.push((nr as u32, nc as u32));
        proof {
            assert(in_frontier(frontier@, nr as int, nc as int)) by {
                assert(frontier@[frontier@.len() - 1] == (nr as u32, nc as u32));
            }
            assert forall|r: int, c: int|
                self.spec_in_bounds(r, c) && #[trigger] marked(*self, visited@, r, c) implies
                marked(*self, old_visited, r, c) || (r == nr as int && c == nc as int) by {
                lemma_flat_range(*self, r, c);
                if self.flat(r, c) == ix as int {
                    lemma_flat_coords_injective(*self, r, c, nr as int, nc as int);
                }
            }
            assert forall|j: int|
                #![trigger frontier@[j]]
                0 <= j < frontier@.len() implies self.spec_in_bounds(
                frontier@[j].0 as int,
                frontier@[j].1 as int,
            ) && marked(*self, visited@, frontier@[j].0 as int, frontier@[j].1 as int) by {
                if j < old(frontier)@.len() {
                    assert(frontier@[j] == old(frontier)@[j]);
                    lemma_flat_range(*self, frontier@[j].0 as int, frontier@[j].1 as int);
                } else {
                    assert(frontier@[j] == (nr as u32, nc as u32));
                }
            }
            assert forall|r: int, c: int|
                self.spec_in_bounds(r, c) && #[trigger] marked(*self, visited@, r, c) implies ((r
                == sr && c == sc) || (self.cell(r, c) == Piece::Empty && self.reachable(
                sr,
                sc,
                r,
                c,
            ))) by {
                if !(r == nr as int && c == nc as int) {
                    assert(marked(*self, old_visited, r, c));
                }
            }
        }
    }
}


impl Universe {
    /// Whether the piece at the start can slide to the end through a
    /// connected run of `Empty` cells, one orthogonal step at a time.
    /// Anchored pushers are permanently immobile and never slide.
    #[verifier::loop_isolation(false)]
    pub fn can_move(&self, start_row: u32, start_column: u32, end_row: u32, end_column: u32) -> (res:
        bool)
        requires
            self.well_formed(),
        ensures
            res == self.spec_can_move(
                start_row as int,
                start_column as int,
                end_row as int,
                end_column as int,
            ),
    {
        let ghost sr = start_row as int;
        let ghost sc = start_column as int;
        let ghost er = end_row as int;
        let ghost ec = end_column as int;
        if start_row == end_row && start_column == end_column {
            return false;
        }
        if start_row >= self.height || start_column >= self.width {
            return false;
        }
        if end_row >= self.height || end_column >= self.width {
            return false;
        }
        let six = self.get_index(start_row, start_column);
        let sp = self.pieces[six];
        if sp == Piece::Empty || sp == Piece::Abyss {
            return false;
        }
        if sp == Piece::AnchoredWhitePusher || sp == Piece::AnchoredBlackPusher {
            return false;
        }
        let total = self.pieces.len();
        let mut visited: Vec<bool> = Vec::new();
        while visited.len() < total
            invariant
                visited@.len() <= total as int,
                forall|x: int| 0 <= x < visited@.len() ==> !(#[trigger] visited@[x]),
            decreases total as int - visited@.len(),
        {
            visited.push(false);
        }
        let mut frontier: Vec<(u32, u32)> = Vec::new();
        frontier.push((start_row, start_column));
        visited.set(six, true);
        proof {
            assert(marked(*self, visited@, sr, sc));
            assert forall|r: int, c: int|
                self.spec_in_bounds(r, c) && #[trigger] marked(*self, visited@, r, c) implies r
                == sr && c == sc by {
                lemma_flat_range(*self, r, c);
                if self.flat(r, c) == six as int {
                    lemma_flat_coords_injective(*self, r, c, sr, sc);
                }
            }
            assert(in_frontier(frontier@, sr, sc)) by {
                assert(frontier@[0] == (start_row, start_column));
            }
        }
        while frontier.len() > 0
            invariant
                visited@.len() == self.pieces@.len(),
                marked(*self, visited@, sr, sc),
                sound_inv(*self, visited@, sr, sc),
                frontier_inv(*self, visited@, frontier@),
                complete_inv(*self, visited@, frontier@),
                marked(*self, visited@, er, ec) ==> in_frontier(frontier@, er, ec),
            decreases 5 * count_unmarked(visited@) + frontier@.len(),
        {
            let ghost f0 = frontier@;
            let rc = frontier.pop().unwrap();
            let row = rc.0;
            let col = rc.1;
            proof {
                assert(f0[f0.len() - 1] == rc);
                assert(self.spec_in_bounds(row as int, col as int));
                assert(marked(*self, visited@, row as int, col as int));
            }
            if row == end_row && col == end_column {
                proof {
                    assert(self.reachable(sr, sc, er, ec));
                }
                return true;
            }
            let ghost v0 = visited@;
            let ghost f1 = frontier@;
            let ri = row as i32;
            let ci = col as i32;
            self.explore_step(
                ri - 1,
                ci,
                &mut visited,
                &mut frontier,
                Ghost(sr),
                Ghost(sc),
                Ghost(row as int),
                Ghost(col as int),
            );
            let ghost v1 = visited@;
            let ghost g1 = frontier@;
            self.explore_step(
                ri + 1,
                ci,
                &mut visited,
                &mut frontier,
                Ghost(sr),
                Ghost(sc),
                Ghost(row as int),
                Ghost(col as int),
            );
            let ghost v2 = visited@;
            let ghost g2 = frontier@;
            self.explore_step(
                ri,
                ci - 1,
                &mut visited,
                &mut frontier,
                Ghost(sr),
                Ghost(sc),
                Ghost(row as int),
                Ghost(col as int),
            );
            let ghost v3 = visited@;
            let ghost g3 = frontier@;
            self.explore_step(
                ri,
                ci + 1,
                &mut visited,
                &mut frontier,
                Ghost(sr),
                Ghost(sc),
                Ghost(row as int),
                Ghost(col as int),
            );
            proof {
                let ghost pr = row as int;
                let ghost pc = col as int;
                // the popped cell is now fully expanded
                assert forall|ar: int, ac: int|
                    adjacent(pr, pc, ar, ac) && self.spec_in_bounds(ar, ac) && self.cell(ar, ac)
                        == Piece::Empty implies #[trigger] marked(*self, visited@, ar, ac) by {
                    lemma_flat_range(*self, ar, ac);
                    if ar == pr - 1 && ac == pc {
                        assert(marked(*self, v1, ar, ac));
                    } else if ar == pr + 1 && ac == pc {
                        assert(marked(*self, v2, ar, ac));
                    } else if ar == pr && ac == pc - 1 {
                        assert(marked(*self, v3, ar, ac));
                    }
                }
                assert(expanded(*self, visited@, pr, pc));
                // every cell marked during this round went into the frontier
                assert forall|r: int, c: int|
                    self.spec_in_bounds(r, c) && #[trigger] marked(*self, visited@, r, c)
                        && !marked(*self, v0, r, c) implies in_frontier(frontier@, r, c) by {
                    lemma_flat_range(*self, r, c);
                    if marked(*self, v1, r, c) {
                        assert(r == pr - 1 && c == pc);
                        assert(in_frontier(g1, r, c));
                        lemma_in_frontier_prefix(g1, g2, r, c);
                        lemma_in_frontier_prefix(g2, g3, r, c);
                        lemma_in_frontier_prefix(g3, frontier@, r, c);
                    } else if marked(*self, v2, r, c) {
                        assert(r == pr + 1 && c == pc);
                        assert(in_frontier(g2, r, c));
                        lemma_in_frontier_prefix(g2, g3, r, c);
                        lemma_in_frontier_prefix(g3, frontier@, r, c);
                    } else if marked(*self, v3, r, c) {
                        assert(r == pr && c == pc - 1);
                        assert(in_frontier(g3, r, c));
                        lemma_in_frontier_prefix(g3, frontier@, r, c);
                    } else {
                        assert(r == pr && c == pc + 1);
                        assert(in_frontier(frontier@, r, c));
                    }
                }
                // a cell queued before this round and not popped still waits
                assert forall|r: int, c: int|
                    in_frontier(f0, r, c) && !(r == pr && c == pc) implies in_frontier(
                    frontier@,
                    r,
                    c,
                ) by {
                    let j = choose|j: int|
                        #![trigger f0[j]]
                        0 <= j < f0.len() && f0[j].0 as int == r && f0[j].1 as int == c;
                    assert(f1[j] == f0[j]);
                    assert(in_frontier(f1, r, c));
                    lemma_in_frontier_prefix(f1, g1, r, c);
                    lemma_in_frontier_prefix(g1, g2, r, c);
                    lemma_in_frontier_prefix(g2, g3, r, c);
                    lemma_in_frontier_prefix(g3, frontier@, r, c);
                }
                // the search invariants carry to the new state
                assert forall|r: int, c: int|
                    self.spec_in_bounds(r, c) && #[trigger] marked(*self, visited@, r, c) implies
                    in_frontier(frontier@, r, c) || expanded(*self, visited@, r, c) by {
                    if marked(*self, v0, r, c) {
                        if in_frontier(f0, r, c) {
                            if r == pr && c == pc {
                                assert(expanded(*self, visited@, r, c));
                            }
                        } else {
                            assert(expanded(*self, v0, r, c));
                            assert forall|ar: int, ac: int|
                                adjacent(r, c, ar, ac) && self.spec_in_bounds(ar, ac) && self.cell(
                                    ar,
                                    ac,
                                ) == Piece::Empty implies #[trigger] marked(
                                *self,
                                visited@,
                                ar,
                                ac,
                            ) by {
                                lemma_flat_range(*self, ar, ac);
                                assert(marked(*self, v0, ar, ac));
                            }
                            assert(expanded(*self, visited@, r, c));
                        }
                    }
                }
                if marked(*self, visited@, er, ec) {
                    if marked(*self, v0, er, ec) {
                        assert(in_frontier(f0, er, ec));
                        assert(!(er == pr && ec == pc));
                    }
                    assert(in_frontier(frontier@, er, ec));
                }
            }
        }
        proof {
            assert(!marked(*self, visited@, er, ec));
            if self.reachable(sr, sc, er, ec) {
                assert forall|r: int, c: int|
                    self.spec_in_bounds(r, c) && #[trigger] marked(*self, visited@, r, c) implies
                    expanded(*self, visited@, r, c) by {
                    if in_frontier(frontier@, r, c) {
                        let j = choose|j: int|
                            #![trigger frontier@[j]]
                            0 <= j < frontier@.len() && frontier@[j].0 as int == r
                                && frontier@[j].1 as int == c;
                        assert(false);
                    }
                }
                let p = choose|p: Seq<(int, int)>|
                    #[trigger] self.is_slide_path(p, sr, sc) && p.last() == (er, ec);
                lemma_closed_path(*self, visited@, sr, sc, p);
            }
        }
        false
    }
}

} // verus!
