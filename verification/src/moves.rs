use vstd::prelude::*;

use crate::board::Universe;
use crate::piece::Piece;
use crate::push::push_applied;

verus! {

impl Universe {
    /// Try a move from the start to the end coordinate: relocate along a
    /// sliding path if one exists, otherwise push in the direction from
    /// start to end if that push is legal, otherwise leave the board
    /// untouched.
    pub fn try_move(&mut self, start_row: u32, start_column: u32, end_row: u32, end_column: u32)
        requires
            old(self).well_formed(),
        ensures
            final(self).well_formed(),
            final(self).width == old(self).width,
            final(self).height == old(self).height,
            old(self).spec_can_move(
                start_row as int,
                start_column as int,
                end_row as int,
                end_column as int,
            ) ==> final(self).pieces@ == old(self).pieces@.update(
                old(self).flat(end_row as int, end_column as int),
                old(self).cell(start_row as int, start_column as int),
            ).update(old(self).flat(start_row as int, start_column as int), Piece::Empty),
            !old(self).spec_can_move(
                start_row as int,
                start_column as int,
                end_row as int,
                end_column as int,
            ) && old(self).spec_can_push(
                start_row as int,
                start_column as int,
                end_row as int - start_row as int,
                end_column as int - start_column as int,
            ) ==> push_applied(
                *old(self),
                *final(self),
                start_row as int,
                start_column as int,
                end_row as int - start_row as int,
                end_column as int - start_column as int,
            ),
            !old(self).spec_can_move(
                start_row as int,
                start_column as int,
                end_row as int,
                end_column as int,
            ) && !old(self).spec_can_push(
                start_row as int,
                start_column as int,
                end_row as int - start_row as int,
                end_column as int - start_column as int,
            ) ==> final(self).pieces@ == old(self).pieces@,
    {
        let ghost sr = start_row as int;
        let ghost sc = start_column as int;
        let ghost er = end_row as int;
        let ghost ec = end_column as int;
        if self.can_move(start_row, start_column, end_row, end_column) {
            let from_ix = self.get_index(start_row, start_column);
            let to_ix = self.get_index(end_row, end_column);
            let p = self.pieces[from_ix];
            self.pieces.set(to_ix, p);
            self.pieces.set(from_ix, Piece::Empty);
            return ;
        }
        if start_row >= self.height || start_column >= self.width {
            // the origin is off the board, so no push can start there
            return ;
        }
        let dr64 = (end_row as i64) - (start_row as i64);
        let dc64 = (end_column as i64) - (start_column as i64);
        let unit = (dr64 == 0 && (dc64 == 1 || dc64 == -1)) || (dc64 == 0 && (dr64 == 1 || dr64
            == -1));
        if !unit {
            // the direction is not a unit orthogonal step, so no push is
            // legal either
            return ;
        }
        let delta_row = dr64 as i32;
        let delta_col = dc64 as i32;
        if self.can_push(start_row as i32, start_column as i32, delta_row, delta_col) {
            self.execute_push(start_row as i32, start_column as i32, delta_row, delta_col);
        }
    }
}

} // verus!
