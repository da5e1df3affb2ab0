//! A level: the board as loaded, the board as currently played, and the move
//! history. The mover validates and applies pours and inverse pours between
//! two glasses of the current board.
use vstd::prelude::*;

use crate::board::{
    board_ok, board_units, board_win, drain_glass, drained, fill_glass, filled_up, glass_views,
    lemma_pour_conserves, lemma_pour_inv_conserves, lemma_pour_upd_ok, lemma_pour_inv_upd_ok,
    pour_inv_ok, pour_inv_upd, pour_ok, pour_upd,
};
use crate::glass::{
    fill_of, glass_fill, glass_info, glass_wf, lemma_fill_le_len, lemma_run_le_fill, run_of,
};

verus! {

/// One recorded pour: source and destination glass index.
pub struct Move {
    pub from: usize,
    pub to: usize,
}

/// A puzzle level: the board it was loaded with, the board as played so far,
/// and the history of recorded moves with the unit counts they transferred.
pub struct Level {
    pub loaded: Vec<Vec<u8>>,
    pub current: Vec<Vec<u8>>,
    pub number: usize,
    pub glass_height: usize,
    pub moves: Vec<Move>,
    pub move_counts: Vec<usize>,
}

impl Level {
    /// The model of the current board.
    pub open spec fn cur_view(self) -> Seq<Seq<u8>> {
        glass_views(self.current@)
    }

    /// The model of the loaded board.
    pub open spec fn base_view(self) -> Seq<Seq<u8>> {
        glass_views(self.loaded@)
    }

    /// Well-formedness: the glass height fits the canonical key packing, all
    /// glasses of both boards have that height and no gaps, and the history
    /// stacks line up.
    pub open spec fn wf(self) -> bool {
        &&& 1 <= self.glass_height <= 8
        &&& board_ok(self.base_view(), self.glass_height as nat)
        &&& board_ok(self.cur_view(), self.glass_height as nat)
        &&& self.moves@.len() == self.move_counts@.len()
    }

    /// An empty level: no glasses, no history.
    pub fn new(level_number: usize, glass_height: usize) -> (r: Level)
        requires
            1 <= glass_height <= 8,
        ensures
            r.wf(),
            r.loaded@.len() == 0,
            r.current@.len() == 0,
            r.number == level_number,
            r.glass_height == glass_height,
            r.moves@.len() == 0,
            r.move_counts@.len() == 0,
    {
        Level {
            loaded: Vec::new(),
            current: Vec::new(),
            number: level_number,
            glass_height: glass_height,
            moves: Vec::new(),
            move_counts: Vec::new(),
        }
    }

    /// The color id in glass `x` at height `y` of the current board, or
    /// `None` for an empty cell. Presentation layers map the id to a real
    /// color.
    pub fn get_color(&self, x: usize, y: usize) -> (r: Option<u8>)
        requires
            x < self.cur_view().len(),
            y < self.cur_view()[x as int].len(),
        ensures
            r == (if self.cur_view()[x as int][y as int] == 0 {
                Option::<u8>::None
            } else {
                Option::<u8>::Some(self.cur_view()[x as int][y as int])
            }),
    {
        let index = self.current[x][y];
        if index > 0 {
            Some(index)
        } else {
            None
        }
    }

    /// Pour the top run of glass `from` onto glass `to` if that is legal;
    /// record the move when asked. An illegal pour returns false and leaves
    /// the level untouched.
    pub fn move_water(&mut self, from: usize, to: usize, save_move: bool) -> (r: bool)
        requires
            old(self).wf(),
            from < old(self).cur_view().len(),
            to < old(self).cur_view().len(),
            from != to,
        ensures
            final(self).wf(),
            r == pour_ok(old(self).cur_view(), from as int, to as int),
            r ==> final(self).cur_view() == pour_upd(old(self).cur_view(), from as int, to as int),
            r ==> board_units(final(self).cur_view()) == board_units(old(self).cur_view()),
            !r ==> *final(self) == *old(self),
            final(self).loaded == old(self).loaded,
            final(self).number == old(self).number,
            final(self).glass_height == old(self).glass_height,
            final(self).cur_view().len() == old(self).cur_view().len(),
            (r && save_move) ==> final(self).moves@ == old(self).moves@.push(
                (Move { from: from, to: to }),
            ) && final(self).move_counts@ == old(self).move_counts@.push(
                (run_of(old(self).cur_view()[from as int]) as usize),
            ),
            !(r && save_move) ==> final(self).moves@ == old(self).moves@
                && final(self).move_counts@ == old(self).move_counts@,
    {
        let ghost b = self.cur_view();
        proof {
            assert(glass_wf(b[from as int]) && b[from as int] == self.current@[from as int]@);
            assert(glass_wf(b[to as int]) && b[to as int] == self.current@[to as int]@);
        }
        let (from_top_color, from_top_count, _from_empty_count) = glass_info(&self.current[from]);

        // nothing to move from a vacant glass
        if from_top_color == 0 {
            proof {
                assert(fill_of(b[from as int]) == 0 || b[from as int][fill_of(b[from as int])
                    - 1] != 0);
            }
            return false;
        }

        let (to_top_color, _to_top_count, to_empty_count) = glass_info(&self.current[to]);

        // legal iff the target is vacant, or tops out in the same color with
        // enough room for the whole run
        if to_top_color == 0 || (to_top_color == from_top_color && from_top_count
            <= to_empty_count) {
            if save_move {
                self.moves.push(Move { from: from, to: to });
                self.move_counts.push(from_top_count);
            }
            proof {
                lemma_run_le_fill(b[from as int]);
                lemma_fill_le_len(b[from as int]);
                lemma_fill_le_len(b[to as int]);
            }
            let from_fill = glass_fill(&self.current[from]);
            let to_fill = glass_fill(&self.current[to]);
            let new_from = drain_glass(&self.current[from], from_fill, from_top_count);
            let new_to = fill_glass(&self.current[to], to_fill, from_top_count, from_top_color);
            self.current[from] = new_from;
            self.current[to] = new_to;
            proof {
                assert(self.cur_view() =~= pour_upd(b, from as int, to as int));
                lemma_pour_upd_ok(b, from as int, to as int, self.glass_height as nat);
                lemma_pour_conserves(b, from as int, to as int, self.glass_height as nat);
            }
            true
        } else {
            false
        }
    }

    /// Move `count` units off the top of glass `from` onto glass `to` if
    /// that is legal as an inverse pour; used for undo and for backward
    /// generation. An illegal call returns false and leaves the level
    /// untouched.
    pub fn move_reverse(&mut self, from: usize, to: usize, count: usize) -> (r: bool)
        requires
            old(self).wf(),
            from < old(self).cur_view().len(),
            to < old(self).cur_view().len(),
            from != to,
        ensures
            final(self).wf(),
            r == pour_inv_ok(old(self).cur_view(), from as int, to as int, count as nat),
            r ==> final(self).cur_view() == pour_inv_upd(
                old(self).cur_view(),
                from as int,
                to as int,
                count as nat,
            ),
            r ==> board_units(final(self).cur_view()) == board_units(old(self).cur_view()),
            !r ==> *final(self) == *old(self),
            final(self).loaded == old(self).loaded,
            final(self).number == old(self).number,
            final(self).glass_height == old(self).glass_height,
            final(self).moves == old(self).moves,
            final(self).move_counts == old(self).move_counts,
            final(self).cur_view().len() == old(self).cur_view().len(),
    {
        let ghost b = self.cur_view();
        proof {
            assert(glass_wf(b[from as int]) && b[from as int] == self.current@[from as int]@);
            assert(glass_wf(b[to as int]) && b[to as int] == self.current@[to as int]@);
        }
        let (from_top_color, from_top_count, from_empty_count) = glass_info(&self.current[from]);
        proof {
            lemma_run_le_fill(b[from as int]);
            lemma_fill_le_len(b[from as int]);
            lemma_fill_le_len(b[to as int]);
        }

        // nothing to move from a vacant glass
        if from_empty_count == self.glass_height {
            return false;
        }

        let (_to_top_color, _to_top_count, to_empty_count) = glass_info(&self.current[to]);

        // not enough units of the top color at the source
        if count > from_top_count {
            return false;
        }

        // not enough room at the target
        if to_empty_count < count {
            return false;
        }

        // taking the whole run may expose a foreign color; that is allowed
        // only when the run reaches the bottom or the glass was full
        if from_empty_count > 0 && from_empty_count + from_top_count < self.glass_height
            && from_top_count == count {
            return false;
        }

        let from_fill = glass_fill(&self.current[from]);
        let to_fill = glass_fill(&self.current[to]);
        let new_from = drain_glass(&self.current[from], from_fill, count);
        let new_to = fill_glass(&self.current[to], to_fill, count, from_top_color);
        self.current[from] = new_from;
        self.current[to] = new_to;
        proof {
            assert(self.cur_view() =~= pour_inv_upd(b, from as int, to as int, count as nat));
            lemma_pour_inv_upd_ok(b, from as int, to as int, count as nat, self.glass_height as nat);
            lemma_pour_inv_conserves(b, from as int, to as int, count as nat, self.glass_height as nat);
        }
        true
    }

    /// True iff every glass of the current board is monochrome from its
    /// bottom cell up: the level is won.
    pub fn test_win(&self) -> (r: bool)
        requires
            self.wf(),
        ensures
            r == board_win(self.cur_view()),
    {
        let mut i: usize = 0;
        while i < self.current.len()
            invariant
                i <= self.current@.len(),
                self.wf(),
                forall|x: int, j: int|
                    0 <= x < i && 0 <= j < self.cur_view()[x].len() ==> #[trigger] self.cur_view(
                    )[x][j] == self.cur_view()[x][0],
            decreases self.current@.len() - i,
        {
            proof {
                assert(self.cur_view()[i as int] == self.current@[i as int]@);
                assert(self.cur_view()[i as int].len() == self.glass_height);
            }
            let glass = &self.current[i];
            let c0 = glass[0];
            let mut j: usize = 0;
            while j < glass.len()
                invariant
                    j <= glass@.len(),
                    glass@.len() > 0,
                    c0 == glass@[0],
                    glass@ == self.cur_view()[i as int],
                    0 <= i < self.cur_view().len(),
                    forall|y: int| 0 <= y < j ==> #[trigger] glass@[y] == glass@[0],
                decreases glass@.len() - j,
            {
                if glass[j] != c0 {
                    proof {
                        assert(self.cur_view()[i as int][j as int] != self.cur_view()[i as int][0]);
                    }
                    return false;
                }
                j = j + 1;
            }
            i = i + 1;
        }
        true
    }

    /// Reset the current board to the loaded board.
    pub fn restart(&mut self)
        ensures
            final(self).cur_view() == old(self).base_view(),
            final(self).loaded == old(self).loaded,
            final(self).number == old(self).number,
            final(self).glass_height == old(self).glass_height,
            final(self).moves == old(self).moves,
            final(self).move_counts == old(self).move_counts,
            old(self).wf() ==> final(self).wf(),
    {
        self.current = copy_board(&self.loaded);
        proof {
            assert(self.cur_view() =~= old(self).base_view());
        }
    }

    /// The number of glasses on the current board.
    pub fn number_of_glasses(&self) -> (r: usize)
        ensures
            r == self.cur_view().len(),
    {
        self.current.len()
    }

    /// True iff some glass of the current board is completely filled with
    /// one color; the forward generator rejects such boards.
    pub(crate) fn is_one_glass_same_color(&self) -> (r: bool)
        requires
            self.wf(),
            self.glass_height >= 1,
        ensures
            r == exists|i: int|
                0 <= i < self.cur_view().len() && (#[trigger] self.cur_view()[i][0]) != 0
                    && (forall|j: int|
                    0 <= j < self.cur_view()[i].len() ==> #[trigger] self.cur_view()[i][j]
                        == self.cur_view()[i][0]),
    {
        let mut i: usize = 0;
        while i < self.current.len()
            invariant
                i <= self.current@.len(),
                self.wf(),
                forall|x: int|
                    0 <= x < i ==> !((#[trigger] self.cur_view()[x][0]) != 0 && (forall|j: int|
                        0 <= j < self.cur_view()[x].len() ==> #[trigger] self.cur_view()[x][j]
                            == self.cur_view()[x][0])),
            decreases self.current@.len() - i,
        {
            proof {
                assert(self.cur_view()[i as int] == self.current@[i as int]@);
                assert(self.cur_view()[i as int].len() == self.glass_height);
            }
            if crate::glass::glass_is_one_color(&self.current[i]) {
                proof {
                    assert((self.cur_view()[i as int][0]) != 0 && (forall|j: int|
                        0 <= j < self.cur_view()[i as int].len() ==> #[trigger] self.cur_view(
                        )[i as int][j] == self.cur_view()[i as int][0]));
                }
                return true;
            }
            i = i + 1;
        }
        false
    }

    /// Undo the most recent recorded move by pouring its units back. Pops
    /// the history entry whether or not the inverse pour is legal; returns
    /// false when there is nothing to undo or the inverse pour fails.
    pub fn undo(&mut self) -> (r: bool)
        requires
            old(self).wf(),
        ensures
            final(self).wf(),
            old(self).moves@.len() == 0 ==> r == false && *final(self) == *old(self),
            old(self).moves@.len() > 0 ==> final(self).moves@ == old(self).moves@.drop_last()
                && final(self).move_counts@ == old(self).move_counts@.drop_last(),
            old(self).moves@.len() > 0 ==> {
                let m = old(self).moves@.last();
                let c = old(self).move_counts@.last();
                if m.to < old(self).cur_view().len() && m.from < old(self).cur_view().len()
                    && m.to != m.from {
                    &&& r == pour_inv_ok(old(self).cur_view(), m.to as int, m.from as int, c as nat)
                    &&& (r ==> final(self).cur_view() == pour_inv_upd(
                        old(self).cur_view(),
                        m.to as int,
                        m.from as int,
                        c as nat,
                    ))
                    &&& (!r ==> final(self).cur_view() == old(self).cur_view())
                } else {
                    r == false && final(self).cur_view() == old(self).cur_view()
                }
            },
            final(self).loaded == old(self).loaded,
            final(self).number == old(self).number,
            final(self).glass_height == old(self).glass_height,
    {
        if self.moves.len() > 0 {
            let last_move = match self.moves.pop() {
                Some(m) => m,
                None => {
                    return false;
                },
            };
            let last_move_count = match self.move_counts.pop() {
                Some(c) => c,
                None => {
                    return false;
                },
            };
            if last_move.to < self.current.len() && last_move.from < self.current.len()
                && last_move.to != last_move.from {
                return self.move_reverse(last_move.to, last_move.from, last_move_count);
            }
            return false;
        }
        false
    }
}

/// A fresh copy of a board's glasses.
pub fn copy_board(b: &Vec<Vec<u8>>) -> (r: Vec<Vec<u8>>)
    ensures
        glass_views(r@) == glass_views(b@),
        r@.len() == b@.len(),
{
    let mut r: Vec<Vec<u8>> = Vec::new();
    let mut i: usize = 0;
    while i < b.len()
        invariant
            i <= b@.len(),
            r@.len() == i,
            forall|x: int| 0 <= x < i ==> (#[trigger] r@[x])@ == b@[x]@,
        decreases b@.len() - i,
    {
        r.push(copy_glass(&b[i]));
        i = i + 1;
    }
    proof {
        assert(glass_views(r@) =~= glass_views(b@));
    }
    r
}

/// A fresh copy of one glass's cells.
pub fn copy_glass(g: &Vec<u8>) -> (r: Vec<u8>)
    ensures
        r@ == g@,
{
    let mut r: Vec<u8> = Vec::new();
    let mut i: usize = 0;
    while i < g.len()
        invariant
            i <= g@.len(),
            r@.len() == i,
            forall|x: int| 0 <= x < i ==> #[trigger] r@[x] == g@[x],
        decreases g@.len() - i,
    {
        r.push(g[i]);
        i = i + 1;
    }
    proof {
        assert(r@ =~= g@);
    }
    r
}

} // verus!
