//! A board is an ordered sequence of glasses. This module gives the board
//! its mathematical model: well-formedness, the win predicate, the pour and
//! inverse-pour transitions, and the multiset of colored units that legal
//! moves conserve.
use vstd::prelude::*;

use crate::glass::{
    fill_of, glass_wf, top_color_of, run_of, lemma_fill_le_len, lemma_above_fill_zero,
    lemma_fill_char, lemma_run_le_fill, lemma_run_cells,
};
use vstd::multiset::Multiset;

verus! {

/// The model of an executable board: the sequence of glass contents.
pub open spec fn glass_views(b: Seq<Vec<u8>>) -> Seq<Seq<u8>> {
    Seq::new(b.len(), |i: int| b[i]@)
}

/// Every glass holds exactly `h` cells and is well-formed.
pub open spec fn board_ok(b: Seq<Seq<u8>>, h: nat) -> bool {
    forall|i: int| 0 <= i < b.len() ==> (#[trigger] b[i]).len() == h && glass_wf(b[i])
}

/// The winning condition: every glass is monochrome from its bottom cell up
/// (a vacant glass counts as monochrome).
pub open spec fn board_win(b: Seq<Seq<u8>>) -> bool {
    forall|i: int, j: int|
        0 <= i < b.len() && 0 <= j < b[i].len() ==> #[trigger] b[i][j] == b[i][0]
}

/// Legality of pouring the top run of glass `from` onto glass `to`: the
/// source is not vacant, and the destination is vacant or tops out in the
/// same color with room for the whole run.
pub open spec fn pour_ok(b: Seq<Seq<u8>>, from: int, to: int) -> bool {
    &&& 0 <= from < b.len()
    &&& 0 <= to < b.len()
    &&& from != to
    &&& fill_of(b[from]) > 0
    &&& (fill_of(b[to]) == 0 || (top_color_of(b[to]) == top_color_of(b[from]) && run_of(b[from])
        <= b[to].len() - fill_of(b[to])))
}

/// The glass after its top `k` units are removed.
pub open spec fn drained(g: Seq<u8>, k: nat) -> Seq<u8> {
    Seq::new(g.len(), |i: int| if fill_of(g) - k <= i < fill_of(g) {
        0u8
    } else {
        g[i]
    })
}

/// The glass after `k` units of color `c` are stacked on top.
pub open spec fn filled_up(g: Seq<u8>, k: nat, c: u8) -> Seq<u8> {
    Seq::new(g.len(), |i: int| if fill_of(g) <= i < fill_of(g) + k {
        c
    } else {
        g[i]
    })
}

/// The board after a legal pour: the source loses its top run, the
/// destination gains that many units of the source's top color.
pub open spec fn pour_upd(b: Seq<Seq<u8>>, from: int, to: int) -> Seq<Seq<u8>> {
    let k = run_of(b[from]);
    let c = top_color_of(b[from]);
    b.update(from, drained(b[from], k)).update(to, filled_up(b[to], k, c))
}

/// Legality of the inverse pour that moves `k` units off the top of glass
/// `from` onto glass `to` (used for undo and for backward generation): the
/// source is not vacant, it has at least `k` units in its top run, the
/// destination has room, and the move may not strand a partial run over
/// foreign colors — taking the whole run is allowed only when the run
/// reaches the bottom or the source glass was full before the move.
pub open spec fn pour_inv_ok(b: Seq<Seq<u8>>, from: int, to: int, k: nat) -> bool {
    &&& 0 <= from < b.len()
    &&& 0 <= to < b.len()
    &&& from != to
    &&& fill_of(b[from]) > 0
    &&& k <= run_of(b[from])
    &&& k <= b[to].len() - fill_of(b[to])
    &&& (run_of(b[from]) == fill_of(b[from]) || k < run_of(b[from]) || fill_of(b[from]) == b[
        from].len())
}

/// The board after a legal inverse pour of `k` units.
pub open spec fn pour_inv_upd(b: Seq<Seq<u8>>, from: int, to: int, k: nat) -> Seq<Seq<u8>> {
    let c = top_color_of(b[from]);
    b.update(from, drained(b[from], k)).update(to, filled_up(b[to], k, c))
}

/// Removing `k` top units of a well-formed, sufficiently filled glass moves
/// the fill boundary down by `k` and keeps the glass well-formed.
pub proof fn lemma_drained_fill(g: Seq<u8>, k: nat)
    requires
        glass_wf(g),
        k <= fill_of(g),
    ensures
        fill_of(drained(g, k)) == fill_of(g) - k,
        glass_wf(drained(g, k)),
        forall|i: int| 0 <= i < fill_of(g) - k ==> #[trigger] drained(g, k)[i] == g[i],
{
    lemma_fill_le_len(g);
    lemma_above_fill_zero(g);
    let d = drained(g, k);
    assert forall|i: int| fill_of(g) - k <= i < d.len() implies d[i] == 0 by {}
    lemma_fill_char(d, (fill_of(g) - k) as nat);
}

/// Stacking `k` units of a nonzero color on a well-formed glass with room
/// moves the fill boundary up by `k` and keeps the glass well-formed.
pub proof fn lemma_filled_fill(g: Seq<u8>, k: nat, c: u8)
    requires
        glass_wf(g),
        c != 0,
        fill_of(g) + k <= g.len(),
    ensures
        fill_of(filled_up(g, k, c)) == fill_of(g) + k,
        glass_wf(filled_up(g, k, c)),
        forall|i: int| 0 <= i < fill_of(g) ==> #[trigger] filled_up(g, k, c)[i] == g[i],
        forall|i: int|
            fill_of(g) <= i < fill_of(g) + k ==> #[trigger] filled_up(g, k, c)[i] == c,
{
    lemma_fill_le_len(g);
    lemma_above_fill_zero(g);
    let d = filled_up(g, k, c);
    assert forall|i: int| fill_of(g) + k <= i < d.len() implies d[i] == 0 by {}
    lemma_fill_char(d, (fill_of(g) + k) as nat);
}

/// A legal pour keeps the board well-formed and the untouched glasses as
/// they were.
pub proof fn lemma_pour_upd_ok(b: Seq<Seq<u8>>, from: int, to: int, h: nat)
    requires
        board_ok(b, h),
        pour_ok(b, from, to),
    ensures
        board_ok(pour_upd(b, from, to), h),
        pour_upd(b, from, to).len() == b.len(),
        forall|i: int|
            0 <= i < b.len() && i != from && i != to ==> #[trigger] pour_upd(b, from, to)[i]
                == b[i],
{
    let k = run_of(b[from]);
    let c = top_color_of(b[from]);
    lemma_run_le_fill(b[from]);
    lemma_fill_le_len(b[from]);
    lemma_fill_le_len(b[to]);
    assert(c != 0) by {
        assert(b[from][fill_of(b[from]) - 1] != 0);
    }
    lemma_drained_fill(b[from], k);
    if fill_of(b[to]) == 0 {
        assert(fill_of(b[to]) + k <= b[to].len());
    }
    lemma_filled_fill(b[to], k, c);
}

/// A legal inverse pour keeps the board well-formed and the untouched
/// glasses as they were.
pub proof fn lemma_pour_inv_upd_ok(b: Seq<Seq<u8>>, from: int, to: int, k: nat, h: nat)
    requires
        board_ok(b, h),
        pour_inv_ok(b, from, to, k),
    ensures
        board_ok(pour_inv_upd(b, from, to, k), h),
        pour_inv_upd(b, from, to, k).len() == b.len(),
        forall|i: int|
            0 <= i < b.len() && i != from && i != to ==> #[trigger] pour_inv_upd(b, from, to, k)[i]
                == b[i],
{
    let c = top_color_of(b[from]);
    lemma_run_le_fill(b[from]);
    lemma_fill_le_len(b[from]);
    lemma_fill_le_len(b[to]);
    assert(c != 0) by {
        assert(b[from][fill_of(b[from]) - 1] != 0);
    }
    lemma_drained_fill(b[from], k);
    lemma_filled_fill(b[to], k, c);
}

/// The multiset of colored units a glass holds: its cells below the fill
/// boundary.
pub open spec fn glass_units(g: Seq<u8>) -> Multiset<u8> {
    g.subrange(0, fill_of(g) as int).to_multiset()
}

/// The multiset of colored units on the whole board. Legal pours and inverse
/// pours conserve it.
pub open spec fn board_units(b: Seq<Seq<u8>>) -> Multiset<u8>
    decreases b.len(),
{
    if b.len() == 0 {
        Multiset::empty()
    } else {
        board_units(b.drop_last()).add(glass_units(b.last()))
    }
}

/// A sequence of `k` cells of color `c`.
pub open spec fn uniform_run(k: nat, c: u8) -> Seq<u8> {
    Seq::new(k, |i: int| c)
}

/// Replacing one glass trades its units for the new glass's units.
pub proof fn lemma_units_update(b: Seq<Seq<u8>>, i: int, g: Seq<u8>)
    requires
        0 <= i < b.len(),
    ensures
        board_units(b.update(i, g)).add(glass_units(b[i])) == board_units(b).add(glass_units(g)),
    decreases b.len(),
{
    broadcast use vstd::multiset::group_multiset_axioms;

    let bu = b.update(i, g);
    if i == b.len() - 1 {
        assert(bu.drop_last() =~= b.drop_last());
        assert(bu.last() == g);
        assert(board_units(bu) == board_units(b.drop_last()).add(glass_units(g)));
        assert(board_units(b) == board_units(b.drop_last()).add(glass_units(b[i])));
        assert forall|x: u8|
            board_units(bu).add(glass_units(b[i])).count(x) == board_units(b).add(
                glass_units(g),
            ).count(x) by {}
        assert(board_units(bu).add(glass_units(b[i])) =~= board_units(b).add(glass_units(g)));
    } else {
        assert(bu.drop_last() =~= b.drop_last().update(i, g));
        assert(bu.last() == b.last());
        lemma_units_update(b.drop_last(), i, g);
        assert(board_units(bu) == board_units(b.drop_last().update(i, g)).add(
            glass_units(b.last()),
        ));
        assert forall|x: u8|
            board_units(bu).add(glass_units(b[i])).count(x) == board_units(b).add(
                glass_units(g),
            ).count(x) by {
            assert(board_units(b.drop_last().update(i, g)).add(glass_units(b.drop_last()[i])).count(
                x,
            ) == board_units(b.drop_last()).add(glass_units(g)).count(x));
        }
        assert(board_units(bu).add(glass_units(b[i])) =~= board_units(b).add(glass_units(g)));
    }
}

/// Draining `k` top units off a well-formed glass removes exactly `k` units
/// of its top color from its contents.
pub proof fn lemma_drained_units(g: Seq<u8>, k: nat)
    requires
        glass_wf(g),
        k <= run_of(g),
    ensures
        glass_units(drained(g, k)).add(uniform_run(k, top_color_of(g)).to_multiset())
            == glass_units(g),
{
    broadcast use vstd::multiset::group_multiset_axioms;

    let f = fill_of(g);
    let c = top_color_of(g);
    lemma_fill_le_len(g);
    lemma_run_le_fill(g);
    lemma_run_cells(g);
    lemma_drained_fill(g, k);
    let d = drained(g, k);
    assert(d.subrange(0, f - k) =~= g.subrange(0, f - k));
    assert(g.subrange(f - k, f as int) =~= uniform_run(k, c));
    assert(g.subrange(0, f as int) =~= g.subrange(0, f - k) + g.subrange(f - k, f as int));
    vstd::seq_lib::lemma_multiset_commutative(g.subrange(0, f - k), g.subrange(f - k, f as int));
    assert(glass_units(d).add(uniform_run(k, c).to_multiset()) =~= glass_units(g));
}

/// Stacking `k` units of color `c` on a well-formed glass adds exactly `k`
/// units of `c` to its contents.
pub proof fn lemma_filled_units(g: Seq<u8>, k: nat, c: u8)
    requires
        glass_wf(g),
        c != 0,
        fill_of(g) + k <= g.len(),
    ensures
        glass_units(filled_up(g, k, c)) == glass_units(g).add(
            uniform_run(k, c).to_multiset(),
        ),
{
    broadcast use vstd::multiset::group_multiset_axioms;

    let f = fill_of(g);
    lemma_fill_le_len(g);
    lemma_filled_fill(g, k, c);
    let d = filled_up(g, k, c);
    assert(d.subrange(0, f as int) =~= g.subrange(0, f as int));
    assert(d.subrange(f as int, (f + k) as int) =~= uniform_run(k, c));
    assert(d.subrange(0, (f + k) as int) =~= d.subrange(0, f as int) + d.subrange(
        f as int,
        (f + k) as int,
    ));
    vstd::seq_lib::lemma_multiset_commutative(
        d.subrange(0, f as int),
        d.subrange(f as int, (f + k) as int),
    );
    assert(glass_units(d) =~= glass_units(g).add(uniform_run(k, c).to_multiset()));
}

/// Moving `k` units of the source's top run onto the destination conserves
/// the board's units.
proof fn lemma_transfer_conserves(b: Seq<Seq<u8>>, from: int, to: int, k: nat, h: nat)
    requires
        board_ok(b, h),
        0 <= from < b.len(),
        0 <= to < b.len(),
        from != to,
        fill_of(b[from]) > 0,
        k <= run_of(b[from]),
        fill_of(b[to]) + k <= b[to].len(),
    ensures
        board_units(
            b.update(from, drained(b[from], k)).update(
                to,
                filled_up(b[to], k, top_color_of(b[from])),
            ),
        ) == board_units(b),
{
    broadcast use vstd::multiset::group_multiset_axioms;

    let c = top_color_of(b[from]);
    let gf = drained(b[from], k);
    let gt = filled_up(b[to], k, c);
    let units = uniform_run(k, c).to_multiset();
    lemma_run_le_fill(b[from]);
    assert(c != 0) by {
        assert(b[from][fill_of(b[from]) - 1] != 0);
    }
    lemma_drained_units(b[from], k);
    lemma_filled_units(b[to], k, c);
    let b1 = b.update(from, gf);
    lemma_units_update(b, from, gf);
    lemma_units_update(b1, to, gt);
    assert(b1[to] == b[to]);
    let r = b1.update(to, gt);
    assert forall|x: u8| board_units(r).count(x) == board_units(b).count(x) by {
        assert(board_units(b1).add(glass_units(b[from])).count(x) == board_units(b).add(
            glass_units(gf),
        ).count(x));
        assert(board_units(r).add(glass_units(b1[to])).count(x) == board_units(b1).add(
            glass_units(gt),
        ).count(x));
        assert(glass_units(gf).add(units).count(x) == glass_units(b[from]).count(x));
        assert(glass_units(gt).count(x) == glass_units(b[to]).add(units).count(x));
    }
    assert(board_units(r) =~= board_units(b));
}

/// A legal pour conserves the multiset of colored units on the board.
pub proof fn lemma_pour_conserves(b: Seq<Seq<u8>>, from: int, to: int, h: nat)
    requires
        board_ok(b, h),
        pour_ok(b, from, to),
    ensures
        board_units(pour_upd(b, from, to)) == board_units(b),
{
    lemma_run_le_fill(b[from]);
    lemma_fill_le_len(b[from]);
    lemma_transfer_conserves(b, from, to, run_of(b[from]), h);
}

/// A legal inverse pour conserves the multiset of colored units on the
/// board.
pub proof fn lemma_pour_inv_conserves(b: Seq<Seq<u8>>, from: int, to: int, k: nat, h: nat)
    requires
        board_ok(b, h),
        pour_inv_ok(b, from, to, k),
    ensures
        board_units(pour_inv_upd(b, from, to, k)) == board_units(b),
{
    lemma_transfer_conserves(b, from, to, k, h);
}

/// Build the contents of a glass after its top `k` units are removed.
pub fn drain_glass(g: &Vec<u8>, fill: usize, k: usize) -> (r: Vec<u8>)
    requires
        fill == fill_of(g@),
        k <= fill,
    ensures
        r@ == drained(g@, k as nat),
{
    proof {
        lemma_fill_le_len(g@);
    }
    let mut r: Vec<u8> = Vec::new();
    let mut i: usize = 0;
    while i < g.len()
        invariant
            i <= g@.len(),
            fill == fill_of(g@),
            k <= fill,
            fill <= g@.len(),
            r@.len() == i,
            forall|j: int| 0 <= j < i ==> #[trigger] r@[j] == drained(g@, k as nat)[j],
        decreases g@.len() - i,
    {
        if fill - k <= i && i < fill {
            r.push(0);
        } else {
            r.push(g[i]);
        }
        i = i + 1;
    }
    proof {
        assert(r@ =~= drained(g@, k as nat));
    }
    r
}

/// Build the contents of a glass after `k` units of color `c` are stacked
/// on top.
pub fn fill_glass(g: &Vec<u8>, fill: usize, k: usize, c: u8) -> (r: Vec<u8>)
    requires
        fill == fill_of(g@),
        fill + k <= g@.len(),
    ensures
        r@ == filled_up(g@, k as nat, c),
{
    let mut r: Vec<u8> = Vec::new();
    let mut i: usize = 0;
    while i < g.len()
        invariant
            i <= g@.len(),
            fill == fill_of(g@),
            fill + k <= g@.len(),
            r@.len() == i,
            forall|j: int| 0 <= j < i ==> #[trigger] r@[j] == filled_up(g@, k as nat, c)[j],
        decreases g@.len() - i,
    {
        if fill <= i && i < fill + k {
            r.push(c);
        } else {
            r.push(g[i]);
        }
        i = i + 1;
    }
    proof {
        assert(r@ =~= filled_up(g@, k as nat, c));
    }
    r
}

} // verus!
