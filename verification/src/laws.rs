//! Laws of the pour engine, stated over the board model: a legal pour can
//! always be poured back, and replaying legal pours never creates or
//! destroys a unit of color.
use vstd::prelude::*;

use crate::board::{
    board_ok, board_units, board_win, drained, filled_up, glass_views, lemma_drained_fill,
    lemma_filled_fill, lemma_pour_conserves, lemma_pour_upd_ok, pour_inv_ok, pour_inv_upd, pour_ok,
    pour_upd,
};
use crate::glass::{
    fill_of, glass_wf, lemma_above_fill_zero, lemma_fill_le_len, lemma_run_boundary,
    lemma_run_cells, lemma_run_le_fill, lemma_run_split, run_of, run_of_at, top_color_of,
};
use crate::solver::replay;

verus! {

/// Boards that hold one multiset of glasses are won together: every glass
/// of the one is a glass of the other, so monochromy carries over.
pub proof fn lemma_win_multiset(a: Seq<Seq<u8>>, b: Seq<Seq<u8>>)
    requires
        a.to_multiset() == b.to_multiset(),
        board_win(a),
    ensures
        board_win(b),
{
    broadcast use vstd::seq_lib::group_to_multiset_ensures;

    assert forall|i: int, j: int| 0 <= i < b.len() && 0 <= j < b[i].len() implies #[trigger] b[i][j]
        == b[i][0] by {
        assert(b.contains(b[i]));
        assert(b.to_multiset().count(b[i]) > 0);
        assert(a.contains(b[i]));
        let x = choose|x: int| 0 <= x < a.len() && a[x] == b[i];
        assert(a[x][j] == a[x][0]);
    }
}

/// Two distinct positions holding one glass give it count at least two.
proof fn lemma_count_two(s: Seq<Seq<u8>>, i: int, j: int)
    requires
        0 <= i < s.len(),
        0 <= j < s.len(),
        i != j,
        s[i] == s[j],
    ensures
        s.to_multiset().count(s[i]) >= 2,
{
    broadcast use vstd::seq_lib::group_to_multiset_ensures;
    broadcast use vstd::multiset::group_multiset_axioms;

    let r = s.remove(i);
    let j2: int = if j < i {
        j
    } else {
        j - 1
    };
    assert(r[j2] == s[j]);
    assert(r.contains(s[j]));
    assert(r.to_multiset() == s.to_multiset().remove(s[i]));
    assert(r.to_multiset().count(s[i]) > 0);
}

/// A glass with count at least two sits at two distinct positions.
proof fn lemma_two_positions(s: Seq<Seq<u8>>, v: Seq<u8>)
    requires
        s.to_multiset().count(v) >= 2,
    ensures
        exists|i: int, j: int|
            0 <= i < s.len() && 0 <= j < s.len() && i != j && s[i] == v && s[j] == v,
{
    broadcast use vstd::seq_lib::group_to_multiset_ensures;
    broadcast use vstd::multiset::group_multiset_axioms;

    assert(s.contains(v));
    let i = choose|i: int| 0 <= i < s.len() && s[i] == v;
    let r = s.remove(i);
    assert(r.to_multiset() == s.to_multiset().remove(v));
    assert(r.to_multiset().count(v) > 0);
    assert(r.contains(v));
    let j2 = choose|j: int| 0 <= j < r.len() && r[j] == v;
    let j: int = if j2 < i {
        j2
    } else {
        j2 + 1
    };
    assert(s[j] == v);
    assert(0 <= i < s.len() && 0 <= j < s.len() && i != j && s[i] == v && s[j] == v);
}

/// Boards with one multiset of glasses are solvable together: a winning
/// pour sequence on one has a winning counterpart of the same length on
/// the other, each pour redirected to the positions that hold the same
/// two glasses.
pub proof fn lemma_solves_transport(a: Seq<Seq<u8>>, b: Seq<Seq<u8>>, ms: Seq<(int, int)>)
    requires
        a.to_multiset() == b.to_multiset(),
        replay(a, ms) is Some,
        board_win(replay(a, ms)->0),
    ensures
        exists|ms2: Seq<(int, int)>|
            ms2.len() == ms.len() && #[trigger] replay(b, ms2) is Some && board_win(
                replay(b, ms2)->0,
            ),
    decreases ms.len(),
{
    broadcast use vstd::seq_lib::group_to_multiset_ensures;
    broadcast use vstd::multiset::group_multiset_axioms;
    broadcast use vstd::seq_lib::to_multiset_update;

    if ms.len() == 0 {
        lemma_win_multiset(a, b);
        let ms2 = Seq::<(int, int)>::empty();
        assert(replay(b, ms2) == Some(b));
        assert(ms2.len() == ms.len() && replay(b, ms2) is Some && board_win(replay(b, ms2)->0));
    } else {
        let f = ms[0].0;
        let t = ms[0].1;
        assert(pour_ok(a, f, t));
        let a1 = pour_upd(a, f, t);
        assert(replay(a1, ms.drop_first()) == replay(a, ms));

        // positions of the same two glasses on the other board
        let gf = a[f];
        let gt = a[t];
        assert(a.contains(gf) && a.contains(gt));
        assert(b.to_multiset().count(gf) > 0 && b.to_multiset().count(gt) > 0);
        assert(b.contains(gf) && b.contains(gt));
        let (i, j): (int, int) = if gf == gt {
            lemma_count_two(a, f, t);
            lemma_two_positions(b, gf);
            choose|i: int, j: int|
                0 <= i < b.len() && 0 <= j < b.len() && i != j && b[i] == gf && b[j] == gf
        } else {
            let i0 = choose|i: int| 0 <= i < b.len() && b[i] == gf;
            let j0 = choose|j: int| 0 <= j < b.len() && b[j] == gt;
            (i0, j0)
        };
        assert(0 <= i < b.len() && 0 <= j < b.len() && i != j && b[i] == gf && b[j] == gt);
        assert(pour_ok(b, i, j));
        let b1 = pour_upd(b, i, j);

        // the two successors hold one multiset of glasses
        let k = run_of(a[f]);
        let c = top_color_of(a[f]);
        let d = drained(gf, k);
        let fl = filled_up(gt, k, c);
        let am = a.update(f, d);
        assert(am[t] == gt);
        assert(am.to_multiset() == a.to_multiset().insert(d).remove(gf));
        assert(a1.to_multiset() == am.to_multiset().insert(fl).remove(gt));
        let bm = b.update(i, d);
        assert(bm[j] == gt);
        assert(bm.to_multiset() == b.to_multiset().insert(d).remove(gf));
        assert(b1.to_multiset() == bm.to_multiset().insert(fl).remove(gt));
        assert(a1.to_multiset() == b1.to_multiset());

        lemma_solves_transport(a1, b1, ms.drop_first());
        let tail = choose|ms2: Seq<(int, int)>|
            ms2.len() == ms.drop_first().len() && #[trigger] replay(b1, ms2) is Some && board_win(
                replay(b1, ms2)->0,
            );
        let ms2 = seq![(i, j)] + tail;
        assert(ms2[0] == (i, j));
        assert(ms2.drop_first() =~= tail);
        assert(replay(b, ms2) == replay(b1, tail));
        assert(ms2.len() == ms.len() && replay(b, ms2) is Some && board_win(replay(b, ms2)->0));
    }
}

/// Legality symmetry: a legal pour from `from` to `to` can be undone by an
/// inverse pour of the same number of units from `to` back to `from`, and
/// undoing it restores the board exactly.
pub proof fn lemma_pour_round_trip(b: Seq<Seq<u8>>, from: int, to: int, h: nat)
    requires
        board_ok(b, h),
        pour_ok(b, from, to),
    ensures
        pour_inv_ok(pour_upd(b, from, to), to, from, run_of(b[from])),
        pour_inv_upd(pour_upd(b, from, to), to, from, run_of(b[from])) == b,
{
    let k = run_of(b[from]);
    let c = top_color_of(b[from]);
    let gf = b[from];
    let gt = b[to];
    lemma_run_le_fill(gf);
    lemma_fill_le_len(gf);
    lemma_fill_le_len(gt);
    lemma_run_cells(gf);
    lemma_above_fill_zero(gt);
    assert(c != 0) by {
        assert(gf[fill_of(gf) - 1] != 0);
    }
    lemma_drained_fill(gf, k);
    if fill_of(gt) == 0 {
        assert(fill_of(gt) + k <= gt.len());
    }
    lemma_filled_fill(gt, k, c);
    let gfd = drained(gf, k);
    let gtf = filled_up(gt, k, c);
    let b2 = pour_upd(b, from, to);
    assert(b2[to] == gtf && b2[from] == gfd);

    // the run on top of the destination after the pour
    let ft = fill_of(gt);
    let rt = run_of(gt);
    if ft == 0 {
        // the destination was vacant: its new run is exactly the k poured
        // units, reaching its bottom
        assert(run_of_at(gtf, 1) == 1);
        lemma_run_split(gtf, 1, k);
        assert(run_of(gtf) == k);
    } else {
        lemma_run_le_fill(gt);
        lemma_run_cells(gt);
        assert(top_color_of(gt) == c);
        if rt == ft {
            // the old contents were one run of the same color down to the
            // bottom: the new run covers everything
            assert(run_of_at(gtf, 1) == 1);
            assert forall|i: int| 0 <= i < ft + k implies #[trigger] gtf[i] == c by {
                if i < ft {
                    assert(gtf[i] == gt[i]);
                }
            }
            lemma_run_split(gtf, 1, (ft + k) as nat);
            assert(run_of(gtf) == ft + k);
        } else {
            // the old run stops at a differing color: the new run is the old
            // run plus the k poured units
            lemma_run_boundary(gt);
            assert forall|i: int| ft - rt <= i < ft + k implies #[trigger] gtf[i] == c by {
                if i < ft {
                    assert(gtf[i] == gt[i]);
                }
            }
            assert(gtf[ft - rt - 1] == gt[ft - rt - 1]);
            assert(gtf[ft - rt - 1] != c);
            assert(run_of_at(gtf, (ft - rt + 1) as nat) == 1);
            lemma_run_split(gtf, (ft - rt + 1) as nat, (ft + k) as nat);
            assert(run_of(gtf) == rt + k);
        }
    }
    assert(top_color_of(gtf) == c);
    assert(pour_inv_ok(b2, to, from, k));

    // undoing restores both glasses cell for cell
    lemma_drained_fill(gtf, k);
    lemma_filled_fill(gfd, k, c);
    let gt_back = drained(gtf, k);
    let gf_back = filled_up(gfd, k, c);
    assert(gt_back =~= gt) by {
        assert forall|i: int| 0 <= i < gt.len() implies gt_back[i] == gt[i] by {
            if ft <= i < ft + k {
                assert(gt[i] == 0);
            }
        }
    }
    assert(gf_back =~= gf) by {
        assert forall|i: int| 0 <= i < gf.len() implies gf_back[i] == gf[i] by {
            if fill_of(gf) - k <= i < fill_of(gf) {
                assert(gf[i] == c);
            }
        }
    }
    assert(pour_inv_upd(b2, to, from, k) =~= b);
}

/// Conservation along a whole game: replaying any sequence of legal pours
/// leaves the multiset of colored units on the board unchanged, and the
/// board well-formed.
pub proof fn lemma_replay_conserves(b: Seq<Seq<u8>>, ms: Seq<(int, int)>, h: nat)
    requires
        board_ok(b, h),
        replay(b, ms) is Some,
    ensures
        board_ok(replay(b, ms)->0, h),
        board_units(replay(b, ms)->0) == board_units(b),
    decreases ms.len(),
{
    if ms.len() > 0 {
        let b2 = pour_upd(b, ms[0].0, ms[0].1);
        lemma_pour_upd_ok(b, ms[0].0, ms[0].1, h);
        lemma_pour_conserves(b, ms[0].0, ms[0].1, h);
        lemma_replay_conserves(b2, ms.drop_first(), h);
    }
}

} // verus!
