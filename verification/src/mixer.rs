//! Backward level construction: start from a solved board — one full glass
//! per color of a small fixed palette plus two vacant spares — and walk
//! every sequence of at most `MIX_DEPTH` inverse pours. A reached board
//! qualifies when every glass outside the two spares holds at least two
//! colors and the spares are vacant again; among the qualifying boards, the
//! one whose shortest forward solution is longest becomes the level. The
//! walk is exhaustive over the depth bound, so an empty result really means
//! no reachable board qualifies.
use vstd::prelude::*;

use crate::board::{board_ok, glass_views, pour_inv_ok, pour_inv_upd};
use crate::generator::partial_glass;
use crate::glass::fill_of;
use crate::level::{copy_board, Level};
use crate::solver::contains_board;

verus! {

/// Colors in the fixed palette the backward generator starts from.
pub const MIX_COLORS: usize = 3;

/// Glass height of the backward-generated board.
pub const MIX_HEIGHT: usize = 3;

/// Number of spare glasses, kept vacant in a qualifying board; they are
/// the last glasses of the board.
pub const MIX_SPARES: usize = 2;

/// How many inverse pours the backward search applies at most.
pub const MIX_DEPTH: usize = 4;

/// The solved board the backward search starts from: one full glass per
/// palette color, then the vacant spares.
pub open spec fn mix_start() -> Seq<Seq<u8>> {
    Seq::new((MIX_COLORS + MIX_SPARES) as nat, |i: int| Seq::new(MIX_HEIGHT as nat, |j: int|
        if i < MIX_COLORS {
            (i + 1) as u8
        } else {
            0u8
        }))
}

/// A glass holding at least two distinct colors.
pub open spec fn glass_mixed(g: Seq<u8>) -> bool {
    exists|i: int, j: int|
        0 <= i < g.len() && 0 <= j < g.len() && g[i] != 0 && g[j] != 0 && g[i] != g[j]
}

/// A sufficiently mixed board: every glass but the trailing `spares` holds
/// at least two colors, and the spares are vacant.
pub open spec fn board_mixed(b: Seq<Seq<u8>>, spares: int) -> bool {
    &&& forall|i: int| 0 <= i < b.len() - spares ==> glass_mixed(#[trigger] b[i])
    &&& forall|i: int| b.len() - spares <= i < b.len() ==> fill_of(#[trigger] b[i]) == 0
}

/// One legal inverse pour of at least one unit leads from `b` to `m`.
pub open spec fn inv_step_ok(b: Seq<Seq<u8>>, m: Seq<Seq<u8>>) -> bool {
    exists|f: int, t: int, k: nat|
        1 <= k && #[trigger] pour_inv_ok(b, f, t, k) && m == pour_inv_upd(b, f, t, k)
}

/// `c` is reachable from `b` by at most `d` legal inverse pours.
pub open spec fn inv_reach(b: Seq<Seq<u8>>, c: Seq<Seq<u8>>, d: nat) -> bool
    decreases d,
{
    c == b || (d > 0 && exists|m: Seq<Seq<u8>>|
        #[trigger] inv_step_ok(b, m) && inv_reach(m, c, (d - 1) as nat))
}

/// The search has covered `b` to depth `d`: every mixed board reachable
/// from `b` within `d` inverse pours put a candidate on record (`found`).
pub open spec fn mix_covered(b: Seq<Seq<u8>>, d: nat, found: bool) -> bool {
    forall|c: Seq<Seq<u8>>|
        #[trigger] inv_reach(b, c, d) && board_mixed(c, MIX_SPARES as int) ==> found
}

/// No inverse pour moves more units than a glass holds.
proof fn lemma_inv_k_bound(b: Seq<Seq<u8>>, f: int, t: int, k: nat, h: nat)
    requires
        board_ok(b, h),
        pour_inv_ok(b, f, t, k),
    ensures
        k <= h,
{
    crate::glass::lemma_run_le_fill(b[f]);
    crate::glass::lemma_fill_le_len(b[f]);
}

/// True iff the glass holds at least two distinct colors.
fn glass_mixed_check(g: &Vec<u8>) -> (r: bool)
    ensures
        r == glass_mixed(g@),
{
    let mut first: u8 = 0;
    let ghost mut fidx: int = 0;
    let mut i: usize = 0;
    while i < g.len()
        invariant
            i <= g@.len(),
            first == 0 ==> forall|x: int| 0 <= x < i ==> g@[x] == 0,
            first != 0 ==> 0 <= fidx < i && g@[fidx] == first,
            first != 0 ==> forall|x: int| 0 <= x < i && g@[x] != 0 ==> g@[x] == first,
        decreases g@.len() - i,
    {
        if g[i] != 0 {
            if first == 0 {
                first = g[i];
                proof {
                    fidx = i as int;
                }
            } else if g[i] != first {
                proof {
                    assert(g@[fidx] != 0 && g@[i as int] != 0 && g@[fidx] != g@[i as int]);
                }
                return true;
            }
        }
        i = i + 1;
    }
    false
}

/// True iff the board qualifies as sufficiently mixed.
fn board_mixed_check(b: &Vec<Vec<u8>>, spares: usize) -> (r: bool)
    requires
        spares <= b@.len(),
    ensures
        r == board_mixed(glass_views(b@), spares as int),
{
    let limit = b.len() - spares;
    let mut i: usize = 0;
    while i < limit
        invariant
            i <= limit,
            limit == b@.len() - spares,
            spares <= b@.len(),
            forall|x: int| 0 <= x < i ==> glass_mixed(#[trigger] glass_views(b@)[x]),
        decreases limit - i,
    {
        if !glass_mixed_check(&b[i]) {
            proof {
                assert(glass_views(b@)[i as int] == b@[i as int]@);
            }
            return false;
        }
        i = i + 1;
    }
    let mut s: usize = limit;
    while s < b.len()
        invariant
            limit <= s <= b@.len(),
            limit == b@.len() - spares,
            forall|x: int| 0 <= x < limit ==> glass_mixed(#[trigger] glass_views(b@)[x]),
            forall|x: int| limit <= x < s ==> fill_of(#[trigger] glass_views(b@)[x]) == 0,
        decreases b@.len() - s,
    {
        if !crate::glass::glass_is_vacant(&b[s]) {
            proof {
                assert(glass_views(b@)[s as int] == b@[s as int]@);
            }
            return false;
        }
        s = s + 1;
    }
    true
}

/// Depth-bounded exhaustive walk over inverse pours. Every reached board
/// that qualifies as mixed is recorded as a candidate (deduplicated), and
/// the walk covers every board reachable within the depth; the board comes
/// back as it went in.
fn mix_impl(level: &mut Level, depth: usize, candidates: &mut Vec<Vec<Vec<u8>>>)
    requires
        old(level).wf(),
        old(level).cur_view().len() >= MIX_SPARES,
        board_mixed(old(level).cur_view(), MIX_SPARES as int) ==> old(candidates)@.len() > 0,
    ensures
        final(level).wf(),
        final(level).cur_view() == old(level).cur_view(),
        final(level).loaded == old(level).loaded,
        final(level).number == old(level).number,
        final(level).glass_height == old(level).glass_height,
        final(level).moves@ == old(level).moves@,
        final(level).move_counts@ == old(level).move_counts@,
        final(candidates)@.len() >= old(candidates)@.len(),
        forall|i: int|
            0 <= i < old(candidates)@.len() ==> final(candidates)@[i] == old(candidates)@[i],
        forall|i: int|
            old(candidates)@.len() <= i < final(candidates)@.len() ==> {
                let cv = glass_views((#[trigger] final(candidates)@[i])@);
                &&& board_ok(cv, old(level).glass_height as nat)
                &&& cv.len() == old(level).cur_view().len()
                &&& board_mixed(cv, MIX_SPARES as int)
            },
        mix_covered(old(level).cur_view(), depth as nat, final(candidates)@.len() > 0),
    decreases depth,
{
    if depth == 0 {
        proof {
            assert forall|c: Seq<Seq<u8>>|
                #[trigger] inv_reach(old(level).cur_view(), c, 0) && board_mixed(
                    c,
                    MIX_SPARES as int,
                ) implies candidates@.len() > 0 by {
                assert(c == old(level).cur_view());
            }
        }
        return ;
    }
    let last = copy_board(&level.current);
    let glass_count = level.current.len();
    let mut from: usize = 0;
    while from < glass_count
        invariant
            from <= glass_count,
            glass_count == old(level).cur_view().len(),
            glass_count >= MIX_SPARES,
            depth >= 1,
            old(level).wf(),
            level.wf(),
            level.cur_view() == old(level).cur_view(),
            level.loaded == old(level).loaded,
            level.number == old(level).number,
            level.glass_height == old(level).glass_height,
            level.moves@ == old(level).moves@,
            level.move_counts@ == old(level).move_counts@,
            glass_views(last@) == old(level).cur_view(),
            candidates@.len() >= old(candidates)@.len(),
            board_mixed(old(level).cur_view(), MIX_SPARES as int) ==> candidates@.len() > 0,
            forall|i: int|
                0 <= i < old(candidates)@.len() ==> candidates@[i] == old(candidates)@[i],
            forall|i: int|
                old(candidates)@.len() <= i < candidates@.len() ==> {
                    let cv = glass_views((#[trigger] candidates@[i])@);
                    &&& board_ok(cv, old(level).glass_height as nat)
                    &&& cv.len() == old(level).cur_view().len()
                    &&& board_mixed(cv, MIX_SPARES as int)
                },
            forall|f: int, t: int, k: nat|
                0 <= f < from && 0 <= t < glass_count && 1 <= k && #[trigger] pour_inv_ok(
                    old(level).cur_view(),
                    f,
                    t,
                    k,
                ) ==> mix_covered(
                    pour_inv_upd(old(level).cur_view(), f, t, k),
                    (depth - 1) as nat,
                    candidates@.len() > 0,
                ),
        decreases glass_count - from,
    {
        let mut to: usize = 0;
        while to < glass_count
            invariant
                from < glass_count,
                to <= glass_count,
                glass_count == old(level).cur_view().len(),
                glass_count >= MIX_SPARES,
                depth >= 1,
                old(level).wf(),
                level.wf(),
                level.cur_view() == old(level).cur_view(),
                level.loaded == old(level).loaded,
                level.number == old(level).number,
                level.glass_height == old(level).glass_height,
                level.moves@ == old(level).moves@,
                level.move_counts@ == old(level).move_counts@,
                glass_views(last@) == old(level).cur_view(),
                candidates@.len() >= old(candidates)@.len(),
                board_mixed(old(level).cur_view(), MIX_SPARES as int) ==> candidates@.len() > 0,
                forall|i: int|
                    0 <= i < old(candidates)@.len() ==> candidates@[i] == old(candidates)@[i],
                forall|i: int|
                    old(candidates)@.len() <= i < candidates@.len() ==> {
                        let cv = glass_views((#[trigger] candidates@[i])@);
                        &&& board_ok(cv, old(level).glass_height as nat)
                        &&& cv.len() == old(level).cur_view().len()
                        &&& board_mixed(cv, MIX_SPARES as int)
                    },
                forall|f: int, t: int, k: nat|
                    0 <= f < from && 0 <= t < glass_count && 1 <= k && #[trigger] pour_inv_ok(
                        old(level).cur_view(),
                        f,
                        t,
                        k,
                    ) ==> mix_covered(
                        pour_inv_upd(old(level).cur_view(), f, t, k),
                        (depth - 1) as nat,
                        candidates@.len() > 0,
                    ),
                forall|t: int, k: nat|
                    0 <= t < to && 1 <= k && #[trigger] pour_inv_ok(
                        old(level).cur_view(),
                        from as int,
                        t,
                        k,
                    ) ==> mix_covered(
                        pour_inv_upd(old(level).cur_view(), from as int, t, k),
                        (depth - 1) as nat,
                        candidates@.len() > 0,
                    ),
            decreases glass_count - to,
        {
            if from != to {
                let mut count: usize = 1;
                while count <= level.glass_height
                    invariant
                        1 <= count <= level.glass_height + 1,
                        from < glass_count,
                        to < glass_count,
                        from != to,
                        glass_count == old(level).cur_view().len(),
                        glass_count >= MIX_SPARES,
                        depth >= 1,
                        old(level).wf(),
                        level.wf(),
                        level.cur_view() == old(level).cur_view(),
                        level.loaded == old(level).loaded,
                        level.number == old(level).number,
                        level.glass_height == old(level).glass_height,
                        level.moves@ == old(level).moves@,
                        level.move_counts@ == old(level).move_counts@,
                        glass_views(last@) == old(level).cur_view(),
                        candidates@.len() >= old(candidates)@.len(),
                        board_mixed(old(level).cur_view(), MIX_SPARES as int) ==> candidates@.len()
                            > 0,
                        forall|i: int|
                            0 <= i < old(candidates)@.len() ==> candidates@[i] == old(
                                candidates,
                            )@[i],
                        forall|i: int|
                            old(candidates)@.len() <= i < candidates@.len() ==> {
                                let cv = glass_views((#[trigger] candidates@[i])@);
                                &&& board_ok(cv, old(level).glass_height as nat)
                                &&& cv.len() == old(level).cur_view().len()
                                &&& board_mixed(cv, MIX_SPARES as int)
                            },
                        forall|f: int, t: int, k: nat|
                            0 <= f < from && 0 <= t < glass_count && 1 <= k && #[trigger] pour_inv_ok(
                                old(level).cur_view(),
                                f,
                                t,
                                k,
                            ) ==> mix_covered(
                                pour_inv_upd(old(level).cur_view(), f, t, k),
                                (depth - 1) as nat,
                                candidates@.len() > 0,
                            ),
                        forall|t: int, k: nat|
                            0 <= t < to && 1 <= k && #[trigger] pour_inv_ok(
                                old(level).cur_view(),
                                from as int,
                                t,
                                k,
                            ) ==> mix_covered(
                                pour_inv_upd(old(level).cur_view(), from as int, t, k),
                                (depth - 1) as nat,
                                candidates@.len() > 0,
                            ),
                        forall|k: nat|
                            1 <= k < count && #[trigger] pour_inv_ok(
                                old(level).cur_view(),
                                from as int,
                                to as int,
                                k,
                            ) ==> mix_covered(
                                pour_inv_upd(old(level).cur_view(), from as int, to as int, k),
                                (depth - 1) as nat,
                                candidates@.len() > 0,
                            ),
                    decreases level.glass_height + 1 - count,
                {
                    if level.move_reverse(from, to, count) {
                        if board_mixed_check(&level.current, MIX_SPARES) {
                            let cand = copy_board(&level.current);
                            if !contains_board(candidates, &cand) {
                                candidates.push(cand);
                            }
                        }
                        mix_impl(level, depth - 1, candidates);
                        level.current = copy_board(&last);
                        proof {
                            assert(level.cur_view() == old(level).cur_view());
                        }
                    }
                    count = count + 1;
                }
                proof {
                    assert forall|k: nat|
                        1 <= k && #[trigger] pour_inv_ok(
                            old(level).cur_view(),
                            from as int,
                            to as int,
                            k,
                        ) implies mix_covered(
                        pour_inv_upd(old(level).cur_view(), from as int, to as int, k),
                        (depth - 1) as nat,
                        candidates@.len() > 0,
                    ) by {
                        lemma_inv_k_bound(
                            old(level).cur_view(),
                            from as int,
                            to as int,
                            k,
                            old(level).glass_height as nat,
                        );
                    }
                }
            } else {
                proof {
                    assert forall|k: nat|
                        1 <= k && #[trigger] pour_inv_ok(
                            old(level).cur_view(),
                            from as int,
                            to as int,
                            k,
                        ) implies false by {}
                }
            }
            to = to + 1;
        }
        from = from + 1;
    }
    proof {
        let b = old(level).cur_view();
        let found = candidates@.len() > 0;
        assert forall|c: Seq<Seq<u8>>|
            #[trigger] inv_reach(b, c, depth as nat) && board_mixed(c, MIX_SPARES as int)
            implies found by {
            if c != b {
                let m = choose|m: Seq<Seq<u8>>|
                    #[trigger] inv_step_ok(b, m) && inv_reach(m, c, (depth - 1) as nat);
                let (f, t, k) = choose|f: int, t: int, k: nat|
                    1 <= k && #[trigger] pour_inv_ok(b, f, t, k) && m == pour_inv_upd(b, f, t, k);
                assert(mix_covered(m, (depth - 1) as nat, found));
            }
        }
    }
}

/// Build a harder level backward: walk inverse pours from the solved start
/// and keep the qualifying candidate whose shortest forward solution is
/// longest. Returns `None` exactly when no board reachable within
/// `MIX_DEPTH` inverse pours is sufficiently mixed.
pub fn mix_level() -> (r: Option<Level>)
    ensures
        r is Some ==> {
            let l = r->0;
            &&& l.wf()
            &&& l.glass_height == MIX_HEIGHT
            &&& l.base_view().len() == MIX_COLORS + MIX_SPARES
            &&& l.cur_view() == l.base_view()
            &&& board_mixed(l.base_view(), MIX_SPARES as int)
            &&& l.moves@.len() == 0
            &&& l.move_counts@.len() == 0
        },
        r is None ==> forall|c: Seq<Seq<u8>>|
            #[trigger] inv_reach(mix_start(), c, MIX_DEPTH as nat) ==> !board_mixed(
                c,
                MIX_SPARES as int,
            ),
{
    // the solved start: one full glass per palette color, then the spares
    let mut level = Level::new(0, MIX_HEIGHT);
    let mut c: usize = 0;
    while c < MIX_COLORS
        invariant
            c <= MIX_COLORS,
            level.wf(),
            level.number == 0,
            level.glass_height == MIX_HEIGHT,
            level.moves@.len() == 0,
            level.move_counts@.len() == 0,
            level.loaded@.len() == c,
            forall|x: int| 0 <= x < c ==> #[trigger] level.base_view()[x] == mix_start()[x],
        decreases MIX_COLORS - c,
    {
        let glass = partial_glass(MIX_HEIGHT, MIX_HEIGHT, (c + 1) as u8);
        let ghost base_before = level.base_view();
        level.loaded.push(glass);
        proof {
            assert(level.base_view()[c as int] == glass@);
            assert(glass@ =~= mix_start()[c as int]);
            assert forall|x: int| 0 <= x < level.base_view().len() implies (
            #[trigger] level.base_view()[x]).len() == MIX_HEIGHT && crate::glass::glass_wf(
                level.base_view()[x],
            ) by {
                if x < c {
                    assert(level.base_view()[x] == base_before[x]);
                    assert(base_before[x] == mix_start()[x]);
                }
            }
            assert forall|x: int| 0 <= x < c + 1 implies #[trigger] level.base_view()[x]
                == mix_start()[x] by {
                if x < c {
                    assert(level.base_view()[x] == base_before[x]);
                }
            }
            assert(board_ok(level.base_view(), MIX_HEIGHT as nat));
        }
        c = c + 1;
    }
    let mut s: usize = 0;
    while s < MIX_SPARES
        invariant
            s <= MIX_SPARES,
            level.wf(),
            level.number == 0,
            level.glass_height == MIX_HEIGHT,
            level.moves@.len() == 0,
            level.move_counts@.len() == 0,
            level.loaded@.len() == MIX_COLORS + s,
            forall|x: int|
                0 <= x < MIX_COLORS + s ==> #[trigger] level.base_view()[x] == mix_start()[x],
        decreases MIX_SPARES - s,
    {
        let spare = partial_glass(MIX_HEIGHT, 0, 1);
        let ghost base_before = level.base_view();
        level.loaded.push(spare);
        proof {
            let last = level.base_view().len() - 1;
            assert(level.base_view()[last] == spare@);
            assert(spare@ =~= mix_start()[last]);
            assert forall|x: int| 0 <= x < level.base_view().len() implies (
            #[trigger] level.base_view()[x]).len() == MIX_HEIGHT && crate::glass::glass_wf(
                level.base_view()[x],
            ) by {
                if x < last {
                    assert(level.base_view()[x] == base_before[x]);
                    assert(base_before[x] == mix_start()[x]);
                }
            }
            assert forall|x: int| 0 <= x < MIX_COLORS + s + 1 implies #[trigger] level.base_view(
            )[x] == mix_start()[x] by {
                if x < last {
                    assert(level.base_view()[x] == base_before[x]);
                }
            }
            assert(board_ok(level.base_view(), MIX_HEIGHT as nat));
        }
        s = s + 1;
    }
    level.restart();
    proof {
        assert(level.cur_view() =~= mix_start());
        // the solved start is not mixed: its first glass is monochrome
        assert(!glass_mixed(mix_start()[0])) by {
            assert forall|i: int, j: int|
                0 <= i < mix_start()[0].len() && 0 <= j < mix_start()[0].len() implies !(
            mix_start()[0][i] != 0 && mix_start()[0][j] != 0 && mix_start()[0][i] != mix_start(
            )[0][j]) by {
                assert(mix_start()[0][i] == 1u8 && mix_start()[0][j] == 1u8);
            }
        }
        assert(!board_mixed(level.cur_view(), MIX_SPARES as int)) by {
            if board_mixed(level.cur_view(), MIX_SPARES as int) {
                assert(glass_mixed(level.cur_view()[0]));
            }
        }
    }

    // walk inverse pours and gather the qualifying boards
    let mut candidates: Vec<Vec<Vec<u8>>> = Vec::new();
    mix_impl(&mut level, MIX_DEPTH, &mut candidates);

    // grade each candidate by its shortest solution and keep the hardest
    let mut have: bool = false;
    let mut best: usize = 0;
    let mut best_len: usize = 0;
    let mut i: usize = 0;
    while i < candidates.len()
        invariant
            i <= candidates@.len(),
            have ==> best < candidates@.len(),
            have == (i > 0),
            forall|x: int|
                0 <= x < candidates@.len() ==> {
                    let cv = glass_views((#[trigger] candidates@[x])@);
                    &&& board_ok(cv, MIX_HEIGHT as nat)
                    &&& cv.len() == MIX_COLORS + MIX_SPARES
                    &&& board_mixed(cv, MIX_SPARES as int)
                },
        decreases candidates@.len() - i,
    {
        let mut trial = Level {
            loaded: copy_board(&candidates[i]),
            current: copy_board(&candidates[i]),
            number: 0,
            glass_height: MIX_HEIGHT,
            moves: Vec::new(),
            move_counts: Vec::new(),
        };
        let (moves, _explored) = trial.solve();
        if !have || moves.len() > best_len {
            have = true;
            best = i;
            best_len = moves.len();
        }
        i = i + 1;
    }
    if have {
        level.loaded = copy_board(&candidates[best]);
        level.restart();
        Some(level)
    } else {
        proof {
            assert(candidates@.len() == 0);
            assert forall|c: Seq<Seq<u8>>|
                #[trigger] inv_reach(mix_start(), c, MIX_DEPTH as nat) implies !board_mixed(
                c,
                MIX_SPARES as int,
            ) by {
                if board_mixed(c, MIX_SPARES as int) {
                    assert(inv_reach(level.cur_view(), c, MIX_DEPTH as nat));
                }
            }
        }
        None
    }
}

} // verus!
