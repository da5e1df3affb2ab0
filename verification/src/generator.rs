//! Solvability-gated level generation: build a candidate board from a
//! seeded pseudo-random stream, ask the solver whether it can be won, and
//! retry with one more empty glass until a non-trivial solvable board comes
//! out. Level number 0 is a fixed tutorial board.
use vstd::prelude::*;

use crate::board::{
    board_ok, board_units, board_win, drained, filled_up, glass_units, glass_views, pour_ok,
    pour_upd,
};
use crate::glass::{
    fill_of, glass_wf, lemma_fill_char, lemma_run_split, run_of, run_of_at, top_color_of,
};
use crate::level::Level;
use crate::solver::solvable;

verus! {

/// How many candidate boards the generator will try before it falls back to
/// a fixed solvable split board. Real seeds accept long before this.
pub const RETRY_LIMIT: usize = 100;

/// The shape of a freshly dealt board: `colors` full glasses whose cells
/// all carry color ids `1..=colors`, followed by `empties` vacant glasses.
pub open spec fn dealt_shape_with(b: Seq<Seq<u8>>, h: int, colors: int, empties: int) -> bool {
    &&& 2 <= colors <= crate::MAX_COLORS
    &&& 1 <= empties <= 5
    &&& b.len() == colors + empties
    &&& forall|i: int, j: int|
        0 <= i < colors && 0 <= j < h ==> 1 <= #[trigger] b[i][j] && b[i][j] <= colors as u8
    &&& forall|i: int, j: int| colors <= i < b.len() && 0 <= j < h ==> #[trigger] b[i][j] == 0
    &&& forall|col: u8| 1 <= col <= colors ==> board_units(b).count(col) == h
}

/// Some number of full color glasses followed by some vacant glasses.
pub open spec fn dealt_shape(b: Seq<Seq<u8>>, h: int) -> bool {
    exists|colors: int, empties: int| #[trigger] dealt_shape_with(b, h, colors, empties)
}

/// One color split over two glasses with room to unite it: the tutorial
/// board, and the generator's last-resort board.
pub open spec fn split_shape(b: Seq<Seq<u8>>, h: int) -> bool {
    &&& b.len() == 2
    &&& forall|j: int| 0 <= j < h ==> #[trigger] b[0][j] == (if j < h / 2 {
        1u8
    } else {
        0u8
    })
    &&& forall|j: int| 0 <= j < h ==> #[trigger] b[1][j] == (if j < h - h / 2 {
        1u8
    } else {
        0u8
    })
}

/// A board of two glasses that split one color between them, with room to
/// unite it: pouring glass 0 onto glass 1 wins at once.
proof fn lemma_split_pair_winnable(b: Seq<Seq<u8>>, h: int, k: int)
    requires
        b.len() == 2,
        1 <= k < h,
        b[0].len() == h,
        b[1].len() == h,
        forall|j: int| 0 <= j < h ==> b[0][j] == (if j < k {
            1u8
        } else {
            0u8
        }),
        forall|j: int| 0 <= j < h ==> b[1][j] == (if j < h - k {
            1u8
        } else {
            0u8
        }),
    ensures
        pour_ok(b, 0, 1),
        board_win(pour_upd(b, 0, 1)),
{
    lemma_fill_char(b[0], k as nat);
    lemma_fill_char(b[1], (h - k) as nat);
    assert(run_of_at(b[0], 1) == 1);
    lemma_run_split(b[0], 1, k as nat);
    assert(run_of(b[0]) == k);
    assert(top_color_of(b[0]) == 1);
    assert(top_color_of(b[1]) == 1);
    assert(pour_ok(b, 0, 1));
    let d = drained(b[0], k as nat);
    let f = filled_up(b[1], k as nat, 1);
    assert forall|j: int| 0 <= j < h implies d[j] == 0 by {}
    assert forall|j: int| 0 <= j < h implies f[j] == 1 by {}
    let w = pour_upd(b, 0, 1);
    assert(w[0] == d && w[1] == f);
    assert forall|i: int, j: int| 0 <= i < w.len() && 0 <= j < w[i].len() implies #[trigger] w[i][j]
        == w[i][0] by {}
}

#[verifier::external_type_specification]
#[verifier::external_body]
pub struct ExLcg128Xsl64(rand_pcg::Lcg128Xsl64);

/// Relies on rand's `SeedableRng::seed_from_u64` for `Pcg64`: builds a
/// generator from a seed; nothing is assumed about the stream it produces.
#[verifier::external_body]
fn rng_from_seed(seed: u64) -> rand_pcg::Pcg64 {
    <rand_pcg::Pcg64 as rand::SeedableRng>::seed_from_u64(seed)
}

/// Relies on rand's `Rng::gen_range` on the inclusive range `0..=hi`, which
/// is never empty: the sample lies within the range.
#[verifier::external_body]
fn rng_up_to(rng: &mut rand_pcg::Pcg64, hi: usize) -> (r: usize)
    ensures
        r <= hi,
{
    rand::Rng::gen_range(rng, 0..=hi)
}

/// Relies on rand's `SliceRandom::shuffle`: a sequence of in-place swaps,
/// so the items are permuted and their multiset is unchanged.
#[verifier::external_body]
fn rng_shuffle(rng: &mut rand_pcg::Pcg64, items: &mut Vec<u8>)
    ensures
        final(items)@.len() == old(items)@.len(),
        final(items)@.to_multiset() == old(items)@.to_multiset(),
{
    rand::seq::SliceRandom::shuffle(items.as_mut_slice(), rng);
}

/// Build one glass whose bottom `units` cells hold `color` and whose
/// remaining cells are empty.
pub(crate) fn partial_glass(glass_height: usize, units: usize, color: u8) -> (r: Vec<u8>)
    requires
        units <= glass_height,
        color != 0,
    ensures
        r@.len() == glass_height,
        glass_wf(r@),
        fill_of(r@) == units,
        forall|j: int| 0 <= j < glass_height ==> r@[j] == (if j < units {
            color
        } else {
            0u8
        }),
{
    let mut r: Vec<u8> = Vec::new();
    let mut i: usize = 0;
    while i < glass_height
        invariant
            i <= glass_height,
            r@.len() == i,
            forall|j: int| 0 <= j < i ==> r@[j] == (if j < units {
                color
            } else {
                0u8
            }),
        decreases glass_height - i,
    {
        if i < units {
            r.push(color);
        } else {
            r.push(0);
        }
        i = i + 1;
    }
    proof {
        lemma_fill_char(r@, units as nat);
    }
    r
}

impl Level {
    /// Generate the level with the given number: a fixed two-glass tutorial
    /// for number 0, otherwise a shuffled board, deterministic in the level
    /// number, that the solver accepts as solvable and in which no glass
    /// starts out full of one color. Every cell holds a color id of at most
    /// `MAX_COLORS`.
    pub fn create(level_number: usize, glass_height: usize) -> (r: Level)
        requires
            1 <= glass_height <= 8,
            level_number > 0 ==> glass_height >= 2,
        ensures
            r.wf(),
            r.number == level_number,
            r.glass_height == glass_height,
            r.cur_view() == r.base_view(),
            r.moves@.len() == 0,
            r.move_counts@.len() == 0,
            r.base_view().len() >= 2,
            forall|i: int, j: int|
                0 <= i < r.base_view().len() && 0 <= j < r.base_view()[i].len()
                    ==> #[trigger] r.base_view()[i][j] <= crate::MAX_COLORS as u8,
            level_number == 0 ==> split_shape(r.base_view(), glass_height as int),
            level_number > 0 ==> dealt_shape(r.base_view(), glass_height as int) || split_shape(
                r.base_view(),
                glass_height as int,
            ),
            level_number > 0 ==> solvable(r.base_view()),
            level_number > 0 ==> !(exists|i: int|
                0 <= i < r.base_view().len() && (#[trigger] r.base_view()[i][0]) != 0 && (forall|
                    j: int,
                |
                    0 <= j < r.base_view()[i].len() ==> #[trigger] r.base_view()[i][j]
                        == r.base_view()[i][0])),
    {
        let mut level = Level::new(level_number, glass_height);

        // fixed tutorial board: one color split over two glasses
        if level_number == 0 {
            let half1 = glass_height / 2;
            let glass1 = partial_glass(glass_height, half1, 1);
            level.loaded.push(glass1);
            let glass2 = partial_glass(glass_height, glass_height - half1, 1);
            level.loaded.push(glass2);
            level.restart();
            proof {
                assert(level.base_view()[0] == level.loaded@[0]@);
                assert(level.base_view()[1] == level.loaded@[1]@);
                assert(split_shape(level.base_view(), glass_height as int));
            }
            return level;
        }

        // otherwise create a random level, seeded with the level number
        let mut rng = rng_from_seed(level_number as u64);
        let color_count: usize = if level_number <= 3 {
            level_number + 1
        } else {
            let c = if level_number / 7 + 3 < crate::MAX_COLORS {
                level_number / 7 + 3
            } else {
                crate::MAX_COLORS
            };
            if c > 8 {
                c - rng_up_to(&mut rng, 3)
            } else {
                c
            }
        };

        // grow the number of empty glasses until the board is solvable
        let mut empty_count: usize = 1;
        if color_count == crate::MAX_COLORS {
            empty_count = 2;
        }
        let mut done: bool = false;
        let mut attempts: usize = 0;
        while !done
            invariant
                2 <= color_count <= crate::MAX_COLORS,
                1 <= empty_count <= 5,
                2 <= glass_height <= 8,
                !done ==> attempts < RETRY_LIMIT,
                attempts <= RETRY_LIMIT,
                level.number == level_number,
                level.glass_height == glass_height,
                level.moves@.len() == 0,
                level.move_counts@.len() == 0,
                level.wf(),
                done ==> level.cur_view() == level.base_view(),
                done ==> level.base_view().len() >= 2,
                done ==> solvable(level.base_view()),
                done ==> dealt_shape(level.base_view(), glass_height as int) || split_shape(
                    level.base_view(),
                    glass_height as int,
                ),
                done ==> !(exists|i: int|
                    0 <= i < level.base_view().len() && (#[trigger] level.base_view()[i][0]) != 0
                        && (forall|j: int|
                        0 <= j < level.base_view()[i].len() ==> #[trigger] level.base_view()[i][j]
                            == level.base_view()[i][0])),
                done ==> forall|i: int, j: int|
                    0 <= i < level.base_view().len() && 0 <= j < level.base_view()[i].len()
                        ==> #[trigger] level.base_view()[i][j] <= crate::MAX_COLORS as u8,
            decreases RETRY_LIMIT - attempts,
        {
            attempts = attempts + 1;
            if attempts == RETRY_LIMIT {
                // last resort: a fixed split board that one pour wins
                level.loaded = Vec::new();
                let half = glass_height / 2;
                let glass1 = partial_glass(glass_height, half, 1);
                level.loaded.push(glass1);
                let glass2 = partial_glass(glass_height, glass_height - half, 1);
                level.loaded.push(glass2);
                level.restart();
                proof {
                    assert(level.base_view()[0] == level.loaded@[0]@);
                    assert(level.base_view()[1] == level.loaded@[1]@);
                    lemma_split_pair_winnable(
                        level.base_view(),
                        glass_height as int,
                        half as int,
                    );
                    assert(level.base_view()[0][glass_height - 1] == 0);
                    assert(level.base_view()[0][0] == 1);
                    assert(!board_win(level.base_view()));
                }
                let (keys, _size) = level.solve();
                let trivially_full = level.is_one_glass_same_color();
                proof {
                    assert(keys@.len() == 2);
                    assert(!trivially_full) by {
                        assert(level.cur_view()[0][glass_height - 1] == 0);
                        assert(level.cur_view()[1][glass_height - 1] == 0);
                        assert(level.cur_view()[0][0] == 1);
                        assert(level.cur_view()[1][0] == 1);
                    }
                    assert(solvable(level.base_view()));
                    assert(split_shape(level.base_view(), glass_height as int));
                }
                done = true;
            } else {

            // one unit of each color for every cell of a glass
            let mut mixed: Vec<u8> = Vec::new();
            proof {
                broadcast use vstd::seq_lib::group_to_multiset_ensures;
                broadcast use vstd::multiset::group_multiset_axioms;

                assert forall|col: u8| #[trigger] mixed@.to_multiset().count(col) == 0nat by {
                    assert(!mixed@.contains(col));
                }
            }
            let mut c: usize = 0;
            while c < color_count
                invariant
                    c <= color_count,
                    color_count <= crate::MAX_COLORS,
                    mixed@.len() == c * glass_height,
                    forall|x: int|
                        0 <= x < mixed@.len() ==> 1 <= #[trigger] mixed@[x]
                            && mixed@[x] <= color_count as u8,
                    forall|col: u8|
                        #[trigger] mixed@.to_multiset().count(col) == (if 1 <= col <= c {
                            glass_height as nat
                        } else {
                            0nat
                        }),
                decreases color_count - c,
            {
                let mut i: usize = 0;
                while i < glass_height
                    invariant
                        i <= glass_height,
                        c < color_count,
                        color_count <= crate::MAX_COLORS,
                        mixed@.len() == c * glass_height + i,
                        forall|x: int|
                            0 <= x < mixed@.len() ==> 1 <= #[trigger] mixed@[x]
                                && mixed@[x] <= color_count as u8,
                        forall|col: u8|
                            #[trigger] mixed@.to_multiset().count(col) == (if 1 <= col <= c {
                                glass_height as nat
                            } else if col == (c + 1) as u8 {
                                i as nat
                            } else {
                                0nat
                            }),
                    decreases glass_height - i,
                {
                    proof {
                        broadcast use vstd::seq_lib::group_to_multiset_ensures;
                        broadcast use vstd::multiset::group_multiset_axioms;

                    }
                    let ghost mb = mixed@;
                    mixed.push((c + 1) as u8);
                    proof {
                        broadcast use vstd::seq_lib::group_to_multiset_ensures;
                        broadcast use vstd::multiset::group_multiset_axioms;

                        assert(mixed@.to_multiset() == mb.to_multiset().insert((c + 1) as u8));
                        assert forall|col: u8|
                            #[trigger] mixed@.to_multiset().count(col) == (if 1 <= col <= c {
                                glass_height as nat
                            } else if col == (c + 1) as u8 {
                                (i + 1) as nat
                            } else {
                                0nat
                            }) by {
                            assert(mb.to_multiset().count(col) == (if 1 <= col <= c {
                                glass_height as nat
                            } else if col == (c + 1) as u8 {
                                i as nat
                            } else {
                                0nat
                            }));
                        }
                    }
                    i = i + 1;
                }
                proof {
                    assert((c + 1) * glass_height == c * glass_height + glass_height) by (
                    nonlinear_arith) {
                    }
                }
                c = c + 1;
            }

            // shuffle; a permutation keeps the per-color unit counts
            let ghost mixed_before = mixed@;
            rng_shuffle(&mut rng, &mut mixed);
            proof {
                assert forall|col: u8|
                    #[trigger] mixed@.to_multiset().count(col) == (if 1 <= col <= color_count {
                        glass_height as nat
                    } else {
                        0nat
                    }) by {
                    assert(mixed_before.to_multiset().count(col) == (if 1 <= col <= color_count {
                        glass_height as nat
                    } else {
                        0nat
                    }));
                }
            }
            proof {
                broadcast use vstd::seq_lib::group_to_multiset_ensures;

                assert forall|x: int| 0 <= x < mixed@.len() implies 1 <= #[trigger] mixed@[x]
                    && mixed@[x] <= color_count as u8 by {
                    assert(mixed@.to_multiset().count(mixed@[x]) > 0);
                    assert(mixed_before.to_multiset().count(mixed@[x]) > 0);
                    assert(mixed_before.contains(mixed@[x]));
                }
            }

            // deal the shuffled units into full glasses
            level.loaded = Vec::new();
            proof {
                assert(level.base_view() =~= Seq::<Seq<u8>>::empty());
                assert(mixed@.take(0) =~= Seq::<u8>::empty());
                assert(board_units(level.base_view()) =~= mixed@.take(0).to_multiset());
            }
            let mut c: usize = 0;
            while c < color_count
                invariant
                    c <= color_count,
                    color_count <= crate::MAX_COLORS,
                    1 <= glass_height <= 8,
                    level.wf(),
                    level.number == level_number,
                    level.moves@.len() == 0,
                    level.move_counts@.len() == 0,
                    mixed@.len() == color_count * glass_height,
                    forall|x: int|
                        0 <= x < mixed@.len() ==> 1 <= #[trigger] mixed@[x]
                            && mixed@[x] <= color_count as u8,
                    level.glass_height == glass_height,
                    level.loaded@.len() == c,
                    forall|i: int|
                        0 <= i < c ==> (#[trigger] level.base_view()[i]).len() == glass_height
                            && glass_wf(level.base_view()[i]),
                    forall|i: int, j: int|
                        0 <= i < c && 0 <= j < glass_height ==> 1 <= #[trigger] level.base_view(
                        )[i][j] && level.base_view()[i][j] <= color_count as u8,
                    board_units(level.base_view()) == mixed@.take(
                        (c * glass_height) as int,
                    ).to_multiset(),
                decreases color_count - c,
            {
                let mut glass: Vec<u8> = Vec::new();
                let mut i: usize = 0;
                while i < glass_height
                    invariant
                        i <= glass_height,
                        c < color_count,
                        1 <= glass_height <= 8,
                        color_count <= crate::MAX_COLORS,
                        mixed@.len() == color_count * glass_height,
                        glass@.len() == i,
                        forall|x: int|
                            0 <= x < mixed@.len() ==> 1 <= #[trigger] mixed@[x]
                                && mixed@[x] <= color_count as u8,
                        forall|j: int|
                            0 <= j < i ==> 1 <= #[trigger] glass@[j]
                                && glass@[j] <= color_count as u8,
                        forall|j: int|
                            0 <= j < i ==> #[trigger] glass@[j] == mixed@[c * glass_height + j],
                    decreases glass_height - i,
                {
                    proof {
                        assert(c * glass_height + i < color_count * glass_height
                            && c * glass_height + i < 96) by (nonlinear_arith)
                            requires
                                c < color_count,
                                i < glass_height,
                                0 <= c,
                                0 <= i,
                                0 < glass_height,
                                glass_height <= 8,
                                color_count <= 12,
                        {
                        }
                    }
                    glass.push(mixed[c * glass_height + i]);
                    i = i + 1;
                }
                proof {
                    lemma_fill_char(glass@, glass_height as nat);
                }
                let ghost base_before = level.base_view();
                level.loaded.push(glass);
                proof {
                    assert(level.base_view()[c as int] == glass@);
                    // the new glass's units are exactly its chunk of the deal
                    assert(level.base_view().drop_last() =~= base_before);
                    assert(level.base_view().last() == glass@);
                    assert(board_units(level.base_view()) == board_units(base_before).add(
                        glass_units(glass@),
                    ));
                    assert(glass@.subrange(0, glass_height as int) =~= glass@);
                    assert(glass_units(glass@) == glass@.to_multiset());
                    assert((c + 1) * glass_height == c * glass_height + glass_height && (c + 1)
                        * glass_height <= color_count * glass_height) by (nonlinear_arith)
                        requires
                            0 <= c < color_count,
                            0 < glass_height,
                    {
                    }
                    assert(glass@ =~= mixed@.subrange(
                        (c * glass_height) as int,
                        (c * glass_height + glass_height) as int,
                    ));
                    assert(mixed@.take(((c + 1) * glass_height) as int) =~= mixed@.take(
                        (c * glass_height) as int,
                    ) + mixed@.subrange(
                        (c * glass_height) as int,
                        (c * glass_height + glass_height) as int,
                    ));
                    vstd::seq_lib::lemma_multiset_commutative(
                        mixed@.take((c * glass_height) as int),
                        mixed@.subrange(
                            (c * glass_height) as int,
                            (c * glass_height + glass_height) as int,
                        ),
                    );
                    broadcast use vstd::multiset::group_multiset_axioms;

                    assert(board_units(level.base_view()) =~= mixed@.take(
                        ((c + 1) * glass_height) as int,
                    ).to_multiset());
                    assert forall|i: int| 0 <= i < level.base_view().len() implies (
                    #[trigger] level.base_view()[i]).len() == glass_height && glass_wf(
                        level.base_view()[i],
                    ) by {
                        if i < c {
                            assert(level.base_view()[i] == base_before[i]);
                        }
                    }
                    assert forall|i: int, j: int|
                        0 <= i < level.base_view().len() && 0 <= j < glass_height implies 1 <= (
                    #[trigger] level.base_view()[i][j]) && level.base_view()[i][j]
                        <= color_count as u8 by {
                        if i < c {
                            assert(level.base_view()[i] == base_before[i]);
                        }
                    }
                    assert(board_ok(level.base_view(), glass_height as nat));
                }
                c = c + 1;
            }

            // append the empty glasses
            proof {
                assert(mixed@.take((color_count * glass_height) as int) =~= mixed@);
            }
            let mut e: usize = 0;
            while e < empty_count
                invariant
                    e <= empty_count,
                    empty_count <= 5,
                    1 <= glass_height <= 8,
                    level.wf(),
                    level.number == level_number,
                    level.moves@.len() == 0,
                    level.move_counts@.len() == 0,
                    level.glass_height == glass_height,
                    level.loaded@.len() == color_count + e,
                    forall|i: int|
                        0 <= i < level.loaded@.len() ==> (#[trigger] level.base_view()[i]).len()
                            == glass_height && glass_wf(level.base_view()[i]),
                    forall|i: int, j: int|
                        0 <= i < level.loaded@.len() && 0 <= j < glass_height
                            ==> #[trigger] level.base_view()[i][j] <= crate::MAX_COLORS as u8,
                    forall|i: int, j: int|
                        0 <= i < color_count && 0 <= j < glass_height ==> 1 <= (
                        #[trigger] level.base_view()[i][j]) && level.base_view()[i][j]
                            <= color_count as u8,
                    forall|i: int, j: int|
                        color_count <= i < level.loaded@.len() && 0 <= j < glass_height
                            ==> #[trigger] level.base_view()[i][j] == 0,
                    board_units(level.base_view()) == mixed@.to_multiset(),
                decreases empty_count - e,
            {
                let empty_glass = partial_glass(glass_height, 0, 1);
                let ghost base_before = level.base_view();
                level.loaded.push(empty_glass);
                proof {
                    let last = level.base_view().len() - 1;
                    assert(level.base_view()[last] == empty_glass@);
                    assert forall|i: int| 0 <= i < level.base_view().len() implies (
                    #[trigger] level.base_view()[i]).len() == glass_height && glass_wf(
                        level.base_view()[i],
                    ) by {
                        if i < last {
                            assert(level.base_view()[i] == base_before[i]);
                        }
                    }
                    assert forall|i: int, j: int|
                        0 <= i < level.base_view().len() && 0 <= j < glass_height implies (
                    #[trigger] level.base_view()[i][j]) <= crate::MAX_COLORS as u8 by {
                        if i < last {
                            assert(level.base_view()[i] == base_before[i]);
                        }
                    }
                    assert forall|i: int, j: int|
                        color_count <= i < level.base_view().len() && 0 <= j < glass_height
                        implies (#[trigger] level.base_view()[i][j]) == 0 by {
                        if i < last {
                            assert(level.base_view()[i] == base_before[i]);
                        }
                    }
                    assert forall|i: int, j: int|
                        0 <= i < color_count && 0 <= j < glass_height implies 1 <= (
                    #[trigger] level.base_view()[i][j]) && level.base_view()[i][j]
                        <= color_count as u8 by {
                        assert(level.base_view()[i] == base_before[i]);
                    }
                    assert(board_ok(level.base_view(), glass_height as nat));
                    // a vacant glass holds no units
                    assert(level.base_view().drop_last() =~= base_before);
                    assert(board_units(level.base_view()) == board_units(base_before).add(
                        glass_units(empty_glass@),
                    ));
                    assert(empty_glass@.subrange(0, 0) =~= Seq::<u8>::empty());
                    assert(glass_units(empty_glass@) == Seq::<u8>::empty().to_multiset());
                    broadcast use vstd::multiset::group_multiset_axioms;
                    broadcast use vstd::seq_lib::group_to_multiset_ensures;

                    assert(board_units(level.base_view()) =~= board_units(base_before));
                }
                e = e + 1;
            }

            level.restart();
            proof {
                assert(mixed@.take((color_count * glass_height) as int) =~= mixed@);
                assert forall|col: u8| 1 <= col <= color_count implies board_units(
                    level.base_view(),
                ).count(col) == glass_height by {
                    assert(mixed@.to_multiset().count(col) == glass_height as nat);
                }
                assert(dealt_shape_with(
                    level.base_view(),
                    glass_height as int,
                    color_count as int,
                    empty_count as int,
                ));
            }
            let (keys, _size) = level.solve();
            if keys.len() > 0 && !level.is_one_glass_same_color() {
                done = true;
            } else if empty_count < 5 {
                empty_count = empty_count + 1;
            }

            }
        }
        level.restart();
        level
    }
}

} // verus!
