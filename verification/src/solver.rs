//! Exhaustive depth-first solver: explores every legal pour from a board,
//! deduplicates states by canonical form, records every winning move
//! sequence it reaches, and reports a shortest one together with the number
//! of distinct states explored. Termination rests on the finiteness of the
//! board state space (see `space`).
use vstd::prelude::*;

use crate::board::{board_win, glass_views, pour_ok, pour_upd};
use crate::canonical::{canonical_form, canonical_of, lemma_canonical_multiset};
use crate::laws::{lemma_solves_transport, lemma_win_multiset};
use crate::level::{copy_board, copy_glass, Level};
use crate::space::{board_dims, board_space, lemma_board_count_bound};

verus! {

/// Replay a sequence of pours from a board: `None` as soon as a pour is
/// illegal, otherwise the board each pour leads to.
pub open spec fn replay(b: Seq<Seq<u8>>, ms: Seq<(int, int)>) -> Option<Seq<Seq<u8>>>
    decreases ms.len(),
{
    if ms.len() == 0 {
        Some(b)
    } else if pour_ok(b, ms[0].0, ms[0].1) {
        replay(pour_upd(b, ms[0].0, ms[0].1), ms.drop_first())
    } else {
        None
    }
}

/// Decode the flat byte encoding of a move sequence: each move contributes
/// its source index and then its destination index.
pub open spec fn pairs_of(s: Seq<u8>) -> Seq<(int, int)>
    decreases s.len(),
{
    if s.len() < 2 {
        Seq::empty()
    } else {
        seq![(s[0] as int, s[1] as int)] + pairs_of(s.skip(2))
    }
}

/// A flat move sequence solves a board: replaying it step by legal step
/// ends in a winning board.
pub open spec fn solves(b: Seq<Seq<u8>>, s: Seq<u8>) -> bool {
    &&& s.len() % 2 == 0
    &&& match replay(b, pairs_of(s)) {
        Some(w) => board_win(w),
        None => false,
    }
}

/// Some flat move sequence solves the board.
pub open spec fn solvable(b: Seq<Seq<u8>>) -> bool {
    exists|s: Seq<u8>| solves(b, s)
}

/// Replaying one more pour: the new pour applies to wherever the earlier
/// pours led.
pub proof fn lemma_replay_snoc(b: Seq<Seq<u8>>, ms: Seq<(int, int)>, m: (int, int))
    ensures
        replay(b, ms) is Some && pour_ok(replay(b, ms)->0, m.0, m.1) ==> replay(b, ms.push(m))
            == Some(pour_upd(replay(b, ms)->0, m.0, m.1)),
        !(replay(b, ms) is Some && pour_ok(replay(b, ms)->0, m.0, m.1)) ==> replay(b, ms.push(m))
            is None,
    decreases ms.len(),
{
    if ms.len() == 0 {
        assert(ms.push(m)[0] == m);
        assert(ms.push(m).drop_first() =~= Seq::<(int, int)>::empty());
        if pour_ok(b, m.0, m.1) {
            assert(replay(pour_upd(b, m.0, m.1), Seq::<(int, int)>::empty()) == Some(
                pour_upd(b, m.0, m.1),
            ));
        }
    } else {
        assert(ms.push(m)[0] == ms[0]);
        assert(ms.push(m).drop_first() =~= ms.drop_first().push(m));
        if pour_ok(b, ms[0].0, ms[0].1) {
            lemma_replay_snoc(pour_upd(b, ms[0].0, ms[0].1), ms.drop_first(), m);
        }
    }
}

/// Appending one encoded move to an even flat sequence appends one decoded
/// pair.
pub proof fn lemma_pairs_snoc(s: Seq<u8>, a: u8, b: u8)
    requires
        s.len() % 2 == 0,
    ensures
        pairs_of(s.push(a).push(b)) == pairs_of(s).push((a as int, b as int)),
    decreases s.len(),
{
    let t = s.push(a).push(b);
    if s.len() == 0 {
        assert(t[0] == a && t[1] == b);
        assert(t.skip(2) =~= Seq::<u8>::empty());
        assert(pairs_of(t) == seq![(a as int, b as int)] + pairs_of(t.skip(2)));
        assert(pairs_of(t.skip(2)) == Seq::<(int, int)>::empty());
        assert(pairs_of(s) == Seq::<(int, int)>::empty());
        assert(pairs_of(t) =~= pairs_of(s).push((a as int, b as int)));
    } else {
        assert(t[0] == s[0] && t[1] == s[1]);
        assert(t.skip(2) =~= s.skip(2).push(a).push(b));
        lemma_pairs_snoc(s.skip(2), a, b);
        assert(pairs_of(t) == seq![(t[0] as int, t[1] as int)] + pairs_of(t.skip(2)));
        assert(pairs_of(s) == seq![(s[0] as int, s[1] as int)] + pairs_of(s.skip(2)));
        assert(pairs_of(t.skip(2)) == pairs_of(s.skip(2)).push((a as int, b as int)));
        assert(pairs_of(t) =~= pairs_of(s).push((a as int, b as int)));
    }
}

/// The boards a visited set holds, as values.
pub open spec fn tested_views(t: Seq<Vec<Vec<u8>>>) -> Seq<Seq<Seq<u8>>> {
    Seq::new(t.len(), |i: int| glass_views(t[i]@))
}

/// Invariant of the visited set: boards of one shape, no duplicates, none
/// of them winning (winning boards are recorded as solutions, not visited).
pub open spec fn tested_inv(t: Seq<Vec<Vec<u8>>>, n: nat, h: nat) -> bool {
    &&& tested_views(t).no_duplicates()
    &&& forall|i: int| 0 <= i < t.len() ==> board_dims(#[trigger] tested_views(t)[i], n, h)
    &&& forall|i: int| 0 <= i < t.len() ==> !board_win(#[trigger] tested_views(t)[i])
}

/// A board from which the scan has examined every legal pour: a winning
/// successor put a solution on record (`found`), and every other
/// successor's canonical form is in the visited set.
pub open spec fn state_expanded(s: Seq<Seq<u8>>, tv: Seq<Seq<Seq<u8>>>, found: bool) -> bool {
    forall|f: int, t: int|
        #[trigger] pour_ok(s, f, t) ==> (board_win(pour_upd(s, f, t)) && found) || tv.contains(
            canonical_of(pour_upd(s, f, t)),
        )
}

/// Every entry of the visited set is the canonical form of a board that
/// some pour sequence reaches from `root`.
pub open spec fn visited_reachable(tv: Seq<Seq<Seq<u8>>>, root: Seq<Seq<u8>>) -> bool {
    forall|i: int|
        0 <= i < tv.len() ==> exists|ms: Seq<(int, int)>|
            replay(root, ms) is Some && canonical_of(replay(root, ms)->0) == #[trigger] tv[i]
}

/// A visited entry is accounted for when some board with that canonical
/// form has been fully expanded, or the entry's board is still on the
/// stack of boards being expanded (`anc`).
pub open spec fn entry_accounted(
    entry: Seq<Seq<u8>>,
    tv: Seq<Seq<Seq<u8>>>,
    found: bool,
    anc: Seq<Seq<Seq<u8>>>,
) -> bool {
    ||| exists|s: Seq<Seq<u8>>| canonical_of(s) == entry && #[trigger] state_expanded(s, tv, found)
    ||| exists|a: int| 0 <= a < anc.len() && canonical_of(#[trigger] anc[a]) == entry
}

/// Every visited entry is accounted for.
pub open spec fn visited_accounted(
    tv: Seq<Seq<Seq<u8>>>,
    found: bool,
    anc: Seq<Seq<Seq<u8>>>,
) -> bool {
    forall|i: int| 0 <= i < tv.len() ==> entry_accounted(#[trigger] tv[i], tv, found, anc)
}

/// Growing the visited set, recording more solutions, or shrinking the
/// pending stack can only keep entries accounted for.
proof fn lemma_accounted_monotone(
    tv1: Seq<Seq<Seq<u8>>>,
    tv2: Seq<Seq<Seq<u8>>>,
    found1: bool,
    found2: bool,
    anc1: Seq<Seq<Seq<u8>>>,
    anc2: Seq<Seq<Seq<u8>>>,
)
    requires
        tv1.len() <= tv2.len(),
        forall|i: int| 0 <= i < tv1.len() ==> tv2[i] == tv1[i],
        found1 ==> found2,
        anc1.len() <= anc2.len(),
        forall|i: int| 0 <= i < anc1.len() ==> anc2[i] == #[trigger] anc1[i],
        visited_accounted(tv1, found1, anc1),
    ensures
        forall|i: int| 0 <= i < tv1.len() ==> entry_accounted(#[trigger] tv2[i], tv2, found2, anc2),
{
    assert forall|i: int| 0 <= i < tv1.len() implies entry_accounted(
        #[trigger] tv2[i],
        tv2,
        found2,
        anc2,
    ) by {
        assert(entry_accounted(tv1[i], tv1, found1, anc1));
        if exists|s: Seq<Seq<u8>>|
            canonical_of(s) == tv1[i] && #[trigger] state_expanded(s, tv1, found1) {
            let s = choose|s: Seq<Seq<u8>>|
                canonical_of(s) == tv1[i] && #[trigger] state_expanded(s, tv1, found1);
            assert forall|f: int, t: int| #[trigger] pour_ok(s, f, t) implies (board_win(
                pour_upd(s, f, t),
            ) && found2) || tv2.contains(canonical_of(pour_upd(s, f, t))) by {
                if !(board_win(pour_upd(s, f, t)) && found1) {
                    let c = canonical_of(pour_upd(s, f, t));
                    let x = choose|x: int| 0 <= x < tv1.len() && tv1[x] == c;
                    assert(tv2[x] == c);
                }
            }
            assert(state_expanded(s, tv2, found2));
        } else {
            let a = choose|a: int| 0 <= a < anc1.len() && canonical_of(#[trigger] anc1[a]) == tv1[i];
            assert(anc2[a] == anc1[a]);
            assert(canonical_of(anc2[a]) == tv1[i]);
        }
    }
}

/// A visited set that only grows keeps everything it contained.
proof fn lemma_tv_grow(t1: Seq<Vec<Vec<u8>>>, t2: Seq<Vec<Vec<u8>>>)
    requires
        t1.len() <= t2.len(),
        forall|i: int| 0 <= i < t1.len() ==> t2[i] == t1[i],
    ensures
        forall|c: Seq<Seq<u8>>|
            #[trigger] tested_views(t1).contains(c) ==> tested_views(t2).contains(c),
{
    assert forall|c: Seq<Seq<u8>>| #[trigger] tested_views(t1).contains(c) implies tested_views(
        t2,
    ).contains(c) by {
        let i = choose|i: int| 0 <= i < tested_views(t1).len() && tested_views(t1)[i] == c;
        assert(tested_views(t2)[i] == c);
    }
}

/// Completeness of the scan: from a board whose every legal pour has been
/// examined, against a fully accounted-for winning-free visited set, any
/// winning pour sequence forces a recorded solution.
proof fn lemma_scan_complete(
    s: Seq<Seq<u8>>,
    ms: Seq<(int, int)>,
    tv: Seq<Seq<Seq<u8>>>,
    found: bool,
)
    requires
        replay(s, ms) is Some,
        board_win(replay(s, ms)->0),
        ms.len() >= 1,
        state_expanded(s, tv, found),
        visited_accounted(tv, found, Seq::<Seq<Seq<u8>>>::empty()),
        forall|i: int| 0 <= i < tv.len() ==> !board_win(#[trigger] tv[i]),
    ensures
        found,
    decreases ms.len(),
{
    let f = ms[0].0;
    let t = ms[0].1;
    assert(pour_ok(s, f, t));
    let s1 = pour_upd(s, f, t);
    assert(replay(s1, ms.drop_first()) == replay(s, ms));
    if board_win(s1) {
        if tv.contains(canonical_of(s1)) {
            let i = choose|i: int| 0 <= i < tv.len() && tv[i] == canonical_of(s1);
            lemma_canonical_multiset(s1);
            lemma_win_multiset(s1, canonical_of(s1));
            assert(false);
        }
        assert(found);
    } else {
        assert(ms.len() >= 2) by {
            if ms.len() == 1 {
                assert(ms.drop_first().len() == 0);
                assert(replay(s1, ms.drop_first()) == Some(s1));
            }
        }
        assert(tv.contains(canonical_of(s1)));
        let i = choose|i: int| 0 <= i < tv.len() && tv[i] == canonical_of(s1);
        assert(entry_accounted(tv[i], tv, found, Seq::<Seq<Seq<u8>>>::empty()));
        let w = choose|w: Seq<Seq<u8>>|
            canonical_of(w) == tv[i] && #[trigger] state_expanded(w, tv, found);
        lemma_canonical_multiset(s1);
        lemma_canonical_multiset(w);
        assert(s1.to_multiset() == w.to_multiset());
        lemma_solves_transport(s1, w, ms.drop_first());
        let ms2 = choose|ms2: Seq<(int, int)>|
            ms2.len() == ms.drop_first().len() && #[trigger] replay(w, ms2) is Some && board_win(
                replay(w, ms2)->0,
            );
        lemma_scan_complete(w, ms2, tv, found);
    }
}

/// True iff two boards hold equal glasses in equal order.
fn boards_equal(a: &Vec<Vec<u8>>, b: &Vec<Vec<u8>>) -> (r: bool)
    ensures
        r == (glass_views(a@) == glass_views(b@)),
{
    if a.len() != b.len() {
        assert(glass_views(a@).len() != glass_views(b@).len());
        return false;
    }
    let mut i: usize = 0;
    while i < a.len()
        invariant
            i <= a@.len(),
            a@.len() == b@.len(),
            forall|x: int| 0 <= x < i ==> glass_views(a@)[x] == glass_views(b@)[x],
        decreases a@.len() - i,
    {
        if !cells_equal(&a[i], &b[i]) {
            assert(glass_views(a@)[i as int] != glass_views(b@)[i as int]);
            return false;
        }
        i = i + 1;
    }
    proof {
        assert(glass_views(a@) =~= glass_views(b@));
    }
    true
}

/// True iff two glasses hold equal cells.
fn cells_equal(a: &Vec<u8>, b: &Vec<u8>) -> (r: bool)
    ensures
        r == (a@ == b@),
{
    if a.len() != b.len() {
        return false;
    }
    let mut i: usize = 0;
    while i < a.len()
        invariant
            i <= a@.len(),
            a@.len() == b@.len(),
            forall|x: int| 0 <= x < i ==> a@[x] == b@[x],
        decreases a@.len() - i,
    {
        if a[i] != b[i] {
            return false;
        }
        i = i + 1;
    }
    proof {
        assert(a@ =~= b@);
    }
    true
}

/// True iff the visited set already holds this board.
pub(crate) fn contains_board(tested: &Vec<Vec<Vec<u8>>>, b: &Vec<Vec<u8>>) -> (r: bool)
    ensures
        r == exists|i: int|
            0 <= i < tested@.len() && #[trigger] tested_views(tested@)[i] == glass_views(b@),
{
    let mut i: usize = 0;
    while i < tested.len()
        invariant
            i <= tested@.len(),
            forall|x: int| 0 <= x < i ==> #[trigger] tested_views(tested@)[x] != glass_views(b@),
        decreases tested@.len() - i,
    {
        if boards_equal(&tested[i], b) {
            assert(tested_views(tested@)[i as int] == glass_views(b@));
            return true;
        }
        i = i + 1;
    }
    false
}

impl Level {
    /// Depth-first search from the current board. Tries every ordered pair
    /// of glasses; a legal pour is applied, recorded on the path, checked
    /// for a win, recursed into if its canonical form is new, and undone.
    /// The board and the path come back exactly as they went in; every
    /// winning path found is appended to `solutions`.
    fn solve_impl(
        &mut self,
        tested: &mut Vec<Vec<Vec<u8>>>,
        solutions: &mut Vec<Vec<u8>>,
        solution: &mut Vec<u8>,
        root: Ghost<Seq<Seq<u8>>>,
        anc: Ghost<Seq<Seq<Seq<u8>>>>,
    )
        requires
            old(self).wf(),
            old(self).cur_view().len() <= 255,
            tested_inv(
                old(tested)@,
                old(self).cur_view().len() as nat,
                old(self).glass_height as nat,
            ),
            old(solution)@.len() % 2 == 0,
            replay(root@, pairs_of(old(solution)@)) == Some(old(self).cur_view()),
            anc@.len() >= 1,
            anc@.last() == old(self).cur_view(),
            visited_accounted(tested_views(old(tested)@), old(solutions)@.len() > 0, anc@),
            visited_reachable(tested_views(old(tested)@), root@),
        ensures
            final(self).wf(),
            final(self).cur_view() == old(self).cur_view(),
            final(self).loaded == old(self).loaded,
            final(self).number == old(self).number,
            final(self).glass_height == old(self).glass_height,
            final(self).moves@ == old(self).moves@,
            final(self).move_counts@ == old(self).move_counts@,
            final(solution)@ == old(solution)@,
            tested_inv(
                final(tested)@,
                old(self).cur_view().len() as nat,
                old(self).glass_height as nat,
            ),
            final(tested)@.len() >= old(tested)@.len(),
            final(solutions)@.len() >= old(solutions)@.len(),
            forall|i: int|
                0 <= i < old(solutions)@.len() ==> final(solutions)@[i] == old(solutions)@[i],
            forall|i: int|
                old(solutions)@.len() <= i < final(solutions)@.len() ==> solves(
                    root@,
                    (#[trigger] final(solutions)@[i])@,
                ),
            (exists|f: int, t: int|
                pour_ok(old(self).cur_view(), f, t) && board_win(
                    pour_upd(old(self).cur_view(), f, t),
                )) ==> exists|i: int|
                old(solutions)@.len() <= i < final(solutions)@.len() && (
                #[trigger] final(solutions)@[i])@.len() == old(solution)@.len() + 2,
            forall|i: int| 0 <= i < old(tested)@.len() ==> final(tested)@[i] == old(tested)@[i],
            forall|f: int, t: int|
                #[trigger] pour_ok(old(self).cur_view(), f, t) && !board_win(
                    pour_upd(old(self).cur_view(), f, t),
                ) ==> tested_views(final(tested)@).contains(
                    canonical_of(pour_upd(old(self).cur_view(), f, t)),
                ),
            visited_accounted(
                tested_views(final(tested)@),
                final(solutions)@.len() > 0,
                anc@.drop_last(),
            ),
            visited_reachable(tested_views(final(tested)@), root@),
            forall|i: int|
                old(solutions)@.len() <= i < final(solutions)@.len() ==> (
                #[trigger] final(solutions)@[i])@.len() >= old(solution)@.len()
                    && (final(solutions)@[i])@.take(old(solution)@.len() as int)
                    == old(solution)@,
        decreases board_space(
            old(self).cur_view().len() as nat,
            old(self).glass_height as nat,
        ) - old(tested)@.len(),
    {
        let ghost n = old(self).cur_view().len() as nat;
        let ghost h = old(self).glass_height as nat;
        let last = copy_board(&self.current);
        let last_solution = copy_glass(solution);
        let glass_count = self.current.len();
        let mut from: usize = 0;
        while from < glass_count
            invariant
                from <= glass_count,
                glass_count == n,
                n == old(self).cur_view().len(),
                n <= 255,
                h == old(self).glass_height as nat,
                old(self).wf(),
                self.wf(),
                self.cur_view() == old(self).cur_view(),
                self.loaded == old(self).loaded,
                self.number == old(self).number,
                self.glass_height == old(self).glass_height,
                self.moves@ == old(self).moves@,
                self.move_counts@ == old(self).move_counts@,
                glass_views(last@) == old(self).cur_view(),
                last_solution@ == old(solution)@,
                solution@ == old(solution)@,
                solution@.len() % 2 == 0,
                replay(root@, pairs_of(solution@)) == Some(old(self).cur_view()),
                tested_inv(tested@, n, h),
                tested@.len() >= old(tested)@.len(),
                forall|i: int| 0 <= i < old(tested)@.len() ==> tested@[i] == old(tested)@[i],
                visited_accounted(tested_views(tested@), solutions@.len() > 0, anc@),
                visited_reachable(tested_views(tested@), root@),
                solutions@.len() >= old(solutions)@.len(),
                forall|i: int|
                    0 <= i < old(solutions)@.len() ==> solutions@[i] == old(solutions)@[i],
                forall|i: int|
                    old(solutions)@.len() <= i < solutions@.len() ==> solves(
                        root@,
                        (#[trigger] solutions@[i])@,
                    ),
                forall|f: int, t: int|
                    0 <= f < from && 0 <= t < glass_count && pour_ok(old(self).cur_view(), f, t)
                        && board_win(pour_upd(old(self).cur_view(), f, t)) ==> exists|i: int|
                        old(solutions)@.len() <= i < solutions@.len() && (
                        #[trigger] solutions@[i])@.len() == old(solution)@.len() + 2,
                forall|f: int, t: int|
                    0 <= f < from && 0 <= t < glass_count && #[trigger] pour_ok(
                        old(self).cur_view(),
                        f,
                        t,
                    ) && !board_win(pour_upd(old(self).cur_view(), f, t)) ==> tested_views(
                        tested@,
                    ).contains(canonical_of(pour_upd(old(self).cur_view(), f, t))),
                forall|i: int|
                    old(solutions)@.len() <= i < solutions@.len() ==> (
                    #[trigger] solutions@[i])@.len() >= old(solution)@.len() && (solutions@[i])@.take(
                        old(solution)@.len() as int,
                    ) == old(solution)@,
            decreases glass_count - from,
        {
            let mut to: usize = 0;
            while to < glass_count
                invariant
                    from < glass_count,
                    to <= glass_count,
                    glass_count == n,
                    n == old(self).cur_view().len(),
                    n <= 255,
                    h == old(self).glass_height as nat,
                    old(self).wf(),
                    self.wf(),
                    self.cur_view() == old(self).cur_view(),
                    self.loaded == old(self).loaded,
                    self.number == old(self).number,
                    self.glass_height == old(self).glass_height,
                    self.moves@ == old(self).moves@,
                    self.move_counts@ == old(self).move_counts@,
                    glass_views(last@) == old(self).cur_view(),
                    last_solution@ == old(solution)@,
                    solution@ == old(solution)@,
                    solution@.len() % 2 == 0,
                    replay(root@, pairs_of(solution@)) == Some(old(self).cur_view()),
                    tested_inv(tested@, n, h),
                    tested@.len() >= old(tested)@.len(),
                    forall|i: int| 0 <= i < old(tested)@.len() ==> tested@[i] == old(tested)@[i],
                    visited_accounted(tested_views(tested@), solutions@.len() > 0, anc@),
                    visited_reachable(tested_views(tested@), root@),
                    solutions@.len() >= old(solutions)@.len(),
                    forall|i: int|
                        0 <= i < old(solutions)@.len() ==> solutions@[i] == old(solutions)@[i],
                    forall|i: int|
                        old(solutions)@.len() <= i < solutions@.len() ==> solves(
                            root@,
                            (#[trigger] solutions@[i])@,
                        ),
                    forall|f: int, t: int|
                        0 <= f < from && 0 <= t < glass_count && pour_ok(old(self).cur_view(), f, t)
                            && board_win(pour_upd(old(self).cur_view(), f, t)) ==> exists|i: int|
                            old(solutions)@.len() <= i < solutions@.len() && (
                            #[trigger] solutions@[i])@.len() == old(solution)@.len() + 2,
                    forall|t: int|
                        0 <= t < to && pour_ok(old(self).cur_view(), from as int, t) && board_win(
                            pour_upd(old(self).cur_view(), from as int, t),
                        ) ==> exists|i: int|
                            old(solutions)@.len() <= i < solutions@.len() && (
                            #[trigger] solutions@[i])@.len() == old(solution)@.len() + 2,
                    forall|f: int, t: int|
                        0 <= f < from && 0 <= t < glass_count && #[trigger] pour_ok(
                            old(self).cur_view(),
                            f,
                            t,
                        ) && !board_win(pour_upd(old(self).cur_view(), f, t)) ==> tested_views(
                            tested@,
                        ).contains(canonical_of(pour_upd(old(self).cur_view(), f, t))),
                    forall|t: int|
                        0 <= t < to && #[trigger] pour_ok(old(self).cur_view(), from as int, t)
                            && !board_win(pour_upd(old(self).cur_view(), from as int, t))
                            ==> tested_views(tested@).contains(
                            canonical_of(pour_upd(old(self).cur_view(), from as int, t)),
                        ),
                    forall|i: int|
                        old(solutions)@.len() <= i < solutions@.len() ==> (
                        #[trigger] solutions@[i])@.len() >= old(solution)@.len() && (solutions@[i])@.take(
                            old(solution)@.len() as int,
                        ) == old(solution)@,
                decreases glass_count - to,
            {
                if from != to {
                    let ghost sol_before = solution@;
                    let ghost sols_before = solutions@;
                    let ghost tested_before = tested@;
                    if self.move_water(from, to, false) {
                        solution.push(from as u8);
                        solution.push(to as u8);
                        proof {
                            lemma_pairs_snoc(sol_before, from as u8, to as u8);
                            lemma_replay_snoc(
                                root@,
                                pairs_of(sol_before),
                                (from as int, to as int),
                            );
                            assert(replay(root@, pairs_of(solution@)) == Some(self.cur_view()));
                        }
                        if self.test_win() {
                            let win_path = copy_glass(solution);
                            solutions.push(win_path);
                            proof {
                                assert(solves(root@, solutions@.last()@));
                                assert(solutions@.last()@.len() == old(solution)@.len() + 2);
                                assert(solutions@.last()@.take(old(solution)@.len() as int)
                                    =~= old(solution)@);
                                lemma_accounted_monotone(
                                    tested_views(tested@),
                                    tested_views(tested@),
                                    sols_before.len() > 0,
                                    solutions@.len() > 0,
                                    anc@,
                                    anc@,
                                );
                            }
                        } else {
                            proof {
                                assert forall|x: int| 0 <= x < self.current@.len() implies (
                                #[trigger] self.current@[x]@).len() <= 8 by {
                                    assert(self.cur_view()[x].len() == self.glass_height);
                                }
                            }
                            let copy = canonical_form(&self.current);
                            proof {
                                assert(glass_views(copy@) == canonical_of(self.cur_view()));
                            }
                            if !contains_board(tested, &copy) {
                                tested.push(copy);
                                proof {
                                    let tv = tested_views(tested@);
                                    let pv = tested_views(tested_before);
                                    let cv = glass_views(tested@.last()@);
                                    assert(tv =~= pv.push(cv));
                                    assert forall|i: int, j: int|
                                        0 <= i < tv.len() && 0 <= j < tv.len() && i != j
                                        implies tv[i] != tv[j] by {
                                        if i < tv.len() - 1 && j < tv.len() - 1 {
                                            assert(pv[i] == tv[i] && pv[j] == tv[j]);
                                        }
                                    }
                                    assert(tv.no_duplicates());
                                    assert(cv.len() == n);
                                    assert forall|i: int| 0 <= i < tested@.len()
                                        implies board_dims(#[trigger] tv[i], n, h) by {
                                        if i == tested@.len() - 1 {
                                            assert(tv[i] == cv);
                                            assert forall|x: int| 0 <= x < cv.len()
                                                implies (#[trigger] cv[x]).len() == h by {
                                                assert(glass_views(self.current@).contains(cv[x]));
                                                let y = choose|y: int|
                                                    0 <= y < glass_views(self.current@).len()
                                                        && glass_views(self.current@)[y] == cv[x];
                                                assert(self.cur_view()[y].len() == h);
                                            }
                                        } else {
                                            assert(pv[i] == tv[i]);
                                        }
                                    }
                                    assert forall|i: int| 0 <= i < tested@.len()
                                        implies !board_win(#[trigger] tv[i]) by {
                                        if i == tested@.len() - 1 {
                                            assert(tv[i] == cv);
                                            if board_win(cv) {
                                                crate::canonical::lemma_canonical_multiset(
                                                    self.cur_view(),
                                                );
                                                crate::laws::lemma_win_multiset(
                                                    cv,
                                                    self.cur_view(),
                                                );
                                            }
                                        } else {
                                            assert(pv[i] == tv[i]);
                                        }
                                    }
                                    lemma_board_count_bound(tv, n, h);
                                    // the callee sees this board on the pending stack
                                    let anc2 = anc@.push(self.cur_view());
                                    lemma_accounted_monotone(
                                        pv,
                                        tv,
                                        sols_before.len() > 0,
                                        solutions@.len() > 0,
                                        anc@,
                                        anc2,
                                    );
                                    assert(tv[tv.len() - 1] == cv);
                                    assert(canonical_of(anc2[anc2.len() - 1]) == cv);
                                    assert(entry_accounted(
                                        cv,
                                        tv,
                                        solutions@.len() > 0,
                                        anc2,
                                    ));
                                    assert(visited_accounted(tv, solutions@.len() > 0, anc2));
                                    assert forall|i: int| 0 <= i < tv.len() implies exists|
                                        ms: Seq<(int, int)>,
                                    |
                                        replay(root@, ms) is Some && canonical_of(
                                            replay(root@, ms)->0,
                                        ) == #[trigger] tv[i] by {
                                        if i < tv.len() - 1 {
                                            assert(tv[i] == pv[i]);
                                        } else {
                                            let w = pairs_of(solution@);
                                            assert(replay(root@, w) is Some && canonical_of(
                                                replay(root@, w)->0,
                                            ) == tv[i]);
                                        }
                                    }
                                    assert(visited_reachable(tv, root@));
                                }
                                let ghost tested_at_call = tested@;
                                let ghost sols_at_call = solutions@;
                                let ghost sol_at_call = solution@;
                                self.solve_impl(
                                    tested,
                                    solutions,
                                    solution,
                                    root,
                                    Ghost(anc@.push(self.cur_view())),
                                );
                                proof {
                                    assert((anc@.push(self.cur_view())).drop_last() =~= anc@);
                                    assert(visited_accounted(
                                        tested_views(tested@),
                                        solutions@.len() > 0,
                                        anc@,
                                    ));
                                    // old facts about the smaller visited set carry over
                                    assert forall|i: int| 0 <= i < tested_before.len()
                                        implies tested@[i] == tested_before[i] by {
                                        assert(tested@[i] == tested_at_call[i]);
                                    }
                                    lemma_tv_grow(tested_before, tested@);
                                    assert(tested_views(tested@).contains(
                                        canonical_of(self.cur_view()),
                                    )) by {
                                        assert(tested_views(tested_at_call)[tested_before.len() as int]
                                            == canonical_of(self.cur_view()));
                                        assert(tested@[tested_before.len() as int]
                                            == tested_at_call[tested_before.len() as int]);
                                        assert(tested_views(tested@)[tested_before.len() as int]
                                            == canonical_of(self.cur_view()));
                                    }
                                    // prefixes compose: the recursion's new solutions carry the
                                    // path at the call, which extends this path
                                    assert forall|i: int|
                                        sols_at_call.len() <= i < solutions@.len() implies (
                                    #[trigger] solutions@[i])@.len() >= old(solution)@.len() && (
                                    solutions@[i])@.take(old(solution)@.len() as int) == old(
                                        solution,
                                    )@ by {
                                        assert((solutions@[i])@.take(sol_at_call.len() as int)
                                            == sol_at_call);
                                        assert(((solutions@[i])@.take(sol_at_call.len() as int)).take(
                                            old(solution)@.len() as int,
                                        ) =~= (solutions@[i])@.take(old(solution)@.len() as int));
                                        assert(sol_at_call.take(old(solution)@.len() as int)
                                            =~= old(solution)@);
                                    }
                                }
                            } else {
                                proof {
                                    assert(tested_views(tested@).contains(
                                        canonical_of(self.cur_view()),
                                    ));
                                }
                            }
                        }
                        self.current = copy_board(&last);
                        let restored = copy_glass(&last_solution);
                        *solution = restored;
                        proof {
                            assert(self.cur_view() == old(self).cur_view());
                        }
                    }
                }
                to = to + 1;
            }
            from = from + 1;
        }
        proof {
            let tv = tested_views(tested@);
            let found = solutions@.len() > 0;
            assert(state_expanded(old(self).cur_view(), tv, found)) by {
                assert forall|f: int, t: int|
                    #[trigger] pour_ok(old(self).cur_view(), f, t) implies (board_win(
                    pour_upd(old(self).cur_view(), f, t),
                ) && found) || tv.contains(canonical_of(pour_upd(old(self).cur_view(), f, t))) by {
                    if board_win(pour_upd(old(self).cur_view(), f, t)) {
                        assert(exists|i: int|
                            old(solutions)@.len() <= i < solutions@.len() && (
                            #[trigger] solutions@[i])@.len() == old(solution)@.len() + 2);
                    }
                }
            }
            assert forall|i: int| 0 <= i < tv.len() implies entry_accounted(
                #[trigger] tv[i],
                tv,
                found,
                anc@.drop_last(),
            ) by {
                assert(entry_accounted(tv[i], tv, found, anc@));
                if !(exists|s: Seq<Seq<u8>>|
                    canonical_of(s) == tv[i] && #[trigger] state_expanded(s, tv, found)) {
                    let a = choose|a: int|
                        0 <= a < anc@.len() && canonical_of(#[trigger] anc@[a]) == tv[i];
                    if a == anc@.len() - 1 {
                        assert(canonical_of(old(self).cur_view()) == tv[i]);
                        assert(state_expanded(old(self).cur_view(), tv, found));
                    } else {
                        assert(anc@.drop_last()[a] == anc@[a]);
                    }
                }
            }
        }
    }

    /// Solve the current board exhaustively. Returns the encoded moves of a
    /// shortest winning sequence found — empty when the board is already won
    /// or no sequence wins — and the number of distinct board states
    /// explored. The level itself comes back unchanged.
    pub fn solve(&mut self) -> (r: (Vec<u8>, usize))
        requires
            old(self).wf(),
            old(self).cur_view().len() <= 255,
        ensures
            final(self).wf(),
            final(self).cur_view() == old(self).cur_view(),
            final(self).loaded == old(self).loaded,
            final(self).number == old(self).number,
            final(self).glass_height == old(self).glass_height,
            final(self).moves@ == old(self).moves@,
            final(self).move_counts@ == old(self).move_counts@,
            r.0@.len() % 2 == 0,
            r.1 >= 1,
            board_win(old(self).cur_view()) ==> r.0@.len() == 0 && r.1 == 1,
            r.0@.len() > 0 ==> solves(old(self).cur_view(), r.0@),
            (!board_win(old(self).cur_view()) && exists|f: int, t: int|
                pour_ok(old(self).cur_view(), f, t) && board_win(
                    pour_upd(old(self).cur_view(), f, t),
                )) ==> r.0@.len() == 2,
            r.0@.len() == 0 ==> board_win(old(self).cur_view()) || !solvable(old(self).cur_view()),
            !board_win(old(self).cur_view()) ==> r.1 == usize::MAX || exists|
                tv: Seq<Seq<Seq<u8>>>,
            |
                {
                    &&& r.1 == tv.len() + 1
                    &&& tv.no_duplicates()
                    &&& (forall|i: int| 0 <= i < tv.len() ==> !board_win(#[trigger] tv[i]))
                    &&& visited_reachable(tv, old(self).cur_view())
                    &&& visited_accounted(tv, r.0@.len() > 0, Seq::<Seq<Seq<u8>>>::empty())
                    &&& state_expanded(old(self).cur_view(), tv, r.0@.len() > 0)
                },
    {
        if self.test_win() {
            return (Vec::new(), 1);
        }
        let mut tested: Vec<Vec<Vec<u8>>> = Vec::new();
        let mut solutions: Vec<Vec<u8>> = Vec::new();
        let mut solution: Vec<u8> = Vec::new();
        let ghost root = self.cur_view();
        let ghost stack: Seq<Seq<Seq<u8>>> = seq![root];
        proof {
            assert(tested_views(tested@) =~= Seq::<Seq<Seq<u8>>>::empty());
            assert(pairs_of(solution@) =~= Seq::<(int, int)>::empty());
            assert(replay(root, pairs_of(solution@)) == Some(root));
        }
        self.solve_impl(
            &mut tested,
            &mut solutions,
            &mut solution,
            Ghost(root),
            Ghost(stack),
        );
        let combinations = match tested.len().checked_add(1) {
            Some(c) => c,
            None => usize::MAX,
        };
        if solutions.len() == 0 {
            proof {
                let tv = tested_views(tested@);
                assert(stack.drop_last() =~= Seq::<Seq<Seq<u8>>>::empty());
                assert(state_expanded(root, tv, false)) by {
                    assert forall|f: int, t: int| #[trigger] pour_ok(root, f, t) implies (
                    board_win(pour_upd(root, f, t)) && false) || tv.contains(
                        canonical_of(pour_upd(root, f, t)),
                    ) by {
                        if board_win(pour_upd(root, f, t)) {
                            assert(exists|i: int|
                                0 <= i < solutions@.len() && (#[trigger] solutions@[i])@.len()
                                    == 2);
                            assert(false);
                        }
                    }
                }
                if solvable(root) {
                    let s = choose|s: Seq<u8>| solves(root, s);
                    let ms = pairs_of(s);
                    if ms.len() == 0 {
                        assert(replay(root, ms) == Some(root));
                        assert(false);
                    }
                    lemma_scan_complete(root, ms, tv, false);
                    assert(false);
                }
                if combinations != usize::MAX {
                    assert(combinations == tv.len() + 1);
                }
            }
            (Vec::new(), combinations)
        } else {
            let mut best: usize = 0;
            let mut i: usize = 1;
            while i < solutions.len()
                invariant
                    solutions@.len() > 0,
                    best < i,
                    i <= solutions@.len(),
                    forall|x: int|
                        0 <= x < i ==> (#[trigger] solutions@[x])@.len()
                            >= solutions@[best as int]@.len(),
                decreases solutions@.len() - i,
            {
                if solutions[i].len() < solutions[best].len() {
                    best = i;
                }
                i = i + 1;
            }
            proof {
                assert(solves(root, solutions@[best as int]@));
                if solutions@[best as int]@.len() == 0 {
                    assert(pairs_of(solutions@[best as int]@) =~= Seq::<(int, int)>::empty());
                    assert(replay(root, pairs_of(solutions@[best as int]@)) == Some(root));
                    assert(false);
                }
            }
            let out = copy_glass(&solutions[best]);
            proof {
                let tv = tested_views(tested@);
                assert(stack.drop_last() =~= Seq::<Seq<Seq<u8>>>::empty());
                assert(out@.len() > 0);
                assert(state_expanded(root, tv, true)) by {
                    assert forall|f: int, t: int| #[trigger] pour_ok(root, f, t) implies (
                    board_win(pour_upd(root, f, t)) && true) || tv.contains(
                        canonical_of(pour_upd(root, f, t)),
                    ) by {
                        if !board_win(pour_upd(root, f, t)) {
                            assert(tv.contains(canonical_of(pour_upd(root, f, t))));
                        }
                    }
                }
                if combinations != usize::MAX {
                    assert(combinations == tv.len() + 1);
                    assert(visited_accounted(tv, out@.len() > 0, Seq::<Seq<Seq<u8>>>::empty()));
                    assert(state_expanded(root, tv, out@.len() > 0));
                }
            }
            (out, combinations)
        }
    }
}

} // verus!
