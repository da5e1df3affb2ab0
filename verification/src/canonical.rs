//! Canonical form of a board: its glasses sorted by their packed key. Two
//! boards that are permutations of each other's glasses share one canonical
//! form, which is what deduplicates states during search.
use vstd::prelude::*;

use crate::board::glass_views;
use crate::glass::{glass_key, key_of, lemma_key_injective};
use crate::level::{copy_board, copy_glass};
use vstd::relations::{sorted_by, total_ordering};
use vstd::seq_lib::lemma_sorted_unique;

verus! {

/// The total order canonical sorting uses: shorter glasses first, glasses of
/// one length by canonical key.
pub open spec fn glass_le(a: Seq<u8>, b: Seq<u8>) -> bool {
    a.len() < b.len() || (a.len() == b.len() && key_of(a) <= key_of(b))
}

/// `glass_le` as a relation value.
pub open spec fn glass_order() -> spec_fn(Seq<u8>, Seq<u8>) -> bool {
    |a: Seq<u8>, b: Seq<u8>| glass_le(a, b)
}

/// `glass_le` is a total order: key injectivity gives antisymmetry.
pub proof fn lemma_glass_order_total()
    ensures
        total_ordering(glass_order()),
{
    let ord = glass_order();
    assert forall|a: Seq<u8>, b: Seq<u8>| #[trigger] ord(a, b) && #[trigger] ord(b, a) implies a
        == b by {
        assert(a.len() == b.len() && key_of(a) == key_of(b));
        lemma_key_injective(a, b);
    }
}

/// The canonical form of a board: its glasses sorted by `glass_le`.
pub open spec fn canonical_of(b: Seq<Seq<u8>>) -> Seq<Seq<u8>> {
    b.sort_by(glass_order())
}

/// Any sorted permutation of a board's glasses is its canonical form.
pub proof fn lemma_canonical_char(b: Seq<Seq<u8>>, r: Seq<Seq<u8>>)
    requires
        sorted_by(r, glass_order()),
        r.to_multiset() == b.to_multiset(),
    ensures
        r == canonical_of(b),
{
    lemma_glass_order_total();
    b.lemma_sort_by_ensures(glass_order());
    lemma_sorted_unique(r, canonical_of(b), glass_order());
}

/// The canonical form holds the same multiset of glasses as the board.
pub proof fn lemma_canonical_multiset(b: Seq<Seq<u8>>)
    ensures
        canonical_of(b).to_multiset() == b.to_multiset(),
{
    lemma_glass_order_total();
    b.lemma_sort_by_ensures(glass_order());
}

/// Two boards that hold the same multiset of glasses — permutations of each
/// other — have equal canonical forms.
pub proof fn lemma_canonical_permutation(a: Seq<Seq<u8>>, b: Seq<Seq<u8>>)
    requires
        a.to_multiset() == b.to_multiset(),
    ensures
        canonical_of(a) == canonical_of(b),
{
    lemma_glass_order_total();
    a.lemma_sort_by_ensures(glass_order());
    lemma_canonical_char(b, canonical_of(a));
}

/// Compare two glasses in the canonical order.
fn glass_before(a: &Vec<u8>, b: &Vec<u8>) -> (r: bool)
    requires
        a@.len() <= 8,
        b@.len() <= 8,
    ensures
        r == glass_le(a@, b@),
{
    if a.len() < b.len() {
        true
    } else if a.len() == b.len() {
        glass_key(a) <= glass_key(b)
    } else {
        false
    }
}

/// A copy of the board with its glasses sorted into canonical order.
pub fn canonical_form(b: &Vec<Vec<u8>>) -> (r: Vec<Vec<u8>>)
    requires
        forall|i: int| 0 <= i < b@.len() ==> (#[trigger] b@[i]@).len() <= 8,
    ensures
        glass_views(r@) == canonical_of(glass_views(b@)),
        glass_views(r@).to_multiset() == glass_views(b@).to_multiset(),
        r@.len() == b@.len(),
        forall|i: int|
            0 <= i < r@.len() ==> glass_views(b@).contains(#[trigger] glass_views(r@)[i]),
{
    broadcast use vstd::seq_lib::to_multiset_update;
    broadcast use vstd::seq_lib::group_to_multiset_ensures;
    broadcast use vstd::multiset::group_multiset_axioms;

    let mut v = copy_board(b);
    proof {
        assert forall|x: int| 0 <= x < v@.len() implies (#[trigger] v@[x]@).len() <= 8 by {
            assert(glass_views(v@)[x] == glass_views(b@)[x]);
        }
    }
    let n = v.len();
    let mut i: usize = 0;
    while i < n
        invariant
            i <= n,
            n == v@.len(),
            v@.len() == b@.len(),
            forall|x: int| 0 <= x < b@.len() ==> (#[trigger] b@[x]@).len() <= 8,
            forall|x: int| 0 <= x < n ==> (#[trigger] v@[x]@).len() <= 8,
            glass_views(v@).to_multiset() == glass_views(b@).to_multiset(),
            forall|x: int, y: int|
                0 <= x < y < i ==> glass_le(
                    #[trigger] glass_views(v@)[x],
                    #[trigger] glass_views(v@)[y],
                ),
            forall|x: int, y: int|
                0 <= x < i && i <= y < n ==> glass_le(
                    #[trigger] glass_views(v@)[x],
                    #[trigger] glass_views(v@)[y],
                ),
        decreases n - i,
    {
        let mut m: usize = i;
        let mut j: usize = i + 1;
        while j < n
            invariant
                i <= m < j <= n,
                n == v@.len(),
                forall|x: int| 0 <= x < n ==> (#[trigger] v@[x]@).len() <= 8,
                forall|y: int|
                    i <= y < j ==> glass_le(glass_views(v@)[m as int], #[trigger] glass_views(
                        v@,
                    )[y]),
            decreases n - j,
        {
            if glass_before(&v[j], &v[m]) {
                m = j;
            }
            j = j + 1;
        }
        let ghost before = glass_views(v@);
        let gi = copy_glass(&v[i]);
        let gm = copy_glass(&v[m]);
        v[i] = gm;
        v[m] = gi;
        proof {
            broadcast use vstd::seq_lib::to_multiset_update;
            broadcast use vstd::seq_lib::group_to_multiset_ensures;
            broadcast use vstd::multiset::group_multiset_axioms;

            let after = glass_views(v@);
            let vi = before[i as int];
            let vm = before[m as int];
            assert(after =~= before.update(i as int, vm).update(m as int, vi));
            assert(before.contains(vi) && before.contains(vm));
            let mid = before.update(i as int, vm);
            assert(mid[m as int] == vm);
            assert(mid.to_multiset() == before.to_multiset().insert(vm).remove(vi));
            assert(after.to_multiset() == mid.to_multiset().insert(vi).remove(vm));
            assert forall|x: Seq<u8>|
                after.to_multiset().count(x) == before.to_multiset().count(x) by {
                assert(before.to_multiset().count(vi) > 0);
                assert(before.to_multiset().count(vm) > 0);
            }
            assert(after.to_multiset() =~= before.to_multiset());
        }
        i = i + 1;
    }
    proof {
        let ord = glass_order();
        assert forall|x: int, y: int| 0 <= x < y < glass_views(v@).len() implies #[trigger] ord(
            glass_views(v@)[x],
            glass_views(v@)[y],
        ) by {
            assert(glass_le(glass_views(v@)[x], glass_views(v@)[y]));
        }
        lemma_canonical_char(glass_views(b@), glass_views(v@));
        assert forall|x: int| 0 <= x < v@.len() implies glass_views(b@).contains(
            #[trigger] glass_views(v@)[x],
        ) by {
            broadcast use vstd::seq_lib::group_to_multiset_ensures;

            assert(glass_views(v@).contains(glass_views(v@)[x]));
            assert(glass_views(v@).to_multiset().count(glass_views(v@)[x]) > 0);
        }
    }
    v
}

} // verus!
