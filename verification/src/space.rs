//! The board state space is finite: a board of `n` glasses of height `h`
//! packs injectively into a number below `(256^h)^n`. This bounds how many
//! distinct boards a visited set can ever hold, which is what makes the
//! solver's recursion terminate.
use vstd::prelude::*;

use crate::glass::{key_of, lemma_key_bound, lemma_key_injective};
use vstd::arithmetic::power::pow;

verus! {

/// A board of exactly `n` glasses, each of exactly `h` cells.
pub open spec fn board_dims(b: Seq<Seq<u8>>, n: nat, h: nat) -> bool {
    b.len() == n && forall|i: int| 0 <= i < b.len() ==> (#[trigger] b[i]).len() == h
}

/// The number of boards of `n` glasses of height `h`: `(256^h)^n`.
pub open spec fn board_space(n: nat, h: nat) -> int {
    pow(pow(256, h), n)
}

/// Key of a whole board: the glass keys combined positionally in base
/// `256^h`, first glass most significant.
pub open spec fn board_key_of(b: Seq<Seq<u8>>, h: nat) -> nat
    decreases b.len(),
{
    if b.len() == 0 {
        0
    } else {
        (board_key_of(b.drop_last(), h) * pow(256, h) + key_of(b.last())) as nat
    }
}

/// A board key stays below the size of the state space.
pub proof fn lemma_board_key_bound(b: Seq<Seq<u8>>, h: nat)
    requires
        forall|i: int| 0 <= i < b.len() ==> (#[trigger] b[i]).len() == h,
    ensures
        board_key_of(b, h) < pow(pow(256, h), b.len()),
    decreases b.len(),
{
    reveal(pow);
    vstd::arithmetic::power::lemma_pow_positive(256, h);
    let base = pow(256, h);
    if b.len() == 0 {
        assert(pow(base, 0) == 1);
    } else {
        let d = b.drop_last();
        assert forall|i: int| 0 <= i < d.len() implies (#[trigger] d[i]).len() == h by {
            assert(d[i] == b[i]);
        }
        assert(b.last().len() == h);
        lemma_board_key_bound(d, h);
        lemma_key_bound(b.last());
        let kd = board_key_of(d, h) as int;
        let kl = key_of(b.last()) as int;
        let p = pow(base, d.len());
        assert(pow(base, b.len()) == base * p);
        assert(kd * base + kl < base * p) by (nonlinear_arith)
            requires
                kd < p,
                kl < base,
                base > 0,
                kd >= 0,
        {
        }
    }
}

/// Boards of one shape with equal keys are equal.
pub proof fn lemma_board_key_injective(a: Seq<Seq<u8>>, b: Seq<Seq<u8>>, h: nat)
    requires
        a.len() == b.len(),
        forall|i: int| 0 <= i < a.len() ==> (#[trigger] a[i]).len() == h,
        forall|i: int| 0 <= i < b.len() ==> (#[trigger] b[i]).len() == h,
        board_key_of(a, h) == board_key_of(b, h),
    ensures
        a == b,
    decreases a.len(),
{
    vstd::arithmetic::power::lemma_pow_positive(256, h);
    let base = pow(256, h);
    if a.len() > 0 {
        lemma_key_bound(a.last());
        lemma_key_bound(b.last());
        vstd::arithmetic::div_mod::lemma_fundamental_div_mod_converse(
            board_key_of(a, h) as int,
            base,
            board_key_of(a.drop_last(), h) as int,
            key_of(a.last()) as int,
        );
        vstd::arithmetic::div_mod::lemma_fundamental_div_mod_converse(
            board_key_of(b, h) as int,
            base,
            board_key_of(b.drop_last(), h) as int,
            key_of(b.last()) as int,
        );
        lemma_key_injective(a.last(), b.last());
        lemma_board_key_injective(a.drop_last(), b.drop_last(), h);
        assert(a =~= a.drop_last().push(a.last()));
        assert(b =~= b.drop_last().push(b.last()));
    } else {
        assert(a =~= b);
    }
}

/// A duplicate-free collection of boards of one shape can hold at most
/// `(256^h)^n` boards: the state space is finite.
pub proof fn lemma_board_count_bound(s: Seq<Seq<Seq<u8>>>, n: nat, h: nat)
    requires
        s.no_duplicates(),
        forall|i: int| 0 <= i < s.len() ==> board_dims(#[trigger] s[i], n, h),
    ensures
        s.len() <= board_space(n, h),
{
    broadcast use vstd::set::group_set_axioms;

    let space = board_space(n, h);
    let keys = s.map_values(|b: Seq<Seq<u8>>| board_key_of(b, h) as int);
    assert(keys.len() == s.len());
    assert forall|i: int, j: int| 0 <= i < keys.len() && 0 <= j < keys.len() && i != j
        implies keys[i] != keys[j] by {
        if board_key_of(s[i], h) == board_key_of(s[j], h) {
            lemma_board_key_injective(s[i], s[j], h);
        }
    }
    assert(keys.no_duplicates());
    keys.unique_seq_to_set();
    let rng = vstd::set_lib::set_int_range(0, space);
    assert forall|x: int| keys.to_set().contains(x) implies rng.contains(x) by {
        let i = choose|i: int| 0 <= i < keys.len() && keys[i] == x;
        lemma_board_key_bound(s[i], h);
        assert(s[i].len() == n);
    }
    vstd::arithmetic::power::lemma_pow_positive(256, h);
    vstd::arithmetic::power::lemma_pow_positive(pow(256, h), n);
    vstd::set_lib::lemma_int_range(0, space);
    vstd::set_lib::lemma_len_subset(keys.to_set(), rng);
}

} // verus!
