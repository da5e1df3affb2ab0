//! A glass is a fixed-capacity stack of colored units, stored bottom-up as a
//! vector of color ids. Color id 0 marks an empty cell; a well-formed glass
//! keeps its nonzero cells in a contiguous run starting at the bottom.
use vstd::prelude::*;

verus! {

use vstd::arithmetic::power::pow;

/// Number of cells from the bottom up to and including the topmost nonzero
/// cell. Cells at this index and above are always empty (see
/// `lemma_above_fill_zero`); in a well-formed glass the cells below it are
/// all nonzero.
pub open spec fn fill_of(g: Seq<u8>) -> nat
    decreases g.len(),
{
    if g.len() == 0 {
        0
    } else if g.last() == 0 {
        fill_of(g.drop_last())
    } else {
        g.len()
    }
}

/// A well-formed glass: no nonzero cell sits above an empty cell, which here
/// reads as "every cell below the fill boundary is nonzero".
pub open spec fn glass_wf(g: Seq<u8>) -> bool {
    forall|i: int| 0 <= i < fill_of(g) ==> g[i] != 0
}

/// Color of the topmost unit, or 0 when the glass is vacant.
pub open spec fn top_color_of(g: Seq<u8>) -> u8 {
    if fill_of(g) == 0 {
        0u8
    } else {
        g[fill_of(g) - 1]
    }
}

/// Length of the run of equal cells that ends just below index `i`, scanning
/// downward; 0 when `i` is 0.
pub open spec fn run_of_at(g: Seq<u8>, i: nat) -> nat
    recommends
        i <= g.len(),
    decreases i,
{
    if i == 0 {
        0
    } else if i == 1 {
        1
    } else if g[i - 1] == g[i - 2] {
        1 + run_of_at(g, (i - 1) as nat)
    } else {
        1
    }
}

/// Length of the glass's top run: the number of topmost units that share the
/// top color. 0 iff the glass is vacant.
pub open spec fn run_of(g: Seq<u8>) -> nat {
    run_of_at(g, fill_of(g))
}

/// Numeric packing of the cells, bottom cell most significant: the canonical
/// sort key of a glass. Distinct glasses of one length get distinct keys
/// (`lemma_key_injective`).
pub open spec fn key_of(g: Seq<u8>) -> nat
    decreases g.len(),
{
    if g.len() == 0 {
        0
    } else {
        (key_of(g.drop_last()) * 256 + g.last()) as nat
    }
}

pub broadcast proof fn lemma_fill_le_len(g: Seq<u8>)
    ensures
        #[trigger] fill_of(g) <= g.len(),
    decreases g.len(),
{
    if g.len() > 0 && g.last() == 0 {
        lemma_fill_le_len(g.drop_last());
    }
}

/// Every cell at or above the fill boundary is empty, well-formed or not.
pub proof fn lemma_above_fill_zero(g: Seq<u8>)
    ensures
        forall|i: int| fill_of(g) <= i < g.len() ==> g[i] == 0,
    decreases g.len(),
{
    if g.len() > 0 && g.last() == 0 {
        lemma_above_fill_zero(g.drop_last());
        assert forall|i: int| fill_of(g) <= i < g.len() implies g[i] == 0 by {
            if i < g.len() - 1 {
                assert(g.drop_last()[i] == 0);
            }
        }
    }
}

/// The fill boundary is the unique index with only zeros at and above it and
/// a nonzero cell (or the bottom) just below it.
pub proof fn lemma_fill_char(g: Seq<u8>, f: nat)
    requires
        f <= g.len(),
        forall|i: int| f <= i < g.len() ==> g[i] == 0,
        f == 0 || g[f - 1] != 0,
    ensures
        fill_of(g) == f,
    decreases g.len(),
{
    if g.len() > 0 {
        if g.last() == 0 {
            assert(f < g.len());
            lemma_fill_char(g.drop_last(), f);
        } else {
            assert(f == g.len());
        }
    }
}

/// A vacant glass is exactly an all-zero glass.
pub proof fn lemma_vacant_iff_all_zero(g: Seq<u8>)
    ensures
        fill_of(g) == 0 <==> (forall|i: int| 0 <= i < g.len() ==> g[i] == 0),
{
    lemma_above_fill_zero(g);
    if forall|i: int| 0 <= i < g.len() ==> g[i] == 0 {
        lemma_fill_char(g, 0);
    }
}

pub proof fn lemma_run_at_le(g: Seq<u8>, i: nat)
    ensures
        run_of_at(g, i) <= i,
        i > 0 ==> run_of_at(g, i) >= 1,
    decreases i,
{
    if i > 1 {
        lemma_run_at_le(g, (i - 1) as nat);
    }
}

/// The top run never reaches past the fill boundary, and is nonempty exactly
/// when the glass is not vacant.
pub proof fn lemma_run_le_fill(g: Seq<u8>)
    ensures
        run_of(g) <= fill_of(g),
        fill_of(g) > 0 ==> run_of(g) >= 1,
        fill_of(g) == 0 ==> run_of(g) == 0,
{
    lemma_run_at_le(g, fill_of(g));
}

/// Splitting a run scan: if all cells from `k - 1` up to `f - 1` hold the
/// same value, the run ending at `f` is `f - k` longer than the run ending
/// at `k`.
pub proof fn lemma_run_split(g: Seq<u8>, k: nat, f: nat)
    requires
        1 <= k <= f <= g.len(),
        forall|i: int| k - 1 <= i < f ==> #[trigger] g[i] == g[f - 1],
    ensures
        run_of_at(g, f) == f - k + run_of_at(g, k),
    decreases f - k,
{
    if k < f {
        assert(g[f - 1] == g[f - 2]);
        lemma_run_split(g, k, (f - 1) as nat);
    }
}

/// Every cell inside the run ending at `i` holds the value of the cell just
/// below `i`.
pub proof fn lemma_run_at_cells(g: Seq<u8>, i: nat)
    requires
        i <= g.len(),
    ensures
        forall|j: int| i - run_of_at(g, i) <= j < i ==> #[trigger] g[j] == g[i - 1],
    decreases i,
{
    if i > 1 && g[i - 1] == g[i - 2] {
        lemma_run_at_cells(g, (i - 1) as nat);
    }
}

/// All cells of the top run hold the top color.
pub proof fn lemma_run_cells(g: Seq<u8>)
    ensures
        forall|j: int| fill_of(g) - run_of(g) <= j < fill_of(g) ==> #[trigger] g[j] == top_color_of(g),
{
    lemma_fill_le_len(g);
    lemma_run_at_cells(g, fill_of(g));
}

/// A run that stops before the bottom stops at a differing cell.
pub proof fn lemma_run_at_boundary(g: Seq<u8>, i: nat)
    requires
        i <= g.len(),
        run_of_at(g, i) < i,
    ensures
        g[i - 1 - run_of_at(g, i)] != g[i - 1],
    decreases i,
{
    if i > 1 && g[i - 1] == g[i - 2] {
        lemma_run_at_le(g, (i - 1) as nat);
        lemma_run_at_boundary(g, (i - 1) as nat);
    }
}

/// When the top run does not cover the whole contents, the cell just below
/// it holds a different color.
pub proof fn lemma_run_boundary(g: Seq<u8>)
    requires
        run_of(g) < fill_of(g),
    ensures
        g[fill_of(g) - 1 - run_of(g)] != top_color_of(g),
{
    lemma_fill_le_len(g);
    lemma_run_at_boundary(g, fill_of(g));
}

/// Compute the fill boundary of a glass: the number of cells below the
/// topmost nonzero cell, that cell included.
pub fn glass_fill(g: &Vec<u8>) -> (f: usize)
    ensures
        f == fill_of(g@),
{
    let mut f: usize = g.len();
    while f > 0 && g[f - 1] == 0
        invariant
            f <= g@.len(),
            forall|i: int| f <= i < g@.len() ==> g@[i] == 0,
        decreases f,
    {
        f = f - 1;
    }
    proof {
        lemma_fill_char(g@, f as nat);
    }
    f
}

/// Scan a well-formed glass from the top: its top color, the length of the
/// top run of that color, and the number of empty cells.
pub fn glass_info(g: &Vec<u8>) -> (r: (u8, usize, usize))
    requires
        glass_wf(g@),
    ensures
        r.0 == top_color_of(g@),
        r.1 == run_of(g@),
        r.2 == g@.len() - fill_of(g@),
{
    proof {
        lemma_fill_le_len(g@);
    }
    let f: usize = glass_fill(g);
    if f == 0 {
        return (0, 0, g.len());
    }
    let color: u8 = g[f - 1];
    let mut j: usize = f;
    while j > 0 && g[j - 1] == color
        invariant
            j <= f,
            f <= g@.len(),
            f == fill_of(g@),
            color == g@[f - 1],
            forall|i: int| j <= i < f ==> g@[i] == color,
        decreases j,
    {
        j = j - 1;
    }
    proof {
        if j == 0 {
            lemma_run_split(g@, 1, f as nat);
        } else {
            lemma_run_split(g@, (j + 1) as nat, f as nat);
        }
    }
    (color, f - j, g.len() - f)
}

/// True iff every cell of the glass is empty.
pub fn glass_is_vacant(g: &Vec<u8>) -> (r: bool)
    ensures
        r == (fill_of(g@) == 0),
        r == (forall|i: int| 0 <= i < g@.len() ==> g@[i] == 0),
{
    proof {
        lemma_vacant_iff_all_zero(g@);
    }
    let mut i: usize = 0;
    while i < g.len()
        invariant
            i <= g@.len(),
            forall|j: int| 0 <= j < i ==> g@[j] == 0,
        decreases g@.len() - i,
    {
        if g[i] != 0 {
            proof {
                lemma_vacant_iff_all_zero(g@);
            }
            return false;
        }
        i = i + 1;
    }
    true
}

/// True iff the bottom cell is nonzero and every cell matches it: the glass
/// holds a single color all the way up.
pub fn glass_is_one_color(g: &Vec<u8>) -> (r: bool)
    requires
        g@.len() > 0,
    ensures
        r == (g@[0] != 0 && forall|i: int| 0 <= i < g@.len() ==> #[trigger] g@[i] == g@[0]),
{
    let color: u8 = g[0];
    if color == 0 {
        return false;
    }
    let mut i: usize = 1;
    while i < g.len()
        invariant
            1 <= i <= g@.len(),
            color == g@[0],
            forall|j: int| 0 <= j < i ==> #[trigger] g@[j] == g@[0],
        decreases g@.len() - i,
    {
        if g[i] != color {
            return false;
        }
        i = i + 1;
    }
    true
}

/// The canonical key stays below `256` to the glass's length.
pub proof fn lemma_key_bound(g: Seq<u8>)
    ensures
        key_of(g) < pow(256, g.len()),
    decreases g.len(),
{
    reveal(pow);
    if g.len() == 0 {
        assert(pow(256, 0) == 1);
    } else {
        let d = g.drop_last();
        lemma_key_bound(d);
        assert(pow(256, g.len()) == 256 * pow(256, d.len()));
        vstd::arithmetic::mul::lemma_mul_inequality(
            key_of(d) as int,
            pow(256, d.len()) - 1,
            256,
        );
    }
}

/// Glasses of one length with equal canonical keys are equal.
pub proof fn lemma_key_injective(a: Seq<u8>, b: Seq<u8>)
    requires
        a.len() == b.len(),
        key_of(a) == key_of(b),
    ensures
        a == b,
    decreases a.len(),
{
    if a.len() > 0 {
        vstd::arithmetic::div_mod::lemma_fundamental_div_mod_converse(
            key_of(a) as int,
            256,
            key_of(a.drop_last()) as int,
            a.last() as int,
        );
        vstd::arithmetic::div_mod::lemma_fundamental_div_mod_converse(
            key_of(b) as int,
            256,
            key_of(b.drop_last()) as int,
            b.last() as int,
        );
        lemma_key_injective(a.drop_last(), b.drop_last());
        assert(a =~= a.drop_last().push(a.last()));
        assert(b =~= b.drop_last().push(b.last()));
    } else {
        assert(a =~= b);
    }
}

/// `256` to the eighth power is exactly one past the largest `u64`.
pub proof fn lemma_pow256_eight()
    ensures
        pow(256, 8) == 0x1_0000_0000_0000_0000,
{
    reveal(pow);
    assert(pow(256, 0) == 1);
    assert(pow(256, 1) == 256 * pow(256, 0));
    assert(pow(256, 2) == 256 * pow(256, 1));
    assert(pow(256, 3) == 256 * pow(256, 2));
    assert(pow(256, 4) == 256 * pow(256, 3));
    assert(pow(256, 5) == 256 * pow(256, 4));
    assert(pow(256, 6) == 256 * pow(256, 5));
    assert(pow(256, 7) == 256 * pow(256, 6));
    assert(pow(256, 8) == 256 * pow(256, 7));
}

/// Pack the cells of a glass into its canonical sort key, bottom cell most
/// significant. The glass must fit the key's eight bytes.
pub fn glass_key(g: &Vec<u8>) -> (r: u64)
    requires
        g@.len() <= 8,
    ensures
        r as nat == key_of(g@),
{
    let mut r: u64 = 0;
    let mut i: usize = 0;
    while i < g.len()
        invariant
            i <= g@.len(),
            g@.len() <= 8,
            r as nat == key_of(g@.take(i as int)),
        decreases g@.len() - i,
    {
        proof {
            reveal(pow);
            lemma_key_bound(g@.take(i as int));
            vstd::arithmetic::power::lemma_pow_increases(256, (i + 1) as nat, 8);
            lemma_pow256_eight();
            assert(pow(256, (i + 1) as nat) == 256 * pow(256, i as nat));
            vstd::arithmetic::mul::lemma_mul_inequality(
                r as int,
                pow(256, i as nat) - 1,
                256,
            );
            assert(g@.take(i + 1).drop_last() =~= g@.take(i as int));
        }
        r = r * 256 + (g[i] as u64);
        i = i + 1;
    }
    proof {
        assert(g@.take(g@.len() as int) =~= g@);
    }
    r
}

} // verus!
