//! The byte layout of a saved level: one byte holding the glass count,
//! then each glass's cells bottom-up, zero-padded to the maximum glass
//! count. Reading and writing the bytes themselves is the storage
//! collaborator's business; this module only builds and parses records.
use vstd::prelude::*;

use crate::board::{board_ok};
use crate::glass::{fill_of, glass_fill, glass_wf};
use crate::level::Level;

verus! {

/// The fixed-width byte record of a board of height-`h` glasses: a count
/// byte, then every glass in order, zero-padded to `MAX_GLASSES_PER_LEVEL`
/// glasses.
pub open spec fn record_bytes(b: Seq<Seq<u8>>, h: int) -> Seq<u8> {
    Seq::new((1 + crate::MAX_GLASSES_PER_LEVEL * h) as nat, |x: int| if x == 0 {
        b.len() as u8
    } else {
        if (x - 1) / h < b.len() {
            b[(x - 1) / h][(x - 1) % h]
        } else {
            0u8
        }
    })
}

/// The cells of glass `i` inside a record that holds glasses of height `h`.
pub open spec fn record_glass(data: Seq<u8>, h: int, i: int) -> Seq<u8> {
    data.subrange(1 + i * h, 1 + i * h + h)
}

/// A record parses into a well-formed board of height-`h` glasses: it holds
/// its advertised glass count, and every glass keeps its contents gapless.
pub open spec fn record_ok(data: Seq<u8>, h: int) -> bool {
    &&& data.len() >= 1
    &&& 1 + (data[0] as int) * h <= data.len()
    &&& forall|i: int| 0 <= i < data[0] ==> glass_wf(#[trigger] record_glass(data, h, i))
}

/// A well-formed board's record parses back to the same board: the record
/// passes `record_ok` and glass `i` of the record is glass `i` of the
/// board.
pub proof fn lemma_record_round_trip(b: Seq<Seq<u8>>, h: int)
    requires
        1 <= h <= 8,
        board_ok(b, h as nat),
        b.len() <= crate::MAX_GLASSES_PER_LEVEL,
    ensures
        record_ok(record_bytes(b, h), h),
        forall|i: int|
            0 <= i < b.len() ==> #[trigger] record_glass(record_bytes(b, h), h, i) == b[i],
{
    let data = record_bytes(b, h);
    assert(data[0] == b.len() as u8);
    vstd::arithmetic::mul::lemma_mul_inequality(b.len() as int, 16, h);
    assert(1 + (data[0] as int) * h <= data.len());
    assert forall|i: int| 0 <= i < b.len() implies #[trigger] record_glass(data, h, i)
        == b[i] by {
        assert(0 <= i * h && i * h + h <= 16 * h) by (nonlinear_arith)
            requires
                0 <= i < 16,
                h > 0,
        {
        }
        assert forall|j: int| 0 <= j < h implies record_glass(data, h, i)[j] == b[i][j] by {
            vstd::arithmetic::div_mod::lemma_fundamental_div_mod_converse(i * h + j, h, i, j);
            assert(record_glass(data, h, i)[j] == data[1 + i * h + j]);
        }
        assert(b[i].len() == h);
        assert(record_glass(data, h, i) =~= b[i]);
    }
    assert forall|i: int| 0 <= i < data[0] implies glass_wf(
        #[trigger] record_glass(data, h, i),
    ) by {
        assert(record_glass(data, h, i) == b[i]);
    }
}

/// True iff the glass keeps its contents gapless: no empty cell below a
/// filled one.
fn glass_ok(g: &Vec<u8>) -> (r: bool)
    ensures
        r == glass_wf(g@),
{
    proof {
        crate::glass::lemma_fill_le_len(g@);
    }
    let f = glass_fill(g);
    let mut j: usize = 0;
    while j < f
        invariant
            j <= f,
            f == fill_of(g@),
            f <= g@.len(),
            forall|x: int| 0 <= x < j ==> g@[x] != 0,
        decreases f - j,
    {
        if g[j] == 0 {
            return false;
        }
        j = j + 1;
    }
    true
}

impl Level {
    /// Serialize the loaded board into its fixed-width byte record.
    pub fn to_saved_bytes(&self) -> (r: Vec<u8>)
        requires
            self.wf(),
            self.loaded@.len() <= crate::MAX_GLASSES_PER_LEVEL,
        ensures
            r@ == record_bytes(self.base_view(), self.glass_height as int),
    {
        let ghost target = record_bytes(self.base_view(), self.glass_height as int);
        let mut r: Vec<u8> = Vec::new();
        r.push(self.loaded.len() as u8);
        let mut i: usize = 0;
        while i < crate::MAX_GLASSES_PER_LEVEL
            invariant
                i <= crate::MAX_GLASSES_PER_LEVEL,
                self.wf(),
                self.loaded@.len() <= crate::MAX_GLASSES_PER_LEVEL,
                target == record_bytes(self.base_view(), self.glass_height as int),
                r@.len() == 1 + i * self.glass_height,
                forall|x: int| 0 <= x < r@.len() ==> r@[x] == target[x],
            decreases crate::MAX_GLASSES_PER_LEVEL - i,
        {
            let mut j: usize = 0;
            while j < self.glass_height
                invariant
                    j <= self.glass_height,
                    i < crate::MAX_GLASSES_PER_LEVEL,
                    self.wf(),
                    self.loaded@.len() <= crate::MAX_GLASSES_PER_LEVEL,
                    target == record_bytes(self.base_view(), self.glass_height as int),
                    r@.len() == 1 + i * self.glass_height + j,
                    forall|x: int| 0 <= x < r@.len() ==> r@[x] == target[x],
                decreases self.glass_height - j,
            {
                proof {
                    assert(i * self.glass_height + j < crate::MAX_GLASSES_PER_LEVEL
                        * self.glass_height && i * self.glass_height + j < 128) by (
                    nonlinear_arith)
                        requires
                            i < crate::MAX_GLASSES_PER_LEVEL,
                            j < self.glass_height,
                            0 <= i,
                            0 <= j,
                            0 < self.glass_height <= 8,
                            crate::MAX_GLASSES_PER_LEVEL == 16,
                    {
                    }
                    vstd::arithmetic::div_mod::lemma_fundamental_div_mod_converse(
                        i * self.glass_height + j,
                        self.glass_height as int,
                        i as int,
                        j as int,
                    );
                }
                if i < self.loaded.len() {
                    proof {
                        assert(self.base_view()[i as int] == self.loaded@[i as int]@);
                        assert(self.base_view()[i as int].len() == self.glass_height);
                    }
                    r.push(self.loaded[i][j]);
                } else {
                    r.push(0);
                }
                j = j + 1;
            }
            proof {
                assert((i + 1) * self.glass_height == i * self.glass_height
                    + self.glass_height) by (nonlinear_arith) {
                }
            }
            i = i + 1;
        }
        proof {
            assert(r@ =~= target);
        }
        r
    }

    /// Parse one fixed-width record into a level with the given number and
    /// glass height. Returns `None` exactly when the record is too short
    /// for its advertised glass count or some glass has a gap in its
    /// contents.
    pub fn from_saved_bytes(level_number: usize, glass_height: usize, data: &Vec<u8>) -> (r: Option<
        Level,
    >)
        requires
            1 <= glass_height <= 8,
        ensures
            r is Some <==> record_ok(data@, glass_height as int),
            r is Some ==> {
                let l = r->0;
                &&& l.wf()
                &&& l.number == level_number
                &&& l.glass_height == glass_height
                &&& l.moves@.len() == 0
                &&& l.move_counts@.len() == 0
                &&& l.base_view().len() == data@[0]
                &&& forall|i: int|
                    0 <= i < data@[0] ==> #[trigger] l.base_view()[i] == record_glass(
                        data@,
                        glass_height as int,
                        i,
                    )
                &&& l.cur_view() == l.base_view()
            },
    {
        if data.len() < 1 {
            return None;
        }
        let count = data[0] as usize;
        proof {
            assert(count * glass_height <= 255 * 8) by (nonlinear_arith)
                requires
                    count <= 255,
                    0 < glass_height <= 8,
            {
            }
        }
        if count * glass_height > data.len() - 1 {
            return None;
        }
        let mut level = Level::new(level_number, glass_height);
        let mut i: usize = 0;
        while i < count
            invariant
                i <= count,
                count == data@[0],
                count * glass_height + 1 <= data@.len(),
                1 <= glass_height <= 8,
                level.wf(),
                level.number == level_number,
                level.glass_height == glass_height,
                level.moves@.len() == 0,
                level.move_counts@.len() == 0,
                level.loaded@.len() == i,
                forall|x: int|
                    0 <= x < i ==> #[trigger] level.base_view()[x] == record_glass(
                        data@,
                        glass_height as int,
                        x,
                    ),
            decreases count - i,
        {
            let mut glass: Vec<u8> = Vec::new();
            let mut j: usize = 0;
            while j < glass_height
                invariant
                    j <= glass_height,
                    i < count,
                    count * glass_height + 1 <= data@.len(),
                    1 <= glass_height <= 8,
                    count <= 255,
                    glass@.len() == j,
                    forall|x: int|
                        0 <= x < j ==> #[trigger] glass@[x] == data@[1 + i * glass_height + x],
                decreases glass_height - j,
            {
                proof {
                    assert(i * glass_height + j < count * glass_height && i * glass_height + j
                        < 2040) by (nonlinear_arith)
                        requires
                            i < count,
                            j < glass_height,
                            0 <= i,
                            0 <= j,
                            0 < glass_height <= 8,
                            count <= 255,
                    {
                    }
                }
                glass.push(data[1 + i * glass_height + j]);
                j = j + 1;
            }
            proof {
                assert(i * glass_height + glass_height <= count * glass_height) by (
                nonlinear_arith)
                    requires
                        i < count,
                        0 <= i,
                        0 < glass_height,
                {
                }
                assert(glass@ =~= record_glass(data@, glass_height as int, i as int));
            }
            if !glass_ok(&glass) {
                proof {
                    assert(!glass_wf(record_glass(data@, glass_height as int, i as int)));
                }
                return None;
            }
            let ghost base_before = level.base_view();
            level.loaded.push(glass);
            proof {
                assert(level.base_view()[i as int] == glass@);
                assert forall|x: int| 0 <= x < level.base_view().len() implies (
                #[trigger] level.base_view()[x]).len() == glass_height && glass_wf(
                    level.base_view()[x],
                ) by {
                    if x < i {
                        assert(level.base_view()[x] == base_before[x]);
                        assert(base_before[x] == record_glass(data@, glass_height as int, x));
                    }
                }
                assert forall|x: int| 0 <= x < level.loaded@.len() implies
                    #[trigger] level.base_view()[x] == record_glass(
                    data@,
                    glass_height as int,
                    x,
                ) by {
                    if x < i {
                        assert(level.base_view()[x] == base_before[x]);
                    }
                }
                assert(board_ok(level.base_view(), glass_height as nat));
            }
            i = i + 1;
        }
        proof {
            assert forall|x: int| 0 <= x < count implies glass_wf(
                #[trigger] record_glass(data@, glass_height as int, x),
            ) by {
                assert(level.base_view()[x] == record_glass(data@, glass_height as int, x));
                assert(glass_wf(level.base_view()[x]));
            }
        }
        level.restart();
        Some(level)
    }

    /// Step to the next level: parse its record and install it, keeping the
    /// move history as it was. Returns false and changes nothing when the
    /// record does not parse.
    pub fn load_next(&mut self, data: &Vec<u8>) -> (r: bool)
        requires
            old(self).wf(),
            old(self).number < usize::MAX,
        ensures
            final(self).wf(),
            r == record_ok(data@, old(self).glass_height as int),
            !r ==> *final(self) == *old(self),
            r ==> final(self).number == old(self).number + 1 && final(self).glass_height == old(
                self,
            ).glass_height && final(self).moves == old(self).moves && final(self).move_counts
                == old(self).move_counts && final(self).base_view().len() == data@[0] && (forall|
                i: int,
            |
                0 <= i < data@[0] ==> #[trigger] final(self).base_view()[i] == record_glass(
                    data@,
                    old(self).glass_height as int,
                    i,
                )) && final(self).cur_view() == final(self).base_view(),
    {
        match Level::from_saved_bytes(self.number + 1, self.glass_height, data) {
            Some(level) => {
                self.number = self.number + 1;
                self.loaded = level.loaded;
                self.current = level.current;
                true
            },
            None => false,
        }
    }

    /// Change the glass height: parse the record of the same level number
    /// at the new height and install it. Returns false and changes nothing
    /// when the record does not parse.
    pub fn resize(&mut self, size: usize, data: &Vec<u8>) -> (r: bool)
        requires
            old(self).wf(),
            1 <= size <= 8,
        ensures
            final(self).wf(),
            r == record_ok(data@, size as int),
            !r ==> *final(self) == *old(self),
            r ==> final(self).number == old(self).number && final(self).glass_height == size
                && final(self).moves == old(self).moves && final(self).move_counts == old(
                self,
            ).move_counts && final(self).base_view().len() == data@[0] && (forall|i: int|
                0 <= i < data@[0] ==> #[trigger] final(self).base_view()[i] == record_glass(
                    data@,
                    size as int,
                    i,
                )) && final(self).cur_view() == final(self).base_view(),
    {
        match Level::from_saved_bytes(self.number, size, data) {
            Some(level) => {
                self.glass_height = size;
                self.loaded = level.loaded;
                self.current = level.current;
                true
            },
            None => false,
        }
    }
}

} // verus!
