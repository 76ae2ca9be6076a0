//! The storage engine proper: a device holding the growable block store and
//! the seekable cursor, with the three clamped byte operations.

use vstd::prelude::*;

use crate::model::{
    clamped, grown, intra_of, lemma_addr_split, lemma_grown_preserves, lemma_size_fits, read_back,
    row_in_range, row_of, size_of_blocks, store_byte, transfer_len, wf_blocks, written, zero_row,
};
use crate::{BLOCK_SIZE, MAX_ROWS};

verus! {

/// Why a call failed. A short transfer is not a failure: moving fewer bytes
/// than requested is ordinary behavior reported through the returned count.
#[derive(Clone, Copy, Debug, PartialEq, Eq, Structural)]
pub enum ScullError {
    /// The store could not grow far enough to materialize the addressed row.
    OutOfMemory,
    /// An offset could not be represented in the engine's position type.
    InvalidOffset,
}

/// A repositioning request for the cursor.
#[derive(Clone, Copy, Debug)]
pub enum SeekFrom {
    /// Place the cursor at this absolute position.
    Start(usize),
    /// Place the cursor this far from the store's logical end.
    End(isize),
    /// Move the cursor this far from where it is.
    Current(isize),
}

/// The device: a sparse, growable store of fixed-size blocks and an
/// independently settable cursor that takes part in offset resolution.
pub struct ScullDevice {
    rows: Vec<Vec<u8>>,
    cursor: usize,
}

impl ScullDevice {
    /// The store's contents, one byte sequence per row.
    pub closed spec fn blocks(&self) -> Seq<Seq<u8>> {
        Seq::new(self.rows@.len(), |r: int| self.rows@[r]@)
    }

    /// The cursor's position.
    pub closed spec fn cursor_at(&self) -> int {
        self.cursor as int
    }

    /// Well-formedness: the store is well formed and the cursor sits inside
    /// the position type's range.
    pub open spec fn wf(&self) -> bool {
        &&& wf_blocks(self.blocks())
        &&& 0 <= self.cursor_at() <= usize::MAX
    }

    /// A fresh device: no rows yet, cursor at zero.
    pub fn new() -> (d: ScullDevice)
        ensures
            d.wf(),
            d.blocks() == Seq::<Seq<u8>>::empty(),
            d.cursor_at() == 0,
    {
        let d = ScullDevice { rows: Vec::new(), cursor: 0 };
        proof {
            assert(d.blocks() =~= Seq::<Seq<u8>>::empty());
        }
        d
    }

    /// The store's logical size: every existing row counts as a full block,
    /// however few bytes were actually written into it.
    pub fn capacity(&self) -> (n: usize)
        requires
            self.wf(),
        ensures
            n == size_of_blocks(self.blocks()),
    {
        proof {
            lemma_size_fits(self.blocks());
            assert(self.rows@.len() * (BLOCK_SIZE as int) == size_of_blocks(self.blocks()));
        }
        self.rows.len() * BLOCK_SIZE
    }

    /// Materialize the block of row `row`: grow the store with placeholder
    /// rows until the row exists, then bring it to full, zero-filled size.
    /// Reports the usable capacity of the addressed block. Growth past
    /// [`MAX_ROWS`] cannot be satisfied and is refused as an allocation
    /// failure, with the store left unchanged.
    pub fn find_block(&mut self, row: usize) -> (r: Result<usize, ScullError>)
        requires
            old(self).wf(),
        ensures
            final(self).wf(),
            final(self).cursor_at() == old(self).cursor_at(),
            final(self).blocks().len() >= old(self).blocks().len(),
            row < MAX_ROWS ==> r == Ok::<usize, ScullError>(BLOCK_SIZE) && final(self).blocks()
                == grown(old(self).blocks(), row as int),
            row >= MAX_ROWS ==> r == Err::<usize, ScullError>(ScullError::OutOfMemory) && final(self).blocks() == old(self).blocks(),
    {
        if row >= MAX_ROWS {
            return Err(ScullError::OutOfMemory);
        }
        while self.rows.len() <= row
            invariant
                row < MAX_ROWS,
                old(self).blocks().len() <= self.rows@.len(),
                self.rows@.len() <= old(self).blocks().len() || self.rows@.len() <= row + 1,
                self.cursor == old(self).cursor,
                forall|r: int|
                    0 <= r < old(self).blocks().len() ==> #[trigger] self.rows@[r]@ == old(self).blocks()[r],
                forall|r: int|
                    old(self).blocks().len() <= r < self.rows@.len() ==> (#[trigger] self.rows@[r]@).len()
                        == 0,
                wf_blocks(self.blocks()),
            decreases row + 1 - self.rows@.len(),
        {
            let ghost prev = self.blocks();
            self.rows.push(Vec::new());
            proof {
                assert forall|r: int|
                    0 <= r < self.blocks().len() implies ((#[trigger] self.blocks()[r]).len() == 0
                    || self.blocks()[r].len() == BLOCK_SIZE) by {
                    if r < prev.len() {
                        assert(self.blocks()[r] == prev[r]);
                    } else {
                        assert(self.blocks()[r].len() == 0);
                    }
                }
            }
        }
        if self.rows[row].len() != BLOCK_SIZE {
            let z = zero_block();
            self.rows.set(row, z);
        }
        proof {
            assert(self.blocks() =~~= grown(old(self).blocks(), row as int));
        }
        Ok(BLOCK_SIZE)
    }

    /// Read up to `want` bytes starting at the absolute offset `off` plus
    /// the cursor. The addressed block is materialized first; the transfer
    /// is clamped at its end, so one call never crosses a block boundary.
    /// The returned bytes are the visible store contents at that range —
    /// zero wherever nothing was ever written. The cursor does not move.
    pub fn read(&mut self, want: usize, off: usize) -> (r: Result<Vec<u8>, ScullError>)
        requires
            old(self).wf(),
        ensures
            final(self).wf(),
            final(self).cursor_at() == old(self).cursor_at(),
            ({
                let total = off + old(self).cursor_at();
                let bs0 = old(self).blocks();
                &&& want == 0 ==> (r matches Ok(d) && d@ == Seq::<u8>::empty()) && final(self).blocks() == bs0
                &&& want > 0 && total > usize::MAX ==> r == Err::<Vec<u8>, ScullError>(
                    ScullError::InvalidOffset,
                ) && final(self).blocks() == bs0
                &&& want > 0 && total <= usize::MAX && !row_in_range(total) ==> r == Err::<
                    Vec<u8>,
                    ScullError,
                >(ScullError::OutOfMemory) && final(self).blocks() == bs0
                &&& want > 0 && total <= usize::MAX && row_in_range(total) ==> (r matches Ok(d)
                    && d@ == read_back(bs0, total, want as int)) && final(self).blocks() == grown(
                    bs0,
                    row_of(total),
                )
            }),
    {
        if want == 0 {
            return Ok(Vec::new());
        }
        let cur = self.cursor;
        if off > usize::MAX - cur {
            return Err(ScullError::InvalidOffset);
        }
        let total = off + cur;
        let row = total / BLOCK_SIZE;
        let intra = total % BLOCK_SIZE;
        let ghost bs0 = self.blocks();
        match self.find_block(row) {
            Ok(cap) => {
                proof {
                    lemma_grown_preserves(bs0, row as int);
                }
                let end = if want < cap - intra {
                    intra + want
                } else {
                    cap
                };
                let t = end - intra;
                assert(t == transfer_len(total as int, want as int));
                let mut out: Vec<u8> = Vec::new();
                let mut j: usize = 0;
                while j < t
                    invariant
                        j <= t,
                        t == transfer_len(total as int, want as int),
                        t <= BLOCK_SIZE - intra,
                        intra == intra_of(total as int),
                        row == row_of(total as int),
                        row < MAX_ROWS,
                        row < self.blocks().len(),
                        self.blocks() == grown(bs0, row as int),
                        self.blocks()[row as int].len() == BLOCK_SIZE,
                        wf_blocks(bs0),
                        out@.len() == j,
                        forall|i: int| 0 <= i < j ==> out@[i] == store_byte(bs0, total + i),
                    decreases t - j,
                {
                    proof {
                        lemma_addr_split(total as int, j as int);
                        lemma_grown_preserves(bs0, row as int);
                    }
                    let byte = self.rows[row][intra + j];
                    assert(byte == store_byte(self.blocks(), total + j));
                    out.push(byte);
                    j += 1;
                }
                proof {
                    assert(out@ =~= read_back(bs0, total as int, want as int));
                }
                Ok(out)
            },
            Err(e) => Err(e),
        }
    }

    /// Write the bytes of `src` starting at the absolute offset `off` plus
    /// the cursor. The addressed block is materialized first; the transfer
    /// is clamped at its end, so one call never crosses a block boundary.
    /// Reports how many bytes were stored; a caller with more to write calls
    /// again at an advanced offset. The cursor does not move.
    pub fn write(&mut self, src: &[u8], off: usize) -> (r: Result<usize, ScullError>)
        requires
            old(self).wf(),
        ensures
            final(self).wf(),
            final(self).cursor_at() == old(self).cursor_at(),
            ({
                let total = off + old(self).cursor_at();
                let bs0 = old(self).blocks();
                &&& src@.len() == 0 ==> r == Ok::<usize, ScullError>(0) && final(self).blocks()
                    == bs0
                &&& src@.len() > 0 && total > usize::MAX ==> r == Err::<usize, ScullError>(
                    ScullError::InvalidOffset,
                ) && final(self).blocks() == bs0
                &&& src@.len() > 0 && total <= usize::MAX && !row_in_range(total) ==> r == Err::<
                    usize,
                    ScullError,
                >(ScullError::OutOfMemory) && final(self).blocks() == bs0
                &&& src@.len() > 0 && total <= usize::MAX && row_in_range(total) ==> (r matches
                    Ok(n) && n == transfer_len(total, src@.len() as int)) && final(self).blocks()
                    == written(bs0, total, src@)
            }),
    {
        if src.len() == 0 {
            return Ok(0);
        }
        let cur = self.cursor;
        if off > usize::MAX - cur {
            return Err(ScullError::InvalidOffset);
        }
        let total = off + cur;
        let row = total / BLOCK_SIZE;
        let intra = total % BLOCK_SIZE;
        let ghost bs0 = self.blocks();
        match self.find_block(row) {
            Ok(cap) => {
                proof {
                    lemma_grown_preserves(bs0, row as int);
                }
                let end = if src.len() < cap - intra {
                    intra + src.len()
                } else {
                    cap
                };
                let t = end - intra;
                assert(t == transfer_len(total as int, src@.len() as int));
                let ghost g = grown(bs0, row as int);
                let mut nb: Vec<u8> = Vec::new();
                let mut i: usize = 0;
                while i < BLOCK_SIZE
                    invariant
                        i <= BLOCK_SIZE,
                        t == transfer_len(total as int, src@.len() as int),
                        t <= BLOCK_SIZE - intra,
                        t <= src@.len(),
                        end == intra + t,
                        intra == intra_of(total as int),
                        row == row_of(total as int),
                        row < self.blocks().len(),
                        self.blocks() == g,
                        g == grown(bs0, row as int),
                        self.blocks()[row as int].len() == BLOCK_SIZE,
                        wf_blocks(bs0),
                        nb@.len() == i,
                        forall|k: int|
                            0 <= k < i ==> nb@[k] == (if intra <= k < intra + t {
                                src@[k - intra]
                            } else {
                                g[row as int][k]
                            }),
                    decreases BLOCK_SIZE - i,
                {
                    if i >= intra && i < end {
                        nb.push(src[i - intra]);
                    } else {
                        nb.push(self.rows[row][i]);
                    }
                    i += 1;
                }
                self.rows.set(row, nb);
                proof {
                    lemma_grown_preserves(bs0, row as int);
                    assert(self.blocks()[row as int] =~= written(bs0, total as int, src@)[row as int]);
                    assert(self.blocks() =~~= written(bs0, total as int, src@));
                }
                Ok(t)
            },
            Err(e) => Err(e),
        }
    }

    /// Reposition the cursor. `Start` places it absolutely; `End` and
    /// `Current` add a signed delta to the logical size or to the present
    /// position, saturating instead of wrapping at either end of the
    /// position type's range. Reports the new position. The store itself is
    /// never touched.
    pub fn seek(&mut self, pos: SeekFrom) -> (r: Result<usize, ScullError>)
        requires
            old(self).wf(),
        ensures
            final(self).wf(),
            final(self).blocks() == old(self).blocks(),
            match pos {
                SeekFrom::Start(x) => final(self).cursor_at() == x && r == Ok::<usize, ScullError>(
                    x,
                ),
                SeekFrom::End(d) => final(self).cursor_at() == clamped(
                    size_of_blocks(old(self).blocks()) + d,
                ) && (r matches Ok(v) && v == final(self).cursor_at()),
                SeekFrom::Current(d) => final(self).cursor_at() == clamped(
                    old(self).cursor_at() + d,
                ) && (r matches Ok(v) && v == final(self).cursor_at()),
            },
    {
        match pos {
            SeekFrom::Start(x) => {
                self.cursor = x;
                Ok(x)
            },
            SeekFrom::End(d) => {
                let size = self.capacity();
                let v = sat_add_signed(size, d);
                self.cursor = v;
                Ok(v)
            },
            SeekFrom::Current(d) => {
                let v = sat_add_signed(self.cursor, d);
                self.cursor = v;
                Ok(v)
            },
        }
    }
}

/// A fully materialized, zero-filled block.
fn zero_block() -> (b: Vec<u8>)
    ensures
        b@ == zero_row(),
{
    let mut b: Vec<u8> = Vec::new();
    let mut i: usize = 0;
    while i < BLOCK_SIZE
        invariant
            i <= BLOCK_SIZE,
            b@.len() == i,
            forall|j: int| 0 <= j < i ==> b@[j] == 0u8,
        decreases BLOCK_SIZE - i,
    {
        b.push(0u8);
        i += 1;
    }
    proof {
        assert(b@ =~= zero_row());
    }
    b
}

/// Add a signed delta to a position, saturating at both ends of the range.
fn sat_add_signed(p: usize, d: isize) -> (r: usize)
    ensures
        r == clamped(p + d),
{
    if d >= 0 {
        let du = d as usize;
        if p <= usize::MAX - du {
            p + du
        } else {
            usize::MAX
        }
    } else {
        let m = ((-(d + 1)) as usize) + 1;
        assert(m == -(d as int));
        if p >= m {
            p - m
        } else {
            0
        }
    }
}

} // verus!
