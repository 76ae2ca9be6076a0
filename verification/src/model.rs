//! The mathematical model of the storage engine.
//!
//! A store is modeled as a `Seq<Seq<u8>>`: one byte sequence per row, in row
//! order. A row is either still a zero-length placeholder or fully
//! materialized at [`BLOCK_SIZE`] bytes. The spec functions here say what
//! each engine operation does to that model; the executable code in
//! [`crate::device`] is verified against them.

use vstd::arithmetic::div_mod::{lemma_fundamental_div_mod, lemma_fundamental_div_mod_converse};
use vstd::prelude::*;

use crate::{BLOCK_SIZE, MAX_ROWS};

verus! {

/// Well-formedness of a store: it never outgrows the addressable range, and
/// every row is either an untouched placeholder or a full block.
pub open spec fn wf_blocks(bs: Seq<Seq<u8>>) -> bool {
    &&& bs.len() <= MAX_ROWS
    &&& forall|r: int|
        0 <= r < bs.len() ==> ((#[trigger] bs[r]).len() == 0 || bs[r].len() == BLOCK_SIZE)
}

/// The row an absolute byte offset falls into.
pub open spec fn row_of(total: int) -> int {
    total / (BLOCK_SIZE as int)
}

/// The offset within its row of an absolute byte offset.
pub open spec fn intra_of(total: int) -> int {
    total % (BLOCK_SIZE as int)
}

/// Whether the row of an absolute offset can be materialized at all.
pub open spec fn row_in_range(total: int) -> bool {
    row_of(total) < MAX_ROWS
}

/// The byte visible at absolute offset `addr`. Bytes of rows that were never
/// materialized, and of rows past the end, read as zero.
pub open spec fn store_byte(bs: Seq<Seq<u8>>, addr: int) -> u8 {
    let r = row_of(addr);
    if 0 <= addr && r < bs.len() && bs[r].len() == BLOCK_SIZE {
        bs[r][intra_of(addr)]
    } else {
        0u8
    }
}

/// A freshly materialized block: all zeroes.
pub open spec fn zero_row() -> Seq<u8> {
    Seq::new(BLOCK_SIZE as nat, |i: int| 0u8)
}

/// The store after materializing `row`: extended with placeholders so that
/// `row` exists, and `row` itself brought to full size, zero-filled. Every
/// other row is unchanged.
pub open spec fn grown(bs: Seq<Seq<u8>>, row: int) -> Seq<Seq<u8>> {
    let n = if bs.len() > row + 1 { bs.len() as int } else { row + 1 };
    Seq::new(
        n as nat,
        |r: int|
            if r == row {
                if r < bs.len() && bs[r].len() == BLOCK_SIZE {
                    bs[r]
                } else {
                    zero_row()
                }
            } else if r < bs.len() {
                bs[r]
            } else {
                Seq::<u8>::empty()
            },
    )
}

/// How many of `n` requested bytes a single call starting at absolute offset
/// `total` transfers: the transfer is clamped at the end of the block.
pub open spec fn transfer_len(total: int, n: int) -> int {
    if n <= BLOCK_SIZE - intra_of(total) {
        n
    } else {
        BLOCK_SIZE - intra_of(total)
    }
}

/// The store after writing `src` at absolute offset `total`. An empty source
/// leaves the store untouched; otherwise the addressed row is materialized
/// and the clamped prefix of `src` replaces its bytes from `intra_of(total)`
/// on.
pub open spec fn written(bs: Seq<Seq<u8>>, total: int, src: Seq<u8>) -> Seq<Seq<u8>> {
    if src.len() == 0 {
        bs
    } else {
        let row = row_of(total);
        let intra = intra_of(total);
        let t = transfer_len(total, src.len() as int);
        let g = grown(bs, row);
        g.update(
            row,
            Seq::new(
                BLOCK_SIZE as nat,
                |i: int| if intra <= i < intra + t { src[i - intra] } else { g[row][i] },
            ),
        )
    }
}

/// The bytes a read of up to `want` bytes at absolute offset `total` yields.
pub open spec fn read_back(bs: Seq<Seq<u8>>, total: int, want: int) -> Seq<u8> {
    Seq::new(transfer_len(total, want) as nat, |i: int| store_byte(bs, total + i))
}

/// The logical size of a store: every existing row counts as a full block.
pub open spec fn size_of_blocks(bs: Seq<Seq<u8>>) -> int {
    bs.len() * (BLOCK_SIZE as int)
}

/// An arbitrary integer clamped into the cursor's range: seeks saturate at
/// zero and at the top of the position type instead of wrapping.
pub open spec fn clamped(v: int) -> int {
    if v < 0 {
        0
    } else if v > usize::MAX as int {
        usize::MAX as int
    } else {
        v
    }
}

/// Offsets within one block share its row: stepping `k` bytes from `total`
/// without reaching the block's end stays in `row_of(total)`.
pub proof fn lemma_addr_split(total: int, k: int)
    requires
        0 <= total,
        0 <= k < BLOCK_SIZE - intra_of(total),
    ensures
        row_of(total + k) == row_of(total),
        intra_of(total + k) == intra_of(total) + k,
{
    let b = BLOCK_SIZE as int;
    lemma_fundamental_div_mod(total, b);
    lemma_fundamental_div_mod_converse(total + k, b, row_of(total), intra_of(total) + k);
}

/// The logical size of a well-formed store fits the position type.
pub proof fn lemma_size_fits(bs: Seq<Seq<u8>>)
    requires
        wf_blocks(bs),
    ensures
        0 <= size_of_blocks(bs) <= usize::MAX,
{
    let b = BLOCK_SIZE as int;
    let m = usize::MAX as int;
    lemma_fundamental_div_mod(m, b);
    assert(bs.len() * b <= (m / b) * b) by (nonlinear_arith)
        requires
            bs.len() <= m / b,
            b > 0,
    ;
}

/// Materializing a row preserves well-formedness, touches no other row, and
/// changes no visible byte: the fresh bytes were already reading as zero.
pub proof fn lemma_grown_preserves(bs: Seq<Seq<u8>>, row: int)
    requires
        wf_blocks(bs),
        0 <= row < MAX_ROWS,
    ensures
        wf_blocks(grown(bs, row)),
        grown(bs, row).len() == if bs.len() > row + 1 { bs.len() as int } else { row + 1 },
        grown(bs, row)[row].len() == BLOCK_SIZE,
        forall|a: int| store_byte(grown(bs, row), a) == store_byte(bs, a),
{
    let g = grown(bs, row);
    let b = BLOCK_SIZE as int;
    assert forall|a: int| store_byte(g, a) == store_byte(bs, a) by {
        if 0 <= a {
            lemma_fundamental_div_mod(a, b);
            let r = row_of(a);
            let i = intra_of(a);
            assert(0 <= i < b);
            assert(0 <= r) by (nonlinear_arith)
                requires
                    a == b * r + i,
                    0 <= a,
                    0 <= i < b,
            ;
            if r == row && !(r < bs.len() && bs[r].len() == BLOCK_SIZE) {
                assert(g[r][i] == 0u8);
            }
        }
    }
}

/// Materializing a row that is already materialized changes nothing.
pub proof fn lemma_grown_identity(bs: Seq<Seq<u8>>, row: int)
    requires
        wf_blocks(bs),
        0 <= row < bs.len(),
        bs[row].len() == BLOCK_SIZE,
    ensures
        grown(bs, row) == bs,
{
    assert(grown(bs, row) =~= bs);
}

/// What every byte of the store reads as after a write: the clamped prefix
/// of the source within the written range, and the prior byte everywhere
/// else. Well-formedness is preserved.
pub proof fn lemma_written_bytes(bs: Seq<Seq<u8>>, total: int, src: Seq<u8>)
    requires
        wf_blocks(bs),
        0 <= total,
        row_in_range(total),
    ensures
        wf_blocks(written(bs, total, src)),
        forall|a: int|
            #[trigger] store_byte(written(bs, total, src), a) == (if total <= a < total
                + transfer_len(total, src.len() as int) && src.len() > 0 {
                src[a - total]
            } else {
                store_byte(bs, a)
            }),
{
    let b = BLOCK_SIZE as int;
    let w = written(bs, total, src);
    if src.len() == 0 {
    } else {
        let row = row_of(total);
        let intra = intra_of(total);
        let t = transfer_len(total, src.len() as int);
        let g = grown(bs, row);
        lemma_fundamental_div_mod(total, b);
        assert(0 <= intra < b);
        assert(0 <= row) by (nonlinear_arith)
            requires
                total == b * row + intra,
                0 <= total,
                0 <= intra < b,
        ;
        lemma_grown_preserves(bs, row);
        assert(wf_blocks(w));
        assert forall|a: int|
            #[trigger] store_byte(w, a) == (if total <= a < total + t {
                src[a - total]
            } else {
                store_byte(bs, a)
            }) by {
            if 0 <= a {
                lemma_fundamental_div_mod(a, b);
                let r = row_of(a);
                let i = intra_of(a);
                assert(0 <= i < b);
                assert(0 <= r) by (nonlinear_arith)
                    requires
                        a == b * r + i,
                        0 <= a,
                        0 <= i < b,
                ;
                if total <= a < total + t {
                    lemma_addr_split(total, a - total);
                    assert(r == row && i == intra + (a - total));
                    assert(store_byte(w, a) == w[row][i]);
                    assert(w[row][i] == src[a - total]);
                } else {
                    if r == row {
                        assert(w[r].len() == BLOCK_SIZE);
                        if !(intra <= i < intra + t) {
                            assert(w[r][i] == g[row][i]);
                            assert(store_byte(g, a) == g[r][i]);
                        } else {
                            // a byte of row `row` whose intra offset lies in the
                            // written range must come from an address in that
                            // range
                            assert(a == b * r + i);
                            assert(total + (i - intra) == a) by (nonlinear_arith)
                                requires
                                    a == b * r + i,
                                    total == b * row + intra,
                                    r == row,
                            ;
                            assert(false);
                        }
                    } else {
                        assert(store_byte(w, a) == store_byte(g, a));
                    }
                }
                assert(store_byte(g, a) == store_byte(bs, a));
            } else {
                assert(store_byte(w, a) == 0u8 && store_byte(bs, a) == 0u8);
            }
        }
    }
}

} // verus!
