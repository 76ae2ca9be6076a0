//! General laws of the engine, proved over the model of
//! [`crate::model`]. The operations' own contracts tie the executable code
//! to that model, so each law carries over to any sequence of calls.

use vstd::prelude::*;

use crate::model::{
    clamped, intra_of, lemma_written_bytes, read_back, row_in_range, row_of, store_byte,
    transfer_len, wf_blocks, written,
};
use crate::BLOCK_SIZE;

verus! {

/// A write materializes the row it touches, and every byte of a previously
/// untouched row outside the written range still reads as zero.
pub proof fn lemma_write_zero_fill(bs: Seq<Seq<u8>>, total: int, src: Seq<u8>)
    requires
        wf_blocks(bs),
        0 <= total,
        row_in_range(total),
        src.len() > 0,
        bs.len() <= row_of(total),
    ensures
        ({
            let bs1 = written(bs, total, src);
            let n = row_of(total);
            let t = transfer_len(total, src.len() as int);
            &&& n < bs1.len()
            &&& bs1[n].len() == BLOCK_SIZE
            &&& forall|a: int|
                n * BLOCK_SIZE <= a < (n + 1) * BLOCK_SIZE && !(total <= a < total + t)
                    ==> #[trigger] store_byte(bs1, a) == 0u8
        }),
{
    let bs1 = written(bs, total, src);
    let n = row_of(total);
    let t = transfer_len(total, src.len() as int);
    let b = BLOCK_SIZE as int;
    lemma_written_bytes(bs, total, src);
    assert forall|a: int|
        n * b <= a < (n + 1) * b && !(total <= a < total + t) implies #[trigger] store_byte(bs1, a)
        == 0u8 by {
        vstd::arithmetic::div_mod::lemma_fundamental_div_mod(total, b);
        vstd::arithmetic::div_mod::lemma_fundamental_div_mod_converse(
            a,
            b,
            n,
            a - n * b,
        );
        // the row was past the end before the write, so its bytes read as zero
        assert(row_of(a) == n && row_of(a) >= bs.len());
        assert(store_byte(bs, a) == 0u8);
    }
}

/// Idempotence: writing the same bytes at the same offset twice leaves
/// exactly the stored state of writing them once.
pub proof fn lemma_write_idempotent(bs: Seq<Seq<u8>>, total: int, src: Seq<u8>)
    requires
        wf_blocks(bs),
        0 <= total,
        row_in_range(total),
    ensures
        written(written(bs, total, src), total, src) == written(bs, total, src),
{
    if src.len() == 0 {
    } else {
        let bs1 = written(bs, total, src);
        let bs2 = written(bs1, total, src);
        lemma_written_bytes(bs, total, src);
        lemma_written_bytes(bs1, total, src);
        let row = row_of(total);
        let b = BLOCK_SIZE as int;
        vstd::arithmetic::div_mod::lemma_fundamental_div_mod(total, b);
        assert(0 <= row) by (nonlinear_arith)
            requires
                total == b * row + intra_of(total),
                0 <= total,
                0 <= intra_of(total) < b,
        ;
        crate::model::lemma_grown_identity(bs1, row);
        assert(bs2 =~~= bs1);
    }
}

/// Round trip: when a byte sequence fits between its offset and the end of
/// the addressed block, writing it and then reading the same number of bytes
/// back at the same offset yields exactly that sequence.
pub proof fn lemma_write_read_round_trip(bs: Seq<Seq<u8>>, total: int, src: Seq<u8>)
    requires
        wf_blocks(bs),
        0 <= total,
        row_in_range(total),
        src.len() <= BLOCK_SIZE - intra_of(total),
    ensures
        read_back(written(bs, total, src), total, src.len() as int) == src,
{
    lemma_written_bytes(bs, total, src);
    assert(transfer_len(total, src.len() as int) == src.len() as int);
    assert(read_back(written(bs, total, src), total, src.len() as int) =~= src);
}

/// Boundary: one call transfers at most to the end of its block. A write one
/// byte longer than a block, at the block's start, stores exactly a full
/// block and leaves the next block's first byte untouched; a second call at
/// the boundary stores the remaining byte, after which the whole sequence is
/// in place.
pub proof fn lemma_block_boundary(bs: Seq<Seq<u8>>, src: Seq<u8>)
    requires
        wf_blocks(bs),
        src.len() == BLOCK_SIZE + 1,
    ensures
        ({
            let bs1 = written(bs, 0, src);
            let rest = src.skip(BLOCK_SIZE as int);
            let bs2 = written(bs1, BLOCK_SIZE as int, rest);
            &&& transfer_len(0, src.len() as int) == BLOCK_SIZE
            &&& store_byte(bs1, BLOCK_SIZE as int) == store_byte(bs, BLOCK_SIZE as int)
            &&& transfer_len(BLOCK_SIZE as int, rest.len() as int) == 1
            &&& forall|a: int|
                0 <= a < src.len() ==> #[trigger] store_byte(bs2, a) == src[a]
        }),
{
    let b = BLOCK_SIZE as int;
    let bs1 = written(bs, 0, src);
    let rest = src.skip(b);
    assert(row_in_range(0) && row_in_range(b));
    lemma_written_bytes(bs, 0, src);
    lemma_written_bytes(bs1, b, rest);
    assert(intra_of(0) == 0 && intra_of(b) == 0 && row_of(0) == 0);
    assert forall|a: int| 0 <= a < src.len() implies #[trigger] store_byte(
        written(bs1, b, rest),
        a,
    ) == src[a] by {
        if a < b {
            assert(store_byte(bs1, a) == src[a]);
        } else {
            assert(rest[a - b] == src[a]);
        }
    }
}

/// Seek laws: a relative seek by zero does not move the cursor, an
/// end-relative seek by zero lands on the logical size, and an end-relative
/// seek further back than the logical size saturates at zero instead of
/// wrapping. (An absolute seek placing the cursor exactly at its argument is
/// the `Start` case of `seek`'s own contract.)
pub proof fn lemma_seek_laws(p: int, ls: int, k: int)
    requires
        0 <= p <= usize::MAX,
        0 <= ls <= usize::MAX,
        k > ls,
    ensures
        clamped(p + 0) == p,
        clamped(ls + 0) == ls,
        clamped(ls - k) == 0,
{
}

} // verus!
