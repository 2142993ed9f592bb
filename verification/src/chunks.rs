//! How a buffer is cut into chunks.
use vstd::prelude::*;

verus! {

/// The number of chunks of `chunk_size` bytes that a buffer of `len` bytes is
/// cut into, the last of which may be shorter. A chunk size of zero cuts
/// nothing.
pub open spec fn chunk_count(len: nat, chunk_size: nat) -> nat {
    if chunk_size == 0 {
        0
    } else {
        ((len + chunk_size - 1) / (chunk_size as int)) as nat
    }
}

/// The up to `chunk_size` bytes of `buf` that begin at `pos`.
pub open spec fn window_at(buf: Seq<u8>, chunk_size: nat, pos: nat) -> Seq<u8>
    recommends
        pos <= buf.len(),
{
    buf.subrange(
        pos as int,
        if pos + chunk_size < buf.len() {
            (pos + chunk_size) as int
        } else {
            buf.len() as int
        },
    )
}

/// Chunk number `index` of `buf`.
pub open spec fn chunk_at(buf: Seq<u8>, chunk_size: nat, index: nat) -> Seq<u8>
    recommends
        index < chunk_count(buf.len(), chunk_size),
{
    window_at(buf, chunk_size, index * chunk_size)
}

/// Where the last chunk of a buffer of `len` bytes begins.
pub open spec fn last_chunk_start(len: nat, chunk_size: nat) -> nat {
    if chunk_count(len, chunk_size) == 0 {
        0
    } else {
        ((chunk_count(len, chunk_size) - 1) * chunk_size) as nat
    }
}

/// Chunk `index` exists exactly when it begins inside the buffer.
pub proof fn lemma_chunk_count(len: nat, chunk_size: nat, index: nat)
    requires
        chunk_size > 0,
    ensures
        index < chunk_count(len, chunk_size) <==> index * chunk_size < len,
{
    let count = chunk_count(len, chunk_size) as int;
    let size = chunk_size as int;
    vstd::arithmetic::div_mod::lemma_fundamental_div_mod(len + size - 1, size);
    vstd::arithmetic::div_mod::lemma_mod_bound(len + size - 1, size);
    assert(size * count <= len + size - 1 < size * count + size);
    if index < count {
        assert(index * size <= (count - 1) * size) by (nonlinear_arith)
            requires
                index <= count - 1,
                size > 0,
        ;
        assert((count - 1) * size == size * count - size) by (nonlinear_arith);
    } else {
        assert(index * size >= count * size) by (nonlinear_arith)
            requires
                index >= count,
                size > 0,
        ;
        assert(count * size == size * count) by (nonlinear_arith);
    }
}

} // verus!
