//! The delta of a modified buffer against a signature: the search for chunks
//! that the signature knows, and the operations that record what it found.
use crate::chunks::window_at;
use crate::rolling_sum::{weak_hash, RollingSum};
use crate::signature::{
    bucket_view, chunk_strong_hash, discard_front, is_chunk_last, strong_hash_of, ChunkEntry,
    ChunkHash, FileSignature, RS_MAX_STRONG_SUM_LENGTH,
};
use vstd::prelude::*;

verus! {

/// Enum type representing 2 types of operations
/// that can be applied to reconstruct modified file
/// Match - the whole chunk matches, it holds chunk index
/// NoMatch - weak signature doesn't match, it holds vector of non-matching bytes
#[derive(Debug, PartialEq)]
pub enum Operation {
    Match(u32),
    NoMatch(Vec<u8>),
}

/// What an `Operation` stands for in contracts.
pub enum OperationView {
    Match(u32),
    NoMatch(Seq<u8>),
}

impl View for Operation {
    type V = OperationView;

    open spec fn view(&self) -> OperationView {
        match self {
            Operation::Match(chunk_index) => OperationView::Match(*chunk_index),
            Operation::NoMatch(bytes) => OperationView::NoMatch(bytes@),
        }
    }
}

/// What a list of operations stands for in contracts.
pub open spec fn operations_view(operations: Seq<Operation>) -> Seq<OperationView> {
    operations.map_values(|operation: Operation| operation@)
}

/// The first entry of `bucket`, from position `from` on, whose strong hash is
/// `strong`.
pub open spec fn first_with_strong(bucket: Seq<ChunkEntry>, strong: Seq<u8>, from: nat) -> Option<
    ChunkEntry,
>
    decreases bucket.len() - from,
{
    if from >= bucket.len() {
        None
    } else if bucket[from as int].strong_hash == strong {
        Some(bucket[from as int])
    } else {
        first_with_strong(bucket, strong, from + 1)
    }
}

/// The entry that `table` confirms for `chunk` when it is looked up under
/// `weak`: the first one listed there with the strong hash of `chunk`.
pub open spec fn matching_entry(table: Map<u32, Seq<ChunkEntry>>, weak: u32, chunk: Seq<u8>) -> Option<
    ChunkEntry,
> {
    if table.contains_key(weak) {
        first_with_strong(table[weak], strong_hash_of(chunk), 0)
    } else {
        None
    }
}

/// What `first_with_strong` finds is the entry at the first place, from
/// `from` on, that has the strong hash; it finds nothing only where no entry
/// has it. The lemma returns that place, or the bucket's length.
pub proof fn lemma_first_with_strong(bucket: Seq<ChunkEntry>, strong: Seq<u8>, from: nat) -> (at:
    int)
    ensures
        from <= at,
        forall|earlier: int| from <= earlier < at && earlier < bucket.len() ==> bucket[earlier].strong_hash
            != strong,
        match first_with_strong(bucket, strong, from) {
            Some(entry) => at < bucket.len() && bucket[at] == entry && entry.strong_hash == strong,
            None => at >= bucket.len(),
        },
    decreases bucket.len() - from,
{
    if from >= bucket.len() || bucket[from as int].strong_hash == strong {
        from as int
    } else {
        lemma_first_with_strong(bucket, strong, from + 1)
    }
}

/// The byte that enters a window of `chunk_size` bytes beginning at `pos`
/// when it moves one byte forward, if the buffer reaches that far.
pub open spec fn lookahead(buf: Seq<u8>, chunk_size: nat, pos: nat) -> Option<u8> {
    if pos + chunk_size < buf.len() {
        Some(buf[(pos + chunk_size) as int])
    } else {
        None
    }
}

/// The checksum state that a byte-by-byte search carries when its window
/// begins at `pos`, having begun at `start` with a fresh checksum of the
/// window there and rolled forward one byte at a time since.
pub open spec fn slid_sum(buf: Seq<u8>, chunk_size: nat, start: nat, pos: nat) -> RollingSum
    decreases pos,
{
    if pos <= start {
        RollingSum::seeded(window_at(buf, chunk_size, start))
    } else {
        slid_sum(buf, chunk_size, start, (pos - 1) as nat).rolled(
            buf[pos - 1],
            lookahead(buf, chunk_size, (pos - 1) as nat),
        )
    }
}

/// While the window is whole, the state that a byte-by-byte search carries is
/// that of a fresh checksum of the window: the weak hash it looks up is the
/// weak hash of the chunk it tests. Once the window has begun to shrink at
/// the end of the buffer this is no longer so.
pub proof fn lemma_slid_sum_of_whole_window(buf: Seq<u8>, chunk_size: nat, start: nat, pos: nat)
    requires
        chunk_size > 0,
        start <= pos,
        pos + chunk_size <= buf.len(),
    ensures
        slid_sum(buf, chunk_size, start, pos) == RollingSum::seeded(
            window_at(buf, chunk_size, pos),
        ),
        slid_sum(buf, chunk_size, start, pos).digest_value() == weak_hash(
            window_at(buf, chunk_size, pos),
        ),
    decreases pos,
{
    if pos > start {
        let before = (pos - 1) as nat;
        let window = window_at(buf, chunk_size, before);
        let entering = buf[(before + chunk_size) as int];
        lemma_slid_sum_of_whole_window(buf, chunk_size, start, before);
        crate::rolling_sum::lemma_roll_is_fresh(window, entering);
        assert(window[0] == buf[before as int]);
        assert(window.drop_first().push(entering) =~= window_at(buf, chunk_size, pos));
    }
    crate::rolling_sum::lemma_digest_of_seeded(window_at(buf, chunk_size, pos));
}

/// What a search of a buffer gives: the operations found, and the position
/// from which on the buffer is left unconsumed.
pub struct Scan {
    pub operations: Seq<OperationView>,
    pub rest: nat,
}

/// The search of `buf` from `pos` on, where `pos` is a place at which the
/// search tests a whole chunk with a fresh checksum.
///
/// A chunk that the table confirms becomes a `Match`, and the search goes on
/// behind it, unless the chunk reaches the end of the buffer: then the search
/// is over and the chunk stays in the buffer. A chunk that the table does not
/// confirm begins a byte-by-byte search.
pub open spec fn aligned_scan(
    buf: Seq<u8>,
    table: Map<u32, Seq<ChunkEntry>>,
    chunk_size: nat,
    pos: nat,
) -> Scan
    decreases buf.len() - pos, 1nat,
{
    if chunk_size == 0 || pos >= buf.len() {
        Scan { operations: Seq::empty(), rest: pos }
    } else {
        let chunk = window_at(buf, chunk_size, pos);
        match matching_entry(table, weak_hash(chunk), chunk) {
            Some(entry) => {
                let found = seq![OperationView::Match(entry.chunk_index)];
                if pos + chunk_size >= buf.len() {
                    Scan { operations: found, rest: pos }
                } else {
                    let later = aligned_scan(buf, table, chunk_size, pos + chunk_size);
                    Scan { operations: found + later.operations, rest: later.rest }
                }
            },
            None => sliding_scan(buf, table, chunk_size, pos, pos),
        }
    }
}

/// The byte-by-byte search of `buf` that began at `start` and has come to
/// `pos` without a match: the bytes from `start` to `pos` are its literal run
/// so far.
///
/// The byte at `pos` joins the run and the window moves behind it, its
/// checksum rolled forward. If the table confirms the chunk there, the run is
/// written out as one `NoMatch`, the chunk becomes a `Match`, and the search
/// goes on behind it at whole chunks. At the end of the buffer the run is
/// written out and the search is over.
pub open spec fn sliding_scan(
    buf: Seq<u8>,
    table: Map<u32, Seq<ChunkEntry>>,
    chunk_size: nat,
    start: nat,
    pos: nat,
) -> Scan
    decreases buf.len() - pos, 0nat,
{
    if pos >= buf.len() {
        Scan {
            operations: seq![OperationView::NoMatch(buf.subrange(start as int, buf.len() as int))],
            rest: buf.len(),
        }
    } else {
        let next = pos + 1;
        let chunk = window_at(buf, chunk_size, next);
        let weak = slid_sum(buf, chunk_size, start, next).digest_value();
        match matching_entry(table, weak, chunk) {
            Some(entry) => {
                let found = seq![
                    OperationView::NoMatch(buf.subrange(start as int, next as int)),
                    OperationView::Match(entry.chunk_index),
                ];
                let later = aligned_scan(buf, table, chunk_size, next + chunk.len());
                Scan { operations: found + later.operations, rest: later.rest }
            },
            None => sliding_scan(buf, table, chunk_size, start, next),
        }
    }
}

/// The delta of `buf` against the signature table `table`, for chunks of
/// `chunk_size` bytes.
pub open spec fn delta_of(buf: Seq<u8>, table: Map<u32, Seq<ChunkEntry>>, chunk_size: nat) -> Scan {
    aligned_scan(buf, table, chunk_size, 0)
}

/// Whether a byte-by-byte search that began at `start` finds a match when its
/// window begins at `pos`: the table confirms the chunk there under the weak
/// hash that the search carries.
pub open spec fn hits_at(
    buf: Seq<u8>,
    table: Map<u32, Seq<ChunkEntry>>,
    chunk_size: nat,
    start: nat,
    pos: nat,
) -> bool {
    matching_entry(
        table,
        slid_sum(buf, chunk_size, start, pos).digest_value(),
        window_at(buf, chunk_size, pos),
    ) is Some
}

/// A byte-by-byte search that finds no match behind `pos` ends in one literal
/// run from where it began to the end of the buffer.
pub proof fn lemma_sliding_scan_without_hit(
    buf: Seq<u8>,
    table: Map<u32, Seq<ChunkEntry>>,
    chunk_size: nat,
    start: nat,
    pos: nat,
)
    requires
        forall|later: nat| pos < later <= buf.len() ==> !hits_at(buf, table, chunk_size, start, later),
    ensures
        sliding_scan(buf, table, chunk_size, start, pos) == (Scan {
            operations: seq![OperationView::NoMatch(buf.subrange(start as int, buf.len() as int))],
            rest: buf.len(),
        }),
    decreases buf.len() - pos,
{
    if pos < buf.len() {
        assert(!hits_at(buf, table, chunk_size, start, pos + 1));
        lemma_sliding_scan_without_hit(buf, table, chunk_size, start, pos + 1);
    }
}

/// A byte-by-byte search stops at the first position behind `pos` where it
/// finds a match: the bytes from where it began up to there are one literal
/// run, the chunk there is a match, and behind that chunk the search goes on
/// at whole chunks.
pub proof fn lemma_sliding_scan_to_first_hit(
    buf: Seq<u8>,
    table: Map<u32, Seq<ChunkEntry>>,
    chunk_size: nat,
    start: nat,
    pos: nat,
    hit: nat,
)
    requires
        pos < hit <= buf.len(),
        hits_at(buf, table, chunk_size, start, hit),
        forall|between: nat| pos < between < hit ==> !hits_at(buf, table, chunk_size, start, between),
    ensures
        ({
            let chunk = window_at(buf, chunk_size, hit);
            let entry = matching_entry(
                table,
                slid_sum(buf, chunk_size, start, hit).digest_value(),
                chunk,
            )->0;
            let later = aligned_scan(buf, table, chunk_size, hit + chunk.len());
            sliding_scan(buf, table, chunk_size, start, pos) == (Scan {
                operations: seq![
                    OperationView::NoMatch(buf.subrange(start as int, hit as int)),
                    OperationView::Match(entry.chunk_index),
                ] + later.operations,
                rest: later.rest,
            })
        }),
    decreases hit - pos,
{
    if pos + 1 < hit {
        assert(!hits_at(buf, table, chunk_size, start, pos + 1));
        lemma_sliding_scan_to_first_hit(buf, table, chunk_size, start, pos + 1, hit);
    }
}

/// No two operations that follow one another are both literal runs.
pub open spec fn no_adjacent_literals(operations: Seq<OperationView>) -> bool {
    forall|i: int|
        0 <= i < operations.len() - 1 ==> !(#[trigger] operations[i] is NoMatch && operations[i
            + 1] is NoMatch)
}

/// Every literal run holds at least one byte.
pub open spec fn literals_not_empty(operations: Seq<OperationView>) -> bool {
    forall|i: int|
        0 <= i < operations.len() ==> (#[trigger] operations[i] matches OperationView::NoMatch(
            bytes,
        ) ==> bytes.len() > 0)
}

/// Operations that begin with a match and go on with a well-formed list are
/// well formed: the match separates whatever stands before it from the list.
proof fn lemma_well_formed_behind_match(found: Seq<OperationView>, later: Seq<OperationView>)
    requires
        found.len() > 0,
        found.last() is Match,
        no_adjacent_literals(found),
        literals_not_empty(found),
        no_adjacent_literals(later),
        literals_not_empty(later),
    ensures
        no_adjacent_literals(found + later),
        literals_not_empty(found + later),
{
    let all = found + later;
    assert forall|i: int| 0 <= i < all.len() - 1 implies !(#[trigger] all[i] is NoMatch && all[i
        + 1] is NoMatch) by {
        if i + 1 < found.len() {
            assert(all[i] == found[i] && all[i + 1] == found[i + 1]);
        } else if i >= found.len() {
            assert(all[i] == later[i - found.len()]);
            assert(all[i + 1] == later[i - found.len() + 1]);
        } else {
            assert(all[i] == found.last());
        }
    }
    assert forall|i: int| 0 <= i < all.len() implies (#[trigger] all[i] matches OperationView::NoMatch(
        bytes,
    ) ==> bytes.len() > 0) by {
        if i < found.len() {
            assert(all[i] == found[i]);
        } else {
            assert(all[i] == later[i - found.len()]);
        }
    }
}

/// A search at whole chunks gives, from any position, operations among which
/// no two literal runs follow one another and no literal run is empty.
pub proof fn lemma_aligned_scan_well_formed(
    buf: Seq<u8>,
    table: Map<u32, Seq<ChunkEntry>>,
    chunk_size: nat,
    pos: nat,
)
    ensures
        no_adjacent_literals(aligned_scan(buf, table, chunk_size, pos).operations),
        literals_not_empty(aligned_scan(buf, table, chunk_size, pos).operations),
    decreases buf.len() - pos, 1nat,
{
    if chunk_size == 0 || pos >= buf.len() {
    } else {
        let chunk = window_at(buf, chunk_size, pos);
        match matching_entry(table, weak_hash(chunk), chunk) {
            Some(entry) => {
                let found = seq![OperationView::Match(entry.chunk_index)];
                if pos + chunk_size < buf.len() {
                    let later = aligned_scan(buf, table, chunk_size, pos + chunk_size);
                    lemma_aligned_scan_well_formed(buf, table, chunk_size, pos + chunk_size);
                    lemma_well_formed_behind_match(found, later.operations);
                }
            },
            None => {
                lemma_sliding_scan_well_formed(buf, table, chunk_size, pos, pos);
            },
        }
    }
}

/// A byte-by-byte search gives well-formed operations too, as long as it
/// began inside the buffer.
pub proof fn lemma_sliding_scan_well_formed(
    buf: Seq<u8>,
    table: Map<u32, Seq<ChunkEntry>>,
    chunk_size: nat,
    start: nat,
    pos: nat,
)
    requires
        start <= pos,
        start < buf.len(),
    ensures
        no_adjacent_literals(sliding_scan(buf, table, chunk_size, start, pos).operations),
        literals_not_empty(sliding_scan(buf, table, chunk_size, start, pos).operations),
    decreases buf.len() - pos, 0nat,
{
    if pos >= buf.len() {
    } else {
        let next = pos + 1;
        let chunk = window_at(buf, chunk_size, next);
        let weak = slid_sum(buf, chunk_size, start, next).digest_value();
        match matching_entry(table, weak, chunk) {
            Some(entry) => {
                let found = seq![
                    OperationView::NoMatch(buf.subrange(start as int, next as int)),
                    OperationView::Match(entry.chunk_index),
                ];
                let later = aligned_scan(buf, table, chunk_size, next + chunk.len());
                lemma_aligned_scan_well_formed(buf, table, chunk_size, next + chunk.len());
                lemma_well_formed_behind_match(found, later.operations);
            },
            None => {
                lemma_sliding_scan_well_formed(buf, table, chunk_size, start, next);
            },
        }
    }
}

/// In every delta no two literal runs follow one another, and none of them
/// is empty.
pub proof fn lemma_delta_well_formed(
    buf: Seq<u8>,
    table: Map<u32, Seq<ChunkEntry>>,
    chunk_size: nat,
)
    ensures
        no_adjacent_literals(delta_of(buf, table, chunk_size).operations),
        literals_not_empty(delta_of(buf, table, chunk_size).operations),
{
    lemma_aligned_scan_well_formed(buf, table, chunk_size, 0);
}

/// Generates delta for given buffer, signature and chunk size
///
/// Buffer is consumed: what is left in it afterwards is the part that the
/// search did not pass, which is the last chunk where the search ended on a
/// match of it at a whole-chunk position, and nothing otherwise.
pub fn generate_delta(buffer: &mut Vec<u8>, sig: &FileSignature, chunk_size: usize) -> (operations:
    Vec<Operation>)
    ensures
        operations_view(operations@) == delta_of(
            old(buffer)@,
            sig.table(),
            chunk_size as nat,
        ).operations,
        final(buffer)@ == old(buffer)@.subrange(
            delta_of(old(buffer)@, sig.table(), chunk_size as nat).rest as int,
            old(buffer)@.len() as int,
        ),
        no_adjacent_literals(operations_view(operations@)),
        literals_not_empty(operations_view(operations@)),
{
    let ghost buf = buffer@;
    let ghost table = sig.table();
    let ghost size = chunk_size as nat;
    let ghost whole = delta_of(buf, table, size);
    let len: usize = buffer.len();
    let mut operations: Vec<Operation> = Vec::new();
    let mut pos: usize = 0;
    assert(operations_view(operations@) + whole.operations =~= whole.operations);
    loop
        invariant_except_break
            operations_view(operations@) + aligned_scan(buf, table, size, pos as nat).operations
                == whole.operations,
            aligned_scan(buf, table, size, pos as nat).rest == whole.rest,
        invariant
            buffer@ == buf,
            len == buf.len(),
            pos <= len,
            table == sig.table(),
            size == chunk_size,
        ensures
            operations_view(operations@) == whole.operations,
            pos == whole.rest,
        decreases len - pos,
    {
        // In case less than whole chunk is left,
        // we have to narrow down the buffer to the leftover
        let mut chunk_len: usize = if chunk_size < len - pos {
            chunk_size
        } else {
            len - pos
        };
        if chunk_len == 0 {
            assert(operations_view(operations@) + Seq::<OperationView>::empty()
                =~= operations_view(operations@));
            break;
        }
        let chunk = vstd::slice::slice_subrange(buffer.as_slice(), pos, pos + chunk_len);
        assert(chunk@ == window_at(buf, size, pos as nat));

        // Calculate weak signature (using rsync rolling checksum algorithm) for chunk
        let mut rolling_sum = RollingSum::new();
        rolling_sum.update(chunk);
        let weak_hash = rolling_sum.digest();

        if let Some(hash) = chunk_hash_matching_weak_n_strong(sig, weak_hash, chunk) {
            let ghost before = operations_view(operations@);
            operations.push(Operation::Match(hash.chunk_index));
            proof {
                let found = seq![OperationView::Match(hash.chunk_index)];
                assert(operations_view(operations@) =~= before + found);
                if pos + chunk_size < len {
                    let later = aligned_scan(buf, table, size, (pos + chunk_size) as nat);
                    assert((before + found) + later.operations =~= before + (found
                        + later.operations));
                }
            }
            if is_chunk_last(chunk_len, len - pos) {
                break;
            }
            // Prepare buffer for next iteration
            pos += chunk_len;
        } else {
            let ghost start = pos as nat;
            let mut not_matching_bytes: Vec<u8> = Vec::new();
            assert(not_matching_bytes@ =~= buf.subrange(start as int, pos as int));
            loop
                invariant_except_break
                    not_matching_bytes@ == buf.subrange(start as int, pos as int),
                    rolling_sum == slid_sum(buf, size, start, pos as nat),
                    operations_view(operations@) + sliding_scan(
                        buf,
                        table,
                        size,
                        start,
                        pos as nat,
                    ).operations == whole.operations,
                    sliding_scan(buf, table, size, start, pos as nat).rest == whole.rest,
                    pos == start ==> pos < len,
                    chunk_len == if chunk_size < len - pos {
                        chunk_size
                    } else {
                        (len - pos) as usize
                    },
                invariant
                    buffer@ == buf,
                    len == buf.len(),
                    start <= pos <= len,
                    table == sig.table(),
                    size == chunk_size,
                ensures
                    start < pos,
                    operations_view(operations@) + aligned_scan(
                        buf,
                        table,
                        size,
                        pos as nat,
                    ).operations == whole.operations,
                    aligned_scan(buf, table, size, pos as nat).rest == whole.rest,
                decreases len - pos,
            {
                let mut next: Option<u8> = None;
                if !is_chunk_last(chunk_len, len - pos) {
                    next = Some(buffer[pos + chunk_size]);
                }
                if pos < len {
                    let prev = buffer[pos];
                    pos += 1;
                    not_matching_bytes.push(prev);
                    rolling_sum.roll_fw(prev, next);
                    let weak_hash = rolling_sum.digest();
                    chunk_len = if chunk_size < len - pos {
                        chunk_size
                    } else {
                        len - pos
                    };
                    let chunk = vstd::slice::slice_subrange(
                        buffer.as_slice(),
                        pos,
                        pos + chunk_len,
                    );
                    proof {
                        assert(not_matching_bytes@ =~= buf.subrange(start as int, pos as int));
                        assert(chunk@ == window_at(buf, size, pos as nat));
                        assert(rolling_sum == slid_sum(buf, size, start, pos as nat));
                    }

                    if let Some(hash) = chunk_hash_matching_weak_n_strong(sig, weak_hash, chunk) {
                        let ghost before = operations_view(operations@);
                        let ghost literal = OperationView::NoMatch(not_matching_bytes@);
                        operations.push(Operation::NoMatch(not_matching_bytes));
                        operations.push(Operation::Match(hash.chunk_index));
                        // Prepare buffer for next iteration
                        pos += chunk_len;
                        proof {
                            let found = seq![literal, OperationView::Match(hash.chunk_index)];
                            let later = aligned_scan(buf, table, size, pos as nat);
                            assert(operations_view(operations@) =~= before + found);
                            assert((before + found) + later.operations =~= before + (found
                                + later.operations));
                        }
                        break;
                    }
                } else {
                    if !not_matching_bytes.is_empty() {
                        let ghost before = operations_view(operations@);
                        let ghost literal = OperationView::NoMatch(not_matching_bytes@);
                        operations.push(Operation::NoMatch(not_matching_bytes));
                        proof {
                            assert(operations_view(operations@) =~= before + seq![literal]);
                            assert((before + seq![literal]) + Seq::<OperationView>::empty()
                                =~= before + seq![literal]);
                        }
                    }
                    break;
                }
            }
        }
    }
    proof {
        lemma_delta_well_formed(buf, table, size);
    }
    discard_front(buffer, pos);
    operations
}

/// Whether two strong hashes hold the same bytes.
fn same_strong_hash(
    left: &[u8; RS_MAX_STRONG_SUM_LENGTH],
    right: &[u8; RS_MAX_STRONG_SUM_LENGTH],
) -> (same: bool)
    ensures
        same == (left@ == right@),
{
    let mut i: usize = 0;
    while i < RS_MAX_STRONG_SUM_LENGTH
        invariant
            i <= RS_MAX_STRONG_SUM_LENGTH,
            forall|j: int| 0 <= j < i ==> left@[j] == right@[j],
        decreases RS_MAX_STRONG_SUM_LENGTH - i,
    {
        if left[i] != right[i] {
            return false;
        }
        i += 1;
    }
    assert(left@ =~= right@);
    true
}

/// Looks `chunk` up in the signature under `weak_hash`: among the chunk
/// hashes listed there, the first whose strong hash is that of `chunk`.
pub fn chunk_hash_matching_weak_n_strong<'a>(
    sig: &'a FileSignature,
    weak_hash: u32,
    chunk: &[u8],
) -> (found: Option<&'a ChunkHash>)
    ensures
        match found {
            Some(hash) => matching_entry(sig.table(), weak_hash, chunk@) == Some(hash@),
            None => matching_entry(sig.table(), weak_hash, chunk@) is None,
        },
{
    if let Some(hashes) = sig.chunk_hashes(&weak_hash) {
        let strong_hash = chunk_strong_hash(chunk);
        let ghost bucket = bucket_view(hashes@);
        let mut i: usize = 0;
        while i < hashes.len()
            invariant
                i <= hashes.len(),
                bucket == bucket_view(hashes@),
                sig.table().contains_key(weak_hash),
                sig.table()[weak_hash] == bucket,
                strong_hash@ == strong_hash_of(chunk@),
                first_with_strong(bucket, strong_hash@, 0) == first_with_strong(
                    bucket,
                    strong_hash@,
                    i as nat,
                ),
            decreases hashes.len() - i,
        {
            assert(bucket[i as int] == hashes@[i as int]@);
            if same_strong_hash(&hashes[i].strong_hash, &strong_hash) {
                return Some(&hashes[i]);
            }
            i += 1;
        }
        None
    } else {
        None
    }
}

} // verus!
