//! What a delta promises: replayed against the reference buffer it gives the
//! modified buffer back, and a buffer compared with itself is all matches.
use crate::chunks::{chunk_at, chunk_count, last_chunk_start, lemma_chunk_count, window_at};
use crate::delta::{
    aligned_scan, delta_of, lemma_first_with_strong, matching_entry, slid_sum, sliding_scan,
    OperationView, Scan,
};
use crate::rolling_sum::{lemma_digest_of_seeded, weak_hash};
use crate::signature::{
    bucket_of, lemma_bucket_entries, lemma_bucket_holds_chunk, lemma_bucket_in_chunk_order,
    signature_table_of, strong_hash_of,
};
use vstd::prelude::*;

verus! {

/// The bytes that one operation stands for: the chunk of the reference buffer
/// that a match names, or the bytes of a literal run.
pub open spec fn operation_bytes(operation: OperationView, reference: Seq<u8>, chunk_size: nat) -> Seq<
    u8,
> {
    match operation {
        OperationView::Match(chunk_index) => chunk_at(reference, chunk_size, chunk_index as nat),
        OperationView::NoMatch(bytes) => bytes,
    }
}

/// The buffer that a list of operations describes: the bytes of each, in
/// order, one behind the other.
pub open spec fn replay(operations: Seq<OperationView>, reference: Seq<u8>, chunk_size: nat) -> Seq<
    u8,
>
    decreases operations.len(),
{
    if operations.len() == 0 {
        Seq::empty()
    } else {
        operation_bytes(operations[0], reference, chunk_size) + replay(
            operations.drop_first(),
            reference,
            chunk_size,
        )
    }
}

/// Replaying one operation gives its bytes.
pub proof fn lemma_replay_single(operation: OperationView, reference: Seq<u8>, chunk_size: nat)
    ensures
        replay(seq![operation], reference, chunk_size) == operation_bytes(
            operation,
            reference,
            chunk_size,
        ),
{
    let single = seq![operation];
    assert(single.drop_first() =~= Seq::empty());
    assert(replay(single.drop_first(), reference, chunk_size) =~= Seq::empty());
    assert(operation_bytes(operation, reference, chunk_size) + Seq::<u8>::empty()
        =~= operation_bytes(operation, reference, chunk_size));
}

/// Replaying two lists one behind the other gives what each gives, one behind
/// the other.
pub proof fn lemma_replay_concat(
    first: Seq<OperationView>,
    second: Seq<OperationView>,
    reference: Seq<u8>,
    chunk_size: nat,
)
    ensures
        replay(first + second, reference, chunk_size) == replay(first, reference, chunk_size)
            + replay(second, reference, chunk_size),
    decreases first.len(),
{
    if first.len() == 0 {
        assert(first + second =~= second);
    } else {
        assert((first + second).drop_first() =~= first.drop_first() + second);
        lemma_replay_concat(first.drop_first(), second, reference, chunk_size);
    }
}

/// Whether chunk number `index` of `reference` answers the lookup that a
/// search of `modified`, begun at `start`, makes at `pos`: the chunk has the
/// weak hash that the search carries there and the strong hash of the window
/// there.
pub open spec fn answers_lookup(
    reference: Seq<u8>,
    modified: Seq<u8>,
    chunk_size: nat,
    index: nat,
    start: nat,
    pos: nat,
) -> bool {
    let chunk = chunk_at(reference, chunk_size, index);
    &&& weak_hash(chunk) == slid_sum(modified, chunk_size, start, pos).digest_value()
    &&& strong_hash_of(chunk) == strong_hash_of(window_at(modified, chunk_size, pos))
}

/// The two hashes together tell the windows of `modified` from the chunks of
/// `reference`: a chunk that answers a lookup is the window that was looked
/// up.
pub open spec fn hashes_tell_apart(reference: Seq<u8>, modified: Seq<u8>, chunk_size: nat) -> bool {
    forall|index: nat, start: nat, pos: nat|
        index < chunk_count(reference.len(), chunk_size) && start <= pos <= modified.len()
            && #[trigger] answers_lookup(reference, modified, chunk_size, index, start, pos)
            ==> window_at(modified, chunk_size, pos) == chunk_at(reference, chunk_size, index)
}

/// What the signature of `reference` confirms for a chunk is the entry of
/// one of its chunks, which has the strong hash of the chunk looked up and the
/// weak hash that it was looked up under.
pub proof fn lemma_match_in_signature(
    reference: Seq<u8>,
    chunk_size: nat,
    weak: u32,
    chunk: Seq<u8>,
)
    requires
        chunk_count(reference.len(), chunk_size) <= 0x1_0000_0000,
    ensures
        match matching_entry(signature_table_of(reference, chunk_size), weak, chunk) {
            Some(entry) => {
                &&& entry.chunk_index < chunk_count(reference.len(), chunk_size)
                &&& weak_hash(chunk_at(reference, chunk_size, entry.chunk_index as nat)) == weak
                &&& strong_hash_of(chunk_at(reference, chunk_size, entry.chunk_index as nat))
                    == strong_hash_of(chunk)
            },
            None => forall|index: nat|
                index < chunk_count(reference.len(), chunk_size) && weak_hash(
                    #[trigger] chunk_at(reference, chunk_size, index),
                ) == weak ==> strong_hash_of(chunk_at(reference, chunk_size, index))
                    != strong_hash_of(chunk),
        },
{
    let count = chunk_count(reference.len(), chunk_size);
    let table = signature_table_of(reference, chunk_size);
    let bucket = bucket_of(reference, chunk_size, count, weak);
    let at = lemma_first_with_strong(bucket, strong_hash_of(chunk), 0);
    match matching_entry(table, weak, chunk) {
        Some(entry) => {
            lemma_bucket_entries(reference, chunk_size, count, weak, at);
        },
        None => {
            assert forall|index: nat|
                index < count && weak_hash(#[trigger] chunk_at(reference, chunk_size, index))
                    == weak implies strong_hash_of(chunk_at(reference, chunk_size, index))
                != strong_hash_of(chunk) by {
                let at = lemma_bucket_holds_chunk(reference, chunk_size, count, index);
                assert(table.contains_key(weak));
                assert(bucket[at].strong_hash != strong_hash_of(chunk));
            }
        },
    }
}

/// Every match among `operations` names one of the first `count` chunks.
pub open spec fn matches_in_range(operations: Seq<OperationView>, count: nat) -> bool {
    forall|i: int|
        0 <= i < operations.len() ==> (#[trigger] operations[i] matches OperationView::Match(
            chunk_index,
        ) ==> chunk_index < count)
}

proof fn lemma_matches_in_range_concat(
    first: Seq<OperationView>,
    second: Seq<OperationView>,
    count: nat,
)
    requires
        matches_in_range(first, count),
        matches_in_range(second, count),
    ensures
        matches_in_range(first + second, count),
{
    let all = first + second;
    assert forall|i: int| 0 <= i < all.len() implies (#[trigger] all[i] matches OperationView::Match(
        chunk_index,
    ) ==> chunk_index < count) by {
        if i < first.len() {
            assert(all[i] == first[i]);
        } else {
            assert(all[i] == second[i - first.len()]);
        }
    }
}

proof fn lemma_aligned_scan_names_chunks(
    reference: Seq<u8>,
    modified: Seq<u8>,
    chunk_size: nat,
    pos: nat,
)
    requires
        chunk_count(reference.len(), chunk_size) <= 0x1_0000_0000,
    ensures
        matches_in_range(
            aligned_scan(
                modified,
                signature_table_of(reference, chunk_size),
                chunk_size,
                pos,
            ).operations,
            chunk_count(reference.len(), chunk_size),
        ),
    decreases modified.len() - pos, 1nat,
{
    let count = chunk_count(reference.len(), chunk_size);
    let table = signature_table_of(reference, chunk_size);
    if chunk_size == 0 || pos >= modified.len() {
    } else {
        let chunk = window_at(modified, chunk_size, pos);
        lemma_match_in_signature(reference, chunk_size, weak_hash(chunk), chunk);
        match matching_entry(table, weak_hash(chunk), chunk) {
            Some(entry) => {
                let found = seq![OperationView::Match(entry.chunk_index)];
                if pos + chunk_size < modified.len() {
                    let later = aligned_scan(modified, table, chunk_size, pos + chunk_size);
                    lemma_aligned_scan_names_chunks(
                        reference,
                        modified,
                        chunk_size,
                        pos + chunk_size,
                    );
                    lemma_matches_in_range_concat(found, later.operations, count);
                }
            },
            None => {
                lemma_sliding_scan_names_chunks(reference, modified, chunk_size, pos, pos);
            },
        }
    }
}

proof fn lemma_sliding_scan_names_chunks(
    reference: Seq<u8>,
    modified: Seq<u8>,
    chunk_size: nat,
    start: nat,
    pos: nat,
)
    requires
        chunk_count(reference.len(), chunk_size) <= 0x1_0000_0000,
    ensures
        matches_in_range(
            sliding_scan(
                modified,
                signature_table_of(reference, chunk_size),
                chunk_size,
                start,
                pos,
            ).operations,
            chunk_count(reference.len(), chunk_size),
        ),
    decreases modified.len() - pos, 0nat,
{
    let count = chunk_count(reference.len(), chunk_size);
    let table = signature_table_of(reference, chunk_size);
    if pos >= modified.len() {
    } else {
        let next = pos + 1;
        let chunk = window_at(modified, chunk_size, next);
        let weak = slid_sum(modified, chunk_size, start, next).digest_value();
        lemma_match_in_signature(reference, chunk_size, weak, chunk);
        match matching_entry(table, weak, chunk) {
            Some(entry) => {
                let found = seq![
                    OperationView::NoMatch(modified.subrange(start as int, next as int)),
                    OperationView::Match(entry.chunk_index),
                ];
                let later = aligned_scan(modified, table, chunk_size, next + chunk.len());
                lemma_aligned_scan_names_chunks(
                    reference,
                    modified,
                    chunk_size,
                    next + chunk.len(),
                );
                lemma_matches_in_range_concat(found, later.operations, count);
            },
            None => {
                lemma_sliding_scan_names_chunks(reference, modified, chunk_size, start, next);
            },
        }
    }
}

/// Every match in a delta against the signature of `reference` names a chunk
/// that `reference` has.
pub proof fn lemma_delta_names_chunks(reference: Seq<u8>, modified: Seq<u8>, chunk_size: nat)
    requires
        chunk_count(reference.len(), chunk_size) <= 0x1_0000_0000,
    ensures
        matches_in_range(
            delta_of(modified, signature_table_of(reference, chunk_size), chunk_size).operations,
            chunk_count(reference.len(), chunk_size),
        ),
{
    lemma_aligned_scan_names_chunks(reference, modified, chunk_size, 0);
}

proof fn lemma_aligned_scan_replays(
    reference: Seq<u8>,
    modified: Seq<u8>,
    chunk_size: nat,
    pos: nat,
)
    requires
        chunk_size > 0,
        chunk_count(reference.len(), chunk_size) <= 0x1_0000_0000,
        hashes_tell_apart(reference, modified, chunk_size),
        pos <= modified.len(),
    ensures
        replay(
            aligned_scan(
                modified,
                signature_table_of(reference, chunk_size),
                chunk_size,
                pos,
            ).operations,
            reference,
            chunk_size,
        ) == modified.subrange(pos as int, modified.len() as int),
    decreases modified.len() - pos, 1nat,
{
    let table = signature_table_of(reference, chunk_size);
    let tail = modified.subrange(pos as int, modified.len() as int);
    if pos >= modified.len() {
        assert(tail =~= Seq::empty());
    } else {
        let chunk = window_at(modified, chunk_size, pos);
        lemma_match_in_signature(reference, chunk_size, weak_hash(chunk), chunk);
        match matching_entry(table, weak_hash(chunk), chunk) {
            Some(entry) => {
                let found = seq![OperationView::Match(entry.chunk_index)];
                assert(chunk == chunk_at(reference, chunk_size, entry.chunk_index as nat)) by {
                    lemma_digest_of_seeded(chunk);
                    assert(answers_lookup(
                        reference,
                        modified,
                        chunk_size,
                        entry.chunk_index as nat,
                        pos,
                        pos,
                    ));
                }
                lemma_replay_single(found[0], reference, chunk_size);
                assert(replay(found, reference, chunk_size) == chunk);
                if pos + chunk_size >= modified.len() {
                    assert(chunk =~= tail);
                } else {
                    let later = aligned_scan(modified, table, chunk_size, pos + chunk_size);
                    lemma_aligned_scan_replays(reference, modified, chunk_size, pos + chunk_size);
                    lemma_replay_concat(found, later.operations, reference, chunk_size);
                    assert(chunk + modified.subrange(
                        (pos + chunk_size) as int,
                        modified.len() as int,
                    ) =~= tail);
                }
            },
            None => {
                lemma_sliding_scan_replays(reference, modified, chunk_size, pos, pos);
            },
        }
    }
}

proof fn lemma_sliding_scan_replays(
    reference: Seq<u8>,
    modified: Seq<u8>,
    chunk_size: nat,
    start: nat,
    pos: nat,
)
    requires
        chunk_size > 0,
        chunk_count(reference.len(), chunk_size) <= 0x1_0000_0000,
        hashes_tell_apart(reference, modified, chunk_size),
        start <= pos <= modified.len(),
    ensures
        replay(
            sliding_scan(
                modified,
                signature_table_of(reference, chunk_size),
                chunk_size,
                start,
                pos,
            ).operations,
            reference,
            chunk_size,
        ) == modified.subrange(start as int, modified.len() as int),
    decreases modified.len() - pos, 0nat,
{
    let table = signature_table_of(reference, chunk_size);
    let tail = modified.subrange(start as int, modified.len() as int);
    if pos >= modified.len() {
        let found = seq![OperationView::NoMatch(tail)];
        lemma_replay_single(found[0], reference, chunk_size);
    } else {
        let next = pos + 1;
        let chunk = window_at(modified, chunk_size, next);
        let weak = slid_sum(modified, chunk_size, start, next).digest_value();
        lemma_match_in_signature(reference, chunk_size, weak, chunk);
        match matching_entry(table, weak, chunk) {
            Some(entry) => {
                let literal = modified.subrange(start as int, next as int);
                let run = seq![OperationView::NoMatch(literal)];
                let hit = seq![OperationView::Match(entry.chunk_index)];
                let found = seq![
                    OperationView::NoMatch(literal),
                    OperationView::Match(entry.chunk_index),
                ];
                let behind = next + chunk.len();
                assert(behind <= modified.len());
                let later = aligned_scan(modified, table, chunk_size, behind);
                assert(chunk == chunk_at(reference, chunk_size, entry.chunk_index as nat)) by {
                    assert(answers_lookup(
                        reference,
                        modified,
                        chunk_size,
                        entry.chunk_index as nat,
                        start,
                        next,
                    ));
                }
                assert(found =~= run + hit);
                lemma_replay_single(run[0], reference, chunk_size);
                lemma_replay_single(hit[0], reference, chunk_size);
                lemma_replay_concat(run, hit, reference, chunk_size);
                lemma_aligned_scan_replays(reference, modified, chunk_size, behind);
                lemma_replay_concat(found, later.operations, reference, chunk_size);
                assert((literal + chunk) + modified.subrange(
                    behind as int,
                    modified.len() as int,
                ) =~= tail);
            },
            None => {
                lemma_sliding_scan_replays(reference, modified, chunk_size, start, next);
            },
        }
    }
}

/// Reconstruction: the delta of `modified` against the signature of
/// `reference`, replayed against `reference`, is `modified`, whatever the two
/// buffers hold, as long as the two hashes together tell the windows of the
/// one from the chunks of the other.
pub proof fn lemma_replay_reconstructs(reference: Seq<u8>, modified: Seq<u8>, chunk_size: nat)
    requires
        chunk_size > 0,
        chunk_count(reference.len(), chunk_size) <= 0x1_0000_0000,
        hashes_tell_apart(reference, modified, chunk_size),
    ensures
        replay(
            delta_of(modified, signature_table_of(reference, chunk_size), chunk_size).operations,
            reference,
            chunk_size,
        ) == modified,
{
    lemma_aligned_scan_replays(reference, modified, chunk_size, 0);
    assert(modified.subrange(0, modified.len() as int) =~= modified);
}

/// The chunk of `reference` that its own signature names for its chunk number
/// `index`.
pub open spec fn own_match(reference: Seq<u8>, chunk_size: nat, index: nat) -> u32 {
    let chunk = chunk_at(reference, chunk_size, index);
    matching_entry(
        signature_table_of(reference, chunk_size),
        weak_hash(chunk),
        chunk,
    )->0.chunk_index
}

/// For each chunk from number `first` up to, not including, number `count`, in
/// order, a match of the chunk that the buffer's own signature names for it.
pub open spec fn own_matches_from(
    reference: Seq<u8>,
    chunk_size: nat,
    first: nat,
    count: nat,
) -> Seq<OperationView> {
    Seq::new(
        (count - first) as nat,
        |offset: int| OperationView::Match(own_match(reference, chunk_size, (first + offset) as nat)),
    )
}

/// A buffer's own signature confirms each of its chunks, and names for it the
/// first chunk that has both its hashes: that chunk itself or an earlier one.
pub proof fn lemma_own_match(reference: Seq<u8>, chunk_size: nat, index: nat)
    requires
        chunk_count(reference.len(), chunk_size) <= 0x1_0000_0000,
        index < chunk_count(reference.len(), chunk_size),
    ensures
        ({
            let chunk = chunk_at(reference, chunk_size, index);
            let named = chunk_at(
                reference,
                chunk_size,
                own_match(reference, chunk_size, index) as nat,
            );
            &&& matching_entry(
                signature_table_of(reference, chunk_size),
                weak_hash(chunk),
                chunk,
            ) is Some
            &&& own_match(reference, chunk_size, index) <= index
            &&& weak_hash(named) == weak_hash(chunk)
            &&& strong_hash_of(named) == strong_hash_of(chunk)
        }),
{
    let count = chunk_count(reference.len(), chunk_size);
    let table = signature_table_of(reference, chunk_size);
    let chunk = chunk_at(reference, chunk_size, index);
    let weak = weak_hash(chunk);
    let bucket = bucket_of(reference, chunk_size, count, weak);
    let own = lemma_bucket_holds_chunk(reference, chunk_size, count, index);
    assert(table.contains_key(weak));
    let at = lemma_first_with_strong(bucket, strong_hash_of(chunk), 0);
    assert(at <= own);
    lemma_bucket_entries(reference, chunk_size, count, weak, at);
    if at < own {
        lemma_bucket_in_chunk_order(reference, chunk_size, count, weak, at, own);
    }
}

proof fn lemma_aligned_scan_of_reference(reference: Seq<u8>, chunk_size: nat, index: nat)
    requires
        chunk_size > 0,
        chunk_count(reference.len(), chunk_size) <= 0x1_0000_0000,
        index < chunk_count(reference.len(), chunk_size),
    ensures
        aligned_scan(
            reference,
            signature_table_of(reference, chunk_size),
            chunk_size,
            index * chunk_size,
        ) == (Scan {
            operations: own_matches_from(
                reference,
                chunk_size,
                index,
                chunk_count(reference.len(), chunk_size),
            ),
            rest: last_chunk_start(reference.len(), chunk_size),
        }),
    decreases chunk_count(reference.len(), chunk_size) - index,
{
    let count = chunk_count(reference.len(), chunk_size);
    let pos = index * chunk_size;
    lemma_chunk_count(reference.len(), chunk_size, index);
    lemma_chunk_count(reference.len(), chunk_size, index + 1);
    assert((index + 1) * chunk_size == pos + chunk_size) by (nonlinear_arith)
        requires
            pos == index * chunk_size,
    ;
    lemma_own_match(reference, chunk_size, index);
    let found = seq![OperationView::Match(own_match(reference, chunk_size, index))];
    if pos + chunk_size >= reference.len() {
        assert(index + 1 == count);
        assert(found =~= own_matches_from(reference, chunk_size, index, count));
    } else {
        lemma_aligned_scan_of_reference(reference, chunk_size, index + 1);
        assert(found + own_matches_from(reference, chunk_size, index + 1, count)
            =~= own_matches_from(reference, chunk_size, index, count));
    }
}

/// A buffer compared with its own signature is all matches: one for each of
/// its chunks, in order, and no literal run. Each names the first chunk that
/// has both hashes of the chunk it stands for. The last chunk is left in the
/// buffer.
pub proof fn lemma_identical_input_only_matches(reference: Seq<u8>, chunk_size: nat)
    requires
        chunk_count(reference.len(), chunk_size) <= 0x1_0000_0000,
    ensures
        delta_of(reference, signature_table_of(reference, chunk_size), chunk_size) == (Scan {
            operations: own_matches_from(
                reference,
                chunk_size,
                0,
                chunk_count(reference.len(), chunk_size),
            ),
            rest: last_chunk_start(reference.len(), chunk_size),
        }),
{
    let count = chunk_count(reference.len(), chunk_size);
    if chunk_size > 0 {
        lemma_chunk_count(reference.len(), chunk_size, 0);
    }
    if count == 0 {
        assert(own_matches_from(reference, chunk_size, 0, count) =~= Seq::empty());
    } else {
        assert(0 * chunk_size == 0) by (nonlinear_arith);
        lemma_aligned_scan_of_reference(reference, chunk_size, 0);
    }
}

/// No two chunks of `reference` have both hashes in common.
pub open spec fn chunks_have_distinct_hashes(reference: Seq<u8>, chunk_size: nat) -> bool {
    forall|first: nat, second: nat|
        first < second < chunk_count(reference.len(), chunk_size) ==> !(weak_hash(
            #[trigger] chunk_at(reference, chunk_size, first),
        ) == weak_hash(#[trigger] chunk_at(reference, chunk_size, second)) && strong_hash_of(
            chunk_at(reference, chunk_size, first),
        ) == strong_hash_of(chunk_at(reference, chunk_size, second)))
}

/// Matches of the chunks from number `first` up to, not including, number
/// `count`, in order.
pub open spec fn matches_from(first: nat, count: nat) -> Seq<OperationView> {
    Seq::new((count - first) as nat, |offset: int| OperationView::Match((first + offset) as u32))
}

/// Where no two chunks of a buffer share both hashes, the buffer compared with
/// its own signature gives the matches of its chunks by number, from the
/// first to the last, and nothing else.
pub proof fn lemma_identical_input_all_matches(reference: Seq<u8>, chunk_size: nat)
    requires
        chunk_count(reference.len(), chunk_size) <= 0x1_0000_0000,
        chunks_have_distinct_hashes(reference, chunk_size),
    ensures
        delta_of(reference, signature_table_of(reference, chunk_size), chunk_size) == (Scan {
            operations: matches_from(0, chunk_count(reference.len(), chunk_size)),
            rest: last_chunk_start(reference.len(), chunk_size),
        }),
{
    let count = chunk_count(reference.len(), chunk_size);
    lemma_identical_input_only_matches(reference, chunk_size);
    assert forall|index: nat| index < count implies own_match(reference, chunk_size, index)
        == index by {
        lemma_own_match(reference, chunk_size, index);
        let named = own_match(reference, chunk_size, index) as nat;
        if named < index {
            assert(!(weak_hash(chunk_at(reference, chunk_size, named)) == weak_hash(
                chunk_at(reference, chunk_size, index),
            ) && strong_hash_of(chunk_at(reference, chunk_size, named)) == strong_hash_of(
                chunk_at(reference, chunk_size, index),
            )));
        }
    }
    assert(own_matches_from(reference, chunk_size, 0, count) =~= matches_from(0, count)) by {
        assert forall|offset: int| 0 <= offset < count implies own_matches_from(
            reference,
            chunk_size,
            0,
            count,
        )[offset] == matches_from(0, count)[offset] by {
            assert(own_match(reference, chunk_size, offset as nat) == offset);
        }
    }
}

} // verus!
