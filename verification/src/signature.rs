//! The signature of a reference buffer: its chunks, each indexed by weak hash
//! and confirmed by strong hash.
use crate::chunks::{chunk_at, chunk_count, last_chunk_start, lemma_chunk_count};
use crate::rolling_sum::{chunk_rollsum, weak_hash};
use blake2::digest::{Update, VariableOutput};
use blake2::VarBlake2b;
use std::collections::HashMap;
use vstd::prelude::*;

verus! {

/// Default block size in rsync C implementation
pub const BLOCK_SIZE: u32 = 700;

/// Hasher output length for strong signature (Blake2) need to be 32 bytes (256 bits)
/// to comply with rsync C implementation
pub const RS_MAX_STRONG_SUM_LENGTH: usize = 32;

/// The digest that BLAKE2b, unkeyed, gives for `data` when it is asked for
/// `output_size` bytes.
pub uninterp spec fn blake2b_output(data: Seq<u8>, output_size: nat) -> Seq<u8>;

/// The strong hash of a chunk: its BLAKE2b digest of
/// `RS_MAX_STRONG_SUM_LENGTH` bytes.
pub open spec fn strong_hash_of(chunk: Seq<u8>) -> Seq<u8> {
    blake2b_output(chunk, RS_MAX_STRONG_SUM_LENGTH as nat)
}

/// Hashes `data` with the `blake2` crate's variable-output BLAKE2b:
/// `VarBlake2b::new`, then `update`, then `finalize_boxed`.
///
/// Trusted, not proved: the bytes returned are the digest of `data` for that
/// output size, a function of the two alone, and there are `output_size` of
/// them. `new` refuses a size of zero or above 64, which `requires` leaves out.
#[verifier::external_body]
fn blake2b_digest(data: &[u8], output_size: usize) -> (digest: Vec<u8>)
    requires
        1 <= output_size <= 64,
    ensures
        digest@ == blake2b_output(data@, output_size as nat),
        digest@.len() == output_size,
{
    let mut hasher = VarBlake2b::new(output_size).unwrap();
    hasher.update(data);
    hasher.finalize_boxed().into_vec()
}

/// Calculate strong signature (using Blake2b) for given chunk of data.
/// Blake2 is used as MD5 is cryptographically broken.
pub fn chunk_strong_hash(chunk: &[u8]) -> (strong_hash: [u8; RS_MAX_STRONG_SUM_LENGTH])
    ensures
        strong_hash@ == strong_hash_of(chunk@),
{
    let digest = blake2b_digest(chunk, RS_MAX_STRONG_SUM_LENGTH);
    let mut strong_hash = [0u8; RS_MAX_STRONG_SUM_LENGTH];
    let mut i: usize = 0;
    while i < RS_MAX_STRONG_SUM_LENGTH
        invariant
            i <= RS_MAX_STRONG_SUM_LENGTH,
            digest@.len() == RS_MAX_STRONG_SUM_LENGTH,
            forall|j: int| 0 <= j < i ==> strong_hash@[j] == digest@[j],
        decreases RS_MAX_STRONG_SUM_LENGTH - i,
    {
        strong_hash[i] = digest[i];
        i += 1;
    }
    assert(strong_hash@ =~= digest@);
    strong_hash
}

/// What a `ChunkHash` stands for in contracts.
pub struct ChunkEntry {
    pub chunk_index: u32,
    pub strong_hash: Seq<u8>,
}

/// The strong hash of one chunk of the reference buffer, with the chunk's
/// place in it.
#[derive(Debug)]
pub struct ChunkHash {
    pub chunk_index: u32,
    pub strong_hash: [u8; RS_MAX_STRONG_SUM_LENGTH],
}

impl View for ChunkHash {
    type V = ChunkEntry;

    open spec fn view(&self) -> ChunkEntry {
        ChunkEntry { chunk_index: self.chunk_index, strong_hash: self.strong_hash@ }
    }
}

/// The entries that a list of chunk hashes stands for, in the same order.
pub open spec fn bucket_view(bucket: Seq<ChunkHash>) -> Seq<ChunkEntry> {
    bucket.map_values(|hash: ChunkHash| hash@)
}

/// The table that a map of chunk hash lists stands for.
pub open spec fn table_view(table: Map<u32, Vec<ChunkHash>>) -> Map<u32, Seq<ChunkEntry>> {
    Map::new(|weak: u32| table.contains_key(weak), |weak: u32| bucket_view(table[weak]@))
}

/// The signature of a reference buffer: the chunk size it was cut with, and
/// the hashes of its chunks.
#[derive(Debug)]
pub struct FileSignature {
    /// Chunk size used to calculate weak and strong signatures
    pub chunk_size: u32,
    /// Key is a weak signature (rsync rolling checksum algorithm)
    /// Value is a vector of all strong hashes together with the index
    /// of their chunk for which weak signature is the same
    pub signature_table: HashMap<u32, Vec<ChunkHash>>,
}

impl FileSignature {
    /// The signature's table as contracts see it: each weak hash that has
    /// candidates, with their entries in order.
    pub open spec fn table(&self) -> Map<u32, Seq<ChunkEntry>> {
        table_view(self.signature_table@)
    }

    /// The chunk hashes recorded under the weak hash `key`, if there are any.
    pub fn chunk_hashes(&self, key: &u32) -> (hashes: Option<&Vec<ChunkHash>>)
        ensures
            match hashes {
                Some(bucket) => self.signature_table@.contains_key(*key) && *bucket
                    == self.signature_table@[*key],
                None => !self.signature_table@.contains_key(*key),
            },
    {
        self.signature_table.get(key)
    }
}

/// The entry that a signature holds for chunk number `index` of `buf`.
pub open spec fn chunk_entry(buf: Seq<u8>, chunk_size: nat, index: nat) -> ChunkEntry {
    ChunkEntry {
        chunk_index: index as u32,
        strong_hash: strong_hash_of(chunk_at(buf, chunk_size, index)),
    }
}

/// The entries, in chunk order, of those among the first `count` chunks of
/// `buf` whose weak hash is `weak`.
pub open spec fn bucket_of(buf: Seq<u8>, chunk_size: nat, count: nat, weak: u32) -> Seq<
    ChunkEntry,
>
    decreases count,
{
    if count == 0 {
        Seq::empty()
    } else {
        let index = (count - 1) as nat;
        let earlier = bucket_of(buf, chunk_size, index, weak);
        if weak_hash(chunk_at(buf, chunk_size, index)) == weak {
            earlier.push(chunk_entry(buf, chunk_size, index))
        } else {
            earlier
        }
    }
}

/// The table over the first `count` chunks of `buf`: every weak hash that one
/// of them has, with the entries of the chunks that have it.
pub open spec fn table_of_chunks(buf: Seq<u8>, chunk_size: nat, count: nat) -> Map<
    u32,
    Seq<ChunkEntry>,
> {
    Map::new(
        |weak: u32| bucket_of(buf, chunk_size, count, weak).len() > 0,
        |weak: u32| bucket_of(buf, chunk_size, count, weak),
    )
}

/// The table of the signature of `buf`.
pub open spec fn signature_table_of(buf: Seq<u8>, chunk_size: nat) -> Map<u32, Seq<ChunkEntry>> {
    table_of_chunks(buf, chunk_size, chunk_count(buf.len(), chunk_size))
}

/// The table `table` with `entry` added at the end of the list under `weak`,
/// which is begun if `table` has none.
pub open spec fn table_with(table: Map<u32, Seq<ChunkEntry>>, weak: u32, entry: ChunkEntry) -> Map<
    u32,
    Seq<ChunkEntry>,
> {
    table.insert(
        weak,
        if table.contains_key(weak) {
            table[weak].push(entry)
        } else {
            seq![entry]
        },
    )
}

/// Whether a chunk of `chunk_len` bytes, taken from the front of `buf_len`
/// remaining bytes, is the last one: it is when it takes them all.
pub fn is_chunk_last(chunk_len: usize, buf_len: usize) -> (last: bool)
    ensures
        last == (chunk_len == buf_len),
{
    chunk_len == buf_len
}

/// Adds `hash` at the end of the list that `table` holds under `weak`, and
/// begins that list if there is none.
fn add_chunk_hash(table: &mut HashMap<u32, Vec<ChunkHash>>, weak: u32, hash: ChunkHash)
    ensures
        table_view(final(table)@) == table_with(table_view(old(table)@), weak, hash@),
{
    let ghost before = table@;
    let chunk_hashes = table.entry(weak).or_insert(Vec::new());
    chunk_hashes.push(hash);
    proof {
        let after = table_view(table@);
        let expected = table_with(table_view(before), weak, hash@);
        if before.contains_key(weak) {
            assert(bucket_view(before[weak]@.push(hash)) =~= bucket_view(before[weak]@).push(
                hash@,
            ));
        } else {
            assert(bucket_view(Seq::<ChunkHash>::empty().push(hash)) =~= seq![hash@]);
        }
        assert(after =~= expected);
    }
}

/// Removes the first `count` bytes of `buffer`.
pub(crate) fn discard_front(buffer: &mut Vec<u8>, count: usize)
    requires
        count <= old(buffer)@.len(),
    ensures
        final(buffer)@ == old(buffer)@.subrange(count as int, old(buffer)@.len() as int),
{
    let tail = buffer.split_off(count);
    *buffer = tail;
}

/// Generates the signature of `buffer` for chunks of `chunk_size` bytes.
///
/// The buffer is consumed chunk by chunk from its front; what is left in it
/// afterwards is its last chunk. Chunks are numbered in 32 bits, so there may
/// be no more than 2^32 of them.
pub fn generate_signature(buffer: &mut Vec<u8>, chunk_size: u32) -> (signature: FileSignature)
    requires
        chunk_count(old(buffer)@.len(), chunk_size as nat) <= 0x1_0000_0000,
    ensures
        signature.chunk_size == chunk_size,
        signature.table() == signature_table_of(old(buffer)@, chunk_size as nat),
        final(buffer)@ == old(buffer)@.subrange(
            last_chunk_start(old(buffer)@.len(), chunk_size as nat) as int,
            old(buffer)@.len() as int,
        ),
{
    let mut signature = FileSignature { chunk_size, signature_table: HashMap::new() };
    let chunk_size: usize = chunk_size as usize;
    let len: usize = buffer.len();
    let mut chunk_index: u32 = 0;
    let mut pos: usize = 0;
    assert(signature.table() =~= table_of_chunks(buffer@, chunk_size as nat, 0));
    loop
        invariant_except_break
            (chunk_index == 0 && pos == 0) || (chunk_size > 0 && pos < len),
            signature.table() == table_of_chunks(buffer@, chunk_size as nat, chunk_index as nat),
        invariant
            buffer@ == old(buffer)@,
            len == buffer@.len(),
            chunk_size <= u32::MAX,
            chunk_count(len as nat, chunk_size as nat) <= 0x1_0000_0000,
            pos == chunk_index * chunk_size,
            pos <= len,
            signature.chunk_size == chunk_size,
        ensures
            signature.table() == signature_table_of(buffer@, chunk_size as nat),
            pos == last_chunk_start(len as nat, chunk_size as nat),
        decreases len - pos,
    {
        // In case less than whole chunk is left,
        // we have to narrow down the buffer to the leftover
        let chunk_len: usize = if chunk_size < len - pos {
            chunk_size
        } else {
            len - pos
        };
        if chunk_len == 0 {
            proof {
                if chunk_size > 0 {
                    lemma_chunk_count(len as nat, chunk_size as nat, 0);
                }
            }
            break;
        }
        let chunk = vstd::slice::slice_subrange(buffer.as_slice(), pos, pos + chunk_len);
        assert(chunk@ == chunk_at(buffer@, chunk_size as nat, chunk_index as nat));

        // Calculate weak signature (using rsync rolling checksum algorithm) for chunk
        let weak_hash = chunk_rollsum(chunk);

        // Calculate strong signature (using Blake2b).
        let strong_hash = chunk_strong_hash(chunk);

        // Add entry to signature table
        add_chunk_hash(
            &mut signature.signature_table,
            weak_hash,
            ChunkHash { chunk_index, strong_hash },
        );
        proof {
            lemma_table_of_chunks_step(buffer@, chunk_size as nat, chunk_index as nat);
            lemma_chunk_count(len as nat, chunk_size as nat, chunk_index as nat);
            lemma_chunk_count(len as nat, chunk_size as nat, (chunk_index + 1) as nat);
            assert((chunk_index + 1) * chunk_size == chunk_index * chunk_size + chunk_size)
                by (nonlinear_arith);
        }

        // It was the last chunk
        if is_chunk_last(chunk_len, len - pos) {
            break;
        }
        // Prepare buffer for next iteration
        pos += chunk_len;
        chunk_index += 1;
    }
    discard_front(buffer, pos);
    signature
}

/// `root` is the multiple of 8 nearest to the square root of `n`, where a
/// square root half way between two multiples counts for the upper one.
pub open spec fn is_sqrt_rounded_to_8(n: nat, root: nat) -> bool {
    &&& root % 8 == 0
    &&& root == 0 || (root - 4) * (root - 4) <= n
    &&& n < (root + 4) * (root + 4)
}

/// Chunk size for a file of `file_length` bytes.
///
/// According to the rsync source code the block size is the square root of
/// the file length, rounded to a multiple of 8, if the length is greater than
/// `BLOCK_SIZE * BLOCK_SIZE` (490 000 bytes), and `BLOCK_SIZE` otherwise. A
/// rounded root that is too large for the result type gives the largest chunk
/// size there is.
pub fn calculate_chunk_size(file_length: u64) -> (chunk_size: u32)
    ensures
        file_length <= BLOCK_SIZE * BLOCK_SIZE ==> chunk_size == BLOCK_SIZE,
        BLOCK_SIZE * BLOCK_SIZE < file_length < 0xffff_fffc * 0xffff_fffc ==> is_sqrt_rounded_to_8(
            file_length as nat,
            chunk_size as nat,
        ),
        file_length >= 0xffff_fffc * 0xffff_fffc ==> chunk_size == u32::MAX,
{
    if file_length <= (BLOCK_SIZE as u64) * (BLOCK_SIZE as u64) {
        return BLOCK_SIZE;
    }
    let root: u64 = integer_sqrt(file_length);
    let rounded: u64 = (root + 4) / 8 * 8;
    proof {
        if rounded >= 4 {
            lemma_square_monotonic(rounded - 4, root as int);
        }
        lemma_square_monotonic(root + 1, rounded + 4);
        if rounded > u32::MAX {
            lemma_square_monotonic(0xffff_fffc, root as int);
        } else {
            lemma_square_monotonic(rounded + 4, 0xffff_fffc);
        }
    }
    if rounded > u32::MAX as u64 {
        u32::MAX
    } else {
        rounded as u32
    }
}

/// The square root of `n`, rounded down.
fn integer_sqrt(n: u64) -> (root: u64)
    ensures
        root * root <= n < (root + 1) * (root + 1),
        root < 0x1_0000_0000,
{
    let mut low: u64 = 0;
    let mut high: u64 = 0x1_0000_0000;
    while high - low > 1
        invariant
            low < high <= 0x1_0000_0000,
            low * low <= n < high * high,
        decreases high - low,
    {
        let mid: u64 = low + (high - low) / 2;
        proof {
            lemma_square_monotonic(mid as int, 0xffff_ffff);
        }
        if mid * mid <= n {
            low = mid;
        } else {
            high = mid;
        }
    }
    low
}

/// Squaring keeps the order of numbers that are not negative.
proof fn lemma_square_monotonic(a: int, b: int)
    requires
        0 <= a <= b,
    ensures
        a * a <= b * b,
{
    assert(a * a <= b * b) by (nonlinear_arith)
        requires
            0 <= a <= b,
    ;
}

/// No number has two square roots rounded to a multiple of 8.
pub proof fn lemma_sqrt_rounded_to_8_unique(n: nat, a: nat, b: nat)
    requires
        is_sqrt_rounded_to_8(n, a),
        is_sqrt_rounded_to_8(n, b),
    ensures
        a == b,
{
    if a < b {
        lemma_square_monotonic((a + 4) as int, b - 4);
    } else if b < a {
        lemma_square_monotonic((b + 4) as int, a - 4);
    }
}

/// Taking one more chunk into the table adds its entry under its weak hash.
pub proof fn lemma_table_of_chunks_step(buf: Seq<u8>, chunk_size: nat, count: nat)
    ensures
        table_of_chunks(buf, chunk_size, count + 1) == table_with(
            table_of_chunks(buf, chunk_size, count),
            weak_hash(chunk_at(buf, chunk_size, count)),
            chunk_entry(buf, chunk_size, count),
        ),
{
    let weak = weak_hash(chunk_at(buf, chunk_size, count));
    let before = table_of_chunks(buf, chunk_size, count);
    let after = table_of_chunks(buf, chunk_size, count + 1);
    let expected = table_with(before, weak, chunk_entry(buf, chunk_size, count));
    assert forall|key: u32| after.contains_key(key) <==> expected.contains_key(key) by {
        assert(bucket_of(buf, chunk_size, count + 1, key).len() >= bucket_of(
            buf,
            chunk_size,
            count,
            key,
        ).len());
    }
    assert forall|key: u32| after.contains_key(key) implies after[key] == expected[key] by {
        if key == weak && !before.contains_key(key) {
            assert(bucket_of(buf, chunk_size, count, key) =~= Seq::empty());
            assert(after[key] =~= seq![chunk_entry(buf, chunk_size, count)]);
        }
    }
    assert(after =~= expected);
}

/// Every entry listed under `weak` is the entry of one of the first `count`
/// chunks, and that chunk has the weak hash `weak`.
pub proof fn lemma_bucket_entries(buf: Seq<u8>, chunk_size: nat, count: nat, weak: u32, at: int)
    requires
        count <= 0x1_0000_0000,
        0 <= at < bucket_of(buf, chunk_size, count, weak).len(),
    ensures
        ({
            let entry = bucket_of(buf, chunk_size, count, weak)[at];
            &&& entry.chunk_index < count
            &&& weak_hash(chunk_at(buf, chunk_size, entry.chunk_index as nat)) == weak
            &&& entry == chunk_entry(buf, chunk_size, entry.chunk_index as nat)
        }),
    decreases count,
{
    if count > 0 {
        let index = (count - 1) as nat;
        if at < bucket_of(buf, chunk_size, index, weak).len() {
            lemma_bucket_entries(buf, chunk_size, index, weak, at);
        }
    }
}

/// Each of the first `count` chunks has its entry listed under its weak hash;
/// the lemma returns the place.
pub proof fn lemma_bucket_holds_chunk(buf: Seq<u8>, chunk_size: nat, count: nat, index: nat) -> (at:
    int)
    requires
        index < count,
    ensures
        0 <= at < bucket_of(
            buf,
            chunk_size,
            count,
            weak_hash(chunk_at(buf, chunk_size, index)),
        ).len(),
        bucket_of(buf, chunk_size, count, weak_hash(chunk_at(buf, chunk_size, index)))[at]
            == chunk_entry(buf, chunk_size, index),
    decreases count,
{
    let weak = weak_hash(chunk_at(buf, chunk_size, index));
    if index == count - 1 {
        bucket_of(buf, chunk_size, index, weak).len() as int
    } else {
        lemma_bucket_holds_chunk(buf, chunk_size, (count - 1) as nat, index)
    }
}

/// The entries under one weak hash stand in the order of their chunks.
pub proof fn lemma_bucket_in_chunk_order(
    buf: Seq<u8>,
    chunk_size: nat,
    count: nat,
    weak: u32,
    first: int,
    second: int,
)
    requires
        count <= 0x1_0000_0000,
        0 <= first < second < bucket_of(buf, chunk_size, count, weak).len(),
    ensures
        bucket_of(buf, chunk_size, count, weak)[first].chunk_index < bucket_of(
            buf,
            chunk_size,
            count,
            weak,
        )[second].chunk_index,
    decreases count,
{
    if count > 0 {
        let index = (count - 1) as nat;
        if second < bucket_of(buf, chunk_size, index, weak).len() {
            lemma_bucket_in_chunk_order(buf, chunk_size, index, weak, first, second);
        } else {
            lemma_bucket_entries(buf, chunk_size, index, weak, first);
        }
    }
}

} // verus!
