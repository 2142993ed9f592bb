use rdiff_rust::delta::{chunk_hash_matching_weak_n_strong, generate_delta, Operation};
use rdiff_rust::rolling_sum::chunk_rollsum;
use rdiff_rust::signature::{chunk_strong_hash, generate_signature, ChunkHash, FileSignature};
use std::collections::HashMap;

fn signature_of(reference: &[u8], chunk_size: u32) -> FileSignature {
    let mut buffer = reference.to_vec();
    generate_signature(&mut buffer, chunk_size)
}

fn delta_of(modified: &[u8], signature: &FileSignature, chunk_size: usize) -> Vec<Operation> {
    let mut buffer = modified.to_vec();
    generate_delta(&mut buffer, signature, chunk_size)
}

fn replay(operations: &[Operation], reference: &[u8], chunk_size: usize) -> Vec<u8> {
    let mut out: Vec<u8> = Vec::new();
    for operation in operations {
        match operation {
            Operation::Match(index) => {
                let start = *index as usize * chunk_size;
                let end = std::cmp::min(start + chunk_size, reference.len());
                out.extend_from_slice(&reference[start..end]);
            }
            Operation::NoMatch(bytes) => out.extend_from_slice(bytes),
        }
    }
    out
}

fn has_adjacent_literals(operations: &[Operation]) -> bool {
    operations
        .windows(2)
        .any(|pair| matches!(pair[0], Operation::NoMatch(_)) && matches!(pair[1], Operation::NoMatch(_)))
}

fn names_missing_chunk(operations: &[Operation], reference_len: usize, chunk_size: usize) -> bool {
    let count = (reference_len + chunk_size - 1) / chunk_size;
    operations
        .iter()
        .any(|operation| matches!(operation, Operation::Match(index) if *index as usize >= count))
}

fn has_empty_literal(operations: &[Operation]) -> bool {
    operations
        .iter()
        .any(|operation| matches!(operation, Operation::NoMatch(bytes) if bytes.is_empty()))
}

fn sample(len: usize, seed: u32) -> Vec<u8> {
    let mut state = seed;
    let mut out = Vec::with_capacity(len);
    for _ in 0..len {
        state = state.wrapping_mul(1664525).wrapping_add(1013904223);
        out.push((state >> 24) as u8);
    }
    out
}

#[test]
pub fn test_generate_delta() {
    // the reference holds chunks "aaaa", "bbbb", "cccc", "dd"
    let signature = signature_of(b"aaaabbbbccccdd", 4);
    let chunk_size = signature.chunk_size;

    let mut buffer = b"aaaaXbbbbcccYcdd".to_vec();
    let delta = generate_delta(&mut buffer, &signature, chunk_size as usize);

    let expected_delta = vec![
        Operation::Match(0),
        Operation::NoMatch(b"X".to_vec()),
        Operation::Match(1),
        Operation::NoMatch(b"cccYcdd".to_vec()),
    ];

    assert_eq!(delta, expected_delta);
}

#[test]
fn concrete_scenario() {
    let signature = signature_of(&[1, 2, 3, 4, 5, 6, 7, 8], 4);
    assert_eq!(signature.signature_table.len(), 2);
    let mut buffer: Vec<u8> = vec![9, 9, 1, 2, 3, 4, 5, 6, 7, 8];
    let delta = generate_delta(&mut buffer, &signature, 4);
    assert_eq!(
        delta,
        vec![Operation::NoMatch(vec![9, 9]), Operation::Match(0), Operation::Match(1)]
    );
    // the search ended on a match of the last chunk at a whole-chunk position
    assert_eq!(buffer, vec![5, 6, 7, 8]);
}

#[test]
fn collision_is_settled_by_strong_hash() {
    let first: [u8; 4] = [1, 0, 1, 0];
    let second: [u8; 4] = [0, 2, 0, 0];
    assert_eq!(chunk_rollsum(&first), chunk_rollsum(&second));
    let reference: Vec<u8> = vec![1, 0, 1, 0, 0, 2, 0, 0];
    let signature = signature_of(&reference, 4);
    assert_eq!(signature.signature_table.len(), 1);
    assert_eq!(signature.chunk_hashes(&chunk_rollsum(&first)).unwrap().len(), 2);

    assert_eq!(delta_of(&second, &signature, 4), vec![Operation::Match(1)]);
    assert_eq!(delta_of(&first, &signature, 4), vec![Operation::Match(0)]);
    assert_eq!(
        delta_of(&[0, 2, 0, 0, 1, 0, 1, 0], &signature, 4),
        vec![Operation::Match(1), Operation::Match(0)]
    );
    // same weak hash again (byte sum 3, weighted sum 6), but a chunk that the
    // reference does not hold
    let third: [u8; 4] = [0, 1, 1, 1];
    let fourth: [u8; 4] = [0, 0, 3, 0];
    assert_eq!(chunk_rollsum(&third), chunk_rollsum(&fourth));
    let signature = signature_of(&third, 4);
    assert_eq!(delta_of(&fourth, &signature, 4), vec![Operation::NoMatch(fourth.to_vec())]);
}

#[test]
fn lookup_finds_first_entry_with_the_strong_hash() {
    let chunk: [u8; 3] = [3, 1, 4];
    let strong = chunk_strong_hash(&chunk);
    let other = chunk_strong_hash(&[2, 7]);
    let weak = chunk_rollsum(&chunk);
    let mut table: HashMap<u32, Vec<ChunkHash>> = HashMap::new();
    table.insert(
        weak,
        vec![
            ChunkHash { chunk_index: 5, strong_hash: other },
            ChunkHash { chunk_index: 8, strong_hash: strong },
            ChunkHash { chunk_index: 2, strong_hash: strong },
        ],
    );
    let signature = FileSignature { chunk_size: 3, signature_table: table };
    let found = chunk_hash_matching_weak_n_strong(&signature, weak, &chunk).unwrap();
    assert_eq!(found.chunk_index, 8);
    assert!(chunk_hash_matching_weak_n_strong(&signature, weak + 1, &chunk).is_none());
    assert!(chunk_hash_matching_weak_n_strong(&signature, weak, &[3, 1, 5]).is_none());
}

#[test]
fn empty_buffer_gives_empty_delta() {
    let signature = signature_of(&[1, 2, 3, 4, 5, 6, 7, 8], 4);
    let mut buffer: Vec<u8> = Vec::new();
    assert_eq!(generate_delta(&mut buffer, &signature, 4), vec![]);
    assert!(buffer.is_empty());
}

#[test]
fn chunk_size_zero_gives_empty_delta() {
    let signature = signature_of(&[1, 2, 3, 4], 4);
    let mut buffer: Vec<u8> = vec![1, 2, 3, 4];
    assert_eq!(generate_delta(&mut buffer, &signature, 0), vec![]);
    assert_eq!(buffer, vec![1, 2, 3, 4]);
}

#[test]
fn identical_input_gives_only_matches() {
    for len in [1usize, 3, 4, 5, 7, 8, 9, 15, 16, 17, 40] {
        let reference = sample(len, 7);
        let signature = signature_of(&reference, 4);
        let delta = delta_of(&reference, &signature, 4);
        let count = (len + 3) / 4;
        let expected: Vec<Operation> = (0..count as u32).map(Operation::Match).collect();
        assert_eq!(delta, expected);
    }
}

#[test]
fn identical_input_leaves_last_chunk_in_buffer() {
    let reference: Vec<u8> = vec![1, 2, 3, 4, 5, 6];
    let signature = signature_of(&reference, 4);
    let mut buffer = reference.clone();
    let delta = generate_delta(&mut buffer, &signature, 4);
    assert_eq!(delta, vec![Operation::Match(0), Operation::Match(1)]);
    assert_eq!(buffer, vec![5, 6]);
}

#[test]
fn equal_chunks_match_the_first_of_them() {
    let reference: Vec<u8> = vec![1; 8];
    let signature = signature_of(&reference, 4);
    assert_eq!(
        delta_of(&reference, &signature, 4),
        vec![Operation::Match(0), Operation::Match(0)]
    );
    // chunks 0 and 2 are equal, and so are chunks 1 and 3
    let reference: Vec<u8> = vec![1, 2, 3, 4, 1, 2, 3, 4, 5];
    let signature = signature_of(&reference, 2);
    let delta = delta_of(&reference, &signature, 2);
    assert_eq!(
        delta,
        vec![
            Operation::Match(0),
            Operation::Match(1),
            Operation::Match(0),
            Operation::Match(1),
            Operation::Match(4),
        ]
    );
    assert_eq!(replay(&delta, &reference, 2), reference);
}

#[test]
fn unrelated_input_is_one_literal() {
    let signature = signature_of(&[1, 2, 3, 4, 5, 6, 7, 8], 4);
    let modified: Vec<u8> = vec![20, 21, 22, 23, 24, 25, 26, 27, 28];
    let mut buffer = modified.clone();
    let delta = generate_delta(&mut buffer, &signature, 4);
    assert_eq!(delta, vec![Operation::NoMatch(modified)]);
    assert!(buffer.is_empty());
}

#[test]
fn input_shorter_than_a_chunk() {
    let signature = signature_of(&[1, 2, 3, 4, 5, 6], 4);
    assert_eq!(delta_of(&[5, 6], &signature, 4), vec![Operation::Match(1)]);
    assert_eq!(delta_of(&[5], &signature, 4), vec![Operation::NoMatch(vec![5])]);
}

#[test]
fn match_at_last_position_flushes_the_literal_first() {
    let signature = signature_of(&[1, 2, 3, 4, 5, 6, 7, 8], 4);
    let mut buffer: Vec<u8> = vec![9, 5, 6, 7, 8];
    let delta = generate_delta(&mut buffer, &signature, 4);
    assert_eq!(delta, vec![Operation::NoMatch(vec![9]), Operation::Match(1)]);
    // a match found while sliding is taken out of the buffer
    assert!(buffer.is_empty());
}

#[test]
fn sliding_resynchronises_after_an_insertion() {
    let signature = signature_of(b"aaaabbbbccccdddd", 4);
    assert_eq!(
        delta_of(b"aaaaxyzbbbbccccdddd", &signature, 4),
        vec![
            Operation::Match(0),
            Operation::NoMatch(b"xyz".to_vec()),
            Operation::Match(1),
            Operation::Match(2),
            Operation::Match(3),
        ]
    );
}

#[test]
fn shrinking_window_misses_a_short_tail() {
    // once the window shrinks at the end of the buffer the rolled checksum is
    // no longer that of the window, so the short last chunk goes unnoticed
    let signature = signature_of(&[1, 2, 3, 4, 5, 6], 4);
    assert_eq!(
        delta_of(&[9, 9, 5, 6], &signature, 4),
        vec![Operation::NoMatch(vec![9, 9, 5, 6])]
    );
}

#[test]
fn replay_reconstructs_the_modified_buffer() {
    let chunk_size = 8usize;
    let reference = sample(8 * 6 + 3, 1);
    let signature = signature_of(&reference, chunk_size as u32);
    let mut cases: Vec<Vec<u8>> = Vec::new();
    cases.push(Vec::new());
    cases.push(reference.clone());
    cases.push(sample(100, 2));
    cases.push(reference[..5].to_vec());
    for cut in 0..reference.len() {
        // an insertion, a deletion and a change at every position
        let mut inserted = reference.clone();
        inserted.insert(cut, 0xee);
        cases.push(inserted);
        let mut deleted = reference.clone();
        deleted.remove(cut);
        cases.push(deleted);
        let mut changed = reference.clone();
        changed[cut] ^= 0x55;
        cases.push(changed);
    }
    for modified in &cases {
        let delta = delta_of(modified, &signature, chunk_size);
        assert!(!names_missing_chunk(&delta, reference.len(), chunk_size));
        assert_eq!(&replay(&delta, &reference, chunk_size), modified);
        assert!(!has_adjacent_literals(&delta));
        assert!(!has_empty_literal(&delta));
    }
}

#[test]
fn replay_reconstructs_near_chunk_boundaries() {
    let chunk_size = 4usize;
    for reference_len in 0..=18usize {
        let reference = sample(reference_len, 11);
        let signature = signature_of(&reference, chunk_size as u32);
        for modified_len in 0..=18usize {
            for shift in 0..3usize {
                // the reference behind a short unrelated prefix, cut to length
                let mut modified = sample(shift, 99);
                modified.extend_from_slice(&reference);
                modified.extend_from_slice(&sample(18, 5));
                modified.truncate(modified_len);
                let delta = delta_of(&modified, &signature, chunk_size);
                assert!(!names_missing_chunk(&delta, reference.len(), chunk_size));
                assert_eq!(replay(&delta, &reference, chunk_size), modified);
                assert!(!has_adjacent_literals(&delta));
                assert!(!has_empty_literal(&delta));
            }
        }
    }
}

#[test]
fn buffer_keeps_what_the_search_did_not_pass() {
    let reference = sample(10, 3);
    let signature = signature_of(&reference, 4);
    // ends on an aligned match of the short last chunk
    let mut buffer = reference.clone();
    generate_delta(&mut buffer, &signature, 4);
    assert_eq!(buffer, reference[8..].to_vec());
    // ends in a literal run
    let mut buffer = reference.clone();
    buffer.push(0);
    generate_delta(&mut buffer, &signature, 4);
    assert!(buffer.is_empty());
}
