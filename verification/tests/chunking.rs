use r1cs_transpiler::chunks::{get_chunk_size, get_ranges, ChunkableVector};

#[test]
fn test_split_and_merge() {
    let vec = vec![0usize; 1024];
    let cap = vec.capacity();
    let mut vec = ChunkableVector::new(vec);
    vec.split(16);
    vec.merge();

    let res = vec.into_single();
    assert_eq!(res.len(), 1024);
    assert_eq!(res.capacity(), cap);
}

#[test]
fn test_empty_split_and_merge() {
    let vec: Vec<usize> = vec![];
    let cap = vec.capacity();
    let mut vec = ChunkableVector::new(vec);
    vec.split(16);
    vec.merge();

    let res = vec.into_single();
    assert_eq!(res.len(), 0);
    assert_eq!(res.capacity(), cap);
}

#[test]
fn test_chunk_size_values() {
    assert_eq!(get_chunk_size(1024, 16), 64);
    assert_eq!(get_chunk_size(10, 4), 3);
    assert_eq!(get_chunk_size(12, 4), 3);
    assert_eq!(get_chunk_size(5, 16), 1);
    assert_eq!(get_chunk_size(0, 7), 1);
}

#[test]
fn test_ranges_partition() {
    let ranges = get_ranges(10, 3);
    assert_eq!(ranges.len(), 4);
    assert_eq!(ranges[0], 0..3);
    assert_eq!(ranges[1], 3..6);
    assert_eq!(ranges[2], 6..9);
    assert_eq!(ranges[3], 9..10);
    let single = get_ranges(4, 9);
    assert_eq!(single.len(), 1);
    assert_eq!(single[0], 0..4);
}

#[test]
fn test_split_preserves_order() {
    let vec: Vec<u32> = (0..10).collect();
    let mut vec = ChunkableVector::new(vec);
    vec.split(3);
    let chunks = vec.into_multiple();
    let mut flattened: Vec<u32> = Vec::new();
    for c in chunks {
        flattened.extend(c.into_vec());
    }
    assert_eq!(flattened, (0..10).collect::<Vec<u32>>());
}

#[test]
fn test_small_buffer_is_one_chunk() {
    let vec: Vec<u8> = vec![7, 8, 9];
    let mut vec = ChunkableVector::new(vec);
    vec.split(16);
    let chunks = vec.into_multiple();
    assert_eq!(chunks.len(), 1);
    let only = chunks.into_iter().next().unwrap().into_vec();
    assert_eq!(only, vec![7, 8, 9]);
}

#[test]
fn test_into_single_rejoins_chunks() {
    let vec: Vec<u16> = (0..9).collect();
    let mut vec = ChunkableVector::new(vec);
    vec.split(2);
    let res = vec.into_single();
    assert_eq!(res, (0..9).collect::<Vec<u16>>());
}
