use adrenaline::chunker::split_into_chunks;
use adrenaline::MAX_CHUNK_SIZE;

fn make_data(n: usize) -> Vec<u8> {
    let mut data = Vec::with_capacity(n);
    for i in 0..n {
        data.push((i % 251) as u8);
    }
    data
}

fn concat(chunks: &Vec<Vec<u8>>) -> Vec<u8> {
    let mut out = Vec::new();
    for chunk in chunks {
        out.extend_from_slice(chunk);
    }
    out
}

#[test]
fn empty_source_yields_no_chunks() {
    let info = split_into_chunks(&Vec::new());
    assert_eq!(info.size, 0);
    assert_eq!(info.chunks.len(), 0);
}

#[test]
fn reconstruction_for_various_sizes() {
    for n in [
        1,
        2,
        MAX_CHUNK_SIZE - 1,
        MAX_CHUNK_SIZE,
        MAX_CHUNK_SIZE + 1,
        2 * MAX_CHUNK_SIZE,
        2 * MAX_CHUNK_SIZE + 17,
        3 * MAX_CHUNK_SIZE,
    ] {
        let data = make_data(n);
        let info = split_into_chunks(&data);
        assert_eq!(info.size, n);
        assert_eq!(concat(&info.chunks), data);
    }
}

#[test]
fn chunk_sizes_are_bounded() {
    let data = make_data(2 * MAX_CHUNK_SIZE + 17);
    let info = split_into_chunks(&data);
    assert_eq!(info.chunks.len(), 3);
    for chunk in &info.chunks {
        assert!(1 <= chunk.len() && chunk.len() <= MAX_CHUNK_SIZE);
    }
    assert_eq!(info.chunks[0].len(), MAX_CHUNK_SIZE);
    assert_eq!(info.chunks[1].len(), MAX_CHUNK_SIZE);
    assert_eq!(info.chunks[2].len(), 17);
}

#[test]
fn source_up_to_the_cap_is_one_chunk() {
    for n in [1, 2, MAX_CHUNK_SIZE - 1, MAX_CHUNK_SIZE] {
        let data = make_data(n);
        let info = split_into_chunks(&data);
        assert_eq!(info.chunks.len(), 1);
        assert_eq!(info.chunks[0], data);
    }
    let data = make_data(MAX_CHUNK_SIZE + 1);
    let info = split_into_chunks(&data);
    assert_eq!(info.chunks.len(), 2);
    assert_eq!(info.chunks[1].len(), 1);
}

#[test]
fn budget_constant_value() {
    assert_eq!(MAX_CHUNK_SIZE, 9216 - 1 - 8 - 20 - 8 - 4);
}
