use genre_tagger::chunking::chunk_hashmap;

fn numbers(n: u32) -> Vec<u32> {
    (0..n).collect()
}

#[test]
fn nothing_makes_no_chunk() {
    assert_eq!(chunk_hashmap(numbers(0), 50), Vec::<Vec<u32>>::new());
}

#[test]
fn short_list_is_one_chunk() {
    assert_eq!(chunk_hashmap(numbers(49), 50), vec![numbers(49)]);
    assert_eq!(chunk_hashmap(numbers(1), 50), vec![numbers(1)]);
}

#[test]
fn full_page_is_one_chunk() {
    assert_eq!(chunk_hashmap(numbers(50), 50), vec![numbers(50)]);
}

#[test]
fn two_full_pages_are_two_chunks() {
    let chunks = chunk_hashmap(numbers(100), 50);
    assert_eq!(chunks.len(), 2);
    assert_eq!(chunks[0], (0..50).collect::<Vec<u32>>());
    assert_eq!(chunks[1], (50..100).collect::<Vec<u32>>());
}

#[test]
fn last_chunk_holds_the_remainder() {
    let chunks = chunk_hashmap(numbers(101), 50);
    assert_eq!(chunks.len(), 3);
    assert_eq!(chunks[0].len(), 50);
    assert_eq!(chunks[1].len(), 50);
    assert_eq!(chunks[2], vec![100]);
}

#[test]
fn chunks_rebuild_the_list() {
    for n in [0u32, 1, 2, 3, 4, 5, 6, 7, 49, 50, 51, 99, 100, 101, 250] {
        for page in [1usize, 2, 3, 50] {
            let chunks = chunk_hashmap(numbers(n), page);
            assert_eq!(chunks.len(), (n as usize + page - 1) / page);
            for (i, chunk) in chunks.iter().enumerate() {
                if i + 1 < chunks.len() {
                    assert_eq!(chunk.len(), page);
                } else {
                    assert!(!chunk.is_empty() && chunk.len() <= page);
                }
            }
            let rebuilt: Vec<u32> = chunks.into_iter().flatten().collect();
            assert_eq!(rebuilt, numbers(n));
        }
    }
}

#[test]
fn chunks_of_pairs_keep_the_pairs() {
    let pairs = vec![("a", 1), ("b", 2), ("c", 3)];
    assert_eq!(
        chunk_hashmap(pairs, 2),
        vec![vec![("a", 1), ("b", 2)], vec![("c", 3)]]
    );
}
