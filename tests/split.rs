use pairs::split::{chunk_size, chunk_sizes, chunk_sizes_with};
use pairs::split_evenly;

fn flat(chunks: &Vec<Vec<usize>>) -> Vec<usize> {
    chunks.iter().flat_map(|x| x.iter()).cloned().collect::<Vec<usize>>()
}

#[test]
fn test_split_evenly() {
    let eight: [usize; 8] = [1, 2, 3, 4, 5, 6, 7, 8];
    let chunks: Vec<_> = split_evenly(&eight, 3);
    assert_eq!(&eight[..], &flat(&chunks)[..]);
    assert_eq!(chunks.iter().map(|c| c.len()).max(), Some(3));
    assert_eq!(chunks.iter().map(|c| c.len()).min(), Some(2));

    let chunks: Vec<_> = split_evenly(&eight, 5);
    assert_eq!(&eight[..], &flat(&chunks)[..]);
    assert_eq!(chunks.iter().map(|c| c.len()).max(), Some(2));
    assert_eq!(chunks.iter().map(|c| c.len()).min(), Some(1));

    let seven = [1, 2, 3, 4, 5, 6, 7];
    let chunks: Vec<_> = split_evenly(&seven, 3);
    assert_eq!(&seven[..], &flat(&chunks)[..]);
    assert_eq!(chunks.iter().map(|c| c.len()).max(), Some(3));
    assert_eq!(chunks.iter().map(|c| c.len()).min(), Some(2));

    let chunks: Vec<_> = split_evenly(&seven, 5);
    assert_eq!(&seven[..], &flat(&chunks)[..]);
    assert_eq!(chunks.iter().map(|c| c.len()).max(), Some(2));
    assert_eq!(chunks.iter().map(|c| c.len()).min(), Some(1));

    let nineteen: [usize; 19] = [1, 2, 3, 4, 5, 6, 7, 8, 9, 10, 11, 12, 13, 14, 15, 16, 17, 18, 19];

    let chunks: Vec<_> = split_evenly(&nineteen, 5);
    assert_eq!(&nineteen[..], &flat(&chunks)[..]);
    assert_eq!(chunks.iter().map(|c| c.len()).max(), Some(4));
    assert_eq!(chunks.iter().map(|c| c.len()).min(), Some(3));

    let mut last_was_small = false;
    for _ in 0..60 {
        let chunks: Vec<_> = split_evenly(&nineteen, 5);
        assert_eq!(&nineteen[..], &flat(&chunks)[..]);
        assert_eq!(chunks.iter().map(|c| c.len()).max(), Some(4));
        assert_eq!(chunks.iter().map(|c| c.len()).min(), Some(3));

        println!("  {:?}", chunks.iter().map(|c| c.len()).collect::<Vec<_>>());
        if chunks[4].len() == 3 {
            last_was_small = true;
        }
    }
    assert!(last_was_small);
}

#[test]
fn split_evenly_keeps_order_and_spread() {
    let items: Vec<usize> = (0..23).collect();
    for n in 1..=23 {
        let chunks = split_evenly(&items, n);
        assert_eq!(chunks.len(), n);
        assert_eq!(flat(&chunks), items);
        let max = chunks.iter().map(|c| c.len()).max().unwrap();
        let min = chunks.iter().map(|c| c.len()).min().unwrap();
        assert!(max - min <= 1);
    }
}

#[test]
fn split_evenly_of_nothing() {
    let items: [usize; 0] = [];
    let chunks = split_evenly(&items, 3);
    assert_eq!(chunks.len(), 3);
    assert!(chunks.iter().all(|c| c.is_empty()));
}

#[test]
fn chunk_sizes_sum_and_bounds() {
    for _ in 0..20 {
        let sizes = chunk_sizes(10, 4);
        assert_eq!(sizes.len(), 4);
        assert_eq!(sizes.iter().sum::<usize>(), 10);
        assert!(sizes.iter().all(|&s| s == 2 || s == 3));
        assert_eq!(sizes.iter().filter(|&&s| s == 3).count(), 2);
    }
    assert_eq!(chunk_sizes(12, 4), vec![3, 3, 3, 3]);
}

#[test]
fn chunk_sizes_follow_the_draws() {
    assert_eq!(chunk_sizes_with(19, 5, &vec![0, 0, 0, 0, 0]), vec![4, 4, 4, 4, 3]);
    assert_eq!(chunk_sizes_with(19, 5, &vec![4, 3, 2, 1, 0]), vec![3, 4, 4, 4, 4]);
    assert_eq!(chunk_size(19, 5, 3), 4);
    assert_eq!(chunk_size(19, 5, 9), 3);
    assert_eq!(chunk_size(20, 5, 0), 4);
}
