use tracer::progress::ProgressCount;
use tracer::tiles::{place_block, shuffled_blocks, split_into_blocks, Block};

fn block(x: u32, y: u32, width: u32, height: u32) -> Block {
    Block { x, y, width, height }
}

#[test]
fn split_into_blocks_orders_columns_then_rows() {
    let blocks = split_into_blocks(40, 20);
    assert_eq!(
        blocks,
        vec![
            block(0, 0, 16, 16),
            block(0, 16, 16, 4),
            block(16, 0, 16, 16),
            block(16, 16, 16, 4),
            block(32, 0, 8, 16),
            block(32, 16, 8, 4),
        ]
    );
}

#[test]
fn split_into_blocks_exact_multiple() {
    let blocks = split_into_blocks(32, 16);
    assert_eq!(blocks, vec![block(0, 0, 16, 16), block(16, 0, 16, 16)]);
}

#[test]
fn split_into_blocks_empty_image() {
    assert!(split_into_blocks(0, 10).is_empty());
    assert!(split_into_blocks(10, 0).is_empty());
    assert!(split_into_blocks(0, 0).is_empty());
}

#[test]
fn split_into_blocks_single_pixel() {
    assert_eq!(split_into_blocks(1, 1), vec![block(0, 0, 1, 1)]);
}

#[test]
fn blocks_cover_each_pixel_once() {
    let (width, height) = (37u32, 23u32);
    let mut hits = vec![0u32; (width * height) as usize];
    for b in split_into_blocks(width, height) {
        assert!(b.width >= 1 && b.width <= 16);
        assert!(b.height >= 1 && b.height <= 16);
        for y in b.y_range() {
            for x in b.x_range() {
                hits[(y * width + x) as usize] += 1;
            }
        }
    }
    assert!(hits.iter().all(|&h| h == 1));
}

#[test]
fn block_ranges() {
    let b = block(16, 32, 5, 7);
    assert_eq!(b.x_range(), 16..21);
    assert_eq!(b.y_range(), 32..39);
    assert!(block(3, 4, 0, 0).x_range().is_empty());
}

#[test]
fn place_block_writes_only_its_rectangle() {
    let mut target = vec![0u32; 12];
    place_block(&mut target, 4, block(1, 1, 2, 2), &vec![1, 2, 3, 4]);
    assert_eq!(target, vec![0, 0, 0, 0, 0, 1, 2, 0, 0, 3, 4, 0]);
}

#[test]
fn place_block_assembles_whole_image() {
    let (width, height) = (20u32, 18u32);
    let mut target = vec![u32::MAX; (width * height) as usize];
    for b in split_into_blocks(width, height) {
        let mut pixels = Vec::new();
        for y in b.y_range() {
            for x in b.x_range() {
                pixels.push(y * width + x);
            }
        }
        place_block(&mut target, width, b, &pixels);
    }
    let expected: Vec<u32> = (0..width * height).collect();
    assert_eq!(target, expected);
}

#[test]
fn shuffled_blocks_are_a_permutation() {
    let mut rng = rand::thread_rng();
    let key = |b: &Block| (b.x, b.y, b.width, b.height);
    let mut shuffled: Vec<_> = shuffled_blocks(100, 70, &mut rng).iter().map(key).collect();
    let mut plain: Vec<_> = split_into_blocks(100, 70).iter().map(key).collect();
    assert_eq!(shuffled.len(), 35);
    shuffled.sort();
    plain.sort();
    assert_eq!(shuffled, plain);
}

#[test]
fn progress_count_tracks_pixels() {
    let mut count = ProgressCount::new(40, 20);
    assert_eq!(count.total_pixels, 800);
    assert_eq!(count.finished_pixels, 0);
    assert!(!count.is_complete());
    for b in split_into_blocks(40, 20) {
        count.record(b);
    }
    assert_eq!(count.finished_pixels, 800);
    assert!(count.is_complete());
}

#[test]
fn progress_count_large_image() {
    let count = ProgressCount::new(u32::MAX, 2);
    assert_eq!(count.total_pixels, 2 * u32::MAX as u64);
}

#[test]
fn pixel_coords_row_major() {
    let coords = block(3, 5, 2, 3).pixel_coords();
    assert_eq!(coords, vec![(3, 5), (4, 5), (3, 6), (4, 6), (3, 7), (4, 7)]);
    assert!(block(1, 1, 0, 4).pixel_coords().is_empty());
}

#[test]
fn pixel_coords_feed_place_block() {
    let width = 7u32;
    let b = block(2, 1, 4, 3);
    let pixels: Vec<u32> = b.pixel_coords().iter().map(|&(x, y)| y * width + x).collect();
    let mut target = vec![0u32; 35];
    place_block(&mut target, width, b, &pixels);
    for (i, &v) in target.iter().enumerate() {
        let (x, y) = (i as u32 % width, i as u32 / width);
        let inside = x >= 2 && x < 6 && y >= 1 && y < 4;
        assert_eq!(v, if inside { i as u32 } else { 0 });
    }
}

#[test]
fn shuffled_blocks_change_the_order() {
    // 64 tiles: the chance that a uniform shuffle keeps them all in place is 1/64!
    let mut rng = rand::thread_rng();
    let shuffled = shuffled_blocks(128, 128, &mut rng);
    let plain = split_into_blocks(128, 128);
    assert_eq!(shuffled.len(), 64);
    assert_ne!(shuffled, plain);
}
