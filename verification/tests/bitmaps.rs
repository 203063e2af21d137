use mvtr::bitmaps::reorder;
use roaring::RoaringBitmap;

fn bitmap(values: &[u32]) -> RoaringBitmap {
    values.iter().copied().collect()
}

#[test]
fn reorder_starts_with_the_smallest_and_stores_differences() {
    let bitmaps = vec![
        bitmap(&[1, 2, 3, 4, 5, 6, 7, 8]),
        bitmap(&[1, 2]),
        bitmap(&[1, 2, 3, 4, 5, 6, 7]),
        bitmap(&[1, 2, 9]),
    ];
    let out = reorder(&bitmaps);
    let order: Vec<usize> = out.iter().map(|(place, _)| *place).collect();
    assert_eq!(order, vec![1, 3, 2, 0]);
    assert_eq!(out[0].1, bitmap(&[1, 2]));
    assert_eq!(out[1].1, bitmap(&[9]));
    assert_eq!(out[2].1, bitmap(&[3, 4, 5, 6, 7, 9]));
    assert_eq!(out[3].1, bitmap(&[8]));
}

#[test]
fn reorder_puts_equal_bitmaps_next_to_each_other() {
    let bitmaps = vec![
        bitmap(&[5, 6, 7]),
        bitmap(&[5]),
        bitmap(&[5, 6, 7]),
        bitmap(&[5, 6]),
        bitmap(&[5]),
    ];
    let out = reorder(&bitmaps);
    let order: Vec<usize> = out.iter().map(|(place, _)| *place).collect();
    assert_eq!(order, vec![1, 4, 3, 0, 2]);
    assert!(out[1].1.is_empty());
    assert!(out[4].1.is_empty());
    assert_eq!(out[2].1, bitmap(&[6]));
}

#[test]
fn reorder_of_nothing_is_nothing() {
    assert!(reorder(&Vec::new()).is_empty());
    let one = reorder(&vec![bitmap(&[3])]);
    assert_eq!(one.len(), 1);
    assert_eq!(one[0], (0, bitmap(&[3])));
}
