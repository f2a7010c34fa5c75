use rt_weekend::dispatch::{CollectError, RowCollector};

fn row(y: usize, width: usize) -> Vec<(usize, usize)> {
    (0..width).map(|x| (x, y)).collect()
}

fn assemble(width: usize, height: usize, order: &[usize]) -> Vec<(usize, usize)> {
    let mut c = RowCollector::new(width, height);
    for &y in order {
        c.receive(y, row(y, width)).unwrap();
    }
    assert_eq!(c.remaining(), 0);
    c.finish().unwrap()
}

#[test]
fn rows_laid_out_top_first() {
    let out = assemble(3, 2, &[0, 1]);
    assert_eq!(out, vec![(0, 1), (1, 1), (2, 1), (0, 0), (1, 0), (2, 0)]);
}

#[test]
fn arrival_order_does_not_change_image() {
    let width = 4;
    let height = 6;
    let a = assemble(width, height, &[0, 1, 2, 3, 4, 5]);
    let b = assemble(width, height, &[5, 4, 3, 2, 1, 0]);
    let c = assemble(width, height, &[3, 0, 5, 1, 4, 2]);
    assert_eq!(a.len(), width * height);
    assert_eq!(a, b);
    assert_eq!(a, c);
    for (k, px) in a.iter().enumerate() {
        assert_eq!(*px, (k % width, height - 1 - k / width));
    }
}

#[test]
fn empty_image_assembles_to_nothing() {
    let c: RowCollector<u8> = RowCollector::new(5, 0);
    assert_eq!(c.remaining(), 0);
    assert_eq!(c.finish().unwrap(), Vec::<u8>::new());
}

#[test]
fn row_out_of_range_is_refused() {
    let mut c = RowCollector::new(2, 2);
    assert_eq!(c.receive(2, row(2, 2)), Err(CollectError::RowOutOfRange));
    assert_eq!(c.remaining(), 2);
}

#[test]
fn duplicate_row_is_refused() {
    let mut c = RowCollector::new(2, 2);
    assert_eq!(c.receive(1, row(1, 2)), Ok(()));
    assert_eq!(c.receive(1, row(1, 2)), Err(CollectError::DuplicateRow));
    assert_eq!(c.remaining(), 1);
}

#[test]
fn short_row_is_refused() {
    let mut c = RowCollector::new(3, 1);
    assert_eq!(c.receive(0, row(0, 2)), Err(CollectError::RowLengthMismatch));
    assert_eq!(c.remaining(), 1);
}

#[test]
fn incomplete_image_is_refused() {
    let mut c = RowCollector::new(1, 3);
    c.receive(0, row(0, 1)).unwrap();
    c.receive(2, row(2, 1)).unwrap();
    assert_eq!(c.remaining(), 1);
    assert_eq!(c.finish(), Err(CollectError::Incomplete));
}
