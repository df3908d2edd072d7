use toodee::{Col, Rows, TooDee, TooDeeIterator, TooDeeOps};

fn count_row_cells(mut rows: Rows<'_, u32>) -> usize {
    let mut count = 0;
    while let Some(r) = rows.next() {
        count += r.len();
    }
    count
}

fn count_row_cells_rev(mut rows: Rows<'_, u32>) -> usize {
    let mut count = 0;
    while let Some(r) = rows.next_back() {
        count += r.len();
    }
    count
}

fn sum_col(mut col: Col<'_, u32>) -> u32 {
    let mut total = 0;
    while let Some(v) = col.next() {
        total += *v;
    }
    total
}

fn sum_col_rev(mut col: Col<'_, u32>) -> u32 {
    let mut total = 0;
    while let Some(v) = col.next_back() {
        total += *v;
    }
    total
}

#[test]
fn rows_iter() {
    let toodee = TooDee::init(10, 10, 22u32);
    assert_eq!(toodee.rows().len(), 10);
    assert_eq!(toodee.rows().num_cols(), 10);
    assert_eq!(count_row_cells(toodee.rows()), 10 * 10);
}

#[test]
fn rows_iter_empty() {
    let toodee: TooDee<u32> = TooDee::default();
    assert_eq!(toodee.rows().len(), 0);
    assert_eq!(toodee.rows().num_cols(), 0);
    assert_eq!(toodee.rows().next(), None);
}

#[test]
fn view_rows_iter() {
    let toodee = TooDee::init(10, 10, 22u32);
    let v = toodee.view((2, 2), (10, 10));
    assert_eq!(v.rows().len(), 8);
    assert_eq!(v.rows().num_cols(), 8);
    assert_eq!(count_row_cells(v.rows()), 8 * 8);
}

#[test]
fn view_rows_iter_rev() {
    let toodee = TooDee::init(10, 10, 22u32);
    let v = toodee.view((2, 2), (10, 10));
    assert_eq!(v.rows().len(), 8);
    assert_eq!(count_row_cells_rev(v.rows()), 8 * 8);
}

#[test]
fn col_iter() {
    let toodee = TooDee::from_vec(10, 10, (0u32..100).collect());
    let mut col = toodee.col(2);
    assert_eq!(col.len(), 10);
    assert_eq!(*col.get(0), 2);
    assert_eq!(col.next().unwrap(), &2);
    let expected_sum = 2 + 12 + 22 + 32 + 42 + 52 + 62 + 72 + 82 + 92;
    assert_eq!(sum_col(col), expected_sum - 2);
    let mut rev = toodee.col(2);
    assert_eq!(rev.len(), 10);
    assert_eq!(rev.next_back().unwrap(), &92);
    assert_eq!(sum_col_rev(rev), expected_sum - 92);
}

#[test]
fn view_col_iter() {
    let toodee = TooDee::from_vec(10, 10, (0u32..100).collect());
    let view = toodee.view((2, 2), (8, 8));
    let mut col = view.col(2);
    assert_eq!(col.len(), 6);
    assert_eq!(col.next().unwrap(), &24);
    let expected_sum = 24 + 34 + 44 + 54 + 64 + 74;
    assert_eq!(sum_col(col), expected_sum - 24);
    let mut rev = view.col(2);
    assert_eq!(rev.len(), 6);
    assert_eq!(rev.next_back().unwrap(), &74);
    assert_eq!(sum_col_rev(rev), expected_sum - 74);
}

#[test]
fn cells() {
    let toodee = TooDee::from_vec(10, 10, (0u32..100).collect());
    let mut cells = toodee.cells();
    assert_eq!(cells.next(), Some(&0u32));
    assert_eq!(cells.next(), Some(&1u32));
    assert_eq!(cells.size_hint(), (98, Some(98)));
    assert_eq!(cells.next_back(), Some(&99u32));
    assert_eq!(cells.next_back(), Some(&98u32));
    assert_eq!(cells.size_hint(), (96, Some(96)));
    assert_eq!(cells.nth(18), Some(&20u32));
    assert_eq!(cells.nth(8), Some(&29u32));
    assert_eq!(cells.nth(63), Some(&93u32));
    assert_eq!(cells.nth(1), Some(&95u32));
    assert_eq!(cells.nth(0), Some(&96u32));
    assert_eq!(cells.nth(0), Some(&97u32));
    assert_eq!(cells.nth(0), None);
}

#[test]
fn cells_iter_nth_back() {
    let toodee = TooDee::from_vec(10, 10, (0u32..100).collect());
    let mut cells = toodee.cells();
    assert_eq!(cells.nth_back(10), Some(&89u32));
    assert_eq!(cells.nth_back(0), Some(&88u32));
    assert_eq!(cells.nth_back(9), Some(&78u32));
    assert_eq!(cells.nth_back(69), Some(&8u32));
    assert_eq!(cells.nth_back(7), Some(&0u32));
    assert_eq!(cells.nth_back(0), None);
}

#[test]
fn into_iter() {
    let toodee = TooDee::init(10, 10, 22u32);
    let iter = toodee.into_vec().into_iter();
    assert_eq!(iter.len(), 100);
}

#[test]
fn ref_into_iter() {
    let toodee = TooDee::init(10, 13, 22u32);
    let iter = toodee.cells();
    assert_eq!(iter.len(), 130);
    assert_eq!(iter.num_cols(), 10);
}

#[test]
fn rows_len_matches_production_from_both_ends() {
    let toodee = TooDee::from_vec(7, 5, (0u32..35).collect());
    let view = toodee.view((1, 1), (6, 5));
    let mut rows = view.rows();
    let mut produced = 0;
    assert_eq!(rows.len(), 4);
    assert!(rows.nth(1).is_some());
    produced += 2;
    assert_eq!(rows.len(), 4 - produced);
    assert_eq!(rows.next_back().unwrap(), &[29u32, 30, 31, 32, 33][..]);
    produced += 1;
    assert_eq!(rows.len(), 4 - produced);
    assert_eq!(rows.nth_back(0).unwrap(), &[22u32, 23, 24, 25, 26][..]);
    assert_eq!(rows.len(), 0);
    assert!(rows.next().is_none());
    assert!(rows.nth(usize::MAX).is_none());
}

#[test]
fn cells_len_matches_production_after_skips() {
    let toodee = TooDee::from_vec(4, 3, (0u32..12).collect());
    let mut cells = toodee.cells();
    assert_eq!(cells.len(), 12);
    assert_eq!(cells.nth(5), Some(&5u32));
    assert_eq!(cells.len(), 6);
    assert_eq!(cells.nth_back(2), Some(&9u32));
    assert_eq!(cells.len(), 3);
    let mut rest = Vec::new();
    while let Some(v) = cells.next() {
        rest.push(*v);
    }
    assert_eq!(rest, vec![6, 7, 8]);
}

#[test]
fn zero_width_view_yields_nothing() {
    let toodee = TooDee::init(10, 10, 0u32);
    let view = toodee.view((5, 5), (5, 9));
    assert_eq!(view.size(), (0, 0));
    assert_eq!(view.rows().len(), 0);
    assert_eq!(view.cells().len(), 0);
    assert!(view.cells().next().is_none());
}
