use toodee::{CellsMut, ColMut, RowsMut, TooDee, TooDeeIterator, TooDeeOps, TooDeeOpsMut};

fn count_cells_mut(mut rows: RowsMut<'_, u32>) -> usize {
    let mut count = 0;
    while let Some(r) = rows.next() {
        count += r.len();
    }
    count
}

fn count_cells_mut_rev(mut rows: RowsMut<'_, u32>) -> usize {
    let mut count = 0;
    while let Some(r) = rows.next_back() {
        count += r.len();
    }
    count
}

fn sum_col_mut(mut col: ColMut<'_, u32>) -> u32 {
    let mut total = 0;
    while let Some(v) = col.next() {
        total += *v;
    }
    total
}

fn sum_col_mut_rev(mut col: ColMut<'_, u32>) -> u32 {
    let mut total = 0;
    while let Some(v) = col.next_back() {
        total += *v;
    }
    total
}

fn first_cell_mut(mut cells: CellsMut<'_, u32>) -> Option<u32> {
    cells.next().map(|v| *v)
}

#[test]
fn rows_mut_iter() {
    let mut toodee = TooDee::init(10, 10, 22u32);
    assert_eq!(toodee.rows_mut().len(), 10);
    assert_eq!(toodee.rows_mut().num_cols(), 10);
    assert_eq!(count_cells_mut(toodee.rows_mut()), 10 * 10);
}

#[test]
fn rows_mut_iter_empty() {
    let mut toodee: TooDee<u32> = TooDee::default();
    assert_eq!(toodee.rows_mut().len(), 0);
    assert_eq!(toodee.rows_mut().num_cols(), 0);
    assert_eq!(toodee.rows_mut().next(), None);
}

#[test]
fn view_rows_iter_mut() {
    let mut toodee = TooDee::init(10, 10, 22u32);
    let mut v = toodee.view_mut((2, 2), (10, 10));
    assert_eq!(v.rows().len(), 8);
    assert_eq!(v.rows_mut().len(), 8);
    let mut count = 0;
    let mut rows = v.rows();
    while let Some(r) = rows.next() {
        count += r.len();
    }
    assert_eq!(count, 8 * 8);
    assert_eq!(count_cells_mut(v.rows_mut()), 8 * 8);
}

#[test]
fn view_rows_iter_mut_rev() {
    let mut toodee = TooDee::init(10, 10, 22u32);
    let mut v = toodee.view_mut((2, 2), (10, 10));
    assert_eq!(v.rows().len(), 8);
    assert_eq!(v.rows_mut().len(), 8);
    let mut count = 0;
    let mut rows = v.rows();
    while let Some(r) = rows.next_back() {
        count += r.len();
    }
    assert_eq!(count, 8 * 8);
    assert_eq!(count_cells_mut_rev(v.rows_mut()), 8 * 8);
}

#[test]
fn col_mut_iter() {
    let mut toodee = TooDee::from_vec(10, 10, (0u32..100).collect());
    let mut col = toodee.col_mut(2);
    assert_eq!(col.len(), 10);
    assert_eq!(col.next().map(|v| *v), Some(2));
    let expected_sum = 2 + 12 + 22 + 32 + 42 + 52 + 62 + 72 + 82 + 92;
    assert_eq!(sum_col_mut(col), expected_sum - 2);
    let mut rev = toodee.col_mut(2);
    assert_eq!(rev.len(), 10);
    assert_eq!(rev.next_back().map(|v| *v), Some(92));
    assert_eq!(sum_col_mut_rev(rev), expected_sum - 92);
}

#[test]
fn view_col_mut_iter() {
    let mut toodee = TooDee::from_vec(10, 10, (0u32..100).collect());
    let mut view = toodee.view_mut((2, 2), (8, 8));
    let mut col = view.col_mut(2);
    assert_eq!(col.len(), 6);
    assert_eq!(col.next().map(|v| *v), Some(24));
    let expected_sum = 24 + 34 + 44 + 54 + 64 + 74;
    assert_eq!(sum_col_mut(col), expected_sum - 24);
    let mut rev = view.col_mut(2);
    assert_eq!(rev.len(), 6);
    assert_eq!(rev.next_back().map(|v| *v), Some(74));
    assert_eq!(sum_col_mut_rev(rev), expected_sum - 74);
}

#[test]
fn cells_mut() {
    let mut toodee = TooDee::from_vec(10, 11, (0u32..110).collect());
    let mut cells = toodee.cells_mut();
    assert_eq!(10, cells.num_cols());
    assert_eq!(cells.next(), Some(&mut 0u32));
    assert_eq!(cells.next(), Some(&mut 1u32));
    assert_eq!(cells.size_hint(), (108, Some(108)));
    assert_eq!(cells.next_back(), Some(&mut 109u32));
    assert_eq!(cells.next_back(), Some(&mut 108u32));
    assert_eq!(cells.size_hint(), (106, Some(106)));
}

#[test]
fn mut_ref_into_iter() {
    let mut toodee = TooDee::init(10, 13, 22u32);
    let iter = toodee.cells_mut();
    assert_eq!(iter.len(), 130);
    assert_eq!(iter.num_cols(), 10);
}

#[test]
fn writes_through_cells_mut_reach_the_array() {
    let mut toodee = TooDee::init(3, 2, 1u32);
    {
        let mut cells = toodee.cells_mut();
        while let Some(v) = cells.next() {
            *v += 1;
        }
    }
    assert_eq!(toodee.data(), &[2, 2, 2, 2, 2, 2]);
}

#[test]
fn zero_size_toodee() {
    let mut toodee = TooDee::init(0, 0, 0u32);
    assert!(toodee.is_empty());
    assert_eq!(toodee.rows_mut().next(), None);
    assert_eq!(toodee.rows().next(), None);
    assert_eq!(toodee.cells().next(), None);
    assert_eq!(first_cell_mut(toodee.cells_mut()), None);
}

#[test]
fn tests_zero_size_view() {
    let mut toodee = TooDee::init(10, 10, 0u32);
    let mut view = toodee.view_mut((5, 5), (5, 5));
    assert!(view.is_empty());
    assert_eq!(view.rows_mut().next(), None);
    assert_eq!(view.rows().next(), None);
    assert_eq!(view.cells().next(), None);
    assert_eq!(first_cell_mut(view.cells_mut()), None);
    view = toodee.view_mut((5, 5), (6, 5));
    assert_eq!(view.rows_mut().next(), None);
    assert_eq!(view.rows().next(), None);
    assert_eq!(view.cells().next(), None);
    assert_eq!(first_cell_mut(view.cells_mut()), None);
    view = toodee.view_mut((5, 5), (5, 6));
    assert_eq!(view.rows_mut().next(), None);
    assert_eq!(view.rows().next(), None);
    assert_eq!(view.cells().next(), None);
    assert_eq!(first_cell_mut(view.cells_mut()), None);
}

#[test]
fn tests_zero_size_view_of_zero() {
    let mut toodee = TooDee::init(0, 0, 0u32);
    let mut view = toodee.view_mut((0, 0), (0, 0));
    assert_eq!(view.rows_mut().next(), None);
    assert_eq!(view.rows().next(), None);
    assert_eq!(view.cells().next(), None);
    assert_eq!(first_cell_mut(view.cells_mut()), None);
}

#[test]
fn tests_view_zero_size_view() {
    let mut toodee = TooDee::init(10, 10, 0u32);
    let mut view = toodee.view_mut((5, 5), (5, 5));
    assert!(view.is_empty());
    assert_eq!(view.rows_mut().next(), None);
    assert_eq!(view.rows().next(), None);
    assert_eq!(view.cells().next(), None);
    assert_eq!(first_cell_mut(view.cells_mut()), None);
    view = toodee.view_mut((5, 5), (6, 5));
    assert_eq!(view.rows_mut().next(), None);
    assert_eq!(view.rows().next(), None);
    assert_eq!(view.cells().next(), None);
    assert_eq!(first_cell_mut(view.cells_mut()), None);
    view = toodee.view_mut((5, 5), (5, 6));
    assert_eq!(view.rows_mut().next(), None);
    assert_eq!(view.rows().next(), None);
    assert_eq!(view.cells().next(), None);
    assert_eq!(first_cell_mut(view.cells_mut()), None);
}

#[test]
fn tests_view_zero_size_view_of_zero() {
    let mut toodee = TooDee::init(0, 0, 0u32);
    let mut view = toodee.view_mut((0, 0), (0, 0));
    assert_eq!(view.rows_mut().next(), None);
    assert_eq!(view.rows().next(), None);
    assert_eq!(view.cells().next(), None);
    assert_eq!(first_cell_mut(view.cells_mut()), None);
}
