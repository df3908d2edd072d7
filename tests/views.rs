use toodee::{Cells, Matrix, TooDee, TooDeeOps, TooDeeOpsMut, TooDeeView, TooDeeViewMut, TranslateOps, TransposeOps};

fn sum_cells(mut cells: Cells<'_, u32>) -> u32 {
    let mut total = 0u32;
    while let Some(v) = cells.next() {
        total += *v;
    }
    total
}

fn collect_cells(mut cells: Cells<'_, u32>) -> Vec<u32> {
    let mut out = Vec::new();
    while let Some(v) = cells.next() {
        out.push(v.clone());
    }
    out
}

#[test]
fn tests_view_new_view_direct() {
    let v = vec![1u32; 32];
    let view = TooDeeView::new(4, 8, &v);
    assert_eq!((4, 8), view.size());
    assert_eq!(view.num_cols(), 4);
    assert_eq!(view.num_rows(), 8);
    assert_eq!(sum_cells(view.cells()), 32);
}

#[test]
fn tests_view_new_view_mut_direct() {
    let mut v = vec![1u32; 32];
    let view = TooDeeViewMut::new(8, 4, &mut v);
    assert_eq!((8, 4), view.size());
    assert_eq!(view.num_cols(), 8);
    assert_eq!(view.num_rows(), 4);
    assert_eq!(sum_cells(view.cells()), 32);
}

#[test]
fn tests_view_view_from_into_toodee() {
    let toodee = TooDee::from_vec(10, 10, (0u32..100).collect());
    let view = toodee.view((2, 2), (4, 4));
    let mut subdee: TooDee<u32> = TooDee::from_view(&view);
    assert_eq!(subdee.data().iter().sum::<u32>(), 22 + 23 + 32 + 33);
    subdee = TooDee::from_view(&view);
    assert_eq!(subdee.data().iter().sum::<u32>(), 22 + 23 + 32 + 33);
}

#[test]
fn tests_view_view_mut_into_toodee() {
    let mut toodee = TooDee::from_vec(10, 10, (0u32..100).collect());
    let view = toodee.view_mut((2, 2), (4, 4));
    let subdee: TooDee<u32> = TooDee::from_view(&view);
    assert_eq!(subdee.data().iter().sum::<u32>(), 22 + 23 + 32 + 33);
}

#[test]
fn tests_view_view_mut_from_toodee() {
    let mut toodee = TooDee::from_vec(10, 10, (0u32..100).collect());
    let view = toodee.view_mut((2, 2), (4, 4));
    let subdee = TooDee::from_view(&view);
    assert_eq!(subdee.data().iter().sum::<u32>(), 22 + 23 + 32 + 33);
}

#[test]
fn tests_view_view_mut_to_toodee() {
    let mut toodee = TooDee::from_vec(10, 10, (0u32..100).collect());
    let view: TooDeeView<'_, u32> = toodee.view_mut((2, 2), (4, 4)).into_view();
    let subdee: TooDee<u32> = TooDee::from_view(&view);
    assert_eq!(subdee.data().iter().sum::<u32>(), 22 + 23 + 32 + 33);
}

#[test]
fn tests_view_view_mut_into_iter() {
    let mut toodee = TooDee::from_vec(10, 10, (0u32..100).collect());
    let view = toodee.view_mut((2, 2), (4, 4));
    assert_eq!(sum_cells(view.cells()), 22 + 23 + 32 + 33);
}

#[test]
fn tests_view_view_mut_into_iter_2() {
    let mut toodee = TooDee::from_vec(10, 10, (0u32..100).collect());
    let view = toodee.view_mut((2, 2), (4, 4));
    assert_eq!(sum_cells(view.cells()), 22 + 23 + 32 + 33);
}

#[test]
fn tests_view_view_into_iter() {
    let toodee = TooDee::from_vec(10, 10, (0u32..100).collect());
    let view = toodee.view((2, 2), (4, 4));
    assert_eq!(sum_cells(view.cells()), 22 + 23 + 32 + 33);
}

#[test]
fn swap() {
    let mut toodee = TooDee::from_vec(5, 5, (0u32..25).collect());
    let mut view = toodee.view_mut((1, 1), (4, 4));
    assert_eq!(&collect_cells(view.cells()), &[6, 7, 8, 11, 12, 13, 16, 17, 18]);
    view.swap((0, 0), (2, 2));
    assert_eq!(&collect_cells(view.cells()), &[18, 7, 8, 11, 12, 13, 16, 17, 6]);
    view.swap((2, 2), (0, 0));
    assert_eq!(&collect_cells(view.cells()), &[6, 7, 8, 11, 12, 13, 16, 17, 18]);
    view.swap((0, 2), (1, 1));
    assert_eq!(&collect_cells(view.cells()), &[6, 7, 8, 11, 16, 13, 12, 17, 18]);
    view.swap((1, 1), (1, 1));
    assert_eq!(&collect_cells(view.cells()), &[6, 7, 8, 11, 16, 13, 12, 17, 18]);
}

#[test]
fn view_of_view_keeps_parent_stride() {
    let toodee = TooDee::from_vec(6, 6, (0u32..36).collect());
    let outer = toodee.view((1, 1), (5, 5));
    let inner = outer.view((1, 1), (3, 3));
    assert_eq!(inner.bounds(), ((2, 2), (4, 4)));
    assert_eq!(collect_cells(inner.cells()), vec![14, 15, 20, 21]);
}

#[test]
fn view_matches_grid_restricted_to_rectangle() {
    let toodee = TooDee::from_vec(7, 6, (0u32..42).collect());
    for &(start, end) in &[((0, 0), (7, 6)), ((2, 1), (5, 4)), ((3, 3), (3, 5)), ((1, 2), (6, 2)), ((6, 5), (7, 6))] {
        let view = toodee.view(start, end);
        let mut expected = Vec::new();
        if end.0 > start.0 && end.1 > start.1 {
            for r in start.1..end.1 {
                for c in start.0..end.0 {
                    expected.push(toodee[(c, r)]);
                }
            }
        }
        let copy = TooDee::from_view(&view);
        assert_eq!(copy.data(), &expected[..]);
        assert_eq!(collect_cells(view.cells()), expected);
    }
}

#[test]
fn transpose() {
    let mut toodee = TooDee::from_vec(2, 4, (0u32..8).collect());
    toodee.transpose();
    assert_eq!(toodee.num_cols(), 4);
    assert_eq!(toodee.num_rows(), 2);
    assert_eq!(toodee.data(), &[0, 2, 4, 6, 1, 3, 5, 7])
}

#[test]
fn insert_then_remove_row_restores() {
    for &cols in &[1usize, 5, 37] {
        for &rows in &[0usize, 1, 5, 37] {
            let orig: TooDee<u32> = if rows == 0 {
                TooDee::default()
            } else {
                TooDee::from_vec(cols, rows, (0..(cols * rows) as u32).collect())
            };
            for index in [0, rows / 2, rows] {
                let mut toodee = TooDee::from_view(&orig.view((0, 0), (orig.num_cols(), orig.num_rows())));
                let row: Vec<u32> = (1000..1000 + cols as u32).collect();
                toodee.insert_row(index, row.clone());
                let removed = toodee.remove_row(index);
                assert_eq!(removed, row);
                assert_eq!(toodee.size(), orig.size());
                assert_eq!(toodee.data(), orig.data());
            }
        }
    }
}

#[test]
fn insert_then_remove_col_restores() {
    for &cols in &[0usize, 1, 5, 37] {
        for &rows in &[1usize, 5, 37] {
            let orig: TooDee<u32> = if cols == 0 {
                TooDee::default()
            } else {
                TooDee::from_vec(cols, rows, (0..(cols * rows) as u32).collect())
            };
            for index in [0, cols / 2, cols] {
                let mut toodee = TooDee::from_view(&orig.view((0, 0), (orig.num_cols(), orig.num_rows())));
                let col: Vec<u32> = (1000..1000 + rows as u32).collect();
                toodee.insert_col(index, col.clone());
                let mut drain = toodee.remove_col(index);
                let mut removed = Vec::new();
                while let Some(v) = drain.next() {
                    removed.push(v);
                }
                assert_eq!(removed, col);
                assert_eq!(toodee.size(), orig.size());
                assert_eq!(toodee.data(), orig.data());
            }
        }
    }
}

#[test]
fn abandoned_column_removal_leaves_compact_grid() {
    let mut toodee = TooDee::from_vec(4, 3, (0u32..12).collect());
    {
        let mut drain = toodee.remove_col(1);
        assert_eq!(drain.next(), Some(1));
    }
    assert_eq!(toodee.size(), (3, 3));
    assert_eq!(toodee.data(), &[0, 2, 3, 4, 6, 7, 8, 10, 11]);
}

#[test]
fn addressing_is_row_major() {
    let toodee = TooDee::from_vec(4, 3, (0u32..12).collect());
    for r in 0..3 {
        for c in 0..4 {
            assert_eq!(toodee[(c, r)], (r * 4 + c) as u32);
        }
    }
    let empty: TooDee<u32> = TooDee::init(0, 0, 1);
    assert!(empty.is_empty());
    assert_eq!(empty.size(), (0, 0));
}

#[test]
fn matrix_holds_fixed_dimensions() {
    use_matrix();
}

fn use_matrix() {
    let mut m: Matrix<u32, 3, 2> = Matrix::from_vec((0u32..6).collect());
    assert_eq!(m.size(), (3, 2));
    assert_eq!(m.data(), &[0, 1, 2, 3, 4, 5]);
    m.data_mut()[4] = 40;
    assert_eq!(m[(1, 1)], 40);
    m.translate_with_wrap((1, 1));
    assert_eq!(m.data(), &[40, 5, 3, 1, 2, 0]);
    let filled: Matrix<u32, 2, 2> = Matrix::init(7);
    assert_eq!(filled.data(), &[7, 7, 7, 7]);
    let boxed: Matrix<u32, 2, 1> = Matrix::from_box(vec![1u32, 2].into_boxed_slice());
    assert_eq!(boxed.data(), &[1, 2]);
    let source = TooDee::from_vec(4, 4, (0u32..16).collect());
    let part: Matrix<u32, 2, 2> = Matrix::from_view(&source.view((1, 2), (3, 4)));
    assert_eq!(part.data(), &[9, 10, 13, 14]);
}
