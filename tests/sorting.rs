use rand::distributions::Uniform;
use rand::Rng;
use toodee::{build_swap_trace, Col, SortOps, TooDee, TooDeeOps, TooDeeOpsMut};

fn col_values(mut col: Col<'_, u32>) -> Vec<u32> {
    let mut out = Vec::new();
    while let Some(v) = col.next() {
        out.push(*v);
    }
    out
}

#[test]
fn sort_by_row() {
    let rng = rand::thread_rng();
    let samples = rng.sample_iter(Uniform::new(0, 100));
    let mut toodee = TooDee::from_vec(10, 10, samples.take(100).collect());
    println!("{:?}", &toodee[3]);
    toodee.sort_by_row(3, |a, b| a.cmp(b));
    let r = &toodee[3];
    println!("{:?}", r);
    for i in 0..9 {
        assert!(r[i] <= r[i + 1]);
    }
}

#[test]
fn sort_by_col() {
    let rng = rand::thread_rng();
    let samples = rng.sample_iter(Uniform::new(0, 100));
    let mut toodee = TooDee::from_vec(10, 10, samples.take(100).collect());
    println!("{:?}", col_values(toodee.col(3)));
    toodee.sort_by_col(3, |a, b| a.cmp(b));
    let c: Vec<u32> = col_values(toodee.col(3));
    println!("{:?}", c);
    for i in 0..9 {
        assert!(c[i] <= c[i + 1]);
    }
}

#[test]
fn sort_by_row_view() {
    let rng = rand::thread_rng();
    let samples = rng.sample_iter(Uniform::new(0, 100));
    let mut toodee = TooDee::from_vec(10, 10, samples.take(100).collect());
    println!("{:?}", &toodee[3]);
    toodee.view_mut((0, 0), (10, 10)).sort_by_row(3, |a, b| a.cmp(b));
    let r = &toodee[3];
    println!("{:?}", r);
    for i in 0..9 {
        assert!(r[i] <= r[i + 1]);
    }
}

#[test]
fn sort_by_col_view() {
    let rng = rand::thread_rng();
    let samples = rng.sample_iter(Uniform::new(0, 100));
    let mut toodee = TooDee::from_vec(10, 10, samples.take(100).collect());
    println!("{:?}", col_values(toodee.col(3)));
    toodee.view_mut((0, 0), (10, 10)).sort_by_col(3, |a, b| a.cmp(b));
    let c: Vec<u32> = col_values(toodee.col(3));
    println!("{:?}", c);
    for i in 0..9 {
        assert!(c[i] <= c[i + 1]);
    }
}

fn cycle_swaps(order: &[usize]) -> usize {
    let n = order.len();
    let mut seen = vec![false; n];
    let mut cycles = 0;
    for start in 0..n {
        if !seen[start] {
            cycles += 1;
            let mut k = start;
            while !seen[k] {
                seen[k] = true;
                k = order[k];
            }
        }
    }
    n - cycles
}

#[test]
fn swap_trace_is_minimal_and_correct() {
    let orders: Vec<Vec<usize>> = vec![
        vec![],
        vec![0],
        vec![1, 0],
        vec![0, 1, 2, 3],
        vec![2, 0, 1, 3],
        vec![3, 2, 1, 0],
        vec![1, 2, 3, 4, 0],
        vec![4, 3, 0, 1, 2, 5, 7, 6],
    ];
    for order in orders {
        let trace = build_swap_trace(&order);
        assert_eq!(trace.len(), cycle_swaps(&order));
        let mut data: Vec<usize> = (0..order.len()).collect();
        for &(a, b) in &trace {
            assert!(a < b);
            data.swap(a, b);
        }
        assert_eq!(data, order);
    }
}

#[test]
fn sorting_a_sorted_row_moves_nothing() {
    let mut toodee = TooDee::from_vec(5, 3, vec![1u32, 2, 2, 5, 9, 7, 3, 8, 1, 0, 4, 4, 6, 2, 3]);
    let before = toodee.data().to_vec();
    toodee.sort_by_row(0, |a, b| a.cmp(b));
    assert_eq!(toodee.data(), &before[..]);
    toodee.sort_by_row(1, |a, b| a.cmp(b));
    assert_eq!(&toodee[1], &[0u32, 1, 3, 7, 8][..]);
    assert_eq!(&toodee[0], &[9u32, 5, 2, 1, 2][..]);
}

#[test]
fn sorting_keeps_equal_cells_in_order() {
    let mut toodee = TooDee::from_vec(6, 2, vec![3u32, 1, 3, 1, 2, 3, 0, 1, 2, 3, 4, 5]);
    toodee.sort_by_row(0, |a, b| a.cmp(b));
    assert_eq!(&toodee[0], &[1u32, 1, 2, 3, 3, 3][..]);
    assert_eq!(&toodee[1], &[1u32, 3, 4, 0, 2, 5][..]);
    let mut col = TooDee::from_vec(2, 4, vec![2u32, 0, 1, 1, 2, 2, 1, 3]);
    col.sort_by_col(0, |a, b| a.cmp(b));
    assert_eq!(col.data(), &[1, 1, 1, 3, 2, 0, 2, 2]);
}
