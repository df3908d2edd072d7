use toodee::{CopyOps, TooDee, TooDeeOps, TooDeeOpsMut};

#[test]
fn copy_within_1() {
    let mut toodee = TooDee::from_vec(10, 10, (0u32..100).collect());
    toodee.copy_within(((0, 0), (2, 2)), (8, 8));
    let orig = (100 * 100 - 100) / 2;
    assert_eq!(toodee.data().iter().sum::<u32>(), orig - 98 - 99 - 88 - 89 + 1 + 10 + 11);
}

#[test]
fn copy_within_2() {
    let mut toodee = TooDee::from_vec(10, 10, (0u32..100).collect());
    toodee.copy_within(((8, 8), (10, 10)), (0, 0));
    let orig = (100 * 100 - 100) / 2;
    assert_eq!(toodee.data().iter().sum::<u32>(), orig + 98 + 99 + 88 + 89 - 1 - 10 - 11);
}

#[test]
fn copy_within_overlap_1() {
    let mut toodee = TooDee::from_vec(10, 10, (0u32..100).collect());
    toodee.copy_within(((0, 0), (2, 2)), (1, 1));
    let orig = (100 * 100 - 100) / 2;
    assert_eq!(toodee.data().iter().sum::<u32>(), orig - 11 - 12 - 21 - 22 + 1 + 10 + 11);
}

#[test]
fn copy_within_overlap_2() {
    let mut toodee = TooDee::from_vec(10, 10, (0u32..100).collect());
    toodee.copy_within(((1, 1), (3, 3)), (0, 0));
    let orig = (100 * 100 - 100) / 2;
    assert_eq!(toodee.data().iter().sum::<u32>(), orig + 11 + 12 + 21 + 22 - 1 - 10 - 11);
}

#[test]
fn copy_from_toodee() {
    let toodee = TooDee::from_vec(10, 10, (0u32..100).collect());
    let mut dest: TooDee<u32> = TooDee::new(10, 10);
    dest.copy_from_toodee(&toodee);
    assert_eq!(dest.data().iter().sum::<u32>(), (100 * 100 - 100) / 2);
}

#[test]
fn clone_from_toodee() {
    let toodee = TooDee::from_vec(10, 10, (0u32..100).collect());
    let mut dest: TooDee<u32> = TooDee::new(10, 10);
    dest.clone_from_toodee(&toodee);
    assert_eq!(dest.data().iter().sum::<u32>(), (100 * 100 - 100) / 2);
}

#[test]
fn view_copy_from_toodee() {
    let toodee = TooDee::from_vec(10, 10, (0u32..100).collect());
    let mut dest: TooDee<u32> = TooDee::new(10, 10);
    dest.view_mut((0, 0), (10, 10)).copy_from_toodee(&toodee);
    assert_eq!(dest.data().iter().sum::<u32>(), (100 * 100 - 100) / 2);
}

#[test]
fn view_clone_from_toodee() {
    let toodee = TooDee::from_vec(10, 10, (0u32..100).collect());
    let mut dest: TooDee<u32> = TooDee::new(10, 10);
    dest.view_mut((0, 0), (10, 10)).clone_from_toodee(&toodee);
    assert_eq!(dest.data().iter().sum::<u32>(), (100 * 100 - 100) / 2);
}

fn naive_copy(data: &[u32], cols: usize, src: ((usize, usize), (usize, usize)), dest: (usize, usize)) -> Vec<u32> {
    let tmp: Vec<u32> = data.to_vec();
    let mut out = data.to_vec();
    for r in (src.0).1..(src.1).1 {
        for c in (src.0).0..(src.1).0 {
            out[(r - (src.0).1 + dest.1) * cols + (c - (src.0).0 + dest.0)] = tmp[r * cols + c];
        }
    }
    out
}

#[test]
fn copy_within_overlap_matches_copy_through_temporary() {
    for &(src, dest) in &[
        (((1, 1), (6, 5)), (3, 4)),
        (((3, 4), (8, 9)), (1, 1)),
        (((0, 2), (7, 6)), (2, 2)),
        (((2, 2), (9, 6)), (0, 2)),
    ] {
        let mut toodee = TooDee::from_vec(10, 10, (0u32..100).collect());
        let expected = naive_copy(toodee.data(), 10, src, dest);
        toodee.copy_within(src, dest);
        assert_eq!(toodee.data(), &expected[..]);
    }
}

#[test]
fn copy_from_slice_fills_row_major() {
    let mut toodee: TooDee<u32> = TooDee::new(3, 2);
    toodee.view_mut((0, 0), (3, 2)).copy_from_slice(&[5, 6, 7, 8, 9, 10]);
    assert_eq!(toodee.data(), &[5, 6, 7, 8, 9, 10]);
    assert_eq!(toodee[(2, 1)], 10);
}
