use toodee::{TooDee, TooDeeOps, TooDeeOpsMut, TranslateOps};

fn new_10_by_10() -> TooDee<u32> {
    TooDee::from_vec(10, 10, (0u32..100).collect())
}

fn filled_10_by_10() -> TooDee<u32> {
    let mut toodee = TooDee::new(10, 10);
    for i in 0..100 {
        toodee.data_mut()[i] = i as u32;
    }
    toodee
}

#[test]
fn translate_with_wrap() {
    let mut toodee = new_10_by_10();
    toodee.translate_with_wrap((3, 10 - 2));
    let expected = (100 * 100 - 100) / 2;
    assert_eq!(toodee.data().iter().sum::<u32>(), expected);
    assert_eq!(toodee[0][0], 83);
    assert_eq!(toodee[0][9], 82);
    assert_eq!(toodee[9][0], 73);
    assert_eq!(toodee[9][9], 72);
}

#[test]
fn view_translate_with_wrap() {
    let mut toodee = new_10_by_10();
    toodee.view_mut((0, 0), (10, 10)).translate_with_wrap((3, 10 - 2));
    let expected = (100 * 100 - 100) / 2;
    assert_eq!(toodee.data().iter().sum::<u32>(), expected);
    assert_eq!(toodee[0][0], 83);
    assert_eq!(toodee[0][9], 82);
    assert_eq!(toodee[9][0], 73);
    assert_eq!(toodee[9][9], 72);
}

#[test]
fn view_translate_with_wrap_zero() {
    let mut toodee = new_10_by_10();
    toodee.view_mut((0, 0), (10, 10)).translate_with_wrap((0, 0));
    assert_eq!(toodee[0][0], 0);
    assert_eq!(toodee[0][9], 9);
    assert_eq!(toodee[9][0], 90);
    assert_eq!(toodee[9][9], 99);
}

#[test]
fn view_translate_with_wrap_col_only() {
    let mut toodee = new_10_by_10();
    toodee.view_mut((0, 0), (10, 10)).translate_with_wrap((10 - 1, 0));
    assert_eq!(toodee[0][0], 9);
    assert_eq!(toodee[0][9], 8);
    assert_eq!(toodee[9][0], 99);
    assert_eq!(toodee[9][9], 98);
    toodee.view_mut((0, 0), (10, 10)).translate_with_wrap((2, 0));
    assert_eq!(toodee[0][0], 1);
    assert_eq!(toodee[0][9], 0);
    assert_eq!(toodee[9][0], 91);
    assert_eq!(toodee[9][9], 90);
}

#[test]
fn view_translate_with_wrap_row_only() {
    let mut toodee = new_10_by_10();
    toodee.view_mut((0, 0), (10, 10)).translate_with_wrap((0, 10 - 1));
    assert_eq!(toodee[0][0], 90);
    assert_eq!(toodee[0][9], 99);
    assert_eq!(toodee[9][0], 80);
    assert_eq!(toodee[9][9], 89);
    toodee.view_mut((0, 0), (10, 10)).translate_with_wrap((0, 2));
    assert_eq!(toodee[0][0], 10);
    assert_eq!(toodee[0][9], 19);
    assert_eq!(toodee[9][0], 0);
    assert_eq!(toodee[9][9], 9);
}

#[test]
fn flip_rows() {
    let mut toodee = new_10_by_10();
    toodee.flip_rows();
    let expected = (100 * 100 - 100) / 2;
    assert_eq!(toodee.data().iter().sum::<u32>(), expected);
    assert_eq!(toodee[0][0], 90);
    assert_eq!(toodee[0][9], 99);
    assert_eq!(toodee[9][0], 0);
    assert_eq!(toodee[9][9], 9);
}

#[test]
fn flip_cols() {
    let mut toodee = new_10_by_10();
    toodee.flip_cols();
    let expected = (100 * 100 - 100) / 2;
    assert_eq!(toodee.data().iter().sum::<u32>(), expected);
    assert_eq!(toodee[0][0], 9);
    assert_eq!(toodee[0][9], 0);
    assert_eq!(toodee[9][0], 99);
    assert_eq!(toodee[9][9], 90);
}

#[test]
fn slide_with_wrap() {
    let mut toodee = filled_10_by_10();
    toodee.slide_with_wrap(-13, 12);
    let expected = (100 * 100 - 100) / 2;
    assert_eq!(toodee.data().iter().sum::<u32>(), expected);
    assert_eq!(toodee[0][0], 83);
    assert_eq!(toodee[0][9], 82);
    assert_eq!(toodee[9][0], 73);
    assert_eq!(toodee[9][9], 72);
}

#[test]
fn slide_with_fill() {
    let mut toodee = filled_10_by_10();
    toodee.slide_with_fill(1, 2, &0);
    assert_eq!(toodee[0][0], 0);
    assert_eq!(toodee[1][9], 0);
    assert_eq!(toodee[9][0], 0);
    assert_eq!(toodee[9][1], 70);
    assert_eq!(toodee[9][9], 78);
}

#[test]
fn view_slide_with_wrap() {
    let mut toodee = filled_10_by_10();
    toodee.view_mut((0, 0), (10, 10)).slide_with_wrap(-13, 12);
    let expected = (100 * 100 - 100) / 2;
    assert_eq!(toodee.data().iter().sum::<u32>(), expected);
    assert_eq!(toodee[0][0], 83);
    assert_eq!(toodee[0][9], 82);
    assert_eq!(toodee[9][0], 73);
    assert_eq!(toodee[9][9], 72);
}

#[test]
fn view_slide_with_fill() {
    let mut toodee = filled_10_by_10();
    toodee.view_mut((0, 0), (10, 10)).slide_with_fill(1, 2, &0);
    assert_eq!(toodee[0][0], 0);
    assert_eq!(toodee[1][9], 0);
    assert_eq!(toodee[9][0], 0);
    assert_eq!(toodee[9][1], 70);
    assert_eq!(toodee[9][9], 78);
}

#[test]
fn view_slide_with_wrap_zero() {
    let mut toodee = filled_10_by_10();
    toodee.view_mut((0, 0), (10, 10)).slide_with_wrap(0, 0);
    assert_eq!(toodee[0][0], 0);
    assert_eq!(toodee[0][9], 9);
    assert_eq!(toodee[9][0], 90);
    assert_eq!(toodee[9][9], 99);
}

#[test]
fn view_slide_with_wrap_col_only() {
    let mut toodee = filled_10_by_10();
    toodee.view_mut((0, 0), (10, 10)).slide_with_wrap(1, 0);
    assert_eq!(toodee[0][0], 9);
    assert_eq!(toodee[0][9], 8);
    assert_eq!(toodee[9][0], 99);
    assert_eq!(toodee[9][9], 98);
    toodee.view_mut((0, 0), (10, 10)).slide_with_wrap(-2, 0);
    assert_eq!(toodee[0][0], 1);
    assert_eq!(toodee[0][9], 0);
    assert_eq!(toodee[9][0], 91);
    assert_eq!(toodee[9][9], 90);
}

#[test]
fn view_slide_with_wrap_row_only() {
    let mut toodee = filled_10_by_10();
    toodee.view_mut((0, 0), (10, 10)).slide_with_wrap(0, 1);
    assert_eq!(toodee[0][0], 90);
    assert_eq!(toodee[0][9], 99);
    assert_eq!(toodee[9][0], 80);
    assert_eq!(toodee[9][9], 89);
    toodee.view_mut((0, 0), (10, 10)).slide_with_wrap(0, -2);
    assert_eq!(toodee[0][0], 10);
    assert_eq!(toodee[0][9], 19);
    assert_eq!(toodee[9][0], 0);
    assert_eq!(toodee[9][9], 9);
}

#[test]
fn translate_then_complement_restores() {
    for &(a, b) in &[(3usize, 8usize), (0, 4), (7, 0), (5, 5), (10, 10)] {
        let mut toodee = new_10_by_10();
        toodee.translate_with_wrap((a, b));
        toodee.translate_with_wrap(((10 - a) % 10, (10 - b) % 10));
        assert_eq!(toodee.data(), new_10_by_10().data());
    }
}

#[test]
fn translate_non_square_cycles() {
    let mut toodee = TooDee::from_vec(3, 6, (0u32..18).collect());
    toodee.translate_with_wrap((1, 4));
    for r in 0..6 {
        for c in 0..3 {
            let src_r = (r + 4) % 6;
            let src_c = (c + 1) % 3;
            assert_eq!(toodee[(c, r)], (src_r * 3 + src_c) as u32);
        }
    }
}

#[test]
fn slide_with_fill_exposes_only_fill() {
    let mut toodee = TooDee::from_vec(5, 4, (0u32..20).collect());
    toodee.slide_with_fill(-2, 0, &99);
    for r in 0..4 {
        for c in 0..5 {
            let expected = if c + 2 < 5 { (r * 5 + c + 2) as u32 } else { 99 };
            assert_eq!(toodee[(c, r)], expected);
        }
    }
    let mut toodee = TooDee::from_vec(5, 4, (0u32..20).collect());
    toodee.slide_with_fill(0, -1, &99);
    for r in 0..4 {
        for c in 0..5 {
            let expected = if r + 1 < 4 { ((r + 1) * 5 + c) as u32 } else { 99 };
            assert_eq!(toodee[(c, r)], expected);
        }
    }
}
