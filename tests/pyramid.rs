use utils::pyramid::{blocks_for_pyramid_with_layers, max_completed_pyramid_layers, part1, part2, Pyramid};

#[test]
fn blocks_per_pyramid() {
    assert_eq!(blocks_for_pyramid_with_layers(0), 1);
    assert_eq!(blocks_for_pyramid_with_layers(2), 9);
    assert_eq!(blocks_for_pyramid_with_layers(-1), 0);
}

#[test]
fn completed_layers() {
    assert_eq!(max_completed_pyramid_layers(0), -1);
    assert_eq!(max_completed_pyramid_layers(1), 0);
    assert_eq!(max_completed_pyramid_layers(8), 1);
    assert_eq!(max_completed_pyramid_layers(9), 2);
    assert_eq!(max_completed_pyramid_layers(i64::MAX), 3037000498);
}

#[test]
fn shortfall_times_width() {
    assert_eq!(part1(13), 21);
    assert_eq!(part1(9), 0);
    assert_eq!(part1(10), 36);
}

#[test]
fn hollow_pyramid_counts() {
    let pyramid = Pyramid::with_layers(2, 5, 5);
    assert_eq!(pyramid.width(), 9);
    assert_eq!(pyramid.removable_blocks(), 15);
    assert_eq!(pyramid.total_blocks(), 162);
    assert_eq!(Pyramid::with_layers(2, 5, 2).total_blocks(), 19);
    assert_eq!(Pyramid::with_layers(2, 5, 0).total_blocks(), 0);
    assert_eq!(Pyramid::with_layers(2, 5, 0).width(), 0);
}

#[test]
fn layers_are_laid_one_at_a_time() {
    let mut pyramid = Pyramid::with_layers(2, 5, 3);
    assert_eq!(pyramid.total_blocks(), 67);
    pyramid.apply_next_layer();
    assert_eq!(pyramid.total_blocks(), 115);
    assert_eq!(pyramid.width(), 7);
}

#[test]
fn shrine_overshoot() {
    assert_eq!(part2(1), 9005997);
    assert_eq!(part2(3), 19342085);
    assert_eq!(part2(7), 124458605);
}
