use utils::grid::{DiagDir, OrthoDir};

#[test]
fn ortho_deltas_and_steps() {
    assert_eq!(OrthoDir::North.delta(), (0, -1));
    assert_eq!(OrthoDir::East.delta(), (1, 0));
    assert_eq!(OrthoDir::South.step((3, 4)), (3, 5));
    assert_eq!(OrthoDir::West.step_n((3, 4), 5), (-2, 4));
    assert_eq!(OrthoDir::North.step_n((0, 0), -3), (0, 3));
}

#[test]
fn ortho_rotations() {
    assert_eq!(OrthoDir::North.rotate_cw(), OrthoDir::East);
    assert_eq!(OrthoDir::West.rotate_cw(), OrthoDir::North);
    assert_eq!(OrthoDir::North.rotate_ccw(), OrthoDir::West);
    assert_eq!(OrthoDir::East.rotate_cw_by(6), OrthoDir::West);
    assert_eq!(OrthoDir::East.rotate_ccw_by(3), OrthoDir::South);
    assert_eq!(OrthoDir::South.rotate_ccw_by(4), OrthoDir::South);
    assert_eq!(OrthoDir::East.flip(), OrthoDir::West);
    assert_eq!(u8::from(OrthoDir::South), 2);
    assert_eq!(OrthoDir::ALL.len(), 4);
    assert_eq!(OrthoDir::UP, OrthoDir::North);
}

#[test]
fn diag_steps_and_rotations() {
    assert_eq!(DiagDir::NorthEast.step((0, 0)), (1, -1));
    assert_eq!(DiagDir::SouthWest.step_n((10, 10), 3), (7, 13));
    assert_eq!(DiagDir::North.rotate_cw(), DiagDir::NorthEast);
    assert_eq!(DiagDir::NorthWest.rotate_cw_by(2), DiagDir::NorthEast);
    assert_eq!(DiagDir::North.rotate_ccw(), DiagDir::NorthWest);
    assert_eq!(DiagDir::North.rotate_cw_by(3).rotate_ccw_by(3), DiagDir::North);
    assert_eq!(DiagDir::West.rotate_ccw_by(9), DiagDir::SouthWest);
    assert_eq!(DiagDir::East.rotate_ccw_by(4), DiagDir::West);
    assert_eq!(DiagDir::SouthEast.flip(), DiagDir::NorthWest);
    assert_eq!(u8::from(DiagDir::NorthWest), 7);
    assert_eq!(DiagDir::ALL.len(), 8);
}
