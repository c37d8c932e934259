use textsynth::math::MathExt;
use textsynth::wavetable::{Instruction, Wavetable};

fn ramp() -> [[u8; 4]; 4] {
    let mut g = [[0u8; 4]; 4];
    for y in 0..4 {
        for x in 0..4 {
            g[y][x] = (10 * (4 * y + x)) as u8;
        }
    }
    g
}

#[test]
fn starts_with_one_centred_cursor() {
    let t = Wavetable::<4>::from_grid(ramp());
    assert_eq!(t.cursors(), vec![(2, 2)]);
    assert_eq!(t.grid(), ramp());
    assert_eq!(t.slice(1), vec![40, 50, 60, 70]);
    assert_eq!(t.slice(5), vec![40, 50, 60, 70]);
    assert_eq!(t.cell(3, 2), 110);
}

#[test]
fn slant_kernel() {
    let mut t = Wavetable::<4>::from_grid(ramp());
    t.execute(Instruction::Slant);
    let expected = [[0, 10, 20, 30], [40, 0, 20, 40], [80, 246, 100, 50], [120, 160, 180, 200]];
    assert_eq!(t.grid(), expected);
}

#[test]
fn smooth_kernel() {
    let mut t = Wavetable::<4>::from_grid(ramp());
    t.execute(Instruction::Smooth);
    let expected = [[0, 10, 20, 30], [40, 50, 60, 30], [80, 90, 100, 30], [120, 226, 76, 62]];
    assert_eq!(t.grid(), expected);
}

#[test]
fn flat_grid_is_stable_under_kernels() {
    let mut t = Wavetable::<4>::from_grid([[10u8; 4]; 4]);
    t.execute(Instruction::Smooth);
    t.execute(Instruction::Slant);
    assert_eq!(t.grid(), [[10u8; 4]; 4]);
}

#[test]
fn multiply_and_substitute_cells() {
    let mut t = Wavetable::<4>::from_grid(ramp());
    t.execute(Instruction::MultiplyData(3));
    assert_eq!(t.cell(2, 2), 44);
    let mut z = Wavetable::<4>::from_grid([[0u8; 4]; 4]);
    z.execute(Instruction::Substitution);
    assert_eq!(z.cell(2, 2), 0x63);
    assert_eq!(z.cell(1, 2), 0);
}

#[test]
fn transpose_grid() {
    let mut t = Wavetable::<4>::from_grid(ramp());
    t.execute(Instruction::Transpose);
    assert_eq!(t.cell(1, 0), 40);
    assert_eq!(t.cell(0, 1), 10);
    t.execute(Instruction::Transpose);
    assert_eq!(t.grid(), ramp());
}

#[test]
fn cursor_instructions() {
    let mut t = Wavetable::<4>::from_grid(ramp());
    t.execute(Instruction::VoronoiCursor);
    assert_eq!(t.cursors(), vec![(2, 2), (0, 3)]);
    t.increment();
    assert_eq!(t.cursors(), vec![(1, 1), (3, 2)]);
    t.execute(Instruction::MultiplyCursor(3, 5));
    assert_eq!(t.cursors(), vec![(3, 1), (1, 2)]);
    t.execute(Instruction::MoveDiagonal(5));
    assert_eq!(t.cursors(), vec![(1, 3), (2, 3)]);
    t.execute(Instruction::RemoveOldest);
    assert_eq!(t.cursors(), vec![(2, 3)]);
    t.execute(Instruction::RemoveOldest);
    assert_eq!(t.cursors(), vec![(2, 3)]);
    t.execute(Instruction::Noop);
    assert_eq!(t.cursors(), vec![(2, 3)]);
}

#[test]
fn signed_move_reads_cell() {
    let mut g = [[0u8; 4]; 4];
    g[2][2] = 0xf1;
    let mut t = Wavetable::<4>::from_grid(g);
    t.execute(Instruction::SignedDataMove);
    assert_eq!(t.cursors(), vec![(1, 3)]);
}

#[test]
fn cursor_count_is_capped() {
    let mut t = Wavetable::<8>::from_grid([[0u8; 8]; 8]);
    for _ in 0..20 {
        t.execute(Instruction::VoronoiCursor);
    }
    assert_eq!(t.cursors().len(), 10);
}

#[test]
fn max_abs_prefers_magnitude() {
    assert_eq!(3i16.max_abs(-5), -5);
    assert_eq!((-7i16).max_abs(7), -7);
    assert_eq!(7i16.max_abs(-7), 7);
    assert_eq!(i16::MIN.max_abs(3), i16::MIN);
    assert_eq!(3i16.max_abs(i16::MIN), i16::MIN);
}

#[test]
fn gcd_and_lcm() {
    assert_eq!(12i16.gcd(-18), 6);
    assert_eq!((-7i16).gcd(0), 7);
    assert_eq!((-4i16).lcm(6), -12);
    assert_eq!(12usize.gcd(18), 6);
    assert_eq!(0usize.gcd(5), 5);
    assert_eq!(4usize.lcm(6), 12);
    assert_eq!(3usize.max_abs(9), 9);
}

#[test]
fn slant_ties_favour_first_difference() {
    let mut g = [[0u8; 4]; 4];
    g[2][2] = 3;
    let mut t = Wavetable::<4>::from_grid(g);
    t.execute(Instruction::Slant);
    let expected = [[0, 0, 0, 0], [0, 250, 253, 0], [0, 247, 3, 3], [0, 0, 3, 6]];
    assert_eq!(t.grid(), expected);
}
