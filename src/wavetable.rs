use vstd::prelude::*;
use vstd::arithmetic::div_mod::{lemma_fundamental_div_mod, lemma_mod_multiples_vanish, lemma_small_mod};
use crate::math::lemma_mod_succ;

use crate::bytes::{advance, emit, KeyState, NibbleStream};
use crate::math::MathExt;

verus! {

/// The most cursors a table keeps; spawning one more drops the oldest.
pub const MAX_CURSORS: usize = 10;

/// The first seventeen primes, picked by nibble-valued operands.
pub const PRIMES: [usize; 17] = [2, 3, 5, 7, 11, 13, 17, 19, 23, 29, 31, 37, 41, 43, 47, 53, 59];

/// The Rijndael substitution box.
pub const RIJNDAEL_SBOX: [u8; 256] = [
    0x63, 0x7c, 0x77, 0x7b, 0xf2, 0x6b, 0x6f, 0xc5, 0x30, 0x01, 0x67, 0x2b, 0xfe, 0xd7, 0xab, 0x76,
    0xca, 0x82, 0xc9, 0x7d, 0xfa, 0x59, 0x47, 0xf0, 0xad, 0xd4, 0xa2, 0xaf, 0x9c, 0xa4, 0x72, 0xc0,
    0xb7, 0xfd, 0x93, 0x26, 0x36, 0x3f, 0xf7, 0xcc, 0x34, 0xa5, 0xe5, 0xf1, 0x71, 0xd8, 0x31, 0x15,
    0x04, 0xc7, 0x23, 0xc3, 0x18, 0x96, 0x05, 0x9a, 0x07, 0x12, 0x80, 0xe2, 0xeb, 0x27, 0xb2, 0x75,
    0x09, 0x83, 0x2c, 0x1a, 0x1b, 0x6e, 0x5a, 0xa0, 0x52, 0x3b, 0xd6, 0xb3, 0x29, 0xe3, 0x2f, 0x84,
    0x53, 0xd1, 0x00, 0xed, 0x20, 0xfc, 0xb1, 0x5b, 0x6a, 0xcb, 0xbe, 0x39, 0x4a, 0x4c, 0x58, 0xcf,
    0xd0, 0xef, 0xaa, 0xfb, 0x43, 0x4d, 0x33, 0x85, 0x45, 0xf9, 0x02, 0x7f, 0x50, 0x3c, 0x9f, 0xa8,
    0x51, 0xa3, 0x40, 0x8f, 0x92, 0x9d, 0x38, 0xf5, 0xbc, 0xb6, 0xda, 0x21, 0x10, 0xff, 0xf3, 0xd2,
    0xcd, 0x0c, 0x13, 0xec, 0x5f, 0x97, 0x44, 0x17, 0xc4, 0xa7, 0x7e, 0x3d, 0x64, 0x5d, 0x19, 0x73,
    0x60, 0x81, 0x4f, 0xdc, 0x22, 0x2a, 0x90, 0x88, 0x46, 0xee, 0xb8, 0x14, 0xde, 0x5e, 0x0b, 0xdb,
    0xe0, 0x32, 0x3a, 0x0a, 0x49, 0x06, 0x24, 0x5c, 0xc2, 0xd3, 0xac, 0x62, 0x91, 0x95, 0xe4, 0x79,
    0xe7, 0xc8, 0x37, 0x6d, 0x8d, 0xd5, 0x4e, 0xa9, 0x6c, 0x56, 0xf4, 0xea, 0x65, 0x7a, 0xae, 0x08,
    0xba, 0x78, 0x25, 0x2e, 0x1c, 0xa6, 0xb4, 0xc6, 0xe8, 0xdd, 0x74, 0x1f, 0x4b, 0xbd, 0x8b, 0x8a,
    0x70, 0x3e, 0xb5, 0x66, 0x48, 0x03, 0xf6, 0x0e, 0x61, 0x35, 0x57, 0xb9, 0x86, 0xc1, 0x1d, 0x9e,
    0xe1, 0xf8, 0x98, 0x11, 0x69, 0xd9, 0x8e, 0x94, 0x9b, 0x1e, 0x87, 0xe9, 0xce, 0x55, 0x28, 0xdf,
    0x8c, 0xa1, 0x89, 0x0d, 0xbf, 0xe6, 0x42, 0x68, 0x41, 0x99, 0x2d, 0x0f, 0xb0, 0x54, 0xbb, 0x16,
];

/// The rows of a square byte grid as sequences.
pub open spec fn rows<const S: usize>(d: [[u8; S]; S]) -> Seq<Seq<u8>> {
    d@.map_values(|r: [u8; S]| r@)
}

/// The grid with cell `(x, y)` (column `x` of row `y`) set to `v`.
pub open spec fn set_cell(g: Seq<Seq<u8>>, x: int, y: int, v: u8) -> Seq<Seq<u8>> {
    g.update(y, g[y].update(x, v))
}

/// The toroidal neighbour before `i` on an axis of length `s`.
pub open spec fn before(i: int, s: int) -> int {
    if i == 0 { s - 1 } else { i - 1 }
}

/// The toroidal neighbour after `i` on an axis of length `s`.
pub open spec fn after(i: int, s: int) -> int {
    if i == s - 1 { 0 } else { i + 1 }
}

/// An integer reduced modulo 256 to a byte.
pub open spec fn wrap256(v: int) -> u8 {
    (v % 256) as u8
}

/// The signed value of a 4-bit nibble (bit 3 is the sign).
pub open spec fn signed_nibble(n: int) -> int {
    if n >= 8 { n - 16 } else { n }
}

/// The slant kernel at `(x, y)`: the larger-magnitude horizontal and vertical
/// differences around the centre are added to the eight neighbours, each
/// update reading the grid as the previous ones left it.
pub open spec fn slant_at(g: Seq<Seq<u8>>, s: int, x: int, y: int) -> Seq<Seq<u8>> {
    let x1 = before(x, s);
    let x2 = after(x, s);
    let y1 = before(y, s);
    let y2 = after(y, s);
    let thi = g[y][x] as int;
    let lef = g[y][x1] as int;
    let rig = g[y][x2] as int;
    let bot = g[y1][x] as int;
    let top = g[y2][x] as int;
    let dx = ((thi - lef) as i16).spec_max_abs((rig - thi) as i16) as int;
    let dy = ((thi - bot) as i16).spec_max_abs((top - thi) as i16) as int;
    let g1 = set_cell(g, x1, y1, wrap256(g[y1][x1] - dx - dy));
    let g2 = set_cell(g1, x, y1, wrap256(g1[y1][x] - dy));
    let g3 = set_cell(g2, x2, y1, wrap256(g2[y1][x2] + dx - dy));
    let g4 = set_cell(g3, x1, y, wrap256(g3[y1][x1] - dx));
    let g5 = set_cell(g4, x2, y, wrap256(g4[y1][x2] + dx));
    let g6 = set_cell(g5, x1, y2, wrap256(g5[y2][x1] - dx + dy));
    let g7 = set_cell(g6, x, y2, wrap256(g6[y2][x] + dy));
    set_cell(g7, x2, y2, wrap256(g7[y2][x2] + dx + dy))
}

/// One cell moved by its discrete Laplacian, modulo 256.
pub open spec fn smooth_one_at(g: Seq<Seq<u8>>, s: int, x: int, y: int) -> Seq<Seq<u8>> {
    let thi = g[y][x] as int;
    let diff = (g[y][after(x, s)] - 2 * thi + g[y][before(x, s)]) + (g[after(y, s)][x] - 2 * thi
        + g[before(y, s)][x]);
    set_cell(g, x, y, wrap256(thi + diff))
}

/// The smoothing kernel: the nine cells around `(x, y)` smoothed one after the
/// other, row by row from the one before `y`.
pub open spec fn smooth_at(g: Seq<Seq<u8>>, s: int, x: int, y: int) -> Seq<Seq<u8>> {
    let x1 = before(x, s);
    let x2 = after(x, s);
    let y1 = before(y, s);
    let y2 = after(y, s);
    let g1 = smooth_one_at(g, s, x1, y1);
    let g2 = smooth_one_at(g1, s, x, y1);
    let g3 = smooth_one_at(g2, s, x2, y1);
    let g4 = smooth_one_at(g3, s, x1, y);
    let g5 = smooth_one_at(g4, s, x, y);
    let g6 = smooth_one_at(g5, s, x2, y);
    let g7 = smooth_one_at(g6, s, x1, y2);
    let g8 = smooth_one_at(g7, s, x, y2);
    smooth_one_at(g8, s, x2, y2)
}

/// A kernel applied at each cursor.
#[derive(Clone, Copy, Debug, PartialEq, Eq, Structural)]
pub enum Kernel {
    Multiply(u8),
    Substitute,
    Slant,
    Smooth,
}

pub open spec fn apply_kernel(g: Seq<Seq<u8>>, s: int, k: Kernel, x: int, y: int) -> Seq<Seq<u8>> {
    match k {
        Kernel::Multiply(by) => set_cell(g, x, y, ((g[y][x] as int * by as int) % 256) as u8),
        Kernel::Substitute => set_cell(g, x, y, RIJNDAEL_SBOX@[g[y][x] as int]),
        Kernel::Slant => slant_at(g, s, x, y),
        Kernel::Smooth => smooth_at(g, s, x, y),
    }
}

/// The grid after applying `k` at the first `n` cursors, in order.
pub open spec fn over_cursors(
    g: Seq<Seq<u8>>,
    s: int,
    k: Kernel,
    cs: Seq<(usize, usize)>,
    n: nat,
) -> Seq<Seq<u8>>
    decreases n,
{
    if n == 0 {
        g
    } else {
        let c = cs[n - 1];
        apply_kernel(over_cursors(g, s, k, cs, (n - 1) as nat), s, k, c.0 as int, c.1 as int)
    }
}

fn get<const S: usize>(d: &[[u8; S]; S], x: usize, y: usize) -> (r: u8)
    requires
        x < S,
        y < S,
    ensures
        r == rows(*d)[y as int][x as int],
{
    d[y][x]
}

fn put<const S: usize>(d: &mut [[u8; S]; S], x: usize, y: usize, v: u8)
    requires
        x < S,
        y < S,
    ensures
        rows(*final(d)) == set_cell(rows(*old(d)), x as int, y as int, v),
{
    let ghost g = rows(*d);
    d[y][x] = v;
    assert(rows(*d) =~= set_cell(g, x as int, y as int, v)) by {
        assert forall|i: int| 0 <= i < S implies rows(*d)[i] =~= set_cell(g, x as int, y as int, v)[i] by {}
    }
}

fn wrap_byte(v: i32) -> (r: u8)
    requires
        -2048 <= v <= 2048,
    ensures
        r == wrap256(v as int),
{
    proof {
        lemma_mod_multiples_vanish(8, v as int, 256);
    }
    ((v + 2048) % 256) as u8
}

fn before_idx<const S: usize>(i: usize) -> (r: usize)
    requires
        i < S,
    ensures
        r == before(i as int, S as int),
{
    if i == 0 { S - 1 } else { i - 1 }
}

fn after_idx<const S: usize>(i: usize) -> (r: usize)
    requires
        i < S,
    ensures
        r == after(i as int, S as int),
{
    if i == S - 1 { 0 } else { i + 1 }
}

/// Make the immediate neighborhood of this `x` `y` coordinate pair into a plane
/// with the largest slope.
fn slant<const S: usize>(data: &mut [[u8; S]; S], x: usize, y: usize)
    requires
        x < S,
        y < S,
    ensures
        rows(*final(data)) == slant_at(rows(*old(data)), S as int, x as int, y as int),
{
    let x1 = before_idx::<S>(x);
    let x2 = after_idx::<S>(x);
    let y1 = before_idx::<S>(y);
    let y2 = after_idx::<S>(y);

    let thi = get(data, x, y) as i16;
    let lef = get(data, x1, y) as i16;
    let rig = get(data, x2, y) as i16;
    let bot = get(data, x, y1) as i16;
    let top = get(data, x, y2) as i16;

    let dx = (thi - lef).max_abs(rig - thi) as i32;
    let dy = (thi - bot).max_abs(top - thi) as i32;
    assert(-255 <= dx <= 255 && -255 <= dy <= 255);

    let v = wrap_byte(get(data, x1, y1) as i32 - dx - dy);
    put(data, x1, y1, v);
    let v = wrap_byte(get(data, x, y1) as i32 - dy);
    put(data, x, y1, v);
    let v = wrap_byte(get(data, x2, y1) as i32 + dx - dy);
    put(data, x2, y1, v);
    let v = wrap_byte(get(data, x1, y1) as i32 - dx);
    put(data, x1, y, v);
    let v = wrap_byte(get(data, x2, y1) as i32 + dx);
    put(data, x2, y, v);
    let v = wrap_byte(get(data, x1, y2) as i32 - dx + dy);
    put(data, x1, y2, v);
    let v = wrap_byte(get(data, x, y2) as i32 + dy);
    put(data, x, y2, v);
    let v = wrap_byte(get(data, x2, y2) as i32 + dx + dy);
    put(data, x2, y2, v);
}

/// Smooth out this `x` `y` coordinate pair.
fn smooth_one<const S: usize>(data: &mut [[u8; S]; S], x: usize, y: usize)
    requires
        x < S,
        y < S,
    ensures
        rows(*final(data)) == smooth_one_at(rows(*old(data)), S as int, x as int, y as int),
{
    let x1 = before_idx::<S>(x);
    let x2 = after_idx::<S>(x);
    let y1 = before_idx::<S>(y);
    let y2 = after_idx::<S>(y);

    let thi = get(data, x, y) as i32;
    let lef = get(data, x1, y) as i32;
    let rig = get(data, x2, y) as i32;
    let bot = get(data, x, y1) as i32;
    let top = get(data, x, y2) as i32;

    let dx2 = rig - 2 * thi + lef;
    let dy2 = top - 2 * thi + bot;
    let v = wrap_byte(thi + dx2 + dy2);
    put(data, x, y, v);
}

/// Smooth out the neighborhood of this `x` `y` coordinate pair.
fn smooth<const S: usize>(data: &mut [[u8; S]; S], x: usize, y: usize)
    requires
        x < S,
        y < S,
    ensures
        rows(*final(data)) == smooth_at(rows(*old(data)), S as int, x as int, y as int),
{
    let x1 = before_idx::<S>(x);
    let x2 = after_idx::<S>(x);
    let y1 = before_idx::<S>(y);
    let y2 = after_idx::<S>(y);

    smooth_one(data, x1, y1);
    smooth_one(data, x, y1);
    smooth_one(data, x2, y1);
    smooth_one(data, x1, y);
    smooth_one(data, x, y);
    smooth_one(data, x2, y);
    smooth_one(data, x1, y2);
    smooth_one(data, x, y2);
    smooth_one(data, x2, y2);
}

/// The mathematical state of a wavetable: its rows and its cursors (column,
/// row), oldest first.
pub struct TableState {
    pub grid: Seq<Seq<u8>>,
    pub cursors: Seq<(usize, usize)>,
}

/// Cursors of a table of side `s`: at least one, at most the cap, all inside
/// the grid.
pub open spec fn valid_cursors(cs: Seq<(usize, usize)>, s: int) -> bool {
    &&& 1 <= cs.len() <= MAX_CURSORS
    &&& forall|i: int| 0 <= i < cs.len() ==> cs[i].0 < s && cs[i].1 < s
}

/// The Manhattan-like distance from cursor `c` to cell `(x, y)`: absolute in
/// `x`, signed in `y`.
pub open spec fn cursor_dist(c: (usize, usize), x: int, y: int) -> int {
    let dx = x - c.0;
    (if dx < 0 { -dx } else { dx }) + (y - c.1)
}

/// The least distance from the first `n` cursors to `(x, y)`.
pub open spec fn min_dist(cs: Seq<(usize, usize)>, n: nat, x: int, y: int) -> int
    decreases n,
{
    if n <= 1 {
        cursor_dist(cs[0], x, y)
    } else {
        let m = min_dist(cs, (n - 1) as nat, x, y);
        let d = cursor_dist(cs[n - 1], x, y);
        if d < m { d } else { m }
    }
}

/// Cell `(x, y)` is where a new cursor spawns: its least distance to the
/// cursors is largest, ties going to the smallest `x`, then the smallest `y`.
pub open spec fn is_spawn_cell(cs: Seq<(usize, usize)>, s: int, x: int, y: int) -> bool {
    &&& 0 <= x < s
    &&& 0 <= y < s
    &&& forall|a: int, b: int|
        0 <= a < s && 0 <= b < s ==> #[trigger] min_dist(cs, cs.len(), a, b) <= min_dist(
            cs,
            cs.len(),
            x,
            y,
        ) && (min_dist(cs, cs.len(), a, b) == min_dist(cs, cs.len(), x, y) ==> (x < a || (x == a
            && y <= b)))
}

/// The grid transposed: row `y` holds what column `y` held.
pub open spec fn transposed(g: Seq<Seq<u8>>, s: int) -> Seq<Seq<u8>> {
    Seq::new(s as nat, |y: int| Seq::new(s as nat, |x: int| g[x][y]))
}

/// Every cursor one step back along both axes, wrapping.
pub open spec fn shifted_back(cs: Seq<(usize, usize)>, s: int) -> Seq<(usize, usize)> {
    cs.map_values(|c: (usize, usize)| (before(c.0 as int, s) as usize, before(c.1 as int, s) as usize))
}

/// Every cursor's coordinates multiplied, modulo the side.
pub open spec fn scaled(cs: Seq<(usize, usize)>, s: int, bx: usize, by: usize) -> Seq<(usize, usize)> {
    cs.map_values(|c: (usize, usize)| (((c.0 * bx) % s) as usize, ((c.1 * by) % s) as usize))
}

/// Every cursor moved by the signed nibbles of its own cell: the high nibble
/// in `x`, the low one in `y`.
pub open spec fn relocated(g: Seq<Seq<u8>>, cs: Seq<(usize, usize)>, s: int) -> Seq<(usize, usize)> {
    cs.map_values(
        |c: (usize, usize)|
            (
                ((c.0 + signed_nibble(g[c.1 as int][c.0 as int] as int / 16)) % s) as usize,
                ((c.1 + signed_nibble(g[c.1 as int][c.0 as int] as int % 16)) % s) as usize,
            ),
    )
}

/// The cursors after a diagonal walk from cursor `start % len`: the cursor
/// visited `k`-th (wrapping in index order) moves by `k + 1` along both axes.
pub open spec fn walked(cs: Seq<(usize, usize)>, s: int, start: usize) -> Seq<(usize, usize)> {
    Seq::new(
        cs.len(),
        |j: int|
            {
                let off = (j - start as int % cs.len() as int) % (cs.len() as int) + 1;
                (((cs[j].0 + off) % s) as usize, ((cs[j].1 + off) % s) as usize)
            },
    )
}

/// The cell where a new cursor spawns among cursors `cs` on a grid of side `s`.
pub open spec fn spawn_cell(cs: Seq<(usize, usize)>, s: int) -> (usize, usize) {
    choose|c: (usize, usize)| is_spawn_cell(cs, s, c.0 as int, c.1 as int)
}

proof fn lemma_spawn_unique(cs: Seq<(usize, usize)>, s: int, c: (usize, usize))
    requires
        is_spawn_cell(cs, s, c.0 as int, c.1 as int),
    ensures
        spawn_cell(cs, s) == c,
{
    let d = spawn_cell(cs, s);
    assert(is_spawn_cell(cs, s, d.0 as int, d.1 as int));
    assert(min_dist(cs, cs.len(), d.0 as int, d.1 as int) <= min_dist(cs, cs.len(), c.0 as int, c.1 as int));
    assert(min_dist(cs, cs.len(), c.0 as int, c.1 as int) <= min_dist(cs, cs.len(), d.0 as int, d.1 as int));
}

spec fn walk_rank(j: int, s0: int, n: int) -> int {
    (j - s0) % n
}

proof fn lemma_walk_slot(j: int, s0: int, n: int)
    requires
        0 <= j < n,
        0 <= s0 < n,
    ensures
        (s0 + (j - s0) % n) % n == j,
        0 <= (j - s0) % n < n,
{
    let d = (j - s0) % n;
    lemma_fundamental_div_mod(j - s0, n);
    let q = (j - s0) / n;
    assert(s0 + d == j + n * (-q)) by (nonlinear_arith)
        requires
            j - s0 == n * q + d,
    ;
    lemma_mod_multiples_vanish(-q, j, n);
    lemma_small_mod(j as nat, n as nat);
}

proof fn lemma_walk_offset(s0: int, k: int, n: int)
    requires
        0 <= k < n,
        0 <= s0 < n,
    ensures
        ((s0 + k) % n - s0) % n == k,
{
    lemma_fundamental_div_mod(s0 + k, n);
    let q = (s0 + k) / n;
    assert((s0 + k) % n - s0 == n * (-q) + k) by (nonlinear_arith)
        requires
            s0 + k == n * q + (s0 + k) % n,
    ;
    lemma_mod_multiples_vanish(-q, k, n);
    lemma_small_mod(k as nat, n as nat);
}

/// An instruction for the wavetable virtual machine.
#[derive(Clone, Copy, Debug, PartialEq, Eq, Structural)]
pub enum Instruction {
    /// Do nothing.
    Noop,
    /// Multiply each cursor's coordinates by the given `x` `y` pair.
    MultiplyCursor(usize, usize),
    /// Introduce a cursor at the cell furthest from every other cursor.
    VoronoiCursor,
    /// Multiply the data by the given value.
    MultiplyData(usize),
    /// Increase the slant in the neighborhood.
    Slant,
    /// Smooth out the neighborhood.
    Smooth,
    /// Apply the Rijndael S-Box to the data.
    Substitution,
    /// Move the cursor by interpreting the data as a pair of signed 4-bit
    /// offsets.
    SignedDataMove,
    /// Move each cursor diagonal by its index, starting with the one at the
    /// index specified by the given value (modulo the cursor length).
    MoveDiagonal(usize),
    /// Transpose the wavetable.
    Transpose,
    /// Remove the oldest cursor.
    RemoveOldest,
}

/// The state after a new cursor is spawned at `(x, y)`: appended, and the
/// oldest dropped when that exceeds the cap.
pub open spec fn spawned(cs: Seq<(usize, usize)>, x: usize, y: usize) -> Seq<(usize, usize)> {
    let grown = cs.push((x, y));
    if grown.len() > MAX_CURSORS { grown.drop_first() } else { grown }
}

/// What instruction `inst` makes of a valid table of side `s`; for spawning a
/// cursor, `spawn` is the cell chosen by `is_spawn_cell`.
pub open spec fn run(t: TableState, s: int, inst: Instruction, spawn: (usize, usize)) -> TableState {
    match inst {
        Instruction::Noop => t,
        Instruction::MultiplyCursor(bx, by) => TableState { cursors: scaled(t.cursors, s, bx, by), ..t },
        Instruction::VoronoiCursor => TableState { cursors: spawned(t.cursors, spawn.0, spawn.1), ..t },
        Instruction::MultiplyData(by) => TableState {
            grid: over_cursors(t.grid, s, Kernel::Multiply(by as u8), t.cursors, t.cursors.len()),
            ..t
        },
        Instruction::Slant => TableState {
            grid: over_cursors(t.grid, s, Kernel::Slant, t.cursors, t.cursors.len()),
            ..t
        },
        Instruction::Smooth => TableState {
            grid: over_cursors(t.grid, s, Kernel::Smooth, t.cursors, t.cursors.len()),
            ..t
        },
        Instruction::Substitution => TableState {
            grid: over_cursors(t.grid, s, Kernel::Substitute, t.cursors, t.cursors.len()),
            ..t
        },
        Instruction::SignedDataMove => TableState { cursors: relocated(t.grid, t.cursors, s), ..t },
        Instruction::MoveDiagonal(start) => TableState { cursors: walked(t.cursors, s, start), ..t },
        Instruction::Transpose => TableState { grid: transposed(t.grid, s), ..t },
        Instruction::RemoveOldest => TableState {
            cursors: if t.cursors.len() > 1 { t.cursors.drop_first() } else { t.cursors },
            ..t
        },
    }
}

/// Whether opcode `op` takes a nibble operand.
pub open spec fn has_operand(op: u8) -> bool {
    op == 1 || op == 3 || op == 8
}

/// The instruction decoded from opcode `op` and operand nibble `n`.
pub open spec fn decode(op: u8, n: u8) -> Instruction {
    if op == 1 {
        Instruction::MultiplyCursor(PRIMES@[n as int], PRIMES@[16 - n])
    } else if op == 2 {
        Instruction::VoronoiCursor
    } else if op == 3 {
        Instruction::MultiplyData(PRIMES@[n as int])
    } else if op == 4 {
        Instruction::Slant
    } else if op == 5 {
        Instruction::Smooth
    } else if op == 6 {
        Instruction::Substitution
    } else if op == 7 {
        Instruction::SignedDataMove
    } else if op == 8 {
        Instruction::MoveDiagonal(PRIMES@[n as int])
    } else if op == 9 {
        Instruction::Transpose
    } else if op == 10 {
        Instruction::RemoveOldest
    } else {
        Instruction::Noop
    }
}

/// The instruction at the head of a keystream in state `s`.
pub open spec fn instruction_at(s: KeyState) -> Instruction {
    decode(emit(s, 1)[0], emit(advance(s, 1), 1)[0])
}

/// The keystream state after decoding the instruction at its head.
pub open spec fn after_instruction(s: KeyState) -> KeyState {
    if has_operand(emit(s, 1)[0]) {
        advance(advance(s, 1), 1)
    } else {
        advance(s, 1)
    }
}

impl NibbleStream<1> {
    /// Decode the next instruction from this stream.
    pub fn next_instruction(&mut self) -> (r: Instruction)
        ensures
            r == instruction_at(old(self)@),
            final(self)@ == after_instruction(old(self)@),
    {
        let op = self.next_nibble();
        if op == 1 {
            let n = self.next_nibble();
            Instruction::MultiplyCursor(PRIMES[n as usize], PRIMES[16 - n as usize])
        } else if op == 2 {
            Instruction::VoronoiCursor
        } else if op == 3 {
            Instruction::MultiplyData(self.next_prime())
        } else if op == 4 {
            Instruction::Slant
        } else if op == 5 {
            Instruction::Smooth
        } else if op == 6 {
            Instruction::Substitution
        } else if op == 7 {
            Instruction::SignedDataMove
        } else if op == 8 {
            Instruction::MoveDiagonal(self.next_prime())
        } else if op == 9 {
            Instruction::Transpose
        } else if op == 10 {
            Instruction::RemoveOldest
        } else {
            Instruction::Noop
        }
    }

    /// The prime picked by the next nibble.
    fn next_prime(&mut self) -> (r: usize)
        ensures
            r == PRIMES@[emit(old(self)@, 1)[0] as int],
            final(self)@ == advance(old(self)@, 1),
    {
        let n = self.next_nibble();
        PRIMES[n as usize]
    }
}

/// A square grid of `S` by `S` byte samples with the cursors that mutate it.
pub struct Wavetable<const S: usize> {
    data: [[u8; S]; S],
    cursors: Vec<(usize, usize)>,
}

impl<const S: usize> View for Wavetable<S> {
    type V = TableState;

    closed spec fn view(&self) -> TableState {
        TableState { grid: rows(self.data), cursors: self.cursors@ }
    }
}

/// `a * b % s` without overflow.
fn mul_mod(a: usize, b: usize, s: usize) -> (r: usize)
    requires
        s > 0,
    ensures
        r == (a * b) % (s as int),
        r < s,
{
    assert(a as u128 * b as u128 <= 0xffff_ffff_ffff_ffff * 0xffff_ffff_ffff_ffffu128) by (nonlinear_arith)
        requires
            a <= 0xffff_ffff_ffff_ffffu64,
            b <= 0xffff_ffff_ffff_ffffu64,
    ;
    ((a as u128 * b as u128) % (s as u128)) as usize
}

/// `(a + off) % s` for a signed offset, without overflow.
fn add_mod(a: usize, off: i64, s: usize) -> (r: usize)
    requires
        s > 0,
        -0x1_0000 <= off <= 0x1_0000,
    ensures
        r == (a + off) % (s as int),
        r < s,
{
    proof {
        lemma_mod_multiples_vanish(0x1_0000, a + off, s as int);
    }
    let base: u128 = a as u128 + 0x1_0000 * (s as u128);
    let t: u128 = if off >= 0 { base + off as u128 } else { base - (-off) as u128 };
    (t % (s as u128)) as usize
}

impl<const S: usize> Wavetable<S> {
    /// The table is well formed.
    pub open spec fn wf(&self) -> bool {
        S > 0 && valid_cursors(self@.cursors, S as int)
    }

    /// A table holding `data`, with one cursor in the middle.
    pub fn from_grid(data: [[u8; S]; S]) -> (r: Self)
        requires
            S > 0,
        ensures
            r.wf(),
            r@ == (TableState { grid: rows(data), cursors: seq![((S / 2) as usize, (S / 2) as usize)] }),
    {
        let mut cursors: Vec<(usize, usize)> = Vec::new();
        cursors.push((S / 2, S / 2));
        Wavetable { data, cursors }
    }

    /// The grid.
    pub fn grid(&self) -> (r: [[u8; S]; S])
        ensures
            rows(r) == self@.grid,
    {
        self.data
    }

    /// The value of cell `(x, y)`.
    pub fn cell(&self, x: usize, y: usize) -> (r: u8)
        requires
            x < S,
            y < S,
        ensures
            r == self@.grid[y as int][x as int],
    {
        get(&self.data, x, y)
    }

    /// The cursors, oldest first.
    pub fn cursors(&self) -> (r: Vec<(usize, usize)>)
        ensures
            r@ == self@.cursors,
    {
        let mut out: Vec<(usize, usize)> = Vec::with_capacity(self.cursors.len());
        let mut i: usize = 0;
        while i < self.cursors.len()
            invariant
                i <= self.cursors@.len(),
                out@ == self.cursors@.subrange(0, i as int),
            decreases self.cursors@.len() - i,
        {
            out.push(self.cursors[i]);
            i = i + 1;
            assert(out@ =~= self.cursors@.subrange(0, i as int));
        }
        assert(out@ =~= self.cursors@);
        out
    }

    /// Row `y` of the grid (wrapping), the slice shown by a display.
    pub fn slice(&self, y: usize) -> (r: Vec<u8>)
        requires
            S > 0,
        ensures
            r@ == self@.grid[(y % S) as int],
    {
        let row = y % S;
        let mut out: Vec<u8> = Vec::with_capacity(S);
        let mut x: usize = 0;
        while x < S
            invariant
                row < S,
                x <= S,
                out@ == self@.grid[row as int].subrange(0, x as int),
            decreases S - x,
        {
            out.push(self.data[row][x]);
            x = x + 1;
            assert(out@ =~= self@.grid[row as int].subrange(0, x as int));
        }
        assert(out@ =~= self@.grid[row as int]);
        out
    }

    /// Apply kernel `k` at each cursor in turn.
    fn apply_at_cursors(&mut self, k: Kernel)
        requires
            old(self).wf(),
        ensures
            final(self).wf(),
            final(self)@ == (TableState {
                grid: over_cursors(old(self)@.grid, S as int, k, old(self)@.cursors, old(self)@.cursors.len()),
                ..old(self)@
            }),
    {
        let n = self.cursors.len();
        let mut i: usize = 0;
        while i < n
            invariant
                S > 0,
                n == self.cursors@.len(),
                i <= n,
                self.cursors@ == old(self)@.cursors,
                valid_cursors(self.cursors@, S as int),
                rows(self.data) == over_cursors(old(self)@.grid, S as int, k, self.cursors@, i as nat),
            decreases n - i,
        {
            let (x, y) = self.cursors[i];
            assert(self.cursors@[i as int].0 < S && self.cursors@[i as int].1 < S);
            match k {
                Kernel::Multiply(by) => {
                    let v = get(&self.data, x, y);
                    assert(v as u16 * by as u16 <= 255 * 255) by (nonlinear_arith)
                        requires
                            v <= 255u8,
                            by <= 255u8,
                    ;
                    put(&mut self.data, x, y, ((v as u16 * by as u16) % 256) as u8);
                },
                Kernel::Substitute => {
                    let v = get(&self.data, x, y);
                    put(&mut self.data, x, y, RIJNDAEL_SBOX[v as usize]);
                },
                Kernel::Slant => slant(&mut self.data, x, y),
                Kernel::Smooth => smooth(&mut self.data, x, y),
            }
            i = i + 1;
        }
    }

    /// Multiply every cursor's coordinates, modulo the side.
    fn scale_cursors(&mut self, bx: usize, by: usize)
        requires
            old(self).wf(),
        ensures
            final(self).wf(),
            final(self)@ == (TableState { cursors: scaled(old(self)@.cursors, S as int, bx, by), ..old(self)@ }),
    {
        let n = self.cursors.len();
        let ghost cs = self.cursors@;
        let mut i: usize = 0;
        while i < n
            invariant
                S > 0,
                n == cs.len(),
                n == self.cursors@.len(),
                i <= n,
                self.data == old(self).data,
                cs == old(self)@.cursors,
                valid_cursors(cs, S as int),
                forall|j: int| 0 <= j < i ==> self.cursors@[j] == (((cs[j].0 * bx) % (S as int)) as usize, ((cs[j].1 * by) % (S as int)) as usize),
                forall|j: int| 0 <= j < i ==> self.cursors@[j].0 < S && self.cursors@[j].1 < S,
                forall|j: int| i <= j < n ==> self.cursors@[j] == cs[j],
            decreases n - i,
        {
            let (x, y) = self.cursors[i];
            let c = (mul_mod(x, bx, S), mul_mod(y, by, S));
            self.cursors.set(i, c);
            i = i + 1;
        }
        assert(self.cursors@ =~= scaled(cs, S as int, bx, by));
    }

    /// Move every cursor by the signed nibbles of its own cell.
    fn relocate_cursors(&mut self)
        requires
            old(self).wf(),
        ensures
            final(self).wf(),
            final(self)@ == (TableState { cursors: relocated(old(self)@.grid, old(self)@.cursors, S as int), ..old(self)@ }),
    {
        let n = self.cursors.len();
        let ghost cs = self.cursors@;
        let ghost g = rows(self.data);
        let mut i: usize = 0;
        while i < n
            invariant
                S > 0,
                n == cs.len(),
                n == self.cursors@.len(),
                i <= n,
                self.data == old(self).data,
                g == rows(self.data),
                cs == old(self)@.cursors,
                valid_cursors(cs, S as int),
                forall|j: int| 0 <= j < i ==> self.cursors@[j] == relocated(g, cs, S as int)[j],
                forall|j: int| 0 <= j < i ==> self.cursors@[j].0 < S && self.cursors@[j].1 < S,
                forall|j: int| i <= j < n ==> self.cursors@[j] == cs[j],
            decreases n - i,
        {
            let (x, y) = self.cursors[i];
            assert(cs[i as int].0 < S && cs[i as int].1 < S);
            let v = get(&self.data, x, y);
            let hi = v / 16;
            let lo = v % 16;
            let xoff: i64 = if hi >= 8 { hi as i64 - 16 } else { hi as i64 };
            let yoff: i64 = if lo >= 8 { lo as i64 - 16 } else { lo as i64 };
            let c = (add_mod(x, xoff, S), add_mod(y, yoff, S));
            self.cursors.set(i, c);
            i = i + 1;
        }
        assert(self.cursors@ =~= relocated(g, cs, S as int));
    }

    /// Move cursors diagonally, starting at cursor `start % len` and walking
    /// in index order: the `k`-th visited moves by `k + 1`.
    fn walk_cursors(&mut self, start: usize)
        requires
            old(self).wf(),
        ensures
            final(self).wf(),
            final(self)@ == (TableState { cursors: walked(old(self)@.cursors, S as int, start), ..old(self)@ }),
    {
        let n = self.cursors.len();
        let ghost cs = self.cursors@;
        let s0 = start % n;
        let mut idx = s0;
        let mut k: usize = 0;
        proof {
            lemma_small_mod(s0 as nat, n as nat);
        }
        while k < n
            invariant
                S > 0,
                n == cs.len(),
                n == self.cursors@.len(),
                1 <= n <= MAX_CURSORS,
                k <= n,
                s0 == start % n,
                idx == (s0 + k) % (n as int),
                self.data == old(self).data,
                cs == old(self)@.cursors,
                valid_cursors(cs, S as int),
                forall|j: int| 0 <= j < n ==> self.cursors@[j].0 < S && self.cursors@[j].1 < S,
                forall|j: int|
                    0 <= j < n ==> #[trigger] self.cursors@[j] == if walk_rank(j, s0 as int, n as int) < k {
                        walked(cs, S as int, start)[j]
                    } else {
                        cs[j]
                    },
            decreases n - k,
        {
            proof {
                lemma_walk_offset(s0 as int, k as int, n as int);
                assert forall|j: int| 0 <= j < n && j != idx implies #[trigger] walk_rank(j, s0 as int, n as int) != k by {
                    lemma_walk_slot(j, s0 as int, n as int);
                }
                lemma_mod_succ(s0 + k, n as int);
            }
            let (x, y) = self.cursors[idx];
            let off = (k + 1) as i64;
            let c = (add_mod(x, off, S), add_mod(y, off, S));
            self.cursors.set(idx, c);
            idx = if idx + 1 == n { 0 } else { idx + 1 };
            k = k + 1;
        }
        proof {
            assert forall|j: int| 0 <= j < n implies #[trigger] walk_rank(j, s0 as int, n as int) < n by {
                lemma_walk_slot(j, s0 as int, n as int);
            }
        }
        assert(self.cursors@ =~= walked(cs, S as int, start));
    }

    /// The least distance from the cursors to `(x, y)`.
    fn min_distance(&self, x: usize, y: usize) -> (r: i128)
        requires
            self.wf(),
        ensures
            r == min_dist(self@.cursors, self@.cursors.len(), x as int, y as int),
    {
        let n = self.cursors.len();
        let (cx, cy) = self.cursors[0];
        let dx = x as i128 - cx as i128;
        let mut best: i128 = (if dx < 0 { -dx } else { dx }) + (y as i128 - cy as i128);
        let mut i: usize = 1;
        while i < n
            invariant
                n == self.cursors@.len(),
                1 <= i <= n,
                best == min_dist(self.cursors@, i as nat, x as int, y as int),
                -0x1_0000_0000_0000_0000 <= best <= 0x2_0000_0000_0000_0000,
            decreases n - i,
        {
            let (cx, cy) = self.cursors[i];
            let dx = x as i128 - cx as i128;
            let d: i128 = (if dx < 0 { -dx } else { dx }) + (y as i128 - cy as i128);
            if d < best {
                best = d;
            }
            i = i + 1;
        }
        best
    }

    /// Spawn a cursor at the cell furthest from the others.
    fn spawn_cursor(&mut self)
        requires
            old(self).wf(),
        ensures
            final(self).wf(),
            final(self)@ == (TableState {
                cursors: spawned(
                    old(self)@.cursors,
                    spawn_cell(old(self)@.cursors, S as int).0,
                    spawn_cell(old(self)@.cursors, S as int).1,
                ),
                ..old(self)@
            }),
            is_spawn_cell(
                old(self)@.cursors,
                S as int,
                spawn_cell(old(self)@.cursors, S as int).0 as int,
                spawn_cell(old(self)@.cursors, S as int).1 as int,
            ),
    {
        let ghost cs = self.cursors@;
        let ghost n = cs.len();
        let mut best_x: usize = S - 1;
        let mut best_y: usize = S - 1;
        let mut best_d = self.min_distance(S - 1, S - 1);
        let mut x: usize = S;
        while x > 0
            invariant
                self.wf(),
                self@.cursors == cs,
                n == cs.len(),
                x <= S,
                best_x < S,
                best_y < S,
                best_d == min_dist(cs, n, best_x as int, best_y as int),
                forall|a: int, b: int|
                    0 <= b < S && x <= a < S ==> #[trigger] min_dist(cs, n, a, b) <= best_d && (
                    min_dist(cs, n, a, b) == best_d ==> (best_x < a || (best_x == a && best_y <= b))),
            decreases x,
        {
            x = x - 1;
            let mut y: usize = S;
            while y > 0
                invariant
                    self.wf(),
                    self@.cursors == cs,
                    n == cs.len(),
                    x < S,
                    y <= S,
                    best_x < S,
                    best_y < S,
                    best_d == min_dist(cs, n, best_x as int, best_y as int),
                    forall|a: int, b: int|
                        0 <= b < S && (x < a < S || (a == x && y <= b)) ==> #[trigger] min_dist(cs, n, a, b)
                            <= best_d && (min_dist(cs, n, a, b) == best_d ==> (best_x < a || (best_x
                            == a && best_y <= b))),
                decreases y,
            {
                y = y - 1;
                let d = self.min_distance(x, y);
                if d >= best_d {
                    best_x = x;
                    best_y = y;
                    best_d = d;
                }
            }
        }
        proof {
            assert(is_spawn_cell(cs, S as int, best_x as int, best_y as int));
            lemma_spawn_unique(cs, S as int, (best_x, best_y));
        }
        self.cursors.push((best_x, best_y));
        if self.cursors.len() > MAX_CURSORS {
            self.cursors.remove(0);
        }
        assert(self.cursors@ =~= spawned(cs, best_x, best_y));
    }

    /// Transpose the grid across its main diagonal.
    fn transpose(&mut self)
        requires
            old(self).wf(),
        ensures
            final(self).wf(),
            final(self)@ == (TableState { grid: transposed(old(self)@.grid, S as int), ..old(self)@ }),
    {
        let ghost g = rows(self.data);
        let mut t = [[0u8; S]; S];
        let mut y: usize = 0;
        while y < S
            invariant
                y <= S,
                g == rows(self.data),
                self.wf(),
                self.cursors@ == old(self)@.cursors,
                self.data == old(self).data,
                forall|b: int, a: int| 0 <= b < y && 0 <= a < S ==> rows(t)[b][a] == g[a][b],
            decreases S - y,
        {
            let mut x: usize = 0;
            while x < S
                invariant
                    y < S,
                    x <= S,
                    g == rows(self.data),
                    self.data == old(self).data,
                    forall|b: int, a: int|
                        0 <= a < S && (0 <= b < y || (b == y && a < x)) ==> rows(t)[b][a] == g[a][b],
                decreases S - x,
            {
                let v = get(&self.data, y, x);
                put(&mut t, x, y, v);
                x = x + 1;
            }
            y = y + 1;
        }
        self.data = t;
        assert(rows(self.data) =~= transposed(g, S as int)) by {
            assert forall|b: int| 0 <= b < S implies rows(self.data)[b] =~= transposed(g, S as int)[b] by {}
        }
    }

    /// Drop the oldest cursor, unless it is the only one.
    fn remove_oldest(&mut self)
        requires
            old(self).wf(),
        ensures
            final(self).wf(),
            final(self)@ == (TableState {
                cursors: if old(self)@.cursors.len() > 1 { old(self)@.cursors.drop_first() } else { old(self)@.cursors },
                ..old(self)@
            }),
    {
        let ghost cs = self.cursors@;
        if self.cursors.len() > 1 {
            self.cursors.remove(0);
            assert(self.cursors@ =~= cs.drop_first());
        }
    }

    /// Run one instruction on the table.
    pub fn execute(&mut self, inst: Instruction)
        requires
            old(self).wf(),
        ensures
            final(self).wf(),
            final(self)@ == run(old(self)@, S as int, inst, spawn_cell(old(self)@.cursors, S as int)),
            inst == Instruction::VoronoiCursor ==> is_spawn_cell(
                old(self)@.cursors,
                S as int,
                spawn_cell(old(self)@.cursors, S as int).0 as int,
                spawn_cell(old(self)@.cursors, S as int).1 as int,
            ),
    {
        match inst {
            Instruction::Noop => {},
            Instruction::MultiplyCursor(bx, by) => self.scale_cursors(bx, by),
            Instruction::VoronoiCursor => self.spawn_cursor(),
            Instruction::MultiplyData(by) => self.apply_at_cursors(Kernel::Multiply(by as u8)),
            Instruction::Slant => self.apply_at_cursors(Kernel::Slant),
            Instruction::Smooth => self.apply_at_cursors(Kernel::Smooth),
            Instruction::Substitution => self.apply_at_cursors(Kernel::Substitute),
            Instruction::SignedDataMove => self.relocate_cursors(),
            Instruction::MoveDiagonal(start) => self.walk_cursors(start),
            Instruction::Transpose => self.transpose(),
            Instruction::RemoveOldest => self.remove_oldest(),
        }
    }

    /// Shift every cursor one step back along both axes.
    pub fn increment(&mut self)
        requires
            old(self).wf(),
        ensures
            final(self).wf(),
            final(self)@ == (TableState { cursors: shifted_back(old(self)@.cursors, S as int), ..old(self)@ }),
    {
        let n = self.cursors.len();
        let ghost cs = self.cursors@;
        let mut i: usize = 0;
        while i < n
            invariant
                S > 0,
                n == cs.len(),
                n == self.cursors@.len(),
                i <= n,
                self.data == old(self).data,
                cs == old(self)@.cursors,
                valid_cursors(cs, S as int),
                forall|j: int| 0 <= j < i ==> self.cursors@[j] == (before(cs[j].0 as int, S as int) as usize, before(cs[j].1 as int, S as int) as usize),
                forall|j: int| i <= j < n ==> self.cursors@[j] == cs[j],
            decreases n - i,
        {
            let (x, y) = self.cursors[i];
            assert(cs[i as int].0 < S && cs[i as int].1 < S);
            let c = (before_idx::<S>(x), before_idx::<S>(y));
            self.cursors.set(i, c);
            i = i + 1;
        }
        assert(self.cursors@ =~= shifted_back(cs, S as int));
    }
}

} // verus!
