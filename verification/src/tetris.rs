//! Game rules of the falling-block puzzle: pieces, collisions, rotation with wall kicks,
//! the seven-piece bag, line clearing and scoring.
use vstd::prelude::*;
use crate::prng::Prng;

verus! {

/// Board width in cells.
pub const BOARD_W: usize = 10;
/// Board height in cells.
pub const BOARD_H: usize = 20;

/// Bit `k` of `m` is set.
pub open spec fn mask_bit(m: u16, k: int) -> bool {
    0 <= k < 16 && (m >> (k as u16)) & 1u16 == 1u16
}

pub open spec fn spec_shape_mask(t: int, rot: int) -> u16 {
    let row: Seq<u16> = if t == 0 { seq![0u16, 0, 0, 0] }
        else if t == 1 { seq![0x0F00u16, 0x2222u16, 0x00F0u16, 0x4444u16] }
        else if t == 2 { seq![0x8E00u16, 0x6440u16, 0x0E20u16, 0x44C0u16] }
        else if t == 3 { seq![0x2E00u16, 0x4460u16, 0x0E80u16, 0xC440u16] }
        else if t == 4 { seq![0x6600u16, 0x6600u16, 0x6600u16, 0x6600u16] }
        else if t == 5 { seq![0x6C00u16, 0x4620u16, 0x06C0u16, 0x8C40u16] }
        else if t == 6 { seq![0x4E00u16, 0x4640u16, 0x0E40u16, 0x4C40u16] }
        else if t == 7 { seq![0xC600u16, 0x2640u16, 0x0C60u16, 0x4C80u16] }
        else { seq![0u16, 0, 0, 0] };
    row[rot]
}

/// The 4x4 occupancy mask of tetromino `t` in rotation `rot`, one bit per cell.
pub fn shape_mask(t: u8, rot: u8) -> (r: u16)
    requires
        t < 8,
        rot < 4,
    ensures
        r == spec_shape_mask(t as int, rot as int),
{
    match (t, rot) {
        (0, 0) => 0x0000,
        (0, 1) => 0x0000,
        (0, 2) => 0x0000,
        (0, 3) => 0x0000,
        (1, 0) => 0x0F00,
        (1, 1) => 0x2222,
        (1, 2) => 0x00F0,
        (1, 3) => 0x4444,
        (2, 0) => 0x8E00,
        (2, 1) => 0x6440,
        (2, 2) => 0x0E20,
        (2, 3) => 0x44C0,
        (3, 0) => 0x2E00,
        (3, 1) => 0x4460,
        (3, 2) => 0x0E80,
        (3, 3) => 0xC440,
        (4, 0) => 0x6600,
        (4, 1) => 0x6600,
        (4, 2) => 0x6600,
        (4, 3) => 0x6600,
        (5, 0) => 0x6C00,
        (5, 1) => 0x4620,
        (5, 2) => 0x06C0,
        (5, 3) => 0x8C40,
        (6, 0) => 0x4E00,
        (6, 1) => 0x4640,
        (6, 2) => 0x0E40,
        (6, 3) => 0x4C40,
        (7, 0) => 0xC600,
        (7, 1) => 0x2640,
        (7, 2) => 0x0C60,
        (7, 3) => 0x4C80,
        _ => 0,
    }
}

pub open spec fn spec_kick_jlstz(idx: int, k: int) -> (int, int) {
    if idx == 0 && k == 0 { (0, 0) }
    else if idx == 0 && k == 1 { (-1, 0) }
    else if idx == 0 && k == 2 { (-1, -1) }
    else if idx == 0 && k == 3 { (0, 2) }
    else if idx == 0 && k == 4 { (-1, 2) }
    else if idx == 1 && k == 0 { (0, 0) }
    else if idx == 1 && k == 1 { (1, 0) }
    else if idx == 1 && k == 2 { (1, 1) }
    else if idx == 1 && k == 3 { (0, -2) }
    else if idx == 1 && k == 4 { (1, -2) }
    else if idx == 2 && k == 0 { (0, 0) }
    else if idx == 2 && k == 1 { (1, 0) }
    else if idx == 2 && k == 2 { (1, 1) }
    else if idx == 2 && k == 3 { (0, -2) }
    else if idx == 2 && k == 4 { (1, -2) }
    else if idx == 3 && k == 0 { (0, 0) }
    else if idx == 3 && k == 1 { (-1, 0) }
    else if idx == 3 && k == 2 { (-1, -1) }
    else if idx == 3 && k == 3 { (0, 2) }
    else if idx == 3 && k == 4 { (-1, 2) }
    else if idx == 4 && k == 0 { (0, 0) }
    else if idx == 4 && k == 1 { (1, 0) }
    else if idx == 4 && k == 2 { (1, -1) }
    else if idx == 4 && k == 3 { (0, 2) }
    else if idx == 4 && k == 4 { (1, 2) }
    else if idx == 5 && k == 0 { (0, 0) }
    else if idx == 5 && k == 1 { (-1, 0) }
    else if idx == 5 && k == 2 { (-1, 1) }
    else if idx == 5 && k == 3 { (0, -2) }
    else if idx == 5 && k == 4 { (-1, -2) }
    else if idx == 6 && k == 0 { (0, 0) }
    else if idx == 6 && k == 1 { (-1, 0) }
    else if idx == 6 && k == 2 { (-1, 1) }
    else if idx == 6 && k == 3 { (0, -2) }
    else if idx == 6 && k == 4 { (-1, -2) }
    else if idx == 7 && k == 0 { (0, 0) }
    else if idx == 7 && k == 1 { (1, 0) }
    else if idx == 7 && k == 2 { (1, -1) }
    else if idx == 7 && k == 3 { (0, 2) }
    else if idx == 7 && k == 4 { (1, 2) }
    else { (0, 0) }
}

pub open spec fn spec_kick_i(idx: int, k: int) -> (int, int) {
    if idx == 0 && k == 0 { (0, 0) }
    else if idx == 0 && k == 1 { (-2, 0) }
    else if idx == 0 && k == 2 { (1, 0) }
    else if idx == 0 && k == 3 { (-2, 1) }
    else if idx == 0 && k == 4 { (1, -2) }
    else if idx == 1 && k == 0 { (0, 0) }
    else if idx == 1 && k == 1 { (2, 0) }
    else if idx == 1 && k == 2 { (-1, 0) }
    else if idx == 1 && k == 3 { (2, -1) }
    else if idx == 1 && k == 4 { (-1, 2) }
    else if idx == 2 && k == 0 { (0, 0) }
    else if idx == 2 && k == 1 { (-1, 0) }
    else if idx == 2 && k == 2 { (2, 0) }
    else if idx == 2 && k == 3 { (-1, -2) }
    else if idx == 2 && k == 4 { (2, 1) }
    else if idx == 3 && k == 0 { (0, 0) }
    else if idx == 3 && k == 1 { (1, 0) }
    else if idx == 3 && k == 2 { (-2, 0) }
    else if idx == 3 && k == 3 { (1, 2) }
    else if idx == 3 && k == 4 { (-2, -1) }
    else if idx == 4 && k == 0 { (0, 0) }
    else if idx == 4 && k == 1 { (2, 0) }
    else if idx == 4 && k == 2 { (-1, 0) }
    else if idx == 4 && k == 3 { (2, -1) }
    else if idx == 4 && k == 4 { (-1, 2) }
    else if idx == 5 && k == 0 { (0, 0) }
    else if idx == 5 && k == 1 { (-2, 0) }
    else if idx == 5 && k == 2 { (1, 0) }
    else if idx == 5 && k == 3 { (-2, 1) }
    else if idx == 5 && k == 4 { (1, -2) }
    else if idx == 6 && k == 0 { (0, 0) }
    else if idx == 6 && k == 1 { (1, 0) }
    else if idx == 6 && k == 2 { (-2, 0) }
    else if idx == 6 && k == 3 { (1, 2) }
    else if idx == 6 && k == 4 { (-2, -1) }
    else if idx == 7 && k == 0 { (0, 0) }
    else if idx == 7 && k == 1 { (-1, 0) }
    else if idx == 7 && k == 2 { (2, 0) }
    else if idx == 7 && k == 3 { (-1, -2) }
    else if idx == 7 && k == 4 { (2, 1) }
    else { (0, 0) }
}

/// The `k`-th wall-kick offset tried for transition `idx`, from the I table or the JLSTZ table.
pub fn kick_offset(is_i: bool, idx: usize, k: usize) -> (r: (i32, i32))
    requires
        idx < 8,
        k < 5,
    ensures
        r.0 == spec_kick(is_i, idx as int, k as int).0,
        r.1 == spec_kick(is_i, idx as int, k as int).1,
{
    if is_i {
        match (idx, k) {
            (0, 0) => (0, 0),
            (0, 1) => (-2, 0),
            (0, 2) => (1, 0),
            (0, 3) => (-2, 1),
            (0, 4) => (1, -2),
            (1, 0) => (0, 0),
            (1, 1) => (2, 0),
            (1, 2) => (-1, 0),
            (1, 3) => (2, -1),
            (1, 4) => (-1, 2),
            (2, 0) => (0, 0),
            (2, 1) => (-1, 0),
            (2, 2) => (2, 0),
            (2, 3) => (-1, -2),
            (2, 4) => (2, 1),
            (3, 0) => (0, 0),
            (3, 1) => (1, 0),
            (3, 2) => (-2, 0),
            (3, 3) => (1, 2),
            (3, 4) => (-2, -1),
            (4, 0) => (0, 0),
            (4, 1) => (2, 0),
            (4, 2) => (-1, 0),
            (4, 3) => (2, -1),
            (4, 4) => (-1, 2),
            (5, 0) => (0, 0),
            (5, 1) => (-2, 0),
            (5, 2) => (1, 0),
            (5, 3) => (-2, 1),
            (5, 4) => (1, -2),
            (6, 0) => (0, 0),
            (6, 1) => (1, 0),
            (6, 2) => (-2, 0),
            (6, 3) => (1, 2),
            (6, 4) => (-2, -1),
            (7, 0) => (0, 0),
            (7, 1) => (-1, 0),
            (7, 2) => (2, 0),
            (7, 3) => (-1, -2),
            (7, 4) => (2, 1),
            _ => (0, 0),
        }
    } else {
        match (idx, k) {
            (0, 0) => (0, 0),
            (0, 1) => (-1, 0),
            (0, 2) => (-1, -1),
            (0, 3) => (0, 2),
            (0, 4) => (-1, 2),
            (1, 0) => (0, 0),
            (1, 1) => (1, 0),
            (1, 2) => (1, 1),
            (1, 3) => (0, -2),
            (1, 4) => (1, -2),
            (2, 0) => (0, 0),
            (2, 1) => (1, 0),
            (2, 2) => (1, 1),
            (2, 3) => (0, -2),
            (2, 4) => (1, -2),
            (3, 0) => (0, 0),
            (3, 1) => (-1, 0),
            (3, 2) => (-1, -1),
            (3, 3) => (0, 2),
            (3, 4) => (-1, 2),
            (4, 0) => (0, 0),
            (4, 1) => (1, 0),
            (4, 2) => (1, -1),
            (4, 3) => (0, 2),
            (4, 4) => (1, 2),
            (5, 0) => (0, 0),
            (5, 1) => (-1, 0),
            (5, 2) => (-1, 1),
            (5, 3) => (0, -2),
            (5, 4) => (-1, -2),
            (6, 0) => (0, 0),
            (6, 1) => (-1, 0),
            (6, 2) => (-1, 1),
            (6, 3) => (0, -2),
            (6, 4) => (-1, -2),
            (7, 0) => (0, 0),
            (7, 1) => (1, 0),
            (7, 2) => (1, -1),
            (7, 3) => (0, 2),
            (7, 4) => (1, 2),
            _ => (0, 0),
        }
    }
}

/// The kick table of the I piece or of the other pieces.
pub open spec fn spec_kick(is_i: bool, idx: int, k: int) -> (int, int) {
    if is_i { spec_kick_i(idx, k) } else { spec_kick_jlstz(idx, k) }
}

/// Cell `(x, y)` of the 4x4 box of piece `t` in rotation `rot` is occupied.
pub open spec fn cell_filled(t: int, rot: int, x: int, y: int) -> bool {
    0 <= x <= 3 && 0 <= y <= 3 && mask_bit(spec_shape_mask(t, rot), (3 - y) * 4 + (3 - x))
}

/// Number of occupied cells among the first `n` cells of the 4x4 box, taken row by row.
pub open spec fn filled_upto(t: int, rot: int, n: nat) -> int
    decreases n,
{
    if n == 0 {
        0
    } else {
        let c = (n - 1) as int;
        filled_upto(t, rot, (n - 1) as nat) + if cell_filled(t, rot, c % 4, c / 4) { 1int } else { 0int }
    }
}

/// Number of set bits of a 16-bit mask.
pub open spec fn popcount16(m: u16) -> int {
    ((m >> 0u16) & 1u16) + ((m >> 1u16) & 1u16) + ((m >> 2u16) & 1u16) + ((m >> 3u16) & 1u16)
    + ((m >> 4u16) & 1u16) + ((m >> 5u16) & 1u16) + ((m >> 6u16) & 1u16) + ((m >> 7u16) & 1u16)
    + ((m >> 8u16) & 1u16) + ((m >> 9u16) & 1u16) + ((m >> 10u16) & 1u16) + ((m >> 11u16) & 1u16)
    + ((m >> 12u16) & 1u16) + ((m >> 13u16) & 1u16) + ((m >> 14u16) & 1u16) + ((m >> 15u16) & 1u16)
}

proof fn lemma_mask_popcounts()
    by (bit_vector)
    ensures
        forall|m: u16, k: u16| #[trigger] ((m >> k) & 1u16) <= 1u16,
        forall|k: u16| #[trigger] ((0u16 >> k) & 1u16) == 0u16,
        popcount16(0u16) == 0,
        popcount16(0x0F00u16) == 4, popcount16(0x2222u16) == 4, popcount16(0x00F0u16) == 4, popcount16(0x4444u16) == 4,
        popcount16(0x8E00u16) == 4, popcount16(0x6440u16) == 4, popcount16(0x0E20u16) == 4, popcount16(0x44C0u16) == 4,
        popcount16(0x2E00u16) == 4, popcount16(0x4460u16) == 4, popcount16(0x0E80u16) == 4, popcount16(0xC440u16) == 4,
        popcount16(0x6600u16) == 4,
        popcount16(0x6C00u16) == 4, popcount16(0x4620u16) == 4, popcount16(0x06C0u16) == 4, popcount16(0x8C40u16) == 4,
        popcount16(0x4E00u16) == 4, popcount16(0x4640u16) == 4, popcount16(0x0E40u16) == 4, popcount16(0x4C40u16) == 4,
        popcount16(0xC600u16) == 4, popcount16(0x2640u16) == 4, popcount16(0x0C60u16) == 4, popcount16(0x4C80u16) == 4,
{
}

/// Cell `c` of the box, taken row by row, is occupied exactly when bit `15 - c` of the mask is.
proof fn lemma_filled_step(t: int, rot: int, c: nat)
    requires
        c < 16,
    ensures
        filled_upto(t, rot, c + 1) == filled_upto(t, rot, c) + ((spec_shape_mask(t, rot) >> ((15 - c) as u16)) & 1u16),
{
    lemma_mask_popcounts();
    let m = spec_shape_mask(t, rot);
    let k = (15 - c) as u16;
    assert((c as int) % 4 + 4 * ((c as int) / 4) == c);
    assert((3 - (c as int) / 4) * 4 + (3 - (c as int) % 4) == 15 - c);
    assert(((m >> k) & 1u16) <= 1u16);
}

/// The occupied cells of piece `t` in rotation `rot` are as many as its mask has set bits.
proof fn lemma_filled_popcount(t: int, rot: int)
    ensures
        filled_upto(t, rot, 16) == popcount16(spec_shape_mask(t, rot)),
{
    assert(filled_upto(t, rot, 0) == 0);
    lemma_filled_step(t, rot, 0);
    lemma_filled_step(t, rot, 1);
    lemma_filled_step(t, rot, 2);
    lemma_filled_step(t, rot, 3);
    lemma_filled_step(t, rot, 4);
    lemma_filled_step(t, rot, 5);
    lemma_filled_step(t, rot, 6);
    lemma_filled_step(t, rot, 7);
    lemma_filled_step(t, rot, 8);
    lemma_filled_step(t, rot, 9);
    lemma_filled_step(t, rot, 10);
    lemma_filled_step(t, rot, 11);
    lemma_filled_step(t, rot, 12);
    lemma_filled_step(t, rot, 13);
    lemma_filled_step(t, rot, 14);
    lemma_filled_step(t, rot, 15);
}

/// Every piece in every rotation occupies exactly four cells of its 4x4 box, and no cell
/// outside the box; the empty kind `0` occupies none.
pub proof fn lemma_piece_has_four_cells(t: int, rot: int)
    requires
        0 <= t <= 7,
        0 <= rot < 4,
    ensures
        filled_upto(t, rot, 16) == if t == 0 { 0int } else { 4int },
        forall|x: int, y: int| #[trigger] cell_filled(t, rot, x, y) ==> 0 <= x <= 3 && 0 <= y <= 3,
        t == 0 ==> forall|x: int, y: int| !#[trigger] cell_filled(t, rot, x, y),
{
    lemma_mask_popcounts();
    lemma_filled_popcount(t, rot);
    if t == 0 {
        assert forall|x: int, y: int| !#[trigger] cell_filled(t, rot, x, y) by {
            if 0 <= x <= 3 && 0 <= y <= 3 {
                assert(((0u16 >> (((3 - y) * 4 + (3 - x)) as u16)) & 1u16) == 0u16);
            }
        }
    }
}

/// The set bits of each piece mask.
proof fn lemma_mask_bit_sets()
    by (bit_vector)
    ensures
        forall|k: u16| k < 16u16 ==> (((#[trigger] (0x0F00u16 >> k)) & 1u16 == 1u16) == (k == 8u16 || k == 9u16 || k == 10u16 || k == 11u16)),
        forall|k: u16| k < 16u16 ==> (((#[trigger] (0x2222u16 >> k)) & 1u16 == 1u16) == (k == 1u16 || k == 5u16 || k == 9u16 || k == 13u16)),
        forall|k: u16| k < 16u16 ==> (((#[trigger] (0x00F0u16 >> k)) & 1u16 == 1u16) == (k == 4u16 || k == 5u16 || k == 6u16 || k == 7u16)),
        forall|k: u16| k < 16u16 ==> (((#[trigger] (0x4444u16 >> k)) & 1u16 == 1u16) == (k == 2u16 || k == 6u16 || k == 10u16 || k == 14u16)),
        forall|k: u16| k < 16u16 ==> (((#[trigger] (0x8E00u16 >> k)) & 1u16 == 1u16) == (k == 9u16 || k == 10u16 || k == 11u16 || k == 15u16)),
        forall|k: u16| k < 16u16 ==> (((#[trigger] (0x6440u16 >> k)) & 1u16 == 1u16) == (k == 6u16 || k == 10u16 || k == 13u16 || k == 14u16)),
        forall|k: u16| k < 16u16 ==> (((#[trigger] (0x0E20u16 >> k)) & 1u16 == 1u16) == (k == 5u16 || k == 9u16 || k == 10u16 || k == 11u16)),
        forall|k: u16| k < 16u16 ==> (((#[trigger] (0x44C0u16 >> k)) & 1u16 == 1u16) == (k == 6u16 || k == 7u16 || k == 10u16 || k == 14u16)),
        forall|k: u16| k < 16u16 ==> (((#[trigger] (0x2E00u16 >> k)) & 1u16 == 1u16) == (k == 9u16 || k == 10u16 || k == 11u16 || k == 13u16)),
        forall|k: u16| k < 16u16 ==> (((#[trigger] (0x4460u16 >> k)) & 1u16 == 1u16) == (k == 5u16 || k == 6u16 || k == 10u16 || k == 14u16)),
        forall|k: u16| k < 16u16 ==> (((#[trigger] (0x0E80u16 >> k)) & 1u16 == 1u16) == (k == 7u16 || k == 9u16 || k == 10u16 || k == 11u16)),
        forall|k: u16| k < 16u16 ==> (((#[trigger] (0xC440u16 >> k)) & 1u16 == 1u16) == (k == 6u16 || k == 10u16 || k == 14u16 || k == 15u16)),
        forall|k: u16| k < 16u16 ==> (((#[trigger] (0x6600u16 >> k)) & 1u16 == 1u16) == (k == 9u16 || k == 10u16 || k == 13u16 || k == 14u16)),
        forall|k: u16| k < 16u16 ==> (((#[trigger] (0x6C00u16 >> k)) & 1u16 == 1u16) == (k == 10u16 || k == 11u16 || k == 13u16 || k == 14u16)),
        forall|k: u16| k < 16u16 ==> (((#[trigger] (0x4620u16 >> k)) & 1u16 == 1u16) == (k == 5u16 || k == 9u16 || k == 10u16 || k == 14u16)),
        forall|k: u16| k < 16u16 ==> (((#[trigger] (0x06C0u16 >> k)) & 1u16 == 1u16) == (k == 6u16 || k == 7u16 || k == 9u16 || k == 10u16)),
        forall|k: u16| k < 16u16 ==> (((#[trigger] (0x8C40u16 >> k)) & 1u16 == 1u16) == (k == 6u16 || k == 10u16 || k == 11u16 || k == 15u16)),
        forall|k: u16| k < 16u16 ==> (((#[trigger] (0x4E00u16 >> k)) & 1u16 == 1u16) == (k == 9u16 || k == 10u16 || k == 11u16 || k == 14u16)),
        forall|k: u16| k < 16u16 ==> (((#[trigger] (0x4640u16 >> k)) & 1u16 == 1u16) == (k == 6u16 || k == 9u16 || k == 10u16 || k == 14u16)),
        forall|k: u16| k < 16u16 ==> (((#[trigger] (0x0E40u16 >> k)) & 1u16 == 1u16) == (k == 6u16 || k == 9u16 || k == 10u16 || k == 11u16)),
        forall|k: u16| k < 16u16 ==> (((#[trigger] (0x4C40u16 >> k)) & 1u16 == 1u16) == (k == 6u16 || k == 10u16 || k == 11u16 || k == 14u16)),
        forall|k: u16| k < 16u16 ==> (((#[trigger] (0xC600u16 >> k)) & 1u16 == 1u16) == (k == 9u16 || k == 10u16 || k == 14u16 || k == 15u16)),
        forall|k: u16| k < 16u16 ==> (((#[trigger] (0x2640u16 >> k)) & 1u16 == 1u16) == (k == 6u16 || k == 9u16 || k == 10u16 || k == 13u16)),
        forall|k: u16| k < 16u16 ==> (((#[trigger] (0x0C60u16 >> k)) & 1u16 == 1u16) == (k == 5u16 || k == 6u16 || k == 10u16 || k == 11u16)),
        forall|k: u16| k < 16u16 ==> (((#[trigger] (0x4C80u16 >> k)) & 1u16 == 1u16) == (k == 7u16 || k == 10u16 || k == 11u16 || k == 14u16)),
{
}

/// Bit `k` of a mask whose set bits are `a`, `b`, `c` and `d`.
proof fn lemma_mask_bits_are(m: u16, a: int, b: int, c: int, d: int)
    requires
        0 <= a < 16 && 0 <= b < 16 && 0 <= c < 16 && 0 <= d < 16,
        forall|k: u16| k < 16u16 ==> (((#[trigger] (m >> k)) & 1u16 == 1u16) == (k == a || k == b || k == c || k == d)),
    ensures
        forall|k: int| #[trigger] mask_bit(m, k) == (0 <= k < 16 && (k == a || k == b || k == c || k == d)),
{
    assert forall|k: int| #[trigger] mask_bit(m, k) == (0 <= k < 16 && (k == a || k == b || k == c || k == d)) by {
        if 0 <= k < 16 {
            assert(((m >> (k as u16)) & 1u16 == 1u16) == ((k as u16) == a || (k as u16) == b || (k as u16) == c || (k as u16) == d));
        }
    }
}

/// Every rotation state of a J, L, S, T or Z piece is the clockwise quarter turn of the one
/// before it inside the 3x3 box at the top left of its 4x4 box: the cell in column `x`, row `y`
/// (rows counted downwards) moves to column `2 - y`, row `x`; and none of these pieces has a
/// cell outside that 3x3 box. The I piece turns clockwise the same way inside the whole 4x4
/// box (to column `3 - y`, row `x`), and the O piece looks the same in every rotation.
pub proof fn lemma_rotation_is_clockwise_turn(t: int, rot: int)
    requires
        1 <= t <= 7,
        0 <= rot < 4,
    ensures
        2 <= t && t != 4 ==> forall|x: int, y: int| #![trigger cell_filled(t, rot, x, y)]
            0 <= x < 3 && 0 <= y < 3 ==> cell_filled(t, (rot + 1) % 4, 2 - y, x) == cell_filled(t, rot, x, y),
        2 <= t && t != 4 ==> forall|x: int, y: int| #![trigger cell_filled(t, rot, x, y)]
            cell_filled(t, rot, x, y) ==> 0 <= x < 3 && 0 <= y < 3,
        t == 1 ==> forall|x: int, y: int| #![trigger cell_filled(t, rot, x, y)]
            0 <= x < 4 && 0 <= y < 4 ==> cell_filled(t, (rot + 1) % 4, 3 - y, x) == cell_filled(t, rot, x, y),
        t == 4 ==> forall|x: int, y: int| #![trigger cell_filled(t, rot, x, y)] cell_filled(t, rot, x, y) == cell_filled(t, 0, x, y),
{
    lemma_mask_bit_sets();
    if t == 1 && rot == 0 {
        assert(spec_shape_mask(t, rot) == 0x0F00u16);
        assert(spec_shape_mask(t, (rot + 1) % 4) == 0x2222u16);
        lemma_mask_bits_are(0x0F00u16, 8, 9, 10, 11);
        lemma_mask_bits_are(0x2222u16, 1, 5, 9, 13);
    } else if t == 1 && rot == 1 {
        assert(spec_shape_mask(t, rot) == 0x2222u16);
        assert(spec_shape_mask(t, (rot + 1) % 4) == 0x00F0u16);
        lemma_mask_bits_are(0x2222u16, 1, 5, 9, 13);
        lemma_mask_bits_are(0x00F0u16, 4, 5, 6, 7);
    } else if t == 1 && rot == 2 {
        assert(spec_shape_mask(t, rot) == 0x00F0u16);
        assert(spec_shape_mask(t, (rot + 1) % 4) == 0x4444u16);
        lemma_mask_bits_are(0x00F0u16, 4, 5, 6, 7);
        lemma_mask_bits_are(0x4444u16, 2, 6, 10, 14);
    } else if t == 1 && rot == 3 {
        assert(spec_shape_mask(t, rot) == 0x4444u16);
        assert(spec_shape_mask(t, (rot + 1) % 4) == 0x0F00u16);
        lemma_mask_bits_are(0x4444u16, 2, 6, 10, 14);
        lemma_mask_bits_are(0x0F00u16, 8, 9, 10, 11);
    } else if t == 2 && rot == 0 {
        assert(spec_shape_mask(t, rot) == 0x8E00u16);
        assert(spec_shape_mask(t, (rot + 1) % 4) == 0x6440u16);
        lemma_mask_bits_are(0x8E00u16, 9, 10, 11, 15);
        lemma_mask_bits_are(0x6440u16, 6, 10, 13, 14);
    } else if t == 2 && rot == 1 {
        assert(spec_shape_mask(t, rot) == 0x6440u16);
        assert(spec_shape_mask(t, (rot + 1) % 4) == 0x0E20u16);
        lemma_mask_bits_are(0x6440u16, 6, 10, 13, 14);
        lemma_mask_bits_are(0x0E20u16, 5, 9, 10, 11);
    } else if t == 2 && rot == 2 {
        assert(spec_shape_mask(t, rot) == 0x0E20u16);
        assert(spec_shape_mask(t, (rot + 1) % 4) == 0x44C0u16);
        lemma_mask_bits_are(0x0E20u16, 5, 9, 10, 11);
        lemma_mask_bits_are(0x44C0u16, 6, 7, 10, 14);
    } else if t == 2 && rot == 3 {
        assert(spec_shape_mask(t, rot) == 0x44C0u16);
        assert(spec_shape_mask(t, (rot + 1) % 4) == 0x8E00u16);
        lemma_mask_bits_are(0x44C0u16, 6, 7, 10, 14);
        lemma_mask_bits_are(0x8E00u16, 9, 10, 11, 15);
    } else if t == 3 && rot == 0 {
        assert(spec_shape_mask(t, rot) == 0x2E00u16);
        assert(spec_shape_mask(t, (rot + 1) % 4) == 0x4460u16);
        lemma_mask_bits_are(0x2E00u16, 9, 10, 11, 13);
        lemma_mask_bits_are(0x4460u16, 5, 6, 10, 14);
    } else if t == 3 && rot == 1 {
        assert(spec_shape_mask(t, rot) == 0x4460u16);
        assert(spec_shape_mask(t, (rot + 1) % 4) == 0x0E80u16);
        lemma_mask_bits_are(0x4460u16, 5, 6, 10, 14);
        lemma_mask_bits_are(0x0E80u16, 7, 9, 10, 11);
    } else if t == 3 && rot == 2 {
        assert(spec_shape_mask(t, rot) == 0x0E80u16);
        assert(spec_shape_mask(t, (rot + 1) % 4) == 0xC440u16);
        lemma_mask_bits_are(0x0E80u16, 7, 9, 10, 11);
        lemma_mask_bits_are(0xC440u16, 6, 10, 14, 15);
    } else if t == 3 && rot == 3 {
        assert(spec_shape_mask(t, rot) == 0xC440u16);
        assert(spec_shape_mask(t, (rot + 1) % 4) == 0x2E00u16);
        lemma_mask_bits_are(0xC440u16, 6, 10, 14, 15);
        lemma_mask_bits_are(0x2E00u16, 9, 10, 11, 13);
    } else if t == 4 && rot == 0 {
        assert(spec_shape_mask(t, rot) == 0x6600u16);
        assert(spec_shape_mask(t, (rot + 1) % 4) == 0x6600u16);
        lemma_mask_bits_are(0x6600u16, 9, 10, 13, 14);
        assert(spec_shape_mask(t, 0) == 0x6600u16);
    } else if t == 4 && rot == 1 {
        assert(spec_shape_mask(t, rot) == 0x6600u16);
        assert(spec_shape_mask(t, (rot + 1) % 4) == 0x6600u16);
        lemma_mask_bits_are(0x6600u16, 9, 10, 13, 14);
        assert(spec_shape_mask(t, 0) == 0x6600u16);
    } else if t == 4 && rot == 2 {
        assert(spec_shape_mask(t, rot) == 0x6600u16);
        assert(spec_shape_mask(t, (rot + 1) % 4) == 0x6600u16);
        lemma_mask_bits_are(0x6600u16, 9, 10, 13, 14);
        assert(spec_shape_mask(t, 0) == 0x6600u16);
    } else if t == 4 && rot == 3 {
        assert(spec_shape_mask(t, rot) == 0x6600u16);
        assert(spec_shape_mask(t, (rot + 1) % 4) == 0x6600u16);
        lemma_mask_bits_are(0x6600u16, 9, 10, 13, 14);
        assert(spec_shape_mask(t, 0) == 0x6600u16);
    } else if t == 5 && rot == 0 {
        assert(spec_shape_mask(t, rot) == 0x6C00u16);
        assert(spec_shape_mask(t, (rot + 1) % 4) == 0x4620u16);
        lemma_mask_bits_are(0x6C00u16, 10, 11, 13, 14);
        lemma_mask_bits_are(0x4620u16, 5, 9, 10, 14);
    } else if t == 5 && rot == 1 {
        assert(spec_shape_mask(t, rot) == 0x4620u16);
        assert(spec_shape_mask(t, (rot + 1) % 4) == 0x06C0u16);
        lemma_mask_bits_are(0x4620u16, 5, 9, 10, 14);
        lemma_mask_bits_are(0x06C0u16, 6, 7, 9, 10);
    } else if t == 5 && rot == 2 {
        assert(spec_shape_mask(t, rot) == 0x06C0u16);
        assert(spec_shape_mask(t, (rot + 1) % 4) == 0x8C40u16);
        lemma_mask_bits_are(0x06C0u16, 6, 7, 9, 10);
        lemma_mask_bits_are(0x8C40u16, 6, 10, 11, 15);
    } else if t == 5 && rot == 3 {
        assert(spec_shape_mask(t, rot) == 0x8C40u16);
        assert(spec_shape_mask(t, (rot + 1) % 4) == 0x6C00u16);
        lemma_mask_bits_are(0x8C40u16, 6, 10, 11, 15);
        lemma_mask_bits_are(0x6C00u16, 10, 11, 13, 14);
    } else if t == 6 && rot == 0 {
        assert(spec_shape_mask(t, rot) == 0x4E00u16);
        assert(spec_shape_mask(t, (rot + 1) % 4) == 0x4640u16);
        lemma_mask_bits_are(0x4E00u16, 9, 10, 11, 14);
        lemma_mask_bits_are(0x4640u16, 6, 9, 10, 14);
    } else if t == 6 && rot == 1 {
        assert(spec_shape_mask(t, rot) == 0x4640u16);
        assert(spec_shape_mask(t, (rot + 1) % 4) == 0x0E40u16);
        lemma_mask_bits_are(0x4640u16, 6, 9, 10, 14);
        lemma_mask_bits_are(0x0E40u16, 6, 9, 10, 11);
    } else if t == 6 && rot == 2 {
        assert(spec_shape_mask(t, rot) == 0x0E40u16);
        assert(spec_shape_mask(t, (rot + 1) % 4) == 0x4C40u16);
        lemma_mask_bits_are(0x0E40u16, 6, 9, 10, 11);
        lemma_mask_bits_are(0x4C40u16, 6, 10, 11, 14);
    } else if t == 6 && rot == 3 {
        assert(spec_shape_mask(t, rot) == 0x4C40u16);
        assert(spec_shape_mask(t, (rot + 1) % 4) == 0x4E00u16);
        lemma_mask_bits_are(0x4C40u16, 6, 10, 11, 14);
        lemma_mask_bits_are(0x4E00u16, 9, 10, 11, 14);
    } else if t == 7 && rot == 0 {
        assert(spec_shape_mask(t, rot) == 0xC600u16);
        assert(spec_shape_mask(t, (rot + 1) % 4) == 0x2640u16);
        lemma_mask_bits_are(0xC600u16, 9, 10, 14, 15);
        lemma_mask_bits_are(0x2640u16, 6, 9, 10, 13);
    } else if t == 7 && rot == 1 {
        assert(spec_shape_mask(t, rot) == 0x2640u16);
        assert(spec_shape_mask(t, (rot + 1) % 4) == 0x0C60u16);
        lemma_mask_bits_are(0x2640u16, 6, 9, 10, 13);
        lemma_mask_bits_are(0x0C60u16, 5, 6, 10, 11);
    } else if t == 7 && rot == 2 {
        assert(spec_shape_mask(t, rot) == 0x0C60u16);
        assert(spec_shape_mask(t, (rot + 1) % 4) == 0x4C80u16);
        lemma_mask_bits_are(0x0C60u16, 5, 6, 10, 11);
        lemma_mask_bits_are(0x4C80u16, 7, 10, 11, 14);
    } else if t == 7 && rot == 3 {
        assert(spec_shape_mask(t, rot) == 0x4C80u16);
        assert(spec_shape_mask(t, (rot + 1) % 4) == 0xC600u16);
        lemma_mask_bits_are(0x4C80u16, 7, 10, 11, 14);
        lemma_mask_bits_are(0xC600u16, 9, 10, 14, 15);
    }
}

/// The pieces at spawn (rotation 0), lying flat in the top two rows of their box (rows counted
/// downwards): I (kind 1) fills row 1; J (2), L (3) and T (6) fill columns 0 to 2 of row 1,
/// with their fourth cell above column 0, 2 and 1 respectively; O (4) fills columns 1 and 2 of
/// rows 0 and 1; S (5) has columns 1 and 2 of row 0 over columns 0 and 1 of row 1; Z (7) has
/// columns 0 and 1 of row 0 over columns 1 and 2 of row 1.
pub proof fn lemma_spawn_shapes(x: int, y: int)
    ensures
        cell_filled(1, 0, x, y) <==> y == 1 && 0 <= x <= 3,
        cell_filled(2, 0, x, y) <==> (y == 1 && 0 <= x <= 2) || (y == 0 && x == 0),
        cell_filled(3, 0, x, y) <==> (y == 1 && 0 <= x <= 2) || (y == 0 && x == 2),
        cell_filled(4, 0, x, y) <==> 0 <= y <= 1 && 1 <= x <= 2,
        cell_filled(5, 0, x, y) <==> (y == 0 && 1 <= x <= 2) || (y == 1 && 0 <= x <= 1),
        cell_filled(6, 0, x, y) <==> (y == 1 && 0 <= x <= 2) || (y == 0 && x == 1),
        cell_filled(7, 0, x, y) <==> (y == 0 && 0 <= x <= 1) || (y == 1 && 1 <= x <= 2),
{
    lemma_mask_bit_sets();
    assert(spec_shape_mask(1, 0) == 0x0F00u16);
    assert(spec_shape_mask(2, 0) == 0x8E00u16);
    assert(spec_shape_mask(3, 0) == 0x2E00u16);
    assert(spec_shape_mask(4, 0) == 0x6600u16);
    assert(spec_shape_mask(5, 0) == 0x6C00u16);
    assert(spec_shape_mask(6, 0) == 0x4E00u16);
    assert(spec_shape_mask(7, 0) == 0xC600u16);
    lemma_mask_bits_are(0x0F00u16, 8, 9, 10, 11);
    lemma_mask_bits_are(0x8E00u16, 9, 10, 11, 15);
    lemma_mask_bits_are(0x2E00u16, 9, 10, 11, 13);
    lemma_mask_bits_are(0x6600u16, 9, 10, 13, 14);
    lemma_mask_bits_are(0x6C00u16, 10, 11, 13, 14);
    lemma_mask_bits_are(0x4E00u16, 9, 10, 11, 14);
    lemma_mask_bits_are(0xC600u16, 9, 10, 14, 15);
}

/// Whether cell `(x, y)` of the 4x4 box of piece `t` in rotation `rot` is occupied.
pub fn piece_at(t: u8, rot: u8, x: i32, y: i32) -> (r: bool)
    requires
        t < 8,
        rot < 4,
    ensures
        r == cell_filled(t as int, rot as int, x as int, y as int),
{
    if x < 0 || x > 3 || y < 0 || y > 3 {
        return false;
    }
    let shape = shape_mask(t, rot);
    let bit_idx = (3 - y) * 4 + (3 - x);
    let k = bit_idx as u16;
    let one: u16 = 1;
    let r = (shape & (one << k)) != 0;
    assert(r == ((shape >> k) & 1u16 == 1u16)) by (bit_vector)
        requires
            k < 16,
            r == ((shape & (1u16 << k)) != 0),
    ;
    r
}

/// Index of the kick table row for the rotation `rot -> new_rot`.
pub open spec fn spec_kick_index(rot: int, new_rot: int) -> int {
    if rot == 0 && new_rot == 1 { 0 }
    else if rot == 1 && new_rot == 0 { 1 }
    else if rot == 1 && new_rot == 2 { 2 }
    else if rot == 2 && new_rot == 1 { 3 }
    else if rot == 2 && new_rot == 3 { 4 }
    else if rot == 3 && new_rot == 2 { 5 }
    else if rot == 3 && new_rot == 0 { 6 }
    else if rot == 0 && new_rot == 3 { 7 }
    else { 0 }
}

/// Row of the kick table for the rotation `rot -> new_rot`; 0 for a transition that has none.
pub fn get_kick_index(rot: u8, new_rot: u8) -> (r: usize)
    ensures
        r == spec_kick_index(rot as int, new_rot as int),
        r < 8,
{
    match (rot, new_rot) {
        (0, 1) => 0,
        (1, 0) => 1,
        (1, 2) => 2,
        (2, 1) => 3,
        (2, 3) => 4,
        (3, 2) => 5,
        (3, 0) => 6,
        (0, 3) => 7,
        _ => 0,
    }
}

/// Board cell `(bx, by)` is outside the walls or floor, or occupied; rows above the top are free.
pub open spec fn cell_blocked(board: [[u8; BOARD_W]; BOARD_H], bx: int, by: int) -> bool {
    bx < 0 || bx >= BOARD_W || by >= BOARD_H || (by >= 0 && board[by][bx] != 0)
}

/// Piece `t` in rotation `rot` with its box at `(cx, cy)` overlaps a wall, the floor or a locked cell.
pub open spec fn collides(board: [[u8; BOARD_W]; BOARD_H], t: int, rot: int, cx: int, cy: int) -> bool {
    exists|x: int, y: int|
        0 <= x < 4 && 0 <= y < 4 && #[trigger] cell_filled(t, rot, x, y) && cell_blocked(board, cx + x, cy + y)
}

/// Whether piece `t` in rotation `rot` placed with its box at `(cx, cy)` collides.
pub fn check_collision(board: &[[u8; BOARD_W]; BOARD_H], t: u8, rot: u8, cx: i32, cy: i32) -> (r: bool)
    requires
        t < 8,
        rot < 4,
        cx <= i32::MAX - 3,
        cy <= i32::MAX - 3,
    ensures
        r == collides(*board, t as int, rot as int, cx as int, cy as int),
{
    let mut y: i32 = 0;
    while y < 4
        invariant
            0 <= y <= 4,
            t < 8,
            rot < 4,
            cx <= i32::MAX - 3,
            cy <= i32::MAX - 3,
            forall|xx: int, yy: int|
                0 <= xx < 4 && 0 <= yy < y && #[trigger] cell_filled(t as int, rot as int, xx, yy)
                    ==> !cell_blocked(*board, cx + xx, cy + yy),
        decreases 4 - y,
    {
        let mut x: i32 = 0;
        while x < 4
            invariant
                0 <= x <= 4,
                0 <= y < 4,
                t < 8,
                rot < 4,
                cx <= i32::MAX - 3,
                cy <= i32::MAX - 3,
                forall|xx: int, yy: int|
                    0 <= xx < 4 && 0 <= yy < y && #[trigger] cell_filled(t as int, rot as int, xx, yy)
                        ==> !cell_blocked(*board, cx + xx, cy + yy),
                forall|xx: int|
                    0 <= xx < x && #[trigger] cell_filled(t as int, rot as int, xx, y as int)
                        ==> !cell_blocked(*board, cx + xx, cy + y),
            decreases 4 - x,
        {
            if piece_at(t, rot, x, y) {
                let bx = cx + x;
                let by = cy + y;
                if bx < 0 || bx >= BOARD_W as i32 || by >= BOARD_H as i32 {
                    assert(cell_filled(t as int, rot as int, x as int, y as int));
                    return true;
                }
                if by >= 0 && board[by as usize][bx as usize] != 0 {
                    assert(cell_filled(t as int, rot as int, x as int, y as int));
                    return true;
                }
            }
            x = x + 1;
        }
        y = y + 1;
    }
    false
}

/// Rotation reached from `rot` by a clockwise or counter-clockwise quarter turn.
pub open spec fn turned(rot: int, cw: bool) -> int {
    if cw { (rot + 1) % 4 } else { (rot + 3) % 4 }
}

/// The first kick offset, from the `k`-th on, at which the rotated piece fits.
pub open spec fn first_fitting_kick(
    board: [[u8; BOARD_W]; BOARD_H],
    t: int,
    new_rot: int,
    cx: int,
    cy: int,
    is_i: bool,
    idx: int,
    k: int,
) -> Option<(int, int)>
    decreases 5 - k,
{
    if k >= 5 || k < 0 {
        None
    } else {
        let d = spec_kick(is_i, idx, k);
        if !collides(board, t, new_rot, cx + d.0, cy + d.1) {
            Some(d)
        } else {
            first_fitting_kick(board, t, new_rot, cx, cy, is_i, idx, k + 1)
        }
    }
}

/// Rotation, column and row of the piece after a successful turn, or `None` when it cannot turn.
/// The O piece never kicks; the I piece uses its own kick table.
pub open spec fn rotation_outcome(
    board: [[u8; BOARD_W]; BOARD_H],
    t: int,
    rot: int,
    cx: int,
    cy: int,
    cw: bool,
) -> Option<(int, int, int)> {
    let nr = turned(rot, cw);
    if t == 4 {
        if !collides(board, t, nr, cx, cy) { Some((nr, cx, cy)) } else { None }
    } else {
        match first_fitting_kick(board, t, nr, cx, cy, t == 1, spec_kick_index(rot, nr), 0) {
            Some(d) => Some((nr, cx + d.0, cy + d.1)),
            None => None,
        }
    }
}

/// Turns the piece, trying the wall kicks in order; returns whether it turned.
pub fn try_rotate(
    board: &[[u8; BOARD_W]; BOARD_H],
    t: u8,
    rot: &mut u8,
    cx: &mut i32,
    cy: &mut i32,
    cw: bool,
) -> (r: bool)
    requires
        t < 8,
        *old(rot) <= 252,
        i32::MIN + 2 <= *old(cx) <= i32::MAX - 5,
        i32::MIN + 2 <= *old(cy) <= i32::MAX - 5,
    ensures
        ({
            let out = rotation_outcome(*board, t as int, *old(rot) as int, *old(cx) as int, *old(cy) as int, cw);
            &&& r == out is Some
            &&& out is Some ==> *final(rot) == out->Some_0.0 && *final(cx) == out->Some_0.1 && *final(cy) == out->Some_0.2
            &&& out is None ==> *final(rot) == *old(rot) && *final(cx) == *old(cx) && *final(cy) == *old(cy)
        }),
{
    let new_rot = if cw { (*rot + 1) % 4 } else { (*rot + 3) % 4 };
    if t == 4 {
        if !check_collision(board, t, new_rot, *cx, *cy) {
            *rot = new_rot;
            return true;
        }
        return false;
    }
    let kick_idx = get_kick_index(*rot, new_rot);
    let is_i = t == 1;
    let ghost start_x = *cx as int;
    let ghost start_y = *cy as int;
    let mut k: usize = 0;
    while k < 5
        invariant
            0 <= k <= 5,
            t < 8,
            t != 4,
            is_i == (t == 1),
            new_rot < 4,
            new_rot == turned(*old(rot) as int, cw),
            kick_idx == spec_kick_index(*old(rot) as int, new_rot as int),
            kick_idx < 8,
            *cx == start_x,
            *cy == start_y,
            *rot == *old(rot),
            *cx == *old(cx),
            *cy == *old(cy),
            i32::MIN + 2 <= start_x <= i32::MAX - 5,
            i32::MIN + 2 <= start_y <= i32::MAX - 5,
            first_fitting_kick(*board, t as int, new_rot as int, start_x, start_y, is_i, kick_idx as int, 0)
                == first_fitting_kick(*board, t as int, new_rot as int, start_x, start_y, is_i, kick_idx as int, k as int),
        decreases 5 - k,
    {
        let (dx, dy) = kick_offset(is_i, kick_idx, k);
        assert(-2 <= dx <= 2 && -2 <= dy <= 2);
        if !check_collision(board, t, new_rot, *cx + dx, *cy + dy) {
            *rot = new_rot;
            *cx = *cx + dx;
            *cy = *cy + dy;
            return true;
        }
        k = k + 1;
    }
    false
}

/// The bag after the Fisher-Yates passes `i..6` driven by the generator, and the final state.
pub open spec fn shuffled_from(bag: Seq<u8>, state: u32, i: int) -> (Seq<u8>, u32)
    decreases 6 - i,
{
    if i >= 6 || i < 0 {
        (bag, state)
    } else {
        let s = crate::prng::lcg_next(state);
        let j = i + (s % ((7 - i) as u32)) as int;
        shuffled_from(bag.update(i, bag[j]).update(j, bag[i]), s, i + 1)
    }
}

/// `bag` holds each piece kind 1 to 7 exactly once.
pub open spec fn is_full_bag(bag: Seq<u8>) -> bool {
    &&& bag.len() == 7
    &&& forall|i: int| 0 <= i < 7 ==> 1 <= #[trigger] bag[i] <= 7
    &&& forall|i: int, j: int| 0 <= i < j < 7 ==> bag[i] != bag[j]
}

/// One deal from the bag `bag` with generator state `state` after `index` deals of it: a new
/// bag is shuffled once the current one is used up. Gives the kind dealt and the new bag, state
/// and index.
pub open spec fn spec_deal(bag: Seq<u8>, state: u32, index: int) -> (u8, Seq<u8>, u32, int) {
    if index >= 7 {
        let sh = shuffled_from(bag, state, 0);
        (sh.0[0], sh.0, sh.1, 1)
    } else {
        (bag[index], bag, state, index + 1)
    }
}

/// `n` deals in a row: the kinds dealt, then the bag, state and index after them.
pub open spec fn deals(bag: Seq<u8>, state: u32, index: int, n: nat) -> (Seq<u8>, Seq<u8>, u32, int)
    decreases n,
{
    if n == 0 {
        (Seq::empty(), bag, state, index)
    } else {
        let d = spec_deal(bag, state, index);
        let rest = deals(d.1, d.2, d.3, (n - 1) as nat);
        (seq![d.0] + rest.0, rest.1, rest.2, rest.3)
    }
}

/// Shuffling keeps a full bag full.
proof fn lemma_shuffled_full(bag: Seq<u8>, state: u32, i: int)
    requires
        is_full_bag(bag),
        0 <= i,
    ensures
        is_full_bag(shuffled_from(bag, state, i).0),
    decreases 6 - i,
{
    if i < 6 {
        let s = crate::prng::lcg_next(state);
        let j = i + (s % ((7 - i) as u32)) as int;
        let b2 = bag.update(i, bag[j]).update(j, bag[i]);
        assert(is_full_bag(b2)) by {
            assert forall|p: int| 0 <= p < 7 implies 1 <= #[trigger] b2[p] <= 7 by {
                if p == j { assert(b2[p] == bag[i]); } else if p == i { assert(b2[p] == bag[j]); } else { assert(b2[p] == bag[p]); }
            }
            assert forall|p: int, q: int| 0 <= p < q < 7 implies b2[p] != b2[q] by {
                let sp = if p == j { i } else if p == i { j } else { p };
                let sq = if q == j { i } else if q == i { j } else { q };
                assert(b2[p] == bag[sp]);
                assert(b2[q] == bag[sq]);
                assert(sp != sq);
            }
        }
        lemma_shuffled_full(b2, s, i + 1);
    }
}

/// Seven deals from the start of a bag, the state after `Randomizer::new` and after every
/// seventh deal, give each kind 1 to 7 exactly once, and end at the start of a bag again.
pub proof fn lemma_seven_deals(bag: Seq<u8>, state: u32)
    requires
        is_full_bag(bag),
    ensures
        is_full_bag(deals(bag, state, 7, 7).0),
        is_full_bag(deals(bag, state, 7, 7).1),
        deals(bag, state, 7, 7).3 == 7,
{
    lemma_shuffled_full(bag, state, 0);
    let sh = shuffled_from(bag, state, 0);
    reveal_with_fuel(deals, 8);
    assert(deals(bag, state, 7, 7).0 =~= sh.0);
}

/// `n + m` deals in a row are `n` deals followed by `m` more from where they ended.
proof fn lemma_deals_split(bag: Seq<u8>, state: u32, index: int, n: nat, m: nat)
    ensures
        ({
            let d = deals(bag, state, index, n);
            let e = deals(d.1, d.2, d.3, m);
            deals(bag, state, index, n + m) == (d.0 + e.0, e.1, e.2, e.3)
        }),
    decreases n,
{
    if n > 0 {
        let d1 = spec_deal(bag, state, index);
        lemma_deals_split(d1.1, d1.2, d1.3, (n - 1) as nat, m);
        assert((n + m - 1) as nat == ((n - 1) as nat + m) as nat);
        let d = deals(bag, state, index, n);
        let e = deals(d.1, d.2, d.3, m);
        let r = deals(d1.1, d1.2, d1.3, (n - 1) as nat);
        assert(seq![d1.0] + (r.0 + e.0) =~= (seq![d1.0] + r.0) + e.0);
    }
}

/// After any whole number of bags dealt from the start of a full bag, the bag is full and
/// about to be reshuffled, and every bag dealt so far held each kind once.
proof fn lemma_whole_bags(bag: Seq<u8>, state: u32, j: nat)
    requires
        is_full_bag(bag),
    ensures
        is_full_bag(deals(bag, state, 7, 7 * j).1),
        deals(bag, state, 7, 7 * j).3 == 7,
        deals(bag, state, 7, 7 * j).0.len() == 7 * j,
        forall|k: int| 0 <= k < j ==> is_full_bag(#[trigger] deals(bag, state, 7, 7 * j).0.subrange(7 * k, 7 * k + 7)),
    decreases j,
{
    if j == 0 {
        reveal_with_fuel(deals, 1);
    } else {
        let jp = (j - 1) as nat;
        lemma_whole_bags(bag, state, jp);
        let d = deals(bag, state, 7, 7 * jp);
        lemma_seven_deals(d.1, d.2);
        lemma_deals_len(d.1, d.2, d.3, 7);
        lemma_deals_split(bag, state, 7, 7 * jp, 7);
        assert(7 * jp + 7 == 7 * j);
        let all = deals(bag, state, 7, 7 * j).0;
        let e = deals(d.1, d.2, d.3, 7);
        assert(all == d.0 + e.0);
        assert forall|k: int| 0 <= k < j implies is_full_bag(#[trigger] all.subrange(7 * k, 7 * k + 7)) by {
            if k < jp {
                assert(all.subrange(7 * k, 7 * k + 7) =~= d.0.subrange(7 * k, 7 * k + 7));
            } else {
                assert(all.subrange(7 * k, 7 * k + 7) =~= e.0);
            }
        }
    }
}

/// `n` deals deal `n` kinds.
proof fn lemma_deals_len(bag: Seq<u8>, state: u32, index: int, n: nat)
    ensures
        deals(bag, state, index, n).0.len() == n,
    decreases n,
{
    if n > 0 {
        let d = spec_deal(bag, state, index);
        lemma_deals_len(d.1, d.2, d.3, (n - 1) as nat);
    }
}

/// From `Randomizer::new(seed)`, for any seed, deals `7 * j + 1` to `7 * j + 7` are a
/// permutation of the kinds 1 to 7: every bag holds each kind exactly once.
pub proof fn lemma_every_bag_full(seed: u32, j: nat)
    ensures
        is_full_bag(deals(seq![1u8, 2, 3, 4, 5, 6, 7], seed, 7, 7 * j + 7).0.subrange(7 * j as int, 7 * j as int + 7)),
{
    let start = seq![1u8, 2, 3, 4, 5, 6, 7];
    assert(is_full_bag(start));
    lemma_whole_bags(start, seed, j + 1);
    assert(7 * (j + 1) == 7 * j + 7);
    assert(is_full_bag(deals(start, seed, 7, 7 * (j + 1)).0.subrange(7 * j as int, 7 * j as int + 7)));
}

/// The seven-piece randomizer: deals the kinds 1 to 7 in a freshly shuffled order, bag after bag.
pub struct Randomizer {
    prng: Prng,
    bag: [u8; 7],
    index: usize,
}

impl Randomizer {
    #[verifier::type_invariant]
    closed spec fn inv(&self) -> bool {
        &&& is_full_bag(self.bag@)
        &&& self.index <= 7
    }

    /// The current bag, in dealing order.
    pub closed spec fn spec_bag(&self) -> Seq<u8> {
        self.bag@
    }

    /// How many pieces of the current bag have been dealt.
    pub closed spec fn spec_index(&self) -> int {
        self.index as int
    }

    /// The generator state.
    pub closed spec fn spec_state(&self) -> u32 {
        self.prng.state
    }

    /// A randomizer seeded with `seed`, whose first bag is shuffled on the first deal.
    pub fn new(seed: u32) -> (r: Self)
        ensures
            r.spec_state() == seed,
            r.spec_index() == 7,
            r.spec_bag() == seq![1u8, 2, 3, 4, 5, 6, 7],
    {
        let r = Self { prng: Prng { state: seed }, bag: [1, 2, 3, 4, 5, 6, 7], index: 7 };
        assert(r.bag@ =~= seq![1u8, 2, 3, 4, 5, 6, 7]);
        r
    }

    /// Reorders the bag with six generator-driven swaps.
    pub fn shuffle(&mut self)
        ensures
            (final(self).spec_bag(), final(self).spec_state())
                == shuffled_from(old(self).spec_bag(), old(self).spec_state(), 0),
            final(self).spec_index() == old(self).spec_index(),
    {
        proof { use_type_invariant(&*self); }
        let mut bag = self.bag;
        let mut prng = Prng { state: self.prng.state };
        let ghost start = (self.bag@, self.prng.state);
        let mut i: usize = 0;
        while i < 6
            invariant
                0 <= i <= 6,
                is_full_bag(bag@),
                shuffled_from(start.0, start.1, 0) == shuffled_from(bag@, prng.state, i as int),
            decreases 6 - i,
        {
            let j = i + (prng.next() % (7 - i as u32)) as usize;
            let tmp = bag[i];
            bag[i] = bag[j];
            bag[j] = tmp;
            i = i + 1;
        }
        *self = Self { prng, bag, index: self.index };
    }

    /// Deals the next piece kind, shuffling a new bag when the current one is used up.
    pub fn next_piece(&mut self) -> (p: u8)
        ensures
            1 <= p <= 7,
            old(self).spec_index() >= 7 ==> ({
                let sh = shuffled_from(old(self).spec_bag(), old(self).spec_state(), 0);
                &&& p == sh.0[0]
                &&& final(self).spec_bag() == sh.0
                &&& final(self).spec_state() == sh.1
                &&& final(self).spec_index() == 1
            }),
            old(self).spec_index() < 7 ==> ({
                &&& p == old(self).spec_bag()[old(self).spec_index()]
                &&& final(self).spec_bag() == old(self).spec_bag()
                &&& final(self).spec_state() == old(self).spec_state()
                &&& final(self).spec_index() == old(self).spec_index() + 1
            }),
            (p, final(self).spec_bag(), final(self).spec_state(), final(self).spec_index())
                == spec_deal(old(self).spec_bag(), old(self).spec_state(), old(self).spec_index()),
    {
        proof { use_type_invariant(&*self); }
        let mut bag = self.bag;
        let mut prng = Prng { state: self.prng.state };
        let mut index = self.index;
        if index >= 7 {
            self.shuffle();
            proof { use_type_invariant(&*self); }
            bag = self.bag;
            prng = Prng { state: self.prng.state };
            index = 0;
        }
        let p = bag[index];
        *self = Self { prng, bag, index: index + 1 };
        p
    }

    /// The kind the next deal returns, or 1 when a new bag is still to be shuffled.
    pub fn peek(&self) -> (p: u8)
        ensures
            self.spec_index() >= 7 ==> p == 1,
            self.spec_index() < 7 ==> p == self.spec_bag()[self.spec_index()],
            1 <= p <= 7,
    {
        proof { use_type_invariant(self); }
        if self.index >= 7 { 1 } else { self.bag[self.index] }
    }
}

/// Every cell of the row is occupied.
pub open spec fn row_full(row: [u8; BOARD_W]) -> bool {
    forall|x: int| 0 <= x < BOARD_W ==> row[x] != 0
}

/// The rows of `rows` from index `lo` on that are not full, top to bottom.
pub open spec fn kept_rows(rows: Seq<[u8; BOARD_W]>, lo: int) -> Seq<[u8; BOARD_W]>
    decreases rows.len() - lo,
{
    if lo >= rows.len() || lo < 0 {
        Seq::empty()
    } else if row_full(rows[lo]) {
        kept_rows(rows, lo + 1)
    } else {
        seq![rows[lo]] + kept_rows(rows, lo + 1)
    }
}

/// The empty row.
pub open spec fn empty_row() -> [u8; BOARD_W] {
    vstd::array::spec_array_fill_for_copy_type::<u8, BOARD_W>(0u8)
}

/// The board after removing every full row and dropping the rows above it.
pub open spec fn cleared_board(rows: Seq<[u8; BOARD_W]>) -> Seq<[u8; BOARD_W]> {
    let kept = kept_rows(rows, 0);
    Seq::new((rows.len() - kept.len()) as nat, |i: int| empty_row()) + kept
}

proof fn lemma_kept_len(rows: Seq<[u8; BOARD_W]>, lo: int)
    requires
        0 <= lo <= rows.len(),
    ensures
        kept_rows(rows, lo).len() <= rows.len() - lo,
    decreases rows.len() - lo,
{
    if lo < rows.len() {
        lemma_kept_len(rows, lo + 1);
    }
}

/// Whether every cell of row `y` is occupied.
fn row_is_full(board: &[[u8; BOARD_W]; BOARD_H], y: usize) -> (r: bool)
    requires
        y < BOARD_H,
    ensures
        r == row_full(board[y as int]),
{
    let mut x: usize = 0;
    while x < BOARD_W
        invariant
            0 <= x <= BOARD_W,
            y < BOARD_H,
            forall|xx: int| 0 <= xx < x ==> board[y as int][xx] != 0,
        decreases BOARD_W - x,
    {
        if board[y][x] == 0 {
            return false;
        }
        x = x + 1;
    }
    true
}

/// Removes every full row, moving the rows above it down and adding empty rows on top;
/// returns how many rows were removed.
pub fn clear_full_lines(board: &mut [[u8; BOARD_W]; BOARD_H]) -> (cleared: u32)
    ensures
        final(board)@ == cleared_board(old(board)@),
        cleared == BOARD_H - kept_rows(old(board)@, 0).len(),
{
    let ghost orig = board@;
    let mut cleared: usize = 0;
    let mut check_y: i32 = BOARD_H as i32 - 1;
    proof { lemma_kept_len(orig, 0); }
    while check_y >= 0
        invariant
            -1 <= check_y < BOARD_H,
            orig.len() == BOARD_H,
            0 <= cleared <= BOARD_H,
            // rows above the unprocessed part are empty
            forall|i: int| 0 <= i < cleared ==> #[trigger] board@[i] == empty_row(),
            // the unprocessed rows are still the original ones
            forall|i: int| cleared <= i <= check_y ==> #[trigger] board@[i] == orig[i - cleared],
            // the rows below are the kept rows of the processed part
            ({
                let top = if check_y + 1 > cleared { check_y + 1 } else { cleared as int };
                &&& board@.subrange(top, BOARD_H as int) == kept_rows(orig, top - cleared)
                &&& BOARD_H - top == kept_rows(orig, top - cleared).len()
            }),
        decreases check_y + 1 + BOARD_H - cleared,
    {
        let y = check_y as usize;
        if y < cleared {
            // an added empty row: never full
            assert(board@[y as int] == empty_row());
            assert(!row_full(board@[y as int])) by {
                assert(board@[y as int][0] == 0u8);
            }
        }
        let full = row_is_full(board, y);
        if full {
            proof {
                assert(y >= cleared);
                assert(board@[y as int] == orig[y - cleared]);
            }
            let ghost before = board@;
            let mut sy: usize = y;
            while sy >= 1
                invariant
                    0 <= sy <= y,
                    y < BOARD_H,
                    board@.len() == BOARD_H,
                    forall|i: int| 0 <= i <= sy ==> #[trigger] board@[i] == before[i],
                    forall|i: int| sy < i <= y ==> #[trigger] board@[i] == before[i - 1],
                    forall|i: int| y < i < BOARD_H ==> #[trigger] board@[i] == before[i],
                decreases sy,
            {
                board[sy] = board[sy - 1];
                sy = sy - 1;
            }
            board[0] = [0;BOARD_W];
            proof {
                assert(board@.subrange(check_y + 1, BOARD_H as int) =~= before.subrange(check_y + 1, BOARD_H as int));
                assert forall|i: int| cleared + 1 <= i <= check_y implies #[trigger] board@[i] == orig[i - (cleared + 1)] by {
                    assert(board@[i] == before[i - 1]);
                }
                assert(orig[check_y - cleared] == before[y as int]);
                assert(row_full(orig[check_y - cleared]));
                assert(kept_rows(orig, check_y - cleared) == kept_rows(orig, check_y + 1 - cleared));
            }
            cleared = cleared + 1;
        } else {
            proof {
                if y >= cleared {
                    assert(board@[y as int] == orig[y - cleared]);
                    assert(!row_full(orig[check_y - cleared]));
                    assert(kept_rows(orig, check_y - cleared)
                        == seq![orig[check_y - cleared]] + kept_rows(orig, check_y + 1 - cleared));
                    assert(board@.subrange(check_y as int, BOARD_H as int)
                        =~= seq![board@[y as int]] + board@.subrange(check_y + 1, BOARD_H as int));
                }
            }
            check_y = check_y - 1;
        }
    }
    proof {
        assert(board@ =~= cleared_board(orig));
    }
    cleared as u32
}

/// Points for clearing `cleared` rows at once, before the level multiplier.
pub open spec fn spec_line_points(cleared: int) -> int {
    if cleared == 1 { 100 } else if cleared == 2 { 300 } else if cleared == 3 { 500 } else { 800 }
}

/// Score, total lines and level after `cleared` rows were removed in one lock.
pub open spec fn scored(score: int, lines: int, level: int, cleared: int) -> (int, int, int) {
    if cleared > 0 {
        let new_lines = lines + cleared;
        let new_level = 1 + new_lines / 10;
        (score + spec_line_points(cleared) * new_level, new_lines, new_level)
    } else {
        (score, lines, level)
    }
}

/// Updates score, line count and level after a lock that removed `cleared` rows:
/// 100, 300, 500 or 800 points times the new level, one level per ten lines.
pub fn apply_line_clears(score: u32, lines: u32, level: u32, cleared: u32) -> (r: (u32, u32, u32))
    requires
        lines + cleared <= u32::MAX,
        score + 800 * (1 + (lines + cleared) / 10) <= u32::MAX,
    ensures
        (r.0 as int, r.1 as int, r.2 as int) == scored(score as int, lines as int, level as int, cleared as int),
{
    if cleared > 0 {
        let new_lines = lines + cleared;
        let new_level = 1 + new_lines / 10;
        let points: u32 = match cleared {
            1 => 100,
            2 => 300,
            3 => 500,
            _ => 800,
        };
        assert(points * new_level <= 800 * new_level) by (nonlinear_arith)
            requires points <= 800;
        (score + points * new_level, new_lines, new_level)
    } else {
        (score, lines, level)
    }
}

/// Milliseconds between gravity steps at `level`: 80 ms faster per level, never below 100 ms.
pub fn drop_delay(level: u32) -> (d: u64)
    requires
        level >= 1,
    ensures
        d == if 1000 - (level - 1) * 80 > 100 { 1000 - (level - 1) * 80 } else { 100 },
{
    let step = (level as u64 - 1) * 80;
    let base = 1000u64.saturating_sub(step);
    if base > 100 { base } else { 100 }
}

/// Some occupied cell of the piece's box covers board cell `(c, r)`.
pub open spec fn covers(t: int, rot: int, cx: int, cy: int, c: int, r: int) -> bool {
    exists|x: int, y: int| 0 <= x < 4 && 0 <= y < 4 && #[trigger] cell_filled(t, rot, x, y) && cx + x == c && cy + y == r
}

/// Writes kind `t` into every board cell the piece covers; cells off the board are dropped.
pub fn lock_piece(board: &mut [[u8; BOARD_W]; BOARD_H], t: u8, rot: u8, cx: i32, cy: i32)
    requires
        t < 8,
        rot < 4,
        cx <= i32::MAX - 3,
        cy <= i32::MAX - 3,
    ensures
        forall|r: int, c: int| 0 <= r < BOARD_H && 0 <= c < BOARD_W ==>
            #[trigger] final(board)[r][c] == if covers(t as int, rot as int, cx as int, cy as int, c, r) {
                t
            } else {
                old(board)[r][c]
            },
{
    let ghost orig = *board;
    let mut y: i32 = 0;
    while y < 4
        invariant
            0 <= y <= 4,
            t < 8,
            rot < 4,
            cx <= i32::MAX - 3,
            cy <= i32::MAX - 3,
            forall|r: int, c: int| 0 <= r < BOARD_H && 0 <= c < BOARD_W ==>
                #[trigger] board[r][c] == if exists|xx: int, yy: int| 0 <= xx < 4 && 0 <= yy < y
                    && #[trigger] cell_filled(t as int, rot as int, xx, yy) && cx + xx == c && cy + yy == r {
                    t
                } else {
                    orig[r][c]
                },
        decreases 4 - y,
    {
        let mut x: i32 = 0;
        while x < 4
            invariant
                0 <= x <= 4,
                0 <= y < 4,
                t < 8,
                rot < 4,
                cx <= i32::MAX - 3,
                cy <= i32::MAX - 3,
                forall|r: int, c: int| 0 <= r < BOARD_H && 0 <= c < BOARD_W ==>
                    #[trigger] board[r][c] == if (exists|xx: int, yy: int| 0 <= xx < 4 && 0 <= yy < y
                        && #[trigger] cell_filled(t as int, rot as int, xx, yy) && cx + xx == c && cy + yy == r)
                        || (exists|xx: int| 0 <= xx < x && #[trigger] cell_filled(t as int, rot as int, xx, y as int)
                        && cx + xx == c && cy + y == r) {
                        t
                    } else {
                        orig[r][c]
                    },
            decreases 4 - x,
        {
            if piece_at(t, rot, x, y) {
                let bx = cx + x;
                let by = cy + y;
                if by >= 0 && bx >= 0 && (by as usize) < BOARD_H && (bx as usize) < BOARD_W {
                    board[by as usize][bx as usize] = t;
                }
            }
            proof {
                assert forall|r: int, c: int| 0 <= r < BOARD_H && 0 <= c < BOARD_W implies
                    #[trigger] board[r][c] == if (exists|xx: int, yy: int| 0 <= xx < 4 && 0 <= yy < y
                        && #[trigger] cell_filled(t as int, rot as int, xx, yy) && cx + xx == c && cy + yy == r)
                        || (exists|xx: int| 0 <= xx < x + 1 && #[trigger] cell_filled(t as int, rot as int, xx, y as int)
                        && cx + xx == c && cy + y == r) {
                        t
                    } else {
                        orig[r][c]
                    } by {
                    if cell_filled(t as int, rot as int, x as int, y as int) && cx + x == c && cy + y == r {
                        assert(exists|xx: int| 0 <= xx < x + 1 && #[trigger] cell_filled(t as int, rot as int, xx, y as int)
                            && cx + xx == c && cy + y == r);
                    }
                }
            }
            x = x + 1;
        }
        proof {
            assert forall|r: int, c: int| 0 <= r < BOARD_H && 0 <= c < BOARD_W implies
                #[trigger] board[r][c] == if exists|xx: int, yy: int| 0 <= xx < 4 && 0 <= yy < y + 1
                    && #[trigger] cell_filled(t as int, rot as int, xx, yy) && cx + xx == c && cy + yy == r {
                    t
                } else {
                    orig[r][c]
                } by {
                if exists|xx: int, yy: int| 0 <= xx < 4 && 0 <= yy < y + 1
                    && #[trigger] cell_filled(t as int, rot as int, xx, yy) && cx + xx == c && cy + yy == r {
                    let (xx, yy) = choose|xx: int, yy: int| 0 <= xx < 4 && 0 <= yy < y + 1
                        && #[trigger] cell_filled(t as int, rot as int, xx, yy) && cx + xx == c && cy + yy == r;
                    if yy == y {
                        assert(exists|xk: int| 0 <= xk < 4 && #[trigger] cell_filled(t as int, rot as int, xk, y as int)
                            && cx + xk == c && cy + y == r);
                    }
                }
            }
        }
        y = y + 1;
    }
}

/// Every piece kind 1 to 7 occupies at least one cell of its box, in every rotation.
proof fn lemma_piece_has_cell(t: int, rot: int) -> (cell: (int, int))
    requires
        1 <= t <= 7,
        0 <= rot < 4,
    ensures
        0 <= cell.0 < 4 && 0 <= cell.1 < 4,
        cell_filled(t, rot, cell.0, cell.1),
{
    let m = spec_shape_mask(t, rot);
    assert(m != 0u16);
    assert(m == 0u16 || (m >> 0u16) & 1u16 == 1u16 || (m >> 1u16) & 1u16 == 1u16 || (m >> 2u16) & 1u16 == 1u16
        || (m >> 3u16) & 1u16 == 1u16 || (m >> 4u16) & 1u16 == 1u16 || (m >> 5u16) & 1u16 == 1u16
        || (m >> 6u16) & 1u16 == 1u16 || (m >> 7u16) & 1u16 == 1u16 || (m >> 8u16) & 1u16 == 1u16
        || (m >> 9u16) & 1u16 == 1u16 || (m >> 10u16) & 1u16 == 1u16 || (m >> 11u16) & 1u16 == 1u16
        || (m >> 12u16) & 1u16 == 1u16 || (m >> 13u16) & 1u16 == 1u16 || (m >> 14u16) & 1u16 == 1u16
        || (m >> 15u16) & 1u16 == 1u16) by (bit_vector);
    let k: int = choose|k: int| 0 <= k < 16 && mask_bit(m, k);
    assert(exists|k: int| 0 <= k < 16 && mask_bit(m, k)) by {
        if mask_bit(m, 0) {} else if mask_bit(m, 1) {} else if mask_bit(m, 2) {} else if mask_bit(m, 3) {}
        else if mask_bit(m, 4) {} else if mask_bit(m, 5) {} else if mask_bit(m, 6) {} else if mask_bit(m, 7) {}
        else if mask_bit(m, 8) {} else if mask_bit(m, 9) {} else if mask_bit(m, 10) {} else if mask_bit(m, 11) {}
        else if mask_bit(m, 12) {} else if mask_bit(m, 13) {} else if mask_bit(m, 14) {} else { assert(mask_bit(m, 15)); }
    }
    let y = 3 - k / 4;
    let x = 3 - k % 4;
    assert((3 - y) * 4 + (3 - x) == k);
    (x, y)
}

/// The row where a hard drop from row `cy` lands: the piece fits in every row after `cy` up to
/// it and collides one row lower.
pub fn drop_target(board: &[[u8; BOARD_W]; BOARD_H], t: u8, rot: u8, cx: i32, cy: i32) -> (r: i32)
    requires
        1 <= t <= 7,
        rot < 4,
        cx <= i32::MAX - 3,
        cy <= BOARD_H,
    ensures
        r >= cy,
        collides(*board, t as int, rot as int, cx as int, r + 1),
        forall|k: int| cy < k <= r ==> !collides(*board, t as int, rot as int, cx as int, k),
{
    let mut drop_y = cy;
    let ghost cell = lemma_piece_has_cell(t as int, rot as int);
    while !check_collision(board, t, rot, cx, drop_y + 1)
        invariant
            1 <= t <= 7,
            rot < 4,
            cx <= i32::MAX - 3,
            cy <= drop_y <= BOARD_H,
            0 <= cell.0 < 4 && 0 <= cell.1 < 4,
            cell_filled(t as int, rot as int, cell.0, cell.1),
            forall|k: int| cy < k <= drop_y ==> !collides(*board, t as int, rot as int, cx as int, k),
        decreases BOARD_H - drop_y,
    {
        proof {
            if drop_y + 1 >= BOARD_H {
                assert(cell_blocked(*board, cx + cell.0, drop_y + 1 + cell.1));
            }
        }
        drop_y = drop_y + 1;
    }
    drop_y
}

} // verus!
