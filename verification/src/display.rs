//! The games' software framebuffer: 32-bit BGRA pixels in rows, clipped drawing of pixels,
//! rectangles, 3x5 glyphs, text and decimal numbers.
use vstd::prelude::*;
use vstd::string::StringSliceAdditionalSpecFns;

verus! {

/// Bytes of a pixel as stored: blue, green, red, then opaque alpha.
pub open spec fn shade(c: (u8, u8, u8)) -> (u8, u8, u8, u8) {
    (c.2, c.1, c.0, 255u8)
}

/// Rows of the 3x5 glyph of `c`, top to bottom, each as 3 cells left to right; `None` when
/// the font has no glyph for `c`.
pub open spec fn spec_glyph(c: u8) -> Option<Seq<u8>> {
    if c == 65 { Some(seq![1, 1, 1, 1, 0, 1, 1, 1, 1, 1, 0, 1, 1, 0, 1]) }
    else if c == 66 { Some(seq![1, 1, 0, 1, 0, 1, 1, 1, 0, 1, 0, 1, 1, 1, 0]) }
    else if c == 67 { Some(seq![1, 1, 1, 1, 0, 0, 1, 0, 0, 1, 0, 0, 1, 1, 1]) }
    else if c == 68 { Some(seq![1, 1, 0, 1, 0, 1, 1, 0, 1, 1, 0, 1, 1, 1, 0]) }
    else if c == 69 { Some(seq![1, 1, 1, 1, 0, 0, 1, 1, 1, 1, 0, 0, 1, 1, 1]) }
    else if c == 70 { Some(seq![1, 1, 1, 1, 0, 0, 1, 1, 1, 1, 0, 0, 1, 0, 0]) }
    else if c == 71 { Some(seq![1, 1, 1, 1, 0, 0, 1, 0, 1, 1, 0, 1, 1, 1, 1]) }
    else if c == 72 { Some(seq![1, 0, 1, 1, 0, 1, 1, 1, 1, 1, 0, 1, 1, 0, 1]) }
    else if c == 73 { Some(seq![1, 1, 1, 0, 1, 0, 0, 1, 0, 0, 1, 0, 1, 1, 1]) }
    else if c == 74 { Some(seq![0, 0, 1, 0, 0, 1, 0, 0, 1, 1, 0, 1, 1, 1, 1]) }
    else if c == 75 { Some(seq![1, 0, 1, 1, 1, 0, 1, 1, 0, 1, 0, 1, 1, 0, 1]) }
    else if c == 76 { Some(seq![1, 0, 0, 1, 0, 0, 1, 0, 0, 1, 0, 0, 1, 1, 1]) }
    else if c == 77 { Some(seq![1, 0, 1, 1, 1, 1, 1, 0, 1, 1, 0, 1, 1, 0, 1]) }
    else if c == 78 { Some(seq![1, 1, 1, 1, 0, 1, 1, 0, 1, 1, 0, 1, 1, 0, 1]) }
    else if c == 79 { Some(seq![1, 1, 1, 1, 0, 1, 1, 0, 1, 1, 0, 1, 1, 1, 1]) }
    else if c == 80 { Some(seq![1, 1, 1, 1, 0, 1, 1, 1, 1, 1, 0, 0, 1, 0, 0]) }
    else if c == 81 { Some(seq![1, 1, 1, 1, 0, 1, 1, 0, 1, 1, 1, 1, 0, 0, 1]) }
    else if c == 82 { Some(seq![1, 1, 1, 1, 0, 1, 1, 1, 0, 1, 0, 1, 1, 0, 1]) }
    else if c == 83 { Some(seq![1, 1, 1, 1, 0, 0, 1, 1, 1, 0, 0, 1, 1, 1, 1]) }
    else if c == 84 { Some(seq![1, 1, 1, 0, 1, 0, 0, 1, 0, 0, 1, 0, 0, 1, 0]) }
    else if c == 85 { Some(seq![1, 0, 1, 1, 0, 1, 1, 0, 1, 1, 0, 1, 1, 1, 1]) }
    else if c == 86 { Some(seq![1, 0, 1, 1, 0, 1, 1, 0, 1, 1, 0, 1, 0, 1, 0]) }
    else if c == 87 { Some(seq![1, 0, 1, 1, 0, 1, 1, 0, 1, 1, 1, 1, 1, 0, 1]) }
    else if c == 88 { Some(seq![1, 0, 1, 1, 0, 1, 0, 1, 0, 1, 0, 1, 1, 0, 1]) }
    else if c == 89 { Some(seq![1, 0, 1, 1, 0, 1, 0, 1, 0, 0, 1, 0, 0, 1, 0]) }
    else if c == 90 { Some(seq![1, 1, 1, 0, 0, 1, 0, 1, 0, 1, 0, 0, 1, 1, 1]) }
    else if c == 48 { Some(seq![1, 1, 1, 1, 0, 1, 1, 0, 1, 1, 0, 1, 1, 1, 1]) }
    else if c == 49 { Some(seq![0, 1, 0, 1, 1, 0, 0, 1, 0, 0, 1, 0, 1, 1, 1]) }
    else if c == 50 { Some(seq![1, 1, 1, 0, 0, 1, 1, 1, 1, 1, 0, 0, 1, 1, 1]) }
    else if c == 51 { Some(seq![1, 1, 1, 0, 0, 1, 1, 1, 1, 0, 0, 1, 1, 1, 1]) }
    else if c == 52 { Some(seq![1, 0, 1, 1, 0, 1, 1, 1, 1, 0, 0, 1, 0, 0, 1]) }
    else if c == 53 { Some(seq![1, 1, 1, 1, 0, 0, 1, 1, 1, 0, 0, 1, 1, 1, 1]) }
    else if c == 54 { Some(seq![1, 1, 1, 1, 0, 0, 1, 1, 1, 1, 0, 1, 1, 1, 1]) }
    else if c == 55 { Some(seq![1, 1, 1, 0, 0, 1, 0, 0, 1, 0, 0, 1, 0, 0, 1]) }
    else if c == 56 { Some(seq![1, 1, 1, 1, 0, 1, 1, 1, 1, 1, 0, 1, 1, 1, 1]) }
    else if c == 57 { Some(seq![1, 1, 1, 1, 0, 1, 1, 1, 1, 0, 0, 1, 1, 1, 1]) }
    else if c == 47 { Some(seq![0, 0, 1, 0, 0, 1, 0, 1, 0, 1, 0, 0, 1, 0, 0]) }
    else { None }
}

/// The glyph of `c` as 15 cells, row by row.
pub fn glyph(c: u8) -> (r: Option<[u8; 15]>)
    ensures
        r is None <==> spec_glyph(c) is None,
        r is Some ==> r->Some_0@ == spec_glyph(c)->Some_0,
{
    let g: [u8; 15] = match c {
        65 => [1, 1, 1, 1, 0, 1, 1, 1, 1, 1, 0, 1, 1, 0, 1],
        66 => [1, 1, 0, 1, 0, 1, 1, 1, 0, 1, 0, 1, 1, 1, 0],
        67 => [1, 1, 1, 1, 0, 0, 1, 0, 0, 1, 0, 0, 1, 1, 1],
        68 => [1, 1, 0, 1, 0, 1, 1, 0, 1, 1, 0, 1, 1, 1, 0],
        69 => [1, 1, 1, 1, 0, 0, 1, 1, 1, 1, 0, 0, 1, 1, 1],
        70 => [1, 1, 1, 1, 0, 0, 1, 1, 1, 1, 0, 0, 1, 0, 0],
        71 => [1, 1, 1, 1, 0, 0, 1, 0, 1, 1, 0, 1, 1, 1, 1],
        72 => [1, 0, 1, 1, 0, 1, 1, 1, 1, 1, 0, 1, 1, 0, 1],
        73 => [1, 1, 1, 0, 1, 0, 0, 1, 0, 0, 1, 0, 1, 1, 1],
        74 => [0, 0, 1, 0, 0, 1, 0, 0, 1, 1, 0, 1, 1, 1, 1],
        75 => [1, 0, 1, 1, 1, 0, 1, 1, 0, 1, 0, 1, 1, 0, 1],
        76 => [1, 0, 0, 1, 0, 0, 1, 0, 0, 1, 0, 0, 1, 1, 1],
        77 => [1, 0, 1, 1, 1, 1, 1, 0, 1, 1, 0, 1, 1, 0, 1],
        78 => [1, 1, 1, 1, 0, 1, 1, 0, 1, 1, 0, 1, 1, 0, 1],
        79 => [1, 1, 1, 1, 0, 1, 1, 0, 1, 1, 0, 1, 1, 1, 1],
        80 => [1, 1, 1, 1, 0, 1, 1, 1, 1, 1, 0, 0, 1, 0, 0],
        81 => [1, 1, 1, 1, 0, 1, 1, 0, 1, 1, 1, 1, 0, 0, 1],
        82 => [1, 1, 1, 1, 0, 1, 1, 1, 0, 1, 0, 1, 1, 0, 1],
        83 => [1, 1, 1, 1, 0, 0, 1, 1, 1, 0, 0, 1, 1, 1, 1],
        84 => [1, 1, 1, 0, 1, 0, 0, 1, 0, 0, 1, 0, 0, 1, 0],
        85 => [1, 0, 1, 1, 0, 1, 1, 0, 1, 1, 0, 1, 1, 1, 1],
        86 => [1, 0, 1, 1, 0, 1, 1, 0, 1, 1, 0, 1, 0, 1, 0],
        87 => [1, 0, 1, 1, 0, 1, 1, 0, 1, 1, 1, 1, 1, 0, 1],
        88 => [1, 0, 1, 1, 0, 1, 0, 1, 0, 1, 0, 1, 1, 0, 1],
        89 => [1, 0, 1, 1, 0, 1, 0, 1, 0, 0, 1, 0, 0, 1, 0],
        90 => [1, 1, 1, 0, 0, 1, 0, 1, 0, 1, 0, 0, 1, 1, 1],
        48 => [1, 1, 1, 1, 0, 1, 1, 0, 1, 1, 0, 1, 1, 1, 1],
        49 => [0, 1, 0, 1, 1, 0, 0, 1, 0, 0, 1, 0, 1, 1, 1],
        50 => [1, 1, 1, 0, 0, 1, 1, 1, 1, 1, 0, 0, 1, 1, 1],
        51 => [1, 1, 1, 0, 0, 1, 1, 1, 1, 0, 0, 1, 1, 1, 1],
        52 => [1, 0, 1, 1, 0, 1, 1, 1, 1, 0, 0, 1, 0, 0, 1],
        53 => [1, 1, 1, 1, 0, 0, 1, 1, 1, 0, 0, 1, 1, 1, 1],
        54 => [1, 1, 1, 1, 0, 0, 1, 1, 1, 1, 0, 1, 1, 1, 1],
        55 => [1, 1, 1, 0, 0, 1, 0, 0, 1, 0, 0, 1, 0, 0, 1],
        56 => [1, 1, 1, 1, 0, 1, 1, 1, 1, 1, 0, 1, 1, 1, 1],
        57 => [1, 1, 1, 1, 0, 1, 1, 1, 1, 0, 0, 1, 1, 1, 1],
        47 => [0, 0, 1, 0, 0, 1, 0, 1, 0, 1, 0, 0, 1, 0, 0],
        _ => { return None; },
    };
    assert(g@ =~= spec_glyph(c)->Some_0);
    Some(g)
}

/// Glyph cell `(row, col)` of `c` is lit.
pub open spec fn glyph_lit(c: u8, row: int, col: int) -> bool {
    spec_glyph(c) is Some && 0 <= row < 5 && 0 <= col < 3 && spec_glyph(c)->Some_0[row * 3 + col] == 1
}

/// Pixel `(px, py)` is covered by a lit cell of glyph `c` drawn at `(x, y)` with cells of
/// `scale` by `scale` pixels.
pub open spec fn in_glyph(c: u8, x: int, y: int, scale: int, px: int, py: int) -> bool {
    exists|row: int, col: int| #[trigger] glyph_lit(c, row, col)
        && x + col * scale <= px < x + col * scale + scale
        && y + row * scale <= py < y + row * scale + scale
}

/// Pixel `(px, py)` is covered by the text `s` drawn from `(x, y)`, one glyph every `4 * scale`
/// pixels, spaces left blank.
pub open spec fn in_text(s: Seq<u8>, x: int, y: int, scale: int, px: int, py: int) -> bool {
    exists|i: int| 0 <= i < s.len() && s[i] != 32 && #[trigger] in_glyph(s[i], x + 4 * scale * i, y, scale, px, py)
}

/// Pixel `(px, py)` lies in the cell `(row, col)` of a glyph drawn at `(x, y)` with cells of
/// `scale` by `scale` pixels.
pub open spec fn in_cell(x: int, y: int, scale: int, row: int, col: int, px: int, py: int) -> bool {
    x + col * scale <= px < x + col * scale + scale && y + row * scale <= py < y + row * scale + scale
}

/// Pixel `(px, py)` is covered by one of the first `n` cells (row by row) of glyph `c`.
pub open spec fn in_cells(c: u8, x: int, y: int, scale: int, n: int, px: int, py: int) -> bool {
    exists|row: int, col: int| #[trigger] glyph_lit(c, row, col) && row * 3 + col < n
        && in_cell(x, y, scale, row, col, px, py)
}

/// Pixel `(px, py)` is covered by one of the first `n` characters of `s` drawn as text.
pub open spec fn in_text_upto(s: Seq<u8>, x: int, y: int, scale: int, n: int, px: int, py: int) -> bool {
    exists|i: int| 0 <= i < n && i < s.len() && s[i] != 32 && #[trigger] in_glyph(s[i], x + 4 * scale * i, y, scale, px, py)
}

proof fn lemma_cells_step(c: u8, x: int, y: int, scale: int, row: int, col: int)
    requires
        0 <= row < 5,
        0 <= col < 3,
    ensures
        forall|px: int, py: int| #[trigger] in_cells(c, x, y, scale, row * 3 + col + 1, px, py) <==>
            (in_cells(c, x, y, scale, row * 3 + col, px, py) || (glyph_lit(c, row, col) && in_cell(x, y, scale, row, col, px, py))),
{
    assert forall|px: int, py: int| #[trigger] in_cells(c, x, y, scale, row * 3 + col + 1, px, py) implies
        (in_cells(c, x, y, scale, row * 3 + col, px, py) || (glyph_lit(c, row, col) && in_cell(x, y, scale, row, col, px, py))) by {
        let (r, cl) = choose|r: int, cl: int| #[trigger] glyph_lit(c, r, cl) && r * 3 + cl < row * 3 + col + 1
            && in_cell(x, y, scale, r, cl, px, py);
        if r * 3 + cl == row * 3 + col {
            assert(r == row && cl == col);
        }
    }
}

proof fn lemma_cells_all(c: u8, x: int, y: int, scale: int)
    ensures
        forall|px: int, py: int| #[trigger] in_cells(c, x, y, scale, 15, px, py) <==> in_glyph(c, x, y, scale, px, py),
{
    assert forall|px: int, py: int| #[trigger] in_glyph(c, x, y, scale, px, py) implies in_cells(c, x, y, scale, 15, px, py) by {
        let (r, cl) = choose|r: int, cl: int| #[trigger] glyph_lit(c, r, cl)
            && x + cl * scale <= px < x + cl * scale + scale && y + r * scale <= py < y + r * scale + scale;
        assert(in_cell(x, y, scale, r, cl, px, py));
    }
    assert forall|px: int, py: int| #[trigger] in_cells(c, x, y, scale, 15, px, py) implies in_glyph(c, x, y, scale, px, py) by {
        let (r, cl) = choose|r: int, cl: int| #[trigger] glyph_lit(c, r, cl) && r * 3 + cl < 15
            && in_cell(x, y, scale, r, cl, px, py);
        assert(glyph_lit(c, r, cl));
    }
}

proof fn lemma_text_step(s: Seq<u8>, x: int, y: int, scale: int, n: int)
    requires
        0 <= n < s.len(),
    ensures
        forall|px: int, py: int| #[trigger] in_text_upto(s, x, y, scale, n + 1, px, py) <==>
            (in_text_upto(s, x, y, scale, n, px, py) || (s[n] != 32 && in_glyph(s[n], x + 4 * scale * n, y, scale, px, py))),
{
    assert forall|px: int, py: int| #[trigger] in_text_upto(s, x, y, scale, n + 1, px, py) implies
        (in_text_upto(s, x, y, scale, n, px, py) || (s[n] != 32 && in_glyph(s[n], x + 4 * scale * n, y, scale, px, py))) by {
        let i = choose|i: int| 0 <= i < n + 1 && i < s.len() && s[i] != 32 && #[trigger] in_glyph(s[i], x + 4 * scale * i, y, scale, px, py);
        if i < n {
            assert(in_text_upto(s, x, y, scale, n, px, py));
        }
    }
}

/// The ASCII decimal digits of `n`, most significant first.
pub open spec fn decimal_digits(n: nat) -> Seq<u8>
    decreases n,
{
    if n < 10 {
        seq![(48 + n) as u8]
    } else {
        decimal_digits(n / 10).push((48 + n % 10) as u8)
    }
}

/// Ten to the power `k`.
pub open spec fn pow10(k: nat) -> nat
    decreases k,
{
    if k == 0 { 1 } else { 10 * pow10((k - 1) as nat) }
}

pub proof fn lemma_decimal_digits_len(n: nat, k: nat)
    requires
        n < pow10(k),
        k >= 1,
    ensures
        decimal_digits(n).len() <= k,
    decreases n,
{
    if n >= 10 {
        assert(k >= 2) by {
            if k == 1 {
                assert(pow10(1) == 10) by { reveal_with_fuel(pow10, 2); }
            }
        }
        assert(n / 10 < pow10((k - 1) as nat)) by (nonlinear_arith)
            requires n < pow10(k), pow10(k) == 10 * pow10((k - 1) as nat);
        lemma_decimal_digits_len(n / 10, (k - 1) as nat);
    }
}

pub proof fn lemma_digits_ascii(n: nat)
    ensures
        decimal_digits(n).len() >= 1,
        forall|i: int| 0 <= i < decimal_digits(n).len() ==> 48 <= #[trigger] decimal_digits(n)[i] <= 57,
    decreases n,
{
    if n >= 10 {
        lemma_digits_ascii(n / 10);
    }
}

/// A frame of `w` by `h` pixels, kept in memory until it is copied to the screen.
pub struct Display {
    bytes: Vec<u8>,
    w: usize,
    h: usize,
    offset_x: usize,
    offset_y: usize,
}

impl Display {
    /// The byte buffer holds exactly the frame's pixels.
    pub closed spec fn wf(&self) -> bool {
        self.bytes@.len() == self.w * self.h * 4
    }

    /// Width in pixels.
    pub closed spec fn spec_w(&self) -> int {
        self.w as int
    }

    /// Height in pixels.
    pub closed spec fn spec_h(&self) -> int {
        self.h as int
    }

    /// Left edge of the play area.
    pub closed spec fn spec_offset_x(&self) -> int {
        self.offset_x as int
    }

    /// Top edge of the play area.
    pub closed spec fn spec_offset_y(&self) -> int {
        self.offset_y as int
    }

    /// The stored bytes of pixel `(x, y)`.
    pub closed spec fn pixel(&self, x: int, y: int) -> (u8, u8, u8, u8) {
        let o = (y * self.w + x) * 4;
        (self.bytes@[o], self.bytes@[o + 1], self.bytes@[o + 2], self.bytes@[o + 3])
    }

    /// The raw frame: `spec_w * spec_h` pixels of 4 bytes, row by row.
    pub closed spec fn spec_bytes(&self) -> Seq<u8> {
        self.bytes@
    }

    /// `(x, y)` is a pixel of the frame.
    pub open spec fn on_screen(&self, x: int, y: int) -> bool {
        0 <= x < self.spec_w() && 0 <= y < self.spec_h()
    }

    /// `new` is `old` with the pixels of `region` (within the frame) set to `color`.
    pub open spec fn painted(old: &Display, new: &Display, region: spec_fn(int, int) -> bool, color: (u8, u8, u8)) -> bool {
        &&& new.wf()
        &&& new.spec_w() == old.spec_w()
        &&& new.spec_h() == old.spec_h()
        &&& new.spec_offset_x() == old.spec_offset_x()
        &&& new.spec_offset_y() == old.spec_offset_y()
        &&& forall|x: int, y: int| #[trigger] old.on_screen(x, y) ==> new.pixel(x, y) == if region(x, y) {
            shade(color)
        } else {
            old.pixel(x, y)
        }
    }

    /// A black, transparent frame of `w` by `h` pixels with the given play-area corner.
    pub fn new(w: usize, h: usize, offset_x: usize, offset_y: usize) -> (r: Display)
        requires
            w * h * 4 <= usize::MAX,
        ensures
            r.wf(),
            r.spec_w() == w,
            r.spec_h() == h,
            r.spec_offset_x() == offset_x,
            r.spec_offset_y() == offset_y,
            forall|x: int, y: int| #[trigger] r.on_screen(x, y) ==> r.pixel(x, y) == (0u8, 0u8, 0u8, 0u8),
    {
        let n = w * h * 4;
        let mut bytes: Vec<u8> = Vec::new();
        let mut i: usize = 0;
        while i < n
            invariant
                0 <= i <= n,
                bytes@.len() == i,
                forall|k: int| 0 <= k < i ==> #[trigger] bytes@[k] == 0u8,
            decreases n - i,
        {
            bytes.push(0);
            i = i + 1;
        }
        let r = Display { bytes, w, h, offset_x, offset_y };
        assert forall|x: int, y: int| #[trigger] r.on_screen(x, y) implies r.pixel(x, y) == (0u8, 0u8, 0u8, 0u8) by {
            Self::lemma_offset(w as int, h as int, x, y);
        }
        r
    }

    /// Width in pixels.
    pub fn width(&self) -> (r: usize)
        ensures
            r == self.spec_w(),
    {
        self.w
    }

    /// Height in pixels.
    pub fn height(&self) -> (r: usize)
        ensures
            r == self.spec_h(),
    {
        self.h
    }

    /// Left edge of the play area.
    pub fn offset_x(&self) -> (r: usize)
        ensures
            r == self.spec_offset_x(),
    {
        self.offset_x
    }

    /// Top edge of the play area.
    pub fn offset_y(&self) -> (r: usize)
        ensures
            r == self.spec_offset_y(),
    {
        self.offset_y
    }

    /// The frame's bytes, for copying to the screen.
    pub fn frame(&self) -> (r: &Vec<u8>)
        requires
            self.wf(),
        ensures
            r@ == self.spec_bytes(),
            r@.len() == self.spec_w() * self.spec_h() * 4,
    {
        &self.bytes
    }

    proof fn lemma_offset(w: int, h: int, x: int, y: int)
        requires
            0 <= x < w,
            0 <= y < h,
        ensures
            0 <= y * w,
            0 <= (y * w + x) * 4,
            (y * w + x) * 4 + 4 <= w * h * 4,
    {
        assert(y * w + x < w * h) by (nonlinear_arith)
            requires 0 <= x < w, 0 <= y < h;
        assert(0 <= y * w) by (nonlinear_arith)
            requires 0 <= y, 0 <= w;
    }

    proof fn lemma_distinct(w: int, x1: int, y1: int, x2: int, y2: int)
        requires
            0 <= x1 < w,
            0 <= x2 < w,
            0 <= y1,
            0 <= y2,
            x1 != x2 || y1 != y2,
        ensures
            (y1 * w + x1) * 4 + 4 <= (y2 * w + x2) * 4 || (y2 * w + x2) * 4 + 4 <= (y1 * w + x1) * 4,
    {
        assert(y1 * w + x1 != y2 * w + x2) by (nonlinear_arith)
            requires 0 <= x1 < w, 0 <= x2 < w, x1 != x2 || y1 != y2, 0 <= y1, 0 <= y2;
    }

    pub proof fn lemma_painted_region(a: &Display, b: &Display, r1: spec_fn(int, int) -> bool, r2: spec_fn(int, int) -> bool, color: (u8, u8, u8))
        requires
            Self::painted(a, b, r1, color),
            forall|x: int, y: int| #[trigger] a.on_screen(x, y) ==> (r1(x, y) <==> r2(x, y)),
        ensures
            Self::painted(a, b, r2, color),
    {
    }

    pub proof fn lemma_painted_join(a: &Display, b: &Display, c: &Display, r1: spec_fn(int, int) -> bool,
        r2: spec_fn(int, int) -> bool, r: spec_fn(int, int) -> bool, color: (u8, u8, u8))
        requires
            Self::painted(a, b, r1, color),
            Self::painted(b, c, r2, color),
            forall|x: int, y: int| #[trigger] a.on_screen(x, y) ==> (r(x, y) <==> (r1(x, y) || r2(x, y))),
        ensures
            Self::painted(a, c, r, color),
    {
        assert forall|x: int, y: int| #[trigger] a.on_screen(x, y) implies c.pixel(x, y) == if r(x, y) {
            shade(color)
        } else {
            a.pixel(x, y)
        } by {
            assert(b.on_screen(x, y));
        }
    }

    /// Sets pixel `(x, y)` to `color`; a pixel outside the frame is ignored.
    pub fn set_pixel(&mut self, x: usize, y: usize, color: (u8, u8, u8))
        requires
            old(self).wf(),
        ensures
            Self::painted(old(self), final(self), |px: int, py: int| px == x && py == y, color),
    {
        if x >= self.w || y >= self.h {
            return;
        }
        let len = self.bytes.len();
        proof {
            Self::lemma_offset(self.w as int, self.h as int, x as int, y as int);
            assert(0 <= y * self.w <= y * self.w + x);
        }
        let offset = (y * self.w + x) * 4;
        let ghost old_self = *self;
        self.bytes.set(offset, color.2);
        self.bytes.set(offset + 1, color.1);
        self.bytes.set(offset + 2, color.0);
        self.bytes.set(offset + 3, 0xff);
        proof {
            assert forall|px: int, py: int| #[trigger] old_self.on_screen(px, py) implies self.pixel(px, py) == if px == x && py == y {
                shade(color)
            } else {
                old_self.pixel(px, py)
            } by {
                Self::lemma_offset(self.w as int, self.h as int, px, py);
                if !(px == x && py == y) {
                    Self::lemma_distinct(self.w as int, px, py, x as int, y as int);
                }
            }
        }
    }

    /// Fills the `w` by `h` rectangle with top-left corner `(x, y)`, clipped to the frame.
    pub fn fill_rect(&mut self, x: usize, y: usize, w: usize, h: usize, color: (u8, u8, u8))
        requires
            old(self).wf(),
            x + w <= usize::MAX,
            y + h <= usize::MAX,
        ensures
            Self::painted(old(self), final(self), |px: int, py: int| x <= px < x + w && y <= py < y + h, color),
    {
        let ghost orig = *self;
        let mut dy: usize = 0;
        while dy < h
            invariant
                0 <= dy <= h,
                x + w <= usize::MAX,
                y + h <= usize::MAX,
                Self::painted(&orig, self, |px: int, py: int| x <= px < x + w && y <= py < y + dy, color),
            decreases h - dy,
        {
            let mut dx: usize = 0;
            while dx < w
                invariant
                    0 <= dx <= w,
                    0 <= dy < h,
                    x + w <= usize::MAX,
                    y + h <= usize::MAX,
                    Self::painted(&orig, self, |px: int, py: int|
                        (x <= px < x + w && y <= py < y + dy) || (x <= px < x + dx && py == y + dy), color),
                decreases w - dx,
            {
                let ghost before = *self;
                self.set_pixel(x + dx, y + dy, color);
                proof {
                    Self::lemma_painted_join(&orig, &before, self,
                        |px: int, py: int| (x <= px < x + w && y <= py < y + dy) || (x <= px < x + dx && py == y + dy),
                        |px: int, py: int| px == x + dx && py == y + dy,
                        |px: int, py: int| (x <= px < x + w && y <= py < y + dy) || (x <= px < x + dx + 1 && py == y + dy),
                        color);
                }
                dx = dx + 1;
            }
            proof {
                Self::lemma_painted_region(&orig, self,
                    |px: int, py: int| (x <= px < x + w && y <= py < y + dy) || (x <= px < x + dx && py == y + dy),
                    |px: int, py: int| x <= px < x + w && y <= py < y + dy + 1,
                    color);
            }
            dy = dy + 1;
        }
    }

    /// Fills the rectangle `w` by `h` at `(x, y)` shrunk by `inset` pixels on every side.
    pub fn draw_rect(&mut self, x: usize, y: usize, w: usize, h: usize, color: (u8, u8, u8), inset: usize)
        requires
            old(self).wf(),
            inset <= w,
            inset <= h,
            x + w <= usize::MAX,
            y + h <= usize::MAX,
        ensures
            Self::painted(old(self), final(self), |px: int, py: int|
                x + inset <= px < x + w - inset && y + inset <= py < y + h - inset, color),
    {
        let ghost orig = *self;
        let mut dy: usize = inset;
        while dy < h - inset
            invariant
                inset <= dy,
                inset <= w,
                inset <= h,
                dy == inset || dy <= h - inset,
                x + w <= usize::MAX,
                y + h <= usize::MAX,
                Self::painted(&orig, self, |px: int, py: int|
                    x + inset <= px < x + w - inset && y + inset <= py < y + dy, color),
            decreases h - dy,
        {
            let mut dx: usize = inset;
            while dx < w - inset
                invariant
                    inset <= dx,
                    dx == inset || dx <= w - inset,
                    inset <= w,
                    dy < h - inset,
                    x + w <= usize::MAX,
                    y + h <= usize::MAX,
                    Self::painted(&orig, self, |px: int, py: int|
                        (x + inset <= px < x + w - inset && y + inset <= py < y + dy)
                        || (x + inset <= px < x + dx && py == y + dy), color),
                decreases w - dx,
            {
                let ghost before = *self;
                self.set_pixel(x + dx, y + dy, color);
                proof {
                    Self::lemma_painted_join(&orig, &before, self,
                        |px: int, py: int| (x + inset <= px < x + w - inset && y + inset <= py < y + dy)
                            || (x + inset <= px < x + dx && py == y + dy),
                        |px: int, py: int| px == x + dx && py == y + dy,
                        |px: int, py: int| (x + inset <= px < x + w - inset && y + inset <= py < y + dy)
                            || (x + inset <= px < x + dx + 1 && py == y + dy),
                        color);
                }
                dx = dx + 1;
            }
            proof {
                Self::lemma_painted_region(&orig, self,
                    |px: int, py: int| (x + inset <= px < x + w - inset && y + inset <= py < y + dy)
                        || (x + inset <= px < x + dx && py == y + dy),
                    |px: int, py: int| x + inset <= px < x + w - inset && y + inset <= py < y + dy + 1,
                    color);
            }
            dy = dy + 1;
        }
        proof {
            Self::lemma_painted_region(&orig, self,
                |px: int, py: int| x + inset <= px < x + w - inset && y + inset <= py < y + dy,
                |px: int, py: int| x + inset <= px < x + w - inset && y + inset <= py < y + h - inset,
                color);
        }
    }

    /// Draws glyph `c` with its top-left corner at `(x, y)`, each cell `scale` pixels square;
    /// a character without a glyph draws nothing.
    pub fn draw_char(&mut self, x: usize, y: usize, c: u8, color: (u8, u8, u8), scale: usize)
        requires
            old(self).wf(),
            x + 3 * scale <= usize::MAX,
            y + 5 * scale <= usize::MAX,
        ensures
            Self::painted(old(self), final(self), |px: int, py: int| in_glyph(c, x as int, y as int, scale as int, px, py), color),
    {
        let ghost orig = *self;
        let bitmap = match glyph(c) {
            Some(b) => b,
            None => {
                assert(Self::painted(&orig, self, |px: int, py: int| in_glyph(c, x as int, y as int, scale as int, px, py), color));
                return;
            },
        };
        let mut row: usize = 0;
        while row < 5
            invariant
                0 <= row <= 5,
                x + 3 * scale <= usize::MAX,
                y + 5 * scale <= usize::MAX,
                spec_glyph(c) is Some,
                bitmap@ == spec_glyph(c)->Some_0,
                Self::painted(&orig, self, |px: int, py: int| in_cells(c, x as int, y as int, scale as int, row * 3, px, py), color),
            decreases 5 - row,
        {
            let mut col: usize = 0;
            while col < 3
                invariant
                    0 <= col <= 3,
                    0 <= row < 5,
                    x + 3 * scale <= usize::MAX,
                    y + 5 * scale <= usize::MAX,
                    spec_glyph(c) is Some,
                    bitmap@ == spec_glyph(c)->Some_0,
                    Self::painted(&orig, self, |px: int, py: int| in_cells(c, x as int, y as int, scale as int, row * 3 + col, px, py), color),
                decreases 3 - col,
            {
                proof {
                    assert(col * scale + scale <= 3 * scale) by (nonlinear_arith) requires col < 3;
                    assert(row * scale + scale <= 5 * scale) by (nonlinear_arith) requires row < 5;
                    lemma_cells_step(c, x as int, y as int, scale as int, row as int, col as int);
                }
                let ghost before = *self;
                if bitmap[row * 3 + col] == 1 {
                    self.fill_rect(x + col * scale, y + row * scale, scale, scale, color);
                    proof {
                        Self::lemma_painted_join(&orig, &before, self,
                            |px: int, py: int| in_cells(c, x as int, y as int, scale as int, row * 3 + col, px, py),
                            |px: int, py: int| x + col * scale <= px < x + col * scale + scale
                                && y + row * scale <= py < y + row * scale + scale,
                            |px: int, py: int| in_cells(c, x as int, y as int, scale as int, row * 3 + col + 1, px, py),
                            color);
                    }
                } else {
                    proof {
                        Self::lemma_painted_region(&orig, self,
                            |px: int, py: int| in_cells(c, x as int, y as int, scale as int, row * 3 + col, px, py),
                            |px: int, py: int| in_cells(c, x as int, y as int, scale as int, row * 3 + col + 1, px, py),
                            color);
                    }
                }
                col = col + 1;
            }
            row = row + 1;
        }
        proof {
            lemma_cells_all(c, x as int, y as int, scale as int);
            Self::lemma_painted_region(&orig, self,
                |px: int, py: int| in_cells(c, x as int, y as int, scale as int, row * 3, px, py),
                |px: int, py: int| in_glyph(c, x as int, y as int, scale as int, px, py),
                color);
        }
    }

    /// Draws the characters of `s` from `(x, y)`, advancing `4 * scale` pixels per character and
    /// leaving spaces blank.
    pub fn draw_string(&mut self, x: usize, y: usize, s: &str, color: (u8, u8, u8), scale: usize)
        requires
            old(self).wf(),
            x + 4 * scale * s.spec_bytes().len() + 4 * scale <= usize::MAX,
            y + 5 * scale <= usize::MAX,
        ensures
            Self::painted(old(self), final(self), |px: int, py: int|
                in_text(s.spec_bytes(), x as int, y as int, scale as int, px, py), color),
    {
        let bytes = s.as_bytes();
        self.draw_bytes(x, y, bytes, color, scale);
    }

    /// Draws the characters `bytes` from `(x, y)`, as `draw_string` does.
    pub fn draw_bytes(&mut self, x: usize, y: usize, bytes: &[u8], color: (u8, u8, u8), scale: usize)
        requires
            old(self).wf(),
            x + 4 * scale * bytes@.len() + 4 * scale <= usize::MAX,
            y + 5 * scale <= usize::MAX,
        ensures
            Self::painted(old(self), final(self), |px: int, py: int|
                in_text(bytes@, x as int, y as int, scale as int, px, py), color),
    {
        let ghost orig = *self;
        let mut cx = x;
        let mut i: usize = 0;
        while i < bytes.len()
            invariant
                0 <= i <= bytes@.len(),
                x + 4 * scale * bytes@.len() + 4 * scale <= usize::MAX,
                y + 5 * scale <= usize::MAX,
                cx == x + 4 * scale * i,
                Self::painted(&orig, self, |px: int, py: int|
                    in_text_upto(bytes@, x as int, y as int, scale as int, i as int, px, py), color),
            decreases bytes@.len() - i,
        {
            proof {
                assert(4 * scale * i + 4 * scale <= 4 * scale * bytes@.len() + 4 * scale) by (nonlinear_arith)
                    requires i < bytes@.len(), scale >= 0;
                assert(4 * scale * (i + 1) == 4 * scale * i + 4 * scale) by (nonlinear_arith);
                lemma_text_step(bytes@, x as int, y as int, scale as int, i as int);
            }
            let b = bytes[i];
            let ghost before = *self;
            if b != 32 {
                self.draw_char(cx, y, b, color, scale);
                proof {
                    Self::lemma_painted_join(&orig, &before, self,
                        |px: int, py: int| in_text_upto(bytes@, x as int, y as int, scale as int, i as int, px, py),
                        |px: int, py: int| in_glyph(b, cx as int, y as int, scale as int, px, py),
                        |px: int, py: int| in_text_upto(bytes@, x as int, y as int, scale as int, i + 1, px, py),
                        color);
                }
            } else {
                proof {
                    Self::lemma_painted_region(&orig, self,
                        |px: int, py: int| in_text_upto(bytes@, x as int, y as int, scale as int, i as int, px, py),
                        |px: int, py: int| in_text_upto(bytes@, x as int, y as int, scale as int, i + 1, px, py),
                        color);
                }
            }
            cx = cx + 4 * scale;
            i = i + 1;
        }
        proof {
            assert forall|px: int, py: int| #[trigger] orig.on_screen(px, py) implies
                (in_text_upto(bytes@, x as int, y as int, scale as int, i as int, px, py)
                <==> in_text(bytes@, x as int, y as int, scale as int, px, py)) by {
                if in_text(bytes@, x as int, y as int, scale as int, px, py) {
                    let k = choose|k: int| 0 <= k < bytes@.len() && bytes@[k] != 32
                        && #[trigger] in_glyph(bytes@[k], x + 4 * scale * k, y as int, scale as int, px, py);
                    assert(in_text_upto(bytes@, x as int, y as int, scale as int, i as int, px, py));
                }
            }
            Self::lemma_painted_region(&orig, self,
                |px: int, py: int| in_text_upto(bytes@, x as int, y as int, scale as int, i as int, px, py),
                |px: int, py: int| in_text(bytes@, x as int, y as int, scale as int, px, py),
                color);
        }
    }

    /// Draws `num` in decimal from `(x, y)`, most significant digit first, `4 * scale` pixels
    /// per digit.
    pub fn draw_number(&mut self, x: usize, y: usize, num: u32, color: (u8, u8, u8), scale: usize)
        requires
            old(self).wf(),
            x + 4 * scale * 10 + 4 * scale <= usize::MAX,
            y + 5 * scale <= usize::MAX,
        ensures
            Self::painted(old(self), final(self), |px: int, py: int|
                in_text(decimal_digits(num as nat), x as int, y as int, scale as int, px, py), color),
    {
        let text = number_text(num);
        proof {
            assert(pow10(10) == 10000000000) by { reveal_with_fuel(pow10, 11); }
            lemma_decimal_digits_len(num as nat, 10);
            assert(4 * scale * text@.len() <= 4 * scale * 10) by (nonlinear_arith)
                requires text@.len() <= 10;
        }
        self.draw_bytes(x, y, text.as_slice(), color, scale);
    }
}

/// The decimal digits of `num` as ASCII, most significant first.
pub fn number_text(num: u32) -> (r: Vec<u8>)
    ensures
        r@ == decimal_digits(num as nat),
{
    let mut digits: Vec<u8> = Vec::new();
    let mut n = num;
    if n == 0 {
        digits.push(48);
        assert(digits@ =~= decimal_digits(0));
        return digits;
    }
    // least significant first
    while n > 0
        invariant
            n <= num,
            num > 0,
            decimal_digits(num as nat) == (if n > 0 { decimal_digits(n as nat) } else { Seq::<u8>::empty() }) + digits@.reverse(),
        decreases n,
    {
        let d = (n % 10) as u8;
        proof {
            if n >= 10 {
                assert(decimal_digits(n as nat) == decimal_digits((n / 10) as nat).push((48 + n % 10) as u8));
            }
            assert(digits@.push((48 + d) as u8).reverse() =~= seq![(48 + d) as u8] + digits@.reverse());
        }
        digits.push(48 + d);
        n = n / 10;
    }
    let mut out: Vec<u8> = Vec::new();
    let mut i = digits.len();
    while i > 0
        invariant
            i <= digits@.len(),
            out@ == digits@.reverse().subrange(0, digits@.len() - i),
        decreases i,
    {
        i = i - 1;
        out.push(digits[i]);
        assert(out@ =~= digits@.reverse().subrange(0, digits@.len() - i));
    }
    assert(out@ =~= digits@.reverse());
    out
}

} // verus!
