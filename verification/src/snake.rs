//! Snake on a 20x20 grid: the two-key input queue, turning, one movement step with walls,
//! self-collision, eating and growth, food placement, and the board's geometry.
use vstd::prelude::*;
use crate::prng::Prng;
use crate::display::Display;

verus! {

/// Grid columns.
pub const GRID_W: usize = 20;
/// Grid rows.
pub const GRID_H: usize = 20;
/// Side of a grid cell in pixels.
pub const CELL_SIZE: usize = 20;
/// The longest the snake can grow.
pub const MAX_SNAKE_LEN: usize = 400;
/// Seed of the food generator.
pub const FOOD_SEED: u32 = 1234567;

/// Key event type and the keys that steer.
pub const EV_KEY: u16 = 1;
pub const KEY_W: u16 = 17;
pub const KEY_A: u16 = 30;
pub const KEY_S: u16 = 31;
pub const KEY_D: u16 = 32;
pub const KEY_UP: u16 = 103;
pub const KEY_LEFT: u16 = 105;
pub const KEY_RIGHT: u16 = 106;
pub const KEY_DOWN: u16 = 108;

/// `c` is a cell of the grid.
pub open spec fn in_grid(c: (i32, i32)) -> bool {
    0 <= c.0 < GRID_W && 0 <= c.1 < GRID_H
}

/// A well-formed snake: 1 to `MAX_SNAKE_LEN` distinct cells of the grid, head first.
pub open spec fn body_ok(body: Seq<(i32, i32)>) -> bool {
    &&& 1 <= body.len() <= MAX_SNAKE_LEN
    &&& forall|i: int| 0 <= i < body.len() ==> #[trigger] in_grid(body[i])
    &&& body.no_duplicates()
}

/// A unit step along one axis.
pub open spec fn is_direction(d: (i32, i32)) -> bool {
    (d.0 == 0 && (d.1 == 1 || d.1 == -1)) || (d.1 == 0 && (d.0 == 1 || d.0 == -1))
}

/// The starting snake: four cells in the middle row, head at the centre, facing right.
pub fn initial_snake() -> (r: Vec<(i32, i32)>)
    ensures
        r@ == seq![(10i32, 10i32), (9i32, 10i32), (8i32, 10i32), (7i32, 10i32)],
        body_ok(r@),
{
    let mut v: Vec<(i32, i32)> = Vec::new();
    let mut i: usize = 0;
    while i < 4
        invariant
            0 <= i <= 4,
            v@.len() == i,
            forall|j: int| 0 <= j < i ==> #[trigger] v@[j] == ((10 - j) as i32, 10i32),
        decreases 4 - i,
    {
        v.push(((GRID_W / 2) as i32 - i as i32, (GRID_H / 2) as i32));
        i = i + 1;
    }
    assert(v@ =~= seq![(10i32, 10i32), (9i32, 10i32), (8i32, 10i32), (7i32, 10i32)]);
    v
}

/// Key presses waiting to be applied, at most two, oldest first.
pub struct InputQueue {
    buf: [u16; 2],
    count: usize,
}

impl View for InputQueue {
    type V = Seq<u16>;

    closed spec fn view(&self) -> Seq<u16> {
        self.buf@.subrange(0, self.count as int)
    }
}

impl InputQueue {
    /// The queue holds at most two keys.
    pub closed spec fn wf(&self) -> bool {
        self.count <= 2
    }

    /// An empty queue.
    pub fn new() -> (q: Self)
        ensures
            q.wf(),
            q@ == Seq::<u16>::empty(),
    {
        let q = InputQueue { buf: [0, 0], count: 0 };
        assert(q@ =~= Seq::<u16>::empty());
        q
    }

    /// Queues a key press; a third waiting key is dropped.
    pub fn push(&mut self, code: u16)
        requires
            old(self).wf(),
        ensures
            final(self).wf(),
            final(self)@ == if old(self)@.len() < 2 { old(self)@.push(code) } else { old(self)@ },
    {
        if self.count < 2 {
            self.buf[self.count] = code;
            self.count = self.count + 1;
            assert(self@ =~= old(self)@.push(code));
        }
    }

    /// Takes the oldest key, if any.
    pub fn pop(&mut self) -> (r: Option<u16>)
        requires
            old(self).wf(),
        ensures
            final(self).wf(),
            old(self)@.len() == 0 ==> r is None && final(self)@ == old(self)@,
            old(self)@.len() > 0 ==> r == Some(old(self)@[0]) && final(self)@ == old(self)@.drop_first(),
    {
        if self.count == 0 {
            return None;
        }
        let code = self.buf[0];
        self.buf[0] = self.buf[1];
        self.count = self.count - 1;
        assert(self@ =~= old(self)@.drop_first());
        Some(code)
    }
}

/// The direction after key `code`: a vertical key turns a horizontally moving snake and a
/// horizontal key a vertically moving one; any other key, or one that would reverse or repeat
/// the direction, changes nothing.
pub open spec fn spec_turn(dir: (i32, i32), code: u16) -> (i32, i32) {
    if (code == KEY_UP || code == KEY_W) && dir.1 == 0 {
        (0i32, -1i32)
    } else if (code == KEY_DOWN || code == KEY_S) && dir.1 == 0 {
        (0i32, 1i32)
    } else if (code == KEY_LEFT || code == KEY_A) && dir.0 == 0 {
        (-1i32, 0i32)
    } else if (code == KEY_RIGHT || code == KEY_D) && dir.0 == 0 {
        (1i32, 0i32)
    } else {
        dir
    }
}

/// Applies key `code` to the direction `dir`.
pub fn turn(dir: (i32, i32), code: u16) -> (r: (i32, i32))
    ensures
        r == spec_turn(dir, code),
        is_direction(dir) ==> is_direction(r),
{
    if (code == KEY_UP || code == KEY_W) && dir.1 == 0 {
        (0, -1)
    } else if (code == KEY_DOWN || code == KEY_S) && dir.1 == 0 {
        (0, 1)
    } else if (code == KEY_LEFT || code == KEY_A) && dir.0 == 0 {
        (-1, 0)
    } else if (code == KEY_RIGHT || code == KEY_D) && dir.0 == 0 {
        (1, 0)
    } else {
        dir
    }
}

/// Steering: a key that names a side at right angles to the way the snake moves turns it to
/// that side (up: `(0, -1)`, down: `(0, 1)`, left: `(-1, 0)`, right: `(1, 0)`); whenever the
/// direction changes it points to the side the key names; a key never reverses the snake; and
/// any other key leaves the direction as it was.
pub proof fn lemma_turn_follows_key(dir: (i32, i32), code: u16)
    requires
        is_direction(dir),
    ensures
        dir.0 == 0 && (code == KEY_RIGHT || code == KEY_D) ==> spec_turn(dir, code) == (1i32, 0i32),
        dir.0 == 0 && (code == KEY_LEFT || code == KEY_A) ==> spec_turn(dir, code) == (-1i32, 0i32),
        dir.1 == 0 && (code == KEY_UP || code == KEY_W) ==> spec_turn(dir, code) == (0i32, -1i32),
        dir.1 == 0 && (code == KEY_DOWN || code == KEY_S) ==> spec_turn(dir, code) == (0i32, 1i32),
        spec_turn(dir, code) != dir ==> {
            let r = spec_turn(dir, code);
            ||| r == (1i32, 0i32) && (code == KEY_RIGHT || code == KEY_D)
            ||| r == (-1i32, 0i32) && (code == KEY_LEFT || code == KEY_A)
            ||| r == (0i32, -1i32) && (code == KEY_UP || code == KEY_W)
            ||| r == (0i32, 1i32) && (code == KEY_DOWN || code == KEY_S)
        },
        spec_turn(dir, code).0 != -dir.0 || spec_turn(dir, code).1 != -dir.1,
        code != KEY_RIGHT && code != KEY_D && code != KEY_LEFT && code != KEY_A && code != KEY_UP && code != KEY_W
            && code != KEY_DOWN && code != KEY_S ==> spec_turn(dir, code) == dir,
{
}

/// What a step did.
#[derive(Clone, Copy, PartialEq, Eq, Debug)]
pub enum StepOutcome {
    /// The head would leave the grid or run into the body: the game is over.
    Crashed,
    /// The snake moved; `ate` tells whether the head reached the food, `old_tail` is the cell
    /// the tail left (still covered when the snake grew).
    Moved { ate: bool, old_tail: (i32, i32) },
}

/// Where the head goes next.
pub open spec fn next_head(body: Seq<(i32, i32)>, dir: (i32, i32)) -> (i32, i32) {
    ((body[0].0 + dir.0) as i32, (body[0].1 + dir.1) as i32)
}

/// `cell` is one of the snake's cells.
pub fn on_snake(body: &Vec<(i32, i32)>, cell: (i32, i32)) -> (r: bool)
    ensures
        r == body@.contains(cell),
{
    let mut i: usize = 0;
    while i < body.len()
        invariant
            0 <= i <= body@.len(),
            forall|j: int| 0 <= j < i ==> body@[j] != cell,
        decreases body@.len() - i,
    {
        let c = body[i];
        if c.0 == cell.0 && c.1 == cell.1 {
            return true;
        }
        i = i + 1;
    }
    false
}

/// Moves the snake one cell along `dir`: it crashes into a wall or itself, or its head
/// advances and the body follows; on the food it grows by one cell (up to `MAX_SNAKE_LEN`).
pub fn step(body: &mut Vec<(i32, i32)>, dir: (i32, i32), food: (i32, i32)) -> (r: StepOutcome)
    requires
        body_ok(old(body)@),
        is_direction(dir),
    ensures
        body_ok(final(body)@),
        ({
            let b = old(body)@;
            let nh = next_head(b, dir);
            if !in_grid(nh) || b.contains(nh) {
                r == StepOutcome::Crashed && final(body)@ == b
            } else {
                let ate = nh == food;
                let grow = ate && b.len() < MAX_SNAKE_LEN;
                let new_len: int = if grow { b.len() + 1int } else { b.len() as int };
                &&& r == (StepOutcome::Moved { ate, old_tail: b.last() })
                &&& final(body)@ == seq![nh] + b.subrange(0, new_len - 1)
            }
        }),
{
    let ghost b = body@;
    let head = body[0];
    proof { assert(in_grid(b[0])); }
    let new_head = (head.0 + dir.0, head.1 + dir.1);
    if new_head.0 < 0 || new_head.0 >= GRID_W as i32 || new_head.1 < 0 || new_head.1 >= GRID_H as i32 {
        return StepOutcome::Crashed;
    }
    if on_snake(body, new_head) {
        return StepOutcome::Crashed;
    }
    let len = body.len();
    let old_tail = body[len - 1];
    let ate = new_head.0 == food.0 && new_head.1 == food.1;
    let mut new_body: Vec<(i32, i32)> = Vec::new();
    new_body.push(new_head);
    let keep = if ate && len < MAX_SNAKE_LEN { len } else { len - 1 };
    let mut i: usize = 0;
    while i < keep
        invariant
            0 <= i <= keep,
            keep <= len,
            len == b.len(),
            body@ == b,
            new_body@ == seq![new_head] + b.subrange(0, i as int),
        decreases keep - i,
    {
        new_body.push(body[i]);
        i = i + 1;
        assert(new_body@ =~= seq![new_head] + b.subrange(0, i as int));
    }
    proof {
        let nb = new_body@;
        assert forall|k: int| 0 <= k < nb.len() implies #[trigger] in_grid(nb[k]) by {
            if k > 0 {
                assert(nb[k] == b[k - 1]);
            }
        }
        assert(nb.no_duplicates()) by {
            assert forall|x: int, y: int| 0 <= x < nb.len() && 0 <= y < nb.len() && x != y implies nb[x] != nb[y] by {
                if x == 0 {
                    assert(nb[y] == b[y - 1]);
                    assert(b.contains(nb[y]));
                } else if y == 0 {
                    assert(nb[x] == b[x - 1]);
                    assert(b.contains(nb[x]));
                } else {
                    assert(nb[x] == b[x - 1] && nb[y] == b[y - 1]);
                }
            }
        }
    }
    *body = new_body;
    StepOutcome::Moved { ate, old_tail }
}

/// A food cell drawn from the generator: its column, then its row.
pub fn food_candidate(prng: &mut Prng) -> (r: (i32, i32))
    ensures
        in_grid(r),
        r.0 == crate::prng::lcg_next(old(prng).state) % 20,
        r.1 == crate::prng::lcg_next(crate::prng::lcg_next(old(prng).state)) % 20,
        final(prng).state == crate::prng::lcg_next(crate::prng::lcg_next(old(prng).state)),
{
    let fx = prng.next_range(0, GRID_W as u32) as i32;
    let fy = prng.next_range(0, GRID_H as u32) as i32;
    (fx, fy)
}

/// One try at placing food off the snake: the drawn cell, or `None` when it lies on the snake
/// (the caller draws again).
pub fn try_spawn_food(prng: &mut Prng, body: &Vec<(i32, i32)>) -> (r: Option<(i32, i32)>)
    ensures
        final(prng).state == crate::prng::lcg_next(crate::prng::lcg_next(old(prng).state)),
        ({
            let c = ((crate::prng::lcg_next(old(prng).state) % 20) as i32,
                (crate::prng::lcg_next(crate::prng::lcg_next(old(prng).state)) % 20) as i32);
            r == if body@.contains(c) { None } else { Some(c) }
        }),
{
    let c = food_candidate(prng);
    if on_snake(body, c) { None } else { Some(c) }
}

/// Top-left corner of the board, centred on a `screen_w` by `screen_h` screen (at 0 on a
/// smaller one).
pub fn board_offset(screen_w: usize, screen_h: usize) -> (r: (usize, usize))
    ensures
        r.0 == (if screen_w > 400 { (screen_w - 400) / 2 } else { 0 }),
        r.1 == (if screen_h > 400 { (screen_h - 400) / 2 } else { 0 }),
{
    let play = GRID_W * CELL_SIZE;
    let fx = if screen_w > play { screen_w - play } else { 0 };
    let fy = if screen_h > play { screen_h - play } else { 0 };
    (fx / 2, fy / 2)
}

/// Top-left pixel of grid cell `c` on a board whose corner is at `(ox, oy)`.
pub fn cell_origin(ox: usize, oy: usize, c: (i32, i32)) -> (r: (usize, usize))
    requires
        in_grid(c),
        ox + 400 <= usize::MAX,
        oy + 400 <= usize::MAX,
    ensures
        r.0 == ox + c.0 * CELL_SIZE,
        r.1 == oy + c.1 * CELL_SIZE,
{
    (ox + c.0 as usize * CELL_SIZE, oy + c.1 as usize * CELL_SIZE)
}

/// Background color.
pub open spec fn color_bg() -> (u8, u8, u8) { (35u8, 30u8, 30u8) }
/// Grid line color.
pub open spec fn color_grid() -> (u8, u8, u8) { (60u8, 50u8, 50u8) }
/// Border color.
pub open spec fn color_border() -> (u8, u8, u8) { (255u8, 255u8, 255u8) }

/// Pixel `(px, py)` lies on the top or left edge of a grid cell of the board at `(ox, oy)`.
pub open spec fn on_grid_line(ox: int, oy: int, px: int, py: int) -> bool {
    &&& ox <= px < ox + 400
    &&& oy <= py < oy + 400
    &&& ((py - oy) % 20 == 0 || (px - ox) % 20 == 0)
}

/// Pixel `(px, py)` lies on the one-pixel frame around the board at `(ox, oy)`.
pub open spec fn on_border(ox: int, oy: int, px: int, py: int) -> bool {
    ||| ox <= px <= ox + 400 && (py == oy - 1 || py == oy + 400)
    ||| oy <= py <= oy + 400 && (px == ox - 1 || px == ox + 400)
}

/// The first `k` cells' (row by row) edges of the grid.
pub open spec fn grid_upto(ox: int, oy: int, k: int, px: int, py: int) -> bool {
    on_grid_line(ox, oy, px, py) && ((py - oy) / 20) * 20 + (px - ox) / 20 < k
}

/// Paints the whole frame in the background color.
pub fn fill_background(d: &mut Display)
    requires
        old(d).wf(),
    ensures
        Display::painted(old(d), final(d), |x: int, y: int| true, color_bg()),
{
    let w = d.width();
    let h = d.height();
    d.fill_rect(0, 0, w, h, (35, 30, 30));
    proof {
        Display::lemma_painted_region(old(d), d, |px: int, py: int| 0 <= px < w && 0 <= py < h, |px: int, py: int| true,
            color_bg());
    }
}

/// Draws the board: the top and left edge of every cell in the grid color, then the frame
/// around the board in the border color.
pub fn draw_play_area(d: &mut Display)
    requires
        old(d).wf(),
        1 <= old(d).spec_offset_x(),
        1 <= old(d).spec_offset_y(),
        old(d).spec_offset_x() + 401 <= usize::MAX,
        old(d).spec_offset_y() + 401 <= usize::MAX,
    ensures
        final(d).wf(),
        final(d).spec_w() == old(d).spec_w(),
        final(d).spec_h() == old(d).spec_h(),
        final(d).spec_offset_x() == old(d).spec_offset_x(),
        final(d).spec_offset_y() == old(d).spec_offset_y(),
        forall|x: int, y: int| #[trigger] old(d).on_screen(x, y) ==> final(d).pixel(x, y) == (
            if on_border(old(d).spec_offset_x(), old(d).spec_offset_y(), x, y) {
                crate::display::shade(color_border())
            } else if on_grid_line(old(d).spec_offset_x(), old(d).spec_offset_y(), x, y) {
                crate::display::shade(color_grid())
            } else {
                old(d).pixel(x, y)
            }),
{
    let ghost orig = *d;
    let ox = d.offset_x();
    let oy = d.offset_y();
    let mut k: usize = 0;
    while k < GRID_W * GRID_H
        invariant
            0 <= k <= 400,
            ox == orig.spec_offset_x(),
            oy == orig.spec_offset_y(),
            1 <= ox,
            1 <= oy,
            ox + 401 <= usize::MAX,
            oy + 401 <= usize::MAX,
            Display::painted(&orig, d, |px: int, py: int| grid_upto(ox as int, oy as int, k as int, px, py), color_grid()),
        decreases 400 - k,
    {
        let gy = k / GRID_W;
        let gx = k % GRID_W;
        let px = ox + gx * CELL_SIZE;
        let py = oy + gy * CELL_SIZE;
        let ghost before = *d;
        d.fill_rect(px, py, CELL_SIZE, 1, (60, 50, 50));
        let ghost mid = *d;
        d.fill_rect(px, py, 1, CELL_SIZE, (60, 50, 50));
        proof {
            Display::lemma_painted_join(&before, &mid, d,
                |x: int, y: int| px <= x < px + 20 && py <= y < py + 1,
                |x: int, y: int| px <= x < px + 1 && py <= y < py + 20,
                |x: int, y: int| (px <= x < px + 20 && y == py) || (x == px && py <= y < py + 20),
                color_grid());
            assert forall|x: int, y: int| #[trigger] orig.on_screen(x, y) implies
                (grid_upto(ox as int, oy as int, k + 1, x, y) <==> (grid_upto(ox as int, oy as int, k as int, x, y)
                    || ((px <= x < px + 20 && y == py) || (x == px && py <= y < py + 20)))) by {
            }
            Display::lemma_painted_join(&orig, &before, d,
                |x: int, y: int| grid_upto(ox as int, oy as int, k as int, x, y),
                |x: int, y: int| (px <= x < px + 20 && y == py) || (x == px && py <= y < py + 20),
                |x: int, y: int| grid_upto(ox as int, oy as int, k + 1, x, y),
                color_grid());
        }
        k = k + 1;
    }
    let ghost gridded = *d;
    proof {
        Display::lemma_painted_region(&orig, d, |px: int, py: int| grid_upto(ox as int, oy as int, k as int, px, py),
            |px: int, py: int| on_grid_line(ox as int, oy as int, px, py), color_grid());
    }
    d.fill_rect(ox, oy - 1, 401, 1, (255, 255, 255));
    let ghost b1 = *d;
    d.fill_rect(ox, oy + 400, 401, 1, (255, 255, 255));
    let ghost b2 = *d;
    d.fill_rect(ox - 1, oy, 1, 401, (255, 255, 255));
    let ghost b3 = *d;
    d.fill_rect(ox + 400, oy, 1, 401, (255, 255, 255));
    proof {
        Display::lemma_painted_join(&gridded, &b1, &b2,
            |x: int, y: int| ox <= x < ox + 401 && oy - 1 <= y < oy,
            |x: int, y: int| ox <= x < ox + 401 && oy + 400 <= y < oy + 401,
            |x: int, y: int| ox <= x <= ox + 400 && (y == oy - 1 || y == oy + 400),
            color_border());
        Display::lemma_painted_join(&gridded, &b2, &b3,
            |x: int, y: int| ox <= x <= ox + 400 && (y == oy - 1 || y == oy + 400),
            |x: int, y: int| ox - 1 <= x < ox && oy <= y < oy + 401,
            |x: int, y: int| (ox <= x <= ox + 400 && (y == oy - 1 || y == oy + 400)) || (oy <= y <= oy + 400 && x == ox - 1),
            color_border());
        Display::lemma_painted_join(&gridded, &b3, d,
            |x: int, y: int| (ox <= x <= ox + 400 && (y == oy - 1 || y == oy + 400)) || (oy <= y <= oy + 400 && x == ox - 1),
            |x: int, y: int| ox + 400 <= x < ox + 401 && oy <= y < oy + 401,
            |x: int, y: int| on_border(ox as int, oy as int, x, y),
            color_border());
        assert forall|x: int, y: int| #[trigger] orig.on_screen(x, y) implies d.pixel(x, y) == (
            if on_border(ox as int, oy as int, x, y) {
                crate::display::shade(color_border())
            } else if on_grid_line(ox as int, oy as int, x, y) {
                crate::display::shade(color_grid())
            } else {
                orig.pixel(x, y)
            }) by {
            assert(gridded.on_screen(x, y));
        }
    }
}

} // verus!
