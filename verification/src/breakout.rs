//! Breakout: a wall of bricks, a paddle and a fixed-point ball; the state, its reset, the key
//! handling, one physics tick, the FPS line and the byte image used for saving.
use vstd::prelude::*;
use crate::display::number_text;

verus! {

/// Brick columns.
pub const BOARD_W: usize = 10;
/// Brick rows.
pub const BOARD_H: usize = 8;
/// Brick width in pixels.
pub const BRICK_W: usize = 76;
/// Brick height in pixels.
pub const BRICK_H: usize = 20;
/// Gap between bricks in pixels.
pub const BRICK_GAP: usize = 4;
/// Paddle width in pixels.
pub const PADDLE_W: i32 = 100;
/// Paddle height in pixels.
pub const PADDLE_H: i32 = 10;
/// Distance of the paddle's top from the bottom of the screen.
pub const PADDLE_Y_OFFSET: i32 = 50;
/// Pixels the paddle moves per key event.
pub const PADDLE_SPEED: i32 = 5;
/// Side of the square ball in pixels.
pub const BALL_SIZE: i32 = 8;
/// Fractional bits of the ball's fixed-point coordinates.
pub const FIXED_POINT_SHIFT: u32 = 8;

/// The whole game, as saved and loaded.
#[derive(Clone, Copy)]
pub struct GameState {
    /// Brick values row by row, `BOARD_W` per row; 0 is an empty cell, `k > 0` is a brick of
    /// color `k - 1`.
    pub bricks: [u8; 80],
    pub score: u32,
    pub lives: u32,
    pub paddle_x: i32,
    pub ball_x_fp: i32,
    pub ball_y_fp: i32,
    pub ball_dx_fp: i32,
    pub ball_dy_fp: i32,
    /// The ball has been launched.
    pub active: bool,
}

/// `x << FIXED_POINT_SHIFT` as `i32` computes it (bits shifted out are lost).
pub open spec fn to_fp(x: i32) -> i32 {
    x.wrapping_shl(FIXED_POINT_SHIFT)
}

/// Paddle position centring it on a screen `w` pixels wide.
pub open spec fn centred_paddle(w: i32) -> i32 {
    trunc_div_i32(w - PADDLE_W, 2)
}

/// Rust's `/` on `i32` for a positive divisor, rounding toward zero.
pub open spec fn trunc_div_i32(a: int, b: int) -> i32 {
    (if a >= 0 { a / b } else { -((-a) / b) }) as i32
}

/// Every brick of row `r` has value `r % 8 + 1`.
pub open spec fn full_wall(bricks: Seq<u8>) -> bool {
    &&& bricks.len() == 80
    &&& forall|k: int| 0 <= k < 80 ==> #[trigger] bricks[k] == ((k / 10) % 8 + 1) as u8
}

/// The ball parked on the centred paddle, not yet launched.
pub open spec fn ball_reset(s: GameState, w: i32, h: i32) -> bool {
    &&& !s.active
    &&& s.paddle_x == centred_paddle(w)
    &&& s.ball_x_fp == to_fp((s.paddle_x + PADDLE_W / 2) as i32)
    &&& s.ball_y_fp == to_fp((h - PADDLE_Y_OFFSET - PADDLE_H - BALL_SIZE) as i32)
    &&& s.ball_dx_fp == 384
    &&& s.ball_dy_fp == -640
}

impl GameState {
    /// A new game on a `screen_w` by `screen_h` screen: full wall, no score, three lives, the
    /// ball parked on the centred paddle.
    pub fn new(screen_w: usize, screen_h: usize) -> (r: Self)
        requires
            screen_w <= 0x7fff_ffff,
            screen_h <= 0x7fff_ffff,
        ensures
            full_wall(r.bricks@),
            r.score == 0,
            r.lives == 3,
            ball_reset(r, screen_w as i32, screen_h as i32),
    {
        let mut state = Self {
            bricks: [0; 80],
            score: 0,
            lives: 3,
            paddle_x: (screen_w as i32 - PADDLE_W) / 2,
            ball_x_fp: 0,
            ball_y_fp: 0,
            ball_dx_fp: 0,
            ball_dy_fp: 0,
            active: false,
        };
        state.reset_bricks();
        state.reset_ball(screen_w, screen_h);
        state
    }

    /// Rebuilds the full wall; nothing else changes.
    pub fn reset_bricks(&mut self)
        ensures
            full_wall(final(self).bricks@),
            final(self).score == old(self).score,
            final(self).lives == old(self).lives,
            final(self).paddle_x == old(self).paddle_x,
            final(self).ball_x_fp == old(self).ball_x_fp,
            final(self).ball_y_fp == old(self).ball_y_fp,
            final(self).ball_dx_fp == old(self).ball_dx_fp,
            final(self).ball_dy_fp == old(self).ball_dy_fp,
            final(self).active == old(self).active,
    {
        let mut bricks = self.bricks;
        let mut y: usize = 0;
        while y < BOARD_H
            invariant
                0 <= y <= BOARD_H,
                forall|k: int| 0 <= k < y * 10 ==> #[trigger] bricks@[k] == ((k / 10) % 8 + 1) as u8,
            decreases BOARD_H - y,
        {
            let mut x: usize = 0;
            while x < BOARD_W
                invariant
                    0 <= x <= BOARD_W,
                    0 <= y < BOARD_H,
                    forall|k: int| 0 <= k < y * 10 + x ==> #[trigger] bricks@[k] == ((k / 10) % 8 + 1) as u8,
                decreases BOARD_W - x,
            {
                bricks[y * BOARD_W + x] = (y % 8 + 1) as u8;
                proof {
                    assert((y * 10 + x) / 10 == y) by (nonlinear_arith) requires x < 10;
                }
                x = x + 1;
            }
            y = y + 1;
        }
        self.bricks = bricks;
    }

    /// Parks the ball on the centred paddle of a `screen_w` by `screen_h` screen, unlaunched,
    /// heading up and to the right; bricks, score and lives do not change.
    pub fn reset_ball(&mut self, screen_w: usize, screen_h: usize)
        requires
            screen_w <= 0x7fff_ffff,
            screen_h <= 0x7fff_ffff,
        ensures
            ball_reset(*final(self), screen_w as i32, screen_h as i32),
            final(self).bricks == old(self).bricks,
            final(self).score == old(self).score,
            final(self).lives == old(self).lives,
    {
        self.active = false;
        self.paddle_x = (screen_w as i32 - PADDLE_W) / 2;
        self.ball_x_fp = (self.paddle_x + PADDLE_W / 2).wrapping_shl(FIXED_POINT_SHIFT);
        self.ball_y_fp = (screen_h as i32 - PADDLE_Y_OFFSET - PADDLE_H - BALL_SIZE).wrapping_shl(FIXED_POINT_SHIFT);
        // 1.5 pixels right and 2.5 pixels up per tick
        self.ball_dx_fp = 3 * 128;
        self.ball_dy_fp = -(5 * 128);
        assert(self.paddle_x == centred_paddle(screen_w as i32));
    }
}

/// What the main loop does after a key event.
#[derive(Clone, Copy, PartialEq, Eq, Structural, Debug)]
pub enum KeyAction {
    /// Nothing beyond the state change.
    Continue,
    /// Save the game.
    Save,
    /// Load the saved game and redraw everything.
    Load,
    /// Leave the game.
    Quit,
}

/// Input event type of key events.
pub const EV_KEY: u16 = 1;
/// Key codes the game reacts to.
pub const KEY_Q: u16 = 16;
pub const KEY_A: u16 = 30;
pub const KEY_D: u16 = 32;
pub const KEY_F5: u16 = 63;
pub const KEY_F6: u16 = 64;
pub const KEY_LEFT: u16 = 105;
pub const KEY_RIGHT: u16 = 106;
pub const KEY_SPACE: u16 = 57;

/// The paddle moved by `delta` pixels; an unlaunched ball rides along.
pub open spec fn paddle_moved(old: GameState, new: GameState, delta: int) -> bool {
    &&& new.paddle_x == old.paddle_x + delta
    &&& new.ball_x_fp == if old.active { old.ball_x_fp } else { (old.ball_x_fp + to_fp(delta as i32)) as i32 }
    &&& new.bricks == old.bricks
    &&& new.score == old.score
    &&& new.lives == old.lives
    &&& new.ball_y_fp == old.ball_y_fp
    &&& new.ball_dx_fp == old.ball_dx_fp
    &&& new.ball_dy_fp == old.ball_dy_fp
    &&& new.active == old.active
}

/// The arithmetic of a paddle move fits in `i32`.
pub open spec fn key_safe(s: GameState, screen_w: usize) -> bool {
    &&& screen_w <= 0x20_0000
    &&& -0x20_0000 <= s.paddle_x <= 0x20_0000
    &&& !s.active ==> -0x2000_0000 <= s.ball_x_fp <= 0x2000_0000
}

impl GameState {
    /// Applies one input event: arrows or A/D move the paddle by `PADDLE_SPEED` within the
    /// screen, a fresh press of space launches the ball, F5 and F6 ask to save and load, Q to
    /// quit. Only key presses and repeats (`value` 1 or 2) count.
    pub fn handle_event(&mut self, event_type: u16, code: u16, value: u32, screen_w: usize) -> (r: KeyAction)
        requires
            key_safe(*old(self), screen_w),
        ensures
            PADDLE_W <= screen_w && 0 <= old(self).paddle_x <= screen_w - PADDLE_W
                ==> 0 <= final(self).paddle_x <= screen_w - PADDLE_W,
            !(event_type == EV_KEY && (value == 1 || value == 2)) ==> r == KeyAction::Continue && *final(self) == *old(self),
            event_type == EV_KEY && (value == 1 || value == 2) ==> {
                let o = *old(self);
                let n = *final(self);
                if code == KEY_LEFT || code == KEY_A {
                    r == KeyAction::Continue
                        && paddle_moved(o, n, (if o.paddle_x - PADDLE_SPEED > 0 { o.paddle_x - PADDLE_SPEED } else { 0 }) - o.paddle_x)
                } else if code == KEY_RIGHT || code == KEY_D {
                    r == KeyAction::Continue && paddle_moved(o, n,
                        (if o.paddle_x + PADDLE_SPEED < screen_w - PADDLE_W { o.paddle_x + PADDLE_SPEED } else { screen_w - PADDLE_W })
                        - o.paddle_x)
                } else if code == KEY_F5 {
                    r == KeyAction::Save && n == o
                } else if code == KEY_F6 {
                    r == KeyAction::Load && n == o
                } else if code == KEY_Q {
                    r == KeyAction::Quit && n == o
                } else if code == KEY_SPACE {
                    r == KeyAction::Continue && n == (GameState { active: o.active || value == 1, ..o })
                } else {
                    r == KeyAction::Continue && n == o
                }
            },
    {
        if !(event_type == EV_KEY && (value == 1 || value == 2)) {
            return KeyAction::Continue;
        }
        if code == KEY_LEFT || code == KEY_A {
            let target = if self.paddle_x - PADDLE_SPEED > 0 { self.paddle_x - PADDLE_SPEED } else { 0 };
            let delta_x = target - self.paddle_x;
            self.paddle_x = self.paddle_x + delta_x;
            if !self.active {
                proof { lemma_fp_range(delta_x); }
                self.ball_x_fp = self.ball_x_fp + delta_x.wrapping_shl(FIXED_POINT_SHIFT);
            }
            KeyAction::Continue
        } else if code == KEY_RIGHT || code == KEY_D {
            let limit = screen_w as i32 - PADDLE_W;
            let target = if self.paddle_x + PADDLE_SPEED < limit { self.paddle_x + PADDLE_SPEED } else { limit };
            let delta_x = target - self.paddle_x;
            self.paddle_x = self.paddle_x + delta_x;
            if !self.active {
                proof { lemma_fp_range(delta_x); }
                self.ball_x_fp = self.ball_x_fp + delta_x.wrapping_shl(FIXED_POINT_SHIFT);
            }
            KeyAction::Continue
        } else if code == KEY_F5 {
            KeyAction::Save
        } else if code == KEY_F6 {
            KeyAction::Load
        } else if code == KEY_Q {
            KeyAction::Quit
        } else if code == KEY_SPACE {
            if !self.active && value == 1 {
                self.active = true;
            }
            KeyAction::Continue
        } else {
            KeyAction::Continue
        }
    }
}

/// A fixed-point shift of a value within `2^23` in magnitude is its product by 256.
pub proof fn lemma_fp_range(x: i32)
    requires
        -0x80_0000 <= x <= 0x7f_ffff,
    ensures
        to_fp(x) == x * 256,
{
    assert(-0x80_0000 <= x <= 0x7f_ffff ==> x.wrapping_shl(8) == x * 256) by (bit_vector);
}

/// Left edge of brick `k` (row-major) in a wall whose top-left corner is `(ox, oy)`.
pub open spec fn brick_x(ox: int, k: int) -> int {
    ox + (k % 10) * (BRICK_W + BRICK_GAP)
}

/// Top edge of brick `k`.
pub open spec fn brick_y(oy: int, k: int) -> int {
    oy + (k / 10) * (BRICK_H + BRICK_GAP)
}

/// The ball with top-left pixel `(bx, by)` touches standing brick `k`.
pub open spec fn brick_struck(bricks: Seq<u8>, bx: int, by: int, ox: int, oy: int, k: int) -> bool {
    &&& bricks[k] > 0
    &&& bx + BALL_SIZE >= brick_x(ox, k)
    &&& bx <= brick_x(ox, k) + BRICK_W
    &&& by + BALL_SIZE >= brick_y(oy, k)
    &&& by <= brick_y(oy, k) + BRICK_H
}

/// The first brick, from `k` on in row-major order, that the ball touches.
pub open spec fn first_struck(bricks: Seq<u8>, bx: int, by: int, ox: int, oy: int, k: int) -> Option<int>
    decreases 80 - k,
{
    if k < 0 || k >= 80 {
        None
    } else if brick_struck(bricks, bx, by, ox, oy, k) {
        Some(k)
    } else {
        first_struck(bricks, bx, by, ox, oy, k + 1)
    }
}

/// A ball bouncing off brick `k` reverses horizontally when its smallest overlap with the brick
/// is on the left or right side.
pub open spec fn bounces_sideways(bx: int, by: int, ox: int, oy: int, k: int) -> bool {
    let left = bx + BALL_SIZE - brick_x(ox, k);
    let right = brick_x(ox, k) + BRICK_W - bx;
    let top = by + BALL_SIZE - brick_y(oy, k);
    let bottom = brick_y(oy, k) + BRICK_H - by;
    let m1 = if left < right { left } else { right };
    let m2 = if m1 < top { m1 } else { top };
    let m = if m2 < bottom { m2 } else { bottom };
    m == left || m == right
}

/// A brick's place in the wall.
#[derive(Clone, Copy, PartialEq, Eq, Structural, Debug)]
pub struct BrickPos {
    pub row: usize,
    pub col: usize,
}

/// What a tick did.
#[derive(Clone, Copy, PartialEq, Eq, Structural, Debug)]
pub enum TickOutcome {
    /// The ball is not launched; nothing moved.
    Idle,
    /// The ball fell past the paddle: a life is lost (a new game starts after the last one).
    BallLost,
    /// The ball moved; `brick` is the `(row, column)` of the brick it broke, if any.
    Moved { brick: Option<BrickPos> },
}

/// The arithmetic of a tick fits in `i32` and `u32`.
pub open spec fn tick_safe(s: GameState, w: usize, h: usize, ox: usize, oy: usize) -> bool {
    &&& w <= 0x20_0000
    &&& h <= 0x20_0000
    &&& ox <= 0x20_0000
    &&& oy <= 0x20_0000
    &&& -0x20_0000 <= s.paddle_x <= 0x20_0000
    &&& -0x4000_0000 <= s.ball_x_fp <= 0x4000_0000
    &&& -0x4000_0000 <= s.ball_y_fp <= 0x4000_0000
    &&& -0x3000_0000 <= s.ball_dx_fp <= 0x3000_0000
    &&& -0x3000_0000 <= s.ball_dy_fp <= 0x3000_0000
    &&& s.score <= u32::MAX - 10
}

/// The ball's fixed-point position after one step of its velocity.
pub open spec fn stepped(s: GameState) -> (i32, i32) {
    ((s.ball_x_fp + s.ball_dx_fp) as i32, (s.ball_y_fp + s.ball_dy_fp) as i32)
}

/// Whole-pixel position of a fixed-point coordinate.
pub open spec fn pixel_of(v: i32) -> int {
    (v >> FIXED_POINT_SHIFT) as int
}

/// Horizontal position and velocity after bouncing off the side walls.
pub open spec fn wall_x(s: GameState, w: int) -> (i32, i32) {
    let x = stepped(s).0;
    let bx = pixel_of(x);
    if bx <= 0 {
        (0, -s.ball_dx_fp as i32)
    } else if bx + BALL_SIZE >= w {
        (to_fp((w - BALL_SIZE) as i32), -s.ball_dx_fp as i32)
    } else {
        (x, s.ball_dx_fp)
    }
}

/// The ball reached the bottom of the screen.
pub open spec fn ball_lost(s: GameState, h: int) -> bool {
    let by = pixel_of(stepped(s).1);
    by > 0 && by + BALL_SIZE >= h
}

/// The (pre-bounce) ball touches the paddle.
pub open spec fn paddle_struck(s: GameState, h: int) -> bool {
    let bx = pixel_of(stepped(s).0);
    let by = pixel_of(stepped(s).1);
    let py = h - PADDLE_Y_OFFSET;
    by + BALL_SIZE >= py && by <= py + PADDLE_H && bx + BALL_SIZE >= s.paddle_x && bx <= s.paddle_x + PADDLE_W
}

/// The state after a tick in which the ball stays in play, before any brick is broken.
pub open spec fn moved(s: GameState, w: int, h: int) -> GameState {
    let (x, dx) = wall_x(s, w);
    let y1 = stepped(s).1;
    let by = pixel_of(y1);
    let bx = pixel_of(stepped(s).0);
    let (y, dy) = if by <= 0 { (0i32, -s.ball_dy_fp as i32) } else { (y1, s.ball_dy_fp) };
    if paddle_struck(s, h) {
        GameState {
            ball_x_fp: x,
            ball_y_fp: to_fp((h - PADDLE_Y_OFFSET - BALL_SIZE) as i32),
            ball_dy_fp: -dy as i32,
            ball_dx_fp: (dx + ((bx + BALL_SIZE / 2) - (s.paddle_x + PADDLE_W / 2)) * 16) as i32,
            ..s
        }
    } else {
        GameState { ball_x_fp: x, ball_y_fp: y, ball_dx_fp: dx, ball_dy_fp: dy, ..s }
    }
}

proof fn lemma_pixel_range(v: i32)
    ensures
        -0x80_0000 <= pixel_of(v) <= 0x7f_ffff,
        v >= 0 ==> pixel_of(v) >= 0,
{
    assert(-0x80_0000 <= (v >> 8u32) <= 0x7f_ffff) by (bit_vector);
    assert(v >= 0 ==> (v >> 8u32) >= 0) by (bit_vector);
}

impl GameState {
    /// One physics tick of a launched ball on a `screen_w` by `screen_h` screen whose wall of
    /// bricks starts at `(offset_x, offset_y)`: the ball steps, bounces off the side and top
    /// walls, is lost at the bottom, bounces off the paddle (steered by where it hits) and breaks
    /// the first brick it touches, scoring 10.
    pub fn tick(&mut self, screen_w: usize, screen_h: usize, offset_x: usize, offset_y: usize) -> (r: TickOutcome)
        requires
            tick_safe(*old(self), screen_w, screen_h, offset_x, offset_y),
        ensures
            !old(self).active ==> r == TickOutcome::Idle && *final(self) == *old(self),
            old(self).active && ball_lost(*old(self), screen_h as int) ==> r == TickOutcome::BallLost
                && ball_reset(*final(self), screen_w as i32, screen_h as i32)
                && (old(self).lives <= 1 ==> full_wall(final(self).bricks@) && final(self).score == 0 && final(self).lives == 3)
                && (old(self).lives > 1 ==> final(self).lives == old(self).lives - 1 && final(self).bricks == old(self).bricks
                    && final(self).score == old(self).score),
            old(self).active && !ball_lost(*old(self), screen_h as int) ==> {
                let m = moved(*old(self), screen_w as int, screen_h as int);
                let bx = pixel_of(stepped(*old(self)).0);
                let by = pixel_of(stepped(*old(self)).1);
                match first_struck(old(self).bricks@, bx, by, offset_x as int, offset_y as int, 0) {
                    None => r == (TickOutcome::Moved { brick: None }) && *final(self) == m,
                    Some(k) => {
                        &&& r == (TickOutcome::Moved { brick: Some(BrickPos { row: (k / 10) as usize, col: (k % 10) as usize }) })
                        &&& final(self).bricks@ == m.bricks@.update(k, 0u8)
                        &&& final(self).score == m.score + 10
                        &&& if bounces_sideways(bx, by, offset_x as int, offset_y as int, k) {
                                final(self).ball_dx_fp == -m.ball_dx_fp && final(self).ball_dy_fp == m.ball_dy_fp
                            } else {
                                final(self).ball_dx_fp == m.ball_dx_fp && final(self).ball_dy_fp == -m.ball_dy_fp
                            }
                        &&& final(self).lives == m.lives
                        &&& final(self).paddle_x == m.paddle_x
                        &&& final(self).ball_x_fp == m.ball_x_fp
                        &&& final(self).ball_y_fp == m.ball_y_fp
                        &&& final(self).active == m.active
                    },
                }
            },
    {
        if !self.active {
            return TickOutcome::Idle;
        }
        let ghost s0 = *self;
        let w = screen_w as i32;
        let h = screen_h as i32;
        self.ball_x_fp = self.ball_x_fp + self.ball_dx_fp;
        self.ball_y_fp = self.ball_y_fp + self.ball_dy_fp;
        let ball_x = self.ball_x_fp >> FIXED_POINT_SHIFT;
        let ball_y = self.ball_y_fp >> FIXED_POINT_SHIFT;
        proof {
            lemma_pixel_range(self.ball_x_fp);
            lemma_pixel_range(self.ball_y_fp);
        }
        if ball_x <= 0 {
            self.ball_x_fp = 0;
            self.ball_dx_fp = -self.ball_dx_fp;
        } else if ball_x + BALL_SIZE >= w {
            self.ball_x_fp = (w - BALL_SIZE).wrapping_shl(FIXED_POINT_SHIFT);
            self.ball_dx_fp = -self.ball_dx_fp;
        }
        if ball_y <= 0 {
            self.ball_y_fp = 0;
            self.ball_dy_fp = -self.ball_dy_fp;
        } else if ball_y + BALL_SIZE >= h {
            self.lives = if self.lives > 0 { self.lives - 1 } else { 0 };
            if self.lives == 0 {
                *self = GameState::new(screen_w, screen_h);
            } else {
                self.reset_ball(screen_w, screen_h);
            }
            return TickOutcome::BallLost;
        }
        let paddle_y_actual = h - PADDLE_Y_OFFSET;
        if ball_y + BALL_SIZE >= paddle_y_actual
            && ball_y <= paddle_y_actual + PADDLE_H
            && ball_x + BALL_SIZE >= self.paddle_x
            && ball_x <= self.paddle_x + PADDLE_W
        {
            self.ball_y_fp = (paddle_y_actual - BALL_SIZE).wrapping_shl(FIXED_POINT_SHIFT);
            self.ball_dy_fp = -self.ball_dy_fp;
            let hit_offset = (ball_x + BALL_SIZE / 2) - (self.paddle_x + PADDLE_W / 2);
            self.ball_dx_fp = self.ball_dx_fp + hit_offset * 16;
        }
        let ghost m = *self;
        assert(m == moved(s0, screen_w as int, screen_h as int));
        let mut k: usize = 0;
        while k < BOARD_W * BOARD_H
            invariant
                0 <= k <= 80,
                *self == m,
                s0 == *old(self),
                s0.active,
                !ball_lost(s0, screen_h as int),
                m == moved(s0, screen_w as int, screen_h as int),
                tick_safe(s0, screen_w, screen_h, offset_x, offset_y),
                ball_x == pixel_of(stepped(s0).0),
                ball_y == pixel_of(stepped(s0).1),
                -0x80_0000 <= ball_x <= 0x7f_ffff,
                -0x80_0000 <= ball_y <= 0x7f_ffff,
                -0x3000_0400 <= m.ball_dx_fp <= 0x3000_0400,
                -0x3000_0000 <= m.ball_dy_fp <= 0x3000_0000,
                m.score == s0.score,
                m.bricks == s0.bricks,
                first_struck(s0.bricks@, ball_x as int, ball_y as int, offset_x as int, offset_y as int, 0)
                    == first_struck(s0.bricks@, ball_x as int, ball_y as int, offset_x as int, offset_y as int, k as int),
            decreases 80 - k,
        {
            if self.bricks[k] > 0 {
                let row = k / BOARD_W;
                let col = k % BOARD_W;
                assert(row < 8 && col < 10);
                let bx = offset_x as i32 + (col * (BRICK_W + BRICK_GAP)) as i32;
                let by = offset_y as i32 + (row * (BRICK_H + BRICK_GAP)) as i32;
                if ball_x + BALL_SIZE >= bx
                    && ball_x <= bx + BRICK_W as i32
                    && ball_y + BALL_SIZE >= by
                    && ball_y <= by + BRICK_H as i32
                {
                    assert(brick_struck(s0.bricks@, ball_x as int, ball_y as int, offset_x as int, offset_y as int, k as int));
                    self.bricks[k] = 0;
                    self.score = self.score + 10;
                    let overlap_left = (ball_x + BALL_SIZE) - bx;
                    let overlap_right = (bx + BRICK_W as i32) - ball_x;
                    let overlap_top = (ball_y + BALL_SIZE) - by;
                    let overlap_bottom = (by + BRICK_H as i32) - ball_y;
                    let m1 = if overlap_left < overlap_right { overlap_left } else { overlap_right };
                    let m2 = if m1 < overlap_top { m1 } else { overlap_top };
                    let min_overlap = if m2 < overlap_bottom { m2 } else { overlap_bottom };
                    if min_overlap == overlap_left || min_overlap == overlap_right {
                        self.ball_dx_fp = -self.ball_dx_fp;
                    } else {
                        self.ball_dy_fp = -self.ball_dy_fp;
                    }
                    assert(self.bricks@ == m.bricks@.update(k as int, 0u8));
                    return TickOutcome::Moved { brick: Some(BrickPos { row, col }) };
                }
            }
            k = k + 1;
        }
        TickOutcome::Moved { brick: None }
    }
}

/// The FPS line written to the console: fifteen backspaces to erase the previous one, `FPS: `,
/// the count in decimal and two spaces over leftover characters.
pub open spec fn fps_text(fps: u32) -> Seq<u8> {
    Seq::new(15, |i: int| 8u8) + seq![70u8, 80u8, 83u8, 58u8, 32u8] + crate::display::decimal_digits(fps as nat)
        + seq![32u8, 32u8]
}

/// Builds the console line that reports `fps` frames per second.
pub fn fps_line(fps: u32) -> (r: Vec<u8>)
    ensures
        r@ == fps_text(fps),
        r@.len() <= 32,
{
    let mut buf: Vec<u8> = Vec::new();
    let mut i: usize = 0;
    while i < 15
        invariant
            0 <= i <= 15,
            buf@ == Seq::new(i as nat, |j: int| 8u8),
        decreases 15 - i,
    {
        buf.push(8);
        i = i + 1;
        assert(buf@ =~= Seq::new(i as nat, |j: int| 8u8));
    }
    buf.push(70);
    buf.push(80);
    buf.push(83);
    buf.push(58);
    buf.push(32);
    let digits = number_text(fps);
    let ghost head = buf@;
    let mut k: usize = 0;
    while k < digits.len()
        invariant
            0 <= k <= digits@.len(),
            buf@ == head + digits@.subrange(0, k as int),
        decreases digits@.len() - k,
    {
        buf.push(digits[k]);
        k = k + 1;
        assert(buf@ =~= head + digits@.subrange(0, k as int));
    }
    buf.push(32);
    buf.push(32);
    proof {
        assert(digits@.subrange(0, digits@.len() as int) =~= digits@);
        assert(crate::display::pow10(10) == 10000000000) by { reveal_with_fuel(crate::display::pow10, 11); }
        crate::display::lemma_decimal_digits_len(fps as nat, 10);
        assert(buf@ =~= fps_text(fps));
    }
    buf
}

/// Width of the wall of bricks in pixels.
pub const PLAY_W: usize = 796;

/// Top-left corner of the wall: centred horizontally (at 0 on a narrower screen), 80 pixels
/// from the top.
pub fn wall_origin(screen_w: usize) -> (r: (usize, usize))
    ensures
        r.0 == (if screen_w > PLAY_W { (screen_w - PLAY_W) / 2 } else { 0 }),
        r.1 == 80,
{
    let free = if screen_w > PLAY_W { screen_w - PLAY_W } else { 0 };
    (free / 2, 80)
}

/// Little-endian bytes of `x`.
pub open spec fn le32(x: u32) -> Seq<u8> {
    vstd::bytes::spec_u32_to_le_bytes(x)
}

/// The 32-bit little-endian value stored at `off` in `b`.
pub open spec fn u32_at(b: Seq<u8>, off: int) -> u32 {
    vstd::bytes::spec_u32_from_le_bytes(b.subrange(off, off + 4))
}

/// Size of the saved game in bytes.
pub const IMAGE_LEN: usize = 112;

/// The saved form of a game, laid out as the in-memory C struct on a little-endian machine:
/// the 80 brick bytes, the seven 32-bit fields, the launch flag and three padding bytes.
pub open spec fn image(s: GameState) -> Seq<u8> {
    s.bricks@ + le32(s.score) + le32(s.lives) + le32(s.paddle_x as u32) + le32(s.ball_x_fp as u32)
        + le32(s.ball_y_fp as u32) + le32(s.ball_dx_fp as u32) + le32(s.ball_dy_fp as u32)
        + seq![if s.active { 1u8 } else { 0u8 }, 0u8, 0u8, 0u8]
}

/// `s` is the game stored in the 112-byte image `b` (a nonzero flag byte reads as launched).
pub open spec fn decoded(b: Seq<u8>, s: GameState) -> bool {
    &&& s.bricks@ == b.subrange(0, 80)
    &&& s.score == u32_at(b, 80)
    &&& s.lives == u32_at(b, 84)
    &&& s.paddle_x == u32_at(b, 88) as i32
    &&& s.ball_x_fp == u32_at(b, 92) as i32
    &&& s.ball_y_fp == u32_at(b, 96) as i32
    &&& s.ball_dx_fp == u32_at(b, 100) as i32
    &&& s.ball_dy_fp == u32_at(b, 104) as i32
    &&& s.active == (b[108] != 0)
}

/// `img` with its first bytes replaced by those read from a file of contents `bytes`.
pub open spec fn overlay(img: Seq<u8>, bytes: Seq<u8>) -> Seq<u8> {
    let n = if bytes.len() < img.len() { bytes.len() as int } else { img.len() as int };
    bytes.subrange(0, n) + img.subrange(n, img.len() as int)
}

fn append_bytes(v: &mut Vec<u8>, b: &Vec<u8>)
    ensures
        final(v)@ == old(v)@ + b@,
{
    let ghost start = v@;
    let mut i: usize = 0;
    while i < b.len()
        invariant
            0 <= i <= b@.len(),
            v@ == start + b@.subrange(0, i as int),
        decreases b@.len() - i,
    {
        v.push(b[i]);
        i = i + 1;
        assert(v@ =~= start + b@.subrange(0, i as int));
    }
    assert(b@.subrange(0, b@.len() as int) =~= b@);
}

fn read_u32(img: &Vec<u8>, off: usize) -> (r: u32)
    requires
        off + 4 <= img@.len(),
        img@.len() == IMAGE_LEN,
    ensures
        r == u32_at(img@, off as int),
{
    let part = vstd::slice::slice_subrange(img.as_slice(), off, off + 4);
    vstd::bytes::u32_from_le_bytes(part)
}

impl GameState {
    /// The game's saved form.
    pub fn save_image(&self) -> (r: Vec<u8>)
        ensures
            r@ == image(*self),
            r@.len() == IMAGE_LEN,
    {
        let mut v: Vec<u8> = Vec::new();
        let mut k: usize = 0;
        while k < 80
            invariant
                0 <= k <= 80,
                v@ == self.bricks@.subrange(0, k as int),
            decreases 80 - k,
        {
            v.push(self.bricks[k]);
            k = k + 1;
            assert(v@ =~= self.bricks@.subrange(0, k as int));
        }
        assert(self.bricks@.subrange(0, 80) =~= self.bricks@);
        append_bytes(&mut v, &vstd::bytes::u32_to_le_bytes(self.score));
        append_bytes(&mut v, &vstd::bytes::u32_to_le_bytes(self.lives));
        append_bytes(&mut v, &vstd::bytes::u32_to_le_bytes(self.paddle_x as u32));
        append_bytes(&mut v, &vstd::bytes::u32_to_le_bytes(self.ball_x_fp as u32));
        append_bytes(&mut v, &vstd::bytes::u32_to_le_bytes(self.ball_y_fp as u32));
        append_bytes(&mut v, &vstd::bytes::u32_to_le_bytes(self.ball_dx_fp as u32));
        append_bytes(&mut v, &vstd::bytes::u32_to_le_bytes(self.ball_dy_fp as u32));
        v.push(if self.active { 1 } else { 0 });
        v.push(0);
        v.push(0);
        v.push(0);
        proof {
            vstd::bytes::lemma_auto_spec_u32_to_from_le_bytes();
            assert(v@ =~= image(*self));
        }
        v
    }

    /// Reads a saved game from the contents `bytes` of a save file into this game, as a raw
    /// read into its memory would: the first bytes of the image are replaced by the file's.
    pub fn load_image(&mut self, bytes: &[u8])
        ensures
            decoded(overlay(image(*old(self)), bytes@), *final(self)),
    {
        let mut img = self.save_image();
        let n = if bytes.len() < IMAGE_LEN { bytes.len() } else { IMAGE_LEN };
        let ghost start = img@;
        let mut i: usize = 0;
        while i < n
            invariant
                0 <= i <= n,
                n <= bytes@.len(),
                n <= 112,
                start.len() == 112,
                img@ == bytes@.subrange(0, i as int) + start.subrange(i as int, 112),
            decreases n - i,
        {
            img.set(i, bytes[i]);
            i = i + 1;
            assert(img@ =~= bytes@.subrange(0, i as int) + start.subrange(i as int, 112));
        }
        assert(img@ == overlay(start, bytes@));
        let mut bricks = [0u8; 80];
        let mut k: usize = 0;
        while k < 80
            invariant
                0 <= k <= 80,
                img@.len() == 112,
                forall|j: int| 0 <= j < k ==> #[trigger] bricks@[j] == img@[j],
            decreases 80 - k,
        {
            bricks[k] = img[k];
            k = k + 1;
        }
        assert(bricks@ =~= img@.subrange(0, 80));
        self.bricks = bricks;
        self.score = read_u32(&img, 80);
        self.lives = read_u32(&img, 84);
        self.paddle_x = read_u32(&img, 88) as i32;
        self.ball_x_fp = read_u32(&img, 92) as i32;
        self.ball_y_fp = read_u32(&img, 96) as i32;
        self.ball_dx_fp = read_u32(&img, 100) as i32;
        self.ball_dy_fp = read_u32(&img, 104) as i32;
        self.active = img[108] != 0;
    }
}

/// Loading what was saved gives back the saved game, whatever game it is loaded into.
pub proof fn lemma_save_load_roundtrip(saved: GameState, current: GameState, loaded: GameState)
    requires
        decoded(overlay(image(current), image(saved)), loaded),
    ensures
        loaded == saved,
{
    vstd::bytes::lemma_auto_spec_u32_to_from_le_bytes();
    let img = image(saved);
    assert(overlay(image(current), img) =~= img);
    assert(img.subrange(80, 84) =~= le32(saved.score));
    assert(img.subrange(84, 88) =~= le32(saved.lives));
    assert(img.subrange(88, 92) =~= le32(saved.paddle_x as u32));
    assert(img.subrange(92, 96) =~= le32(saved.ball_x_fp as u32));
    assert(img.subrange(96, 100) =~= le32(saved.ball_y_fp as u32));
    assert(img.subrange(100, 104) =~= le32(saved.ball_dx_fp as u32));
    assert(img.subrange(104, 108) =~= le32(saved.ball_dy_fp as u32));
    assert(img.subrange(0, 80) =~= saved.bricks@);
    let (a, b, c, d, e) = (saved.paddle_x, saved.ball_x_fp, saved.ball_y_fp, saved.ball_dx_fp, saved.ball_dy_fp);
    assert((a as u32) as i32 == a) by (bit_vector);
    assert((b as u32) as i32 == b) by (bit_vector);
    assert((c as u32) as i32 == c) by (bit_vector);
    assert((d as u32) as i32 == d) by (bit_vector);
    assert((e as u32) as i32 == e) by (bit_vector);
    assert(loaded.bricks =~= saved.bricks);
}


/// The fixed texts of the screen.
#[derive(Clone, Copy, PartialEq, Eq, Structural, Debug)]
pub enum Label {
    /// `SCORE:`
    Score,
    /// `LIVES:`
    Lives,
    /// `F5:SAVE F6:LOAD`
    SaveLoad,
}

/// The text of a fixed label.
pub fn label_text(l: Label) -> (r: &'static str)
    ensures
        r@ == (match l {
            Label::Score => "SCORE:"@,
            Label::Lives => "LIVES:"@,
            Label::SaveLoad => "F5:SAVE F6:LOAD"@,
        }),
{
    match l {
        Label::Score => "SCORE:",
        Label::Lives => "LIVES:",
        Label::SaveLoad => "F5:SAVE F6:LOAD",
    }
}

/// A drawing step of a frame.
#[derive(Clone, Copy, PartialEq, Eq, Debug)]
pub enum DrawOp {
    /// Fill a `w` by `h` rectangle at `(x, y)`.
    Fill { x: usize, y: usize, w: usize, h: usize, color: (u8, u8, u8) },
    /// Draw a label at `(x, y)` at scale `scale`.
    Text { x: usize, y: usize, label: Label, color: (u8, u8, u8), scale: usize },
    /// Draw `value` in decimal at `(x, y)` at scale `scale`.
    Number { x: usize, y: usize, value: u32, color: (u8, u8, u8), scale: usize },
}

/// What the previous frame showed, for redrawing only what changed.
#[derive(Clone, Copy, PartialEq, Eq, Structural, Debug)]
pub struct Tracker {
    /// The next frame redraws everything.
    pub force_full_redraw: bool,
    pub old_paddle_x: i32,
    pub old_ball_x: usize,
    pub old_ball_y: usize,
    pub old_score: u32,
    pub old_lives: u32,
}

/// Background color.
pub open spec fn color_bg() -> (u8, u8, u8) { (30u8, 25u8, 25u8) }
/// Text color.
pub open spec fn color_text() -> (u8, u8, u8) { (200u8, 200u8, 200u8) }
/// Color of the key help.
pub open spec fn color_text_green() -> (u8, u8, u8) { (50u8, 255u8, 50u8) }
/// Paddle color.
pub open spec fn color_paddle() -> (u8, u8, u8) { (240u8, 150u8, 50u8) }
/// Ball color.
pub open spec fn color_ball() -> (u8, u8, u8) { (255u8, 255u8, 255u8) }

/// Color of a brick of value `v` (1 to 8).
pub open spec fn brick_color(v: u8) -> (u8, u8, u8) {
    if v == 1 { (230u8, 60u8, 60u8) }
    else if v == 2 { (240u8, 130u8, 40u8) }
    else if v == 3 { (240u8, 220u8, 50u8) }
    else if v == 4 { (80u8, 200u8, 80u8) }
    else if v == 5 { (60u8, 200u8, 200u8) }
    else if v == 6 { (60u8, 120u8, 240u8) }
    else if v == 7 { (160u8, 80u8, 220u8) }
    else { (140u8, 140u8, 140u8) }
}

fn brick_color_of(v: u8) -> (r: (u8, u8, u8))
    requires
        1 <= v <= 8,
    ensures
        r == brick_color(v),
{
    match v {
        1 => (230, 60, 60),
        2 => (240, 130, 40),
        3 => (240, 220, 50),
        4 => (80, 200, 80),
        5 => (60, 200, 200),
        6 => (60, 120, 240),
        7 => (160, 80, 220),
        _ => (140, 140, 140),
    }
}

/// The fills that draw the standing bricks among the first `k` (row by row).
pub open spec fn brick_ops(bricks: Seq<u8>, ox: int, oy: int, k: int) -> Seq<DrawOp>
    decreases k,
{
    if k <= 0 {
        Seq::empty()
    } else {
        let prev = brick_ops(bricks, ox, oy, k - 1);
        let v = bricks[k - 1];
        if v > 0 {
            prev.push(DrawOp::Fill {
                x: brick_x(ox, k - 1) as usize,
                y: brick_y(oy, k - 1) as usize,
                w: BRICK_W,
                h: BRICK_H,
                color: brick_color(v),
            })
        } else {
            prev
        }
    }
}

/// One small square per remaining life, the first `n` of them.
pub open spec fn life_ops(n: int) -> Seq<DrawOp>
    decreases n,
{
    if n <= 0 {
        Seq::empty()
    } else {
        life_ops(n - 1).push(DrawOp::Fill { x: (130 + (n - 1) * 20) as usize, y: 55, w: 12, h: 12, color: color_text() })
    }
}

/// The drawing steps of a frame of game `s` after frame tracker `t` on a `w` by `h` screen
/// whose wall starts at `(ox, oy)`. A full redraw clears the screen, writes the labels and
/// draws the standing bricks (colored by value); otherwise the ball's old square, the paddle's
/// old place (if it moved) and changed score and lives areas are cleared. Then the paddle (on
/// a full redraw or when it moved), the ball, the score and the lives (on a full redraw or
/// when they changed) are drawn.
pub open spec fn frame_ops(s: GameState, t: Tracker, w: usize, h: usize, ox: usize, oy: usize) -> Seq<DrawOp> {
    let full = t.force_full_redraw;
    let moved = t.old_paddle_x != s.paddle_x;
    let clear = if full {
        seq![
            DrawOp::Fill { x: 0, y: 0, w, h, color: color_bg() },
            DrawOp::Text { x: 20, y: 20, label: Label::Score, color: color_text(), scale: 2 },
            DrawOp::Text { x: 20, y: 50, label: Label::Lives, color: color_text(), scale: 2 },
            DrawOp::Text { x: (w - 300) as usize, y: 20, label: Label::SaveLoad, color: color_text_green(), scale: 2 },
        ] + brick_ops(s.bricks@, ox as int, oy as int, 80)
    } else {
        seq![DrawOp::Fill { x: t.old_ball_x, y: t.old_ball_y, w: 8, h: 8, color: color_bg() }]
            + (if moved { seq![DrawOp::Fill { x: t.old_paddle_x as usize, y: (h - PADDLE_Y_OFFSET) as usize, w: 100, h: 10, color: color_bg() }] } else { Seq::empty() })
            + (if s.score != t.old_score { seq![DrawOp::Fill { x: 130, y: 20, w: 100, h: 20, color: color_bg() }] } else { Seq::empty() })
            + (if s.lives != t.old_lives { seq![DrawOp::Fill { x: 130, y: 55, w: 100, h: 20, color: color_bg() }] } else { Seq::empty() })
    };
    clear
        + (if full || moved { seq![DrawOp::Fill { x: s.paddle_x as usize, y: (h - PADDLE_Y_OFFSET) as usize, w: 100, h: 10, color: color_paddle() }] } else { Seq::empty() })
        + seq![DrawOp::Fill { x: pixel_of(s.ball_x_fp) as usize, y: pixel_of(s.ball_y_fp) as usize, w: 8, h: 8, color: color_ball() }]
        + (if full || s.score != t.old_score { seq![DrawOp::Number { x: 130, y: 20, value: s.score, color: color_text(), scale: 2 }] } else { Seq::empty() })
        + (if full || s.lives != t.old_lives { life_ops(s.lives as int) } else { Seq::empty() })
}

/// The tracker after drawing a frame of `s`: nothing forced, and what the frame showed.
pub open spec fn shown(s: GameState) -> Tracker {
    Tracker {
        force_full_redraw: false,
        old_paddle_x: s.paddle_x,
        old_ball_x: pixel_of(s.ball_x_fp) as usize,
        old_ball_y: pixel_of(s.ball_y_fp) as usize,
        old_score: s.score,
        old_lives: s.lives,
    }
}

/// Plans the drawing of a frame (see `frame_ops`) and updates the tracker (see `shown`).
pub fn render_frame(s: &GameState, t: &mut Tracker, screen_w: usize, screen_h: usize, offset_x: usize, offset_y: usize)
    -> (ops: Vec<DrawOp>)
    requires
        old(t).force_full_redraw ==> screen_w >= 300,
        screen_h >= PADDLE_Y_OFFSET,
        screen_h <= 0x7fff_ffff,
        offset_x <= 0x20_0000,
        offset_y <= 0x20_0000,
        130 + 20 * s.lives <= usize::MAX,
        forall|k: int| 0 <= k < 80 ==> #[trigger] s.bricks@[k] <= 8,
    ensures
        ops@ == frame_ops(*s, *old(t), screen_w, screen_h, offset_x, offset_y),
        *final(t) == shown(*s),
{
    let mut ops: Vec<DrawOp> = Vec::new();
    let full = t.force_full_redraw;
    let moved = t.old_paddle_x != s.paddle_x;
    let score_changed = s.score != t.old_score;
    let lives_changed = s.lives != t.old_lives;
    let ghost t0 = *t;
    if full {
        ops.push(DrawOp::Fill { x: 0, y: 0, w: screen_w, h: screen_h, color: (30, 25, 25) });
        ops.push(DrawOp::Text { x: 20, y: 20, label: Label::Score, color: (200, 200, 200), scale: 2 });
        ops.push(DrawOp::Text { x: 20, y: 50, label: Label::Lives, color: (200, 200, 200), scale: 2 });
        ops.push(DrawOp::Text { x: screen_w - 300, y: 20, label: Label::SaveLoad, color: (50, 255, 50), scale: 2 });
        let ghost head = ops@;
        let mut k: usize = 0;
        while k < BOARD_W * BOARD_H
            invariant
                0 <= k <= 80,
                offset_x <= 0x20_0000,
                offset_y <= 0x20_0000,
                forall|j: int| 0 <= j < 80 ==> #[trigger] s.bricks@[j] <= 8,
                ops@ == head + brick_ops(s.bricks@, offset_x as int, offset_y as int, k as int),
            decreases 80 - k,
        {
            let v = s.bricks[k];
            if v > 0 {
                let color = brick_color_of(v);
                let row = k / BOARD_W;
                let col = k % BOARD_W;
                ops.push(DrawOp::Fill {
                    x: offset_x + col * (BRICK_W + BRICK_GAP),
                    y: offset_y + row * (BRICK_H + BRICK_GAP),
                    w: BRICK_W,
                    h: BRICK_H,
                    color,
                });
            }
            k = k + 1;
            assert(ops@ =~= head + brick_ops(s.bricks@, offset_x as int, offset_y as int, k as int));
        }
        t.force_full_redraw = false;
    } else {
        ops.push(DrawOp::Fill { x: t.old_ball_x, y: t.old_ball_y, w: 8, h: 8, color: (30, 25, 25) });
        if moved {
            ops.push(DrawOp::Fill { x: t.old_paddle_x as usize, y: screen_h - PADDLE_Y_OFFSET as usize, w: 100, h: 10, color: (30, 25, 25) });
        }
        if score_changed {
            ops.push(DrawOp::Fill { x: 130, y: 20, w: 100, h: 20, color: (30, 25, 25) });
        }
        if lives_changed {
            ops.push(DrawOp::Fill { x: 130, y: 55, w: 100, h: 20, color: (30, 25, 25) });
        }
    }
    let ghost after_clear = ops@;
    proof {
        lemma_pixel_range(s.ball_x_fp);
        lemma_pixel_range(s.ball_y_fp);
    }
    let b_x = (s.ball_x_fp >> FIXED_POINT_SHIFT) as usize;
    let b_y = (s.ball_y_fp >> FIXED_POINT_SHIFT) as usize;
    if full || moved {
        ops.push(DrawOp::Fill { x: s.paddle_x as usize, y: screen_h - PADDLE_Y_OFFSET as usize, w: 100, h: 10, color: (240, 150, 50) });
    }
    ops.push(DrawOp::Fill { x: b_x, y: b_y, w: 8, h: 8, color: (255, 255, 255) });
    if full || score_changed {
        ops.push(DrawOp::Number { x: 130, y: 20, value: s.score, color: (200, 200, 200), scale: 2 });
    }
    let ghost before_lives = ops@;
    if full || lives_changed {
        let mut i: u32 = 0;
        while i < s.lives
            invariant
                0 <= i <= s.lives,
                130 + 20 * s.lives <= usize::MAX,
                ops@ == before_lives + life_ops(i as int),
            decreases s.lives - i,
        {
            ops.push(DrawOp::Fill { x: 130 + (i as usize * 20), y: 55, w: 12, h: 12, color: (200, 200, 200) });
            i = i + 1;
            assert(ops@ =~= before_lives + life_ops(i as int));
        }
    }
    t.old_paddle_x = s.paddle_x;
    t.old_ball_x = b_x;
    t.old_ball_y = b_y;
    t.old_score = s.score;
    t.old_lives = s.lives;
    proof {
        assert(ops@ =~= frame_ops(*s, t0, screen_w, screen_h, offset_x, offset_y));
    }
    ops
}

} // verus!
