//! Two-player pong: the shared game state, the key routing, each player's paddle update and
//! the ball's physics tick.
use vstd::prelude::*;

verus! {

/// Key event type and the keys of the game.
pub const EV_KEY: u16 = 1;
pub const KEY_W: u16 = 17;
pub const KEY_S: u16 = 31;
pub const KEY_UP: u16 = 103;
pub const KEY_DOWN: u16 = 108;
pub const KEY_Q: u16 = 16;

/// Paddle width in pixels.
pub const PADDLE_W: i32 = 15;
/// Paddle height in pixels.
pub const PADDLE_H: i32 = 60;
/// Side of the square ball in pixels.
pub const BALL_SIZE: i32 = 10;
/// Pixels a paddle moves per update.
pub const PADDLE_SPEED: i32 = 5;
/// Top of the court (below the score area).
pub const COURT_TOP: i32 = 80;
/// Height of the strip below the court.
pub const COURT_BOTTOM_MARGIN: i32 = 40;
/// Distance of each paddle from its side of the screen.
pub const PADDLE_MARGIN: i32 = 30;

/// The state shared by the main process and the two player processes.
#[derive(Clone, Copy, PartialEq, Eq, Structural, Debug)]
pub struct PongState {
    pub running: bool,
    pub paddle_a_y: i32,
    pub paddle_b_y: i32,
    pub p1_up: bool,
    pub p1_down: bool,
    pub p2_up: bool,
    pub p2_down: bool,
    pub p1_up_latch: bool,
    pub p1_down_latch: bool,
    pub p2_up_latch: bool,
    pub p2_down_latch: bool,
    pub ball_x: i32,
    pub ball_y: i32,
    pub ball_vx: i32,
    pub ball_vy: i32,
    pub score_a: u32,
    pub score_b: u32,
}

/// Rust's `/ 2` on `i32`, rounding toward zero.
pub open spec fn half(a: int) -> int {
    if a >= 0 { a / 2 } else { -((-a) / 2) }
}

impl PongState {
    /// A new match on a `screen_w` by `screen_h` screen: both paddles centred vertically, the
    /// ball in the middle moving down and right, no score, no key held.
    pub fn new(screen_w: i32, screen_h: i32) -> (r: Self)
        ensures
            r == (PongState {
                running: true,
                paddle_a_y: (half(screen_h as int) - PADDLE_H / 2) as i32,
                paddle_b_y: (half(screen_h as int) - PADDLE_H / 2) as i32,
                p1_up: false, p1_down: false, p2_up: false, p2_down: false,
                p1_up_latch: false, p1_down_latch: false, p2_up_latch: false, p2_down_latch: false,
                ball_x: half(screen_w as int) as i32,
                ball_y: half(screen_h as int) as i32,
                ball_vx: 4,
                ball_vy: 4,
                score_a: 0,
                score_b: 0,
            }),
    {
        PongState {
            running: true,
            paddle_a_y: screen_h / 2 - PADDLE_H / 2,
            paddle_b_y: screen_h / 2 - PADDLE_H / 2,
            p1_up: false, p1_down: false, p2_up: false, p2_down: false,
            p1_up_latch: false, p1_down_latch: false, p2_up_latch: false, p2_down_latch: false,
            ball_x: screen_w / 2,
            ball_y: screen_h / 2,
            ball_vx: 4,
            ball_vy: 4,
            score_a: 0,
            score_b: 0,
        }
    }

    /// Routes a key event: pressing a player's key (value 1) holds it and latches one move,
    /// releasing it (value 0) stops holding; Q stops the match. Returns whether to quit.
    pub fn handle_key(&mut self, event_type: u16, code: u16, value: u32) -> (quit: bool)
        ensures
            quit == (event_type == EV_KEY && code == KEY_Q),
            ({
                let o = *old(self);
                *final(self) == if event_type != EV_KEY {
                    o
                } else if code == KEY_W {
                    if value == 1 { PongState { p1_up: true, p1_up_latch: true, ..o } }
                    else if value == 0 { PongState { p1_up: false, ..o } } else { o }
                } else if code == KEY_S {
                    if value == 1 { PongState { p1_down: true, p1_down_latch: true, ..o } }
                    else if value == 0 { PongState { p1_down: false, ..o } } else { o }
                } else if code == KEY_UP {
                    if value == 1 { PongState { p2_up: true, p2_up_latch: true, ..o } }
                    else if value == 0 { PongState { p2_up: false, ..o } } else { o }
                } else if code == KEY_DOWN {
                    if value == 1 { PongState { p2_down: true, p2_down_latch: true, ..o } }
                    else if value == 0 { PongState { p2_down: false, ..o } } else { o }
                } else if code == KEY_Q {
                    PongState { running: false, ..o }
                } else {
                    o
                }
            }),
    {
        if event_type != EV_KEY {
            return false;
        }
        if code == KEY_W {
            if value == 1 { self.p1_up = true; self.p1_up_latch = true; } else if value == 0 { self.p1_up = false; }
        } else if code == KEY_S {
            if value == 1 { self.p1_down = true; self.p1_down_latch = true; } else if value == 0 { self.p1_down = false; }
        } else if code == KEY_UP {
            if value == 1 { self.p2_up = true; self.p2_up_latch = true; } else if value == 0 { self.p2_up = false; }
        } else if code == KEY_DOWN {
            if value == 1 { self.p2_down = true; self.p2_down_latch = true; } else if value == 0 { self.p2_down = false; }
        } else if code == KEY_Q {
            self.running = false;
            return true;
        }
        false
    }
}

/// A paddle's update: held or latched up (and down not held) moves it up by `PADDLE_SPEED`,
/// not above the court, and clears the up latch; otherwise held or latched down (and up not
/// held) moves it down, not below the court, and clears the down latch. Gives the new
/// position, up latch and down latch.
pub open spec fn spec_paddle_update(y: i32, up: bool, down: bool, up_latch: bool, down_latch: bool, screen_h: i32)
    -> (i32, bool, bool)
{
    if (up || up_latch) && !down {
        ((if y - PADDLE_SPEED > COURT_TOP { y - PADDLE_SPEED } else { COURT_TOP as int }) as i32, false, down_latch)
    } else if (down || down_latch) && !up {
        let limit = screen_h - COURT_BOTTOM_MARGIN - PADDLE_H;
        ((if y + PADDLE_SPEED < limit { y + PADDLE_SPEED } else { limit }) as i32, up_latch, false)
    } else {
        (y, up_latch, down_latch)
    }
}

/// Computes a paddle's update (see `spec_paddle_update`).
pub fn paddle_update(y: i32, up: bool, down: bool, up_latch: bool, down_latch: bool, screen_h: i32) -> (r: (i32, bool, bool))
    requires
        -0x4000_0000 <= y <= 0x4000_0000,
        -0x4000_0000 <= screen_h <= 0x4000_0000,
    ensures
        r == spec_paddle_update(y, up, down, up_latch, down_latch, screen_h),
        COURT_TOP <= y <= screen_h - COURT_BOTTOM_MARGIN - PADDLE_H ==> COURT_TOP <= r.0 <= screen_h - COURT_BOTTOM_MARGIN - PADDLE_H,
{
    if (up || up_latch) && !down {
        let ny = if y - PADDLE_SPEED > COURT_TOP { y - PADDLE_SPEED } else { COURT_TOP };
        (ny, false, down_latch)
    } else if (down || down_latch) && !up {
        let limit = screen_h - COURT_BOTTOM_MARGIN - PADDLE_H;
        let ny = if y + PADDLE_SPEED < limit { y + PADDLE_SPEED } else { limit };
        (ny, up_latch, false)
    } else {
        (y, up_latch, down_latch)
    }
}

impl PongState {
    /// Player A's (left) periodic update.
    pub fn update_player_a(&mut self, screen_h: i32)
        requires
            -0x4000_0000 <= old(self).paddle_a_y <= 0x4000_0000,
            -0x4000_0000 <= screen_h <= 0x4000_0000,
        ensures
            ({
                let o = *old(self);
                let u = spec_paddle_update(o.paddle_a_y, o.p1_up, o.p1_down, o.p1_up_latch, o.p1_down_latch, screen_h);
                *final(self) == PongState { paddle_a_y: u.0, p1_up_latch: u.1, p1_down_latch: u.2, ..o }
            }),
    {
        let (y, ul, dl) = paddle_update(self.paddle_a_y, self.p1_up, self.p1_down, self.p1_up_latch, self.p1_down_latch, screen_h);
        self.paddle_a_y = y;
        self.p1_up_latch = ul;
        self.p1_down_latch = dl;
    }

    /// Player B's (right) periodic update.
    pub fn update_player_b(&mut self, screen_h: i32)
        requires
            -0x4000_0000 <= old(self).paddle_b_y <= 0x4000_0000,
            -0x4000_0000 <= screen_h <= 0x4000_0000,
        ensures
            ({
                let o = *old(self);
                let u = spec_paddle_update(o.paddle_b_y, o.p2_up, o.p2_down, o.p2_up_latch, o.p2_down_latch, screen_h);
                *final(self) == PongState { paddle_b_y: u.0, p2_up_latch: u.1, p2_down_latch: u.2, ..o }
            }),
    {
        let (y, ul, dl) = paddle_update(self.paddle_b_y, self.p2_up, self.p2_down, self.p2_up_latch, self.p2_down_latch, screen_h);
        self.paddle_b_y = y;
        self.p2_up_latch = ul;
        self.p2_down_latch = dl;
    }
}

/// The arithmetic of a physics tick fits in `i32` and `u32`.
pub open spec fn tick_safe(s: PongState, w: i32, h: i32) -> bool {
    &&& 0 <= w <= 0x100_0000
    &&& 0 <= h <= 0x100_0000
    &&& -0x1000_0000 <= s.ball_x <= 0x1000_0000
    &&& -0x1000_0000 <= s.ball_y <= 0x1000_0000
    &&& -0x1000_0000 <= s.ball_vx <= 0x1000_0000
    &&& -0x1000_0000 <= s.ball_vy <= 0x1000_0000
    &&& -0x1000_0000 <= s.paddle_a_y <= 0x1000_0000
    &&& -0x1000_0000 <= s.paddle_b_y <= 0x1000_0000
    &&& s.score_a < u32::MAX
    &&& s.score_b < u32::MAX
}

/// The ball's height and vertical speed after moving to `y0` at speed `vy` in a court ending
/// `h - COURT_BOTTOM_MARGIN`: at the top or bottom it reverses and is pushed back inside.
pub open spec fn bounce_walls(y0: int, vy: int, h: int) -> (int, int) {
    let wall = y0 <= COURT_TOP || y0 + BALL_SIZE >= h - COURT_BOTTOM_MARGIN;
    let vy1 = if wall { -vy } else { vy };
    let y1 = if wall && y0 <= COURT_TOP { COURT_TOP as int } else { y0 };
    let y2 = if wall && y1 + BALL_SIZE >= h - COURT_BOTTOM_MARGIN { h - COURT_BOTTOM_MARGIN - BALL_SIZE } else { y1 };
    (y2, vy1)
}

/// The ball's position and horizontal speed after moving to `x0` at speed `vx` at height `y`:
/// touching a paddle reverses it and places it against that paddle.
pub open spec fn bounce_paddles(x0: int, vx: int, y: int, pa: int, pb: int, w: int) -> (int, int) {
    let hit_a = x0 <= PADDLE_MARGIN + PADDLE_W && y + BALL_SIZE >= pa && y <= pa + PADDLE_H;
    let vx1 = if hit_a { -vx } else { vx };
    let x1 = if hit_a { (PADDLE_MARGIN + PADDLE_W) as int } else { x0 };
    let hit_b = x1 + BALL_SIZE >= w - PADDLE_MARGIN - PADDLE_W && y + BALL_SIZE >= pb && y <= pb + PADDLE_H;
    let vx2 = if hit_b { -vx1 } else { vx1 };
    let x2 = if hit_b { w - PADDLE_MARGIN - PADDLE_W - BALL_SIZE } else { x1 };
    (x2, vx2)
}

/// The state after one physics tick: the ball moves and bounces off the walls and paddles; past
/// the left edge it scores for B and restarts in the middle moving right, past the right edge it
/// scores for A and restarts moving left.
pub open spec fn spec_tick(s: PongState, w: int, h: int) -> PongState {
    let (y2, vy1) = bounce_walls(s.ball_y + s.ball_vy, s.ball_vy as int, h);
    let (x2, vx2) = bounce_paddles(s.ball_x + s.ball_vx, s.ball_vx as int, y2, s.paddle_a_y as int, s.paddle_b_y as int, w);
    if x2 < 0 {
        PongState { score_b: (s.score_b + 1) as u32, ball_x: half(w) as i32, ball_y: half(h) as i32, ball_vx: 4, ball_vy: vy1 as i32, ..s }
    } else if x2 > w {
        PongState { score_a: (s.score_a + 1) as u32, ball_x: half(w) as i32, ball_y: half(h) as i32, ball_vx: -4i32, ball_vy: vy1 as i32, ..s }
    } else {
        PongState { ball_x: x2 as i32, ball_y: y2 as i32, ball_vx: vx2 as i32, ball_vy: vy1 as i32, ..s }
    }
}

/// Who scores in a tick: at most one point is given, and to one player only; a point for A
/// restarts the ball in the middle of the court moving toward A (left), a point for B moving
/// toward B (right); with no point the ball stays between the side edges. A ball inside the
/// court moving right can only ever score for A, and one moving left only for B (on a court
/// wide enough for both paddles and the ball).
pub proof fn lemma_tick_scoring(s: PongState, w: i32, h: i32)
    requires
        tick_safe(s, w, h),
    ensures
        ({
            let r = spec_tick(s, w as int, h as int);
            &&& r.score_a == s.score_a || r.score_a == s.score_a + 1
            &&& r.score_b == s.score_b || r.score_b == s.score_b + 1
            &&& !(r.score_a == s.score_a + 1 && r.score_b == s.score_b + 1)
            &&& r.score_a == s.score_a + 1 ==> r.ball_x == half(w as int) && r.ball_y == half(h as int) && r.ball_vx < 0
            &&& r.score_b == s.score_b + 1 ==> r.ball_x == half(w as int) && r.ball_y == half(h as int) && r.ball_vx > 0
            &&& r.score_a == s.score_a && r.score_b == s.score_b ==> 0 <= r.ball_x <= w
            &&& w >= PADDLE_MARGIN + PADDLE_W + BALL_SIZE && 0 <= s.ball_x && s.ball_vx > 0 ==> r.score_b == s.score_b
            &&& w >= PADDLE_MARGIN + PADDLE_W + BALL_SIZE && s.ball_x <= w && s.ball_vx < 0 ==> r.score_a == s.score_a
        }),
{
}

/// How the ball moves in a tick on a court at least wide enough for both paddles and tall
/// enough for the ball: only the ball and the scores change; the vertical speed keeps its
/// size; away from the walls and paddles the ball simply moves by its speed; a ball reaching
/// the top turns down from the top of the court; a ball reaching paddle A (at a height where
/// it meets the paddle) turns back right from the paddle's face, and one reaching paddle B
/// turns back left from its face, with no point given; and after a tick with no point the
/// ball is inside the court.
pub proof fn lemma_tick_motion(s: PongState, w: i32, h: i32)
    requires
        tick_safe(s, w, h),
        w > 2 * (PADDLE_MARGIN + PADDLE_W + BALL_SIZE),
        h > COURT_TOP + COURT_BOTTOM_MARGIN + BALL_SIZE,
    ensures
        ({
            let r = spec_tick(s, w as int, h as int);
            let x0 = s.ball_x + s.ball_vx;
            let y0 = s.ball_y + s.ball_vy;
            let open_y = COURT_TOP < y0 && y0 + BALL_SIZE < h - COURT_BOTTOM_MARGIN;
            let meets_a = y0 + BALL_SIZE >= s.paddle_a_y && y0 <= s.paddle_a_y + PADDLE_H;
            let meets_b = y0 + BALL_SIZE >= s.paddle_b_y && y0 <= s.paddle_b_y + PADDLE_H;
            &&& r == (PongState { ball_x: r.ball_x, ball_y: r.ball_y, ball_vx: r.ball_vx, ball_vy: r.ball_vy,
                    score_a: r.score_a, score_b: r.score_b, ..s })
            &&& r.ball_vy == s.ball_vy || r.ball_vy == -s.ball_vy
            &&& open_y && PADDLE_MARGIN + PADDLE_W < x0 && x0 + BALL_SIZE < w - PADDLE_MARGIN - PADDLE_W ==>
                r == (PongState { ball_x: x0 as i32, ball_y: y0 as i32, ..s })
            &&& y0 <= COURT_TOP ==> r.ball_vy == -s.ball_vy
            &&& y0 <= COURT_TOP && r.score_a == s.score_a && r.score_b == s.score_b ==> r.ball_y == COURT_TOP
            &&& y0 + BALL_SIZE >= h - COURT_BOTTOM_MARGIN && COURT_TOP < y0 ==> r.ball_vy == -s.ball_vy
            &&& open_y && x0 <= PADDLE_MARGIN + PADDLE_W && meets_a ==>
                r.ball_x == PADDLE_MARGIN + PADDLE_W && r.ball_vx == -s.ball_vx && r.score_a == s.score_a && r.score_b == s.score_b
            &&& open_y && PADDLE_MARGIN + PADDLE_W < x0 && x0 + BALL_SIZE >= w - PADDLE_MARGIN - PADDLE_W && meets_b ==>
                r.ball_x == w - PADDLE_MARGIN - PADDLE_W - BALL_SIZE && r.ball_vx == -s.ball_vx
                && r.score_a == s.score_a && r.score_b == s.score_b
            &&& r.score_a == s.score_a && r.score_b == s.score_b ==> 0 <= r.ball_x <= w
                && COURT_TOP <= r.ball_y && r.ball_y + BALL_SIZE <= h - COURT_BOTTOM_MARGIN
        }),
{
}

fn walls(y0: i32, vy: i32, h: i32) -> (r: (i32, i32))
    requires
        -0x2000_0000 <= y0 <= 0x2000_0000,
        -0x1000_0000 <= vy <= 0x1000_0000,
        0 <= h <= 0x100_0000,
    ensures
        r.0 == bounce_walls(y0 as int, vy as int, h as int).0,
        r.1 == bounce_walls(y0 as int, vy as int, h as int).1,
        -0x2000_0000 <= r.0 <= 0x2000_0000,
        -0x1000_0000 <= r.1 <= 0x1000_0000,
{
    let wall = y0 <= COURT_TOP || y0 + BALL_SIZE >= h - COURT_BOTTOM_MARGIN;
    let vy1 = if wall { -vy } else { vy };
    let y1 = if wall && y0 <= COURT_TOP { COURT_TOP } else { y0 };
    let y2 = if wall && y1 + BALL_SIZE >= h - COURT_BOTTOM_MARGIN { h - COURT_BOTTOM_MARGIN - BALL_SIZE } else { y1 };
    (y2, vy1)
}

fn paddles(x0: i32, vx: i32, y: i32, pa: i32, pb: i32, w: i32) -> (r: (i32, i32))
    requires
        -0x2000_0000 <= x0 <= 0x2000_0000,
        -0x1000_0000 <= vx <= 0x1000_0000,
        -0x2000_0000 <= y <= 0x2000_0000,
        -0x1000_0000 <= pa <= 0x1000_0000,
        -0x1000_0000 <= pb <= 0x1000_0000,
        0 <= w <= 0x100_0000,
    ensures
        r.0 == bounce_paddles(x0 as int, vx as int, y as int, pa as int, pb as int, w as int).0,
        r.1 == bounce_paddles(x0 as int, vx as int, y as int, pa as int, pb as int, w as int).1,
{
    let hit_a = x0 <= PADDLE_MARGIN + PADDLE_W && y + BALL_SIZE >= pa && y <= pa + PADDLE_H;
    let vx1 = if hit_a { -vx } else { vx };
    let x1 = if hit_a { PADDLE_MARGIN + PADDLE_W } else { x0 };
    let hit_b = x1 + BALL_SIZE >= w - PADDLE_MARGIN - PADDLE_W && y + BALL_SIZE >= pb && y <= pb + PADDLE_H;
    let vx2 = if hit_b { -vx1 } else { vx1 };
    let x2 = if hit_b { w - PADDLE_MARGIN - PADDLE_W - BALL_SIZE } else { x1 };
    (x2, vx2)
}

impl PongState {
    /// One physics tick on a `screen_w` by `screen_h` screen (see `spec_tick`).
    pub fn physics_tick(&mut self, screen_w: i32, screen_h: i32)
        requires
            tick_safe(*old(self), screen_w, screen_h),
        ensures
            *final(self) == spec_tick(*old(self), screen_w as int, screen_h as int),
    {
        let (y2, vy1) = walls(self.ball_y + self.ball_vy, self.ball_vy, screen_h);
        let (x2, _vx2) = paddles(self.ball_x + self.ball_vx, self.ball_vx, y2, self.paddle_a_y, self.paddle_b_y, screen_w);
        let vx2 = _vx2;
        self.ball_vy = vy1;
        if x2 < 0 {
            self.score_b = self.score_b + 1;
            self.ball_x = screen_w / 2;
            self.ball_y = screen_h / 2;
            self.ball_vx = 4;
        } else if x2 > screen_w {
            self.score_a = self.score_a + 1;
            self.ball_x = screen_w / 2;
            self.ball_y = screen_h / 2;
            self.ball_vx = -4;
        } else {
            self.ball_x = x2;
            self.ball_y = y2;
            self.ball_vx = vx2;
        }
    }
}

/// Tops of the dashes of the centre line: every 20 pixels from the top of a screen `h` pixels
/// high.
pub fn center_dashes(screen_h: i32) -> (r: Vec<i32>)
    requires
        screen_h <= 0x4000_0000,
    ensures
        r@.len() == (if screen_h > 0 { (screen_h + 19) / 20 } else { 0 }),
        forall|i: int| 0 <= i < r@.len() ==> #[trigger] r@[i] == 20 * i,
{
    let mut v: Vec<i32> = Vec::new();
    let mut y: i32 = 0;
    while y < screen_h
        invariant
            screen_h <= 0x4000_0000,
            0 <= y,
            y == 20 * v@.len(),
            y < screen_h + 20 || y == 0,
            forall|i: int| 0 <= i < v@.len() ==> #[trigger] v@[i] == 20 * i,
        decreases screen_h + 20 - y,
    {
        v.push(y);
        y = y + 20;
    }
    v
}


} // verus!
