use tg_rcore::breakout::{self, GameState, KeyAction, TickOutcome, BrickPos};
use tg_rcore::pingpong::PongState;
use tg_rcore::prng::Prng;
use tg_rcore::snake::{self, InputQueue, StepOutcome};

#[test]
fn prng_follows_the_lcg() {
    let mut p = Prng { state: 0 };
    assert_eq!(p.next(), 1013904223);
    let mut q = Prng { state: 1234567 };
    let expected = 1234567u32.wrapping_mul(1664525).wrapping_add(1013904223);
    assert_eq!(q.next(), expected);
    let mut r = Prng { state: 0 };
    assert_eq!(r.next_range(5, 15), 5 + 1013904223 % 10);
}

#[test]
fn snake_starts_in_the_middle() {
    let body = snake::initial_snake();
    assert_eq!(body, vec![(10, 10), (9, 10), (8, 10), (7, 10)]);
}

#[test]
fn snake_moves_grows_and_crashes() {
    let mut body = snake::initial_snake();
    let out = snake::step(&mut body, (1, 0), (0, 0));
    assert_eq!(out, StepOutcome::Moved { ate: false, old_tail: (7, 10) });
    assert_eq!(body, vec![(11, 10), (10, 10), (9, 10), (8, 10)]);
    let out = snake::step(&mut body, (1, 0), (12, 10));
    assert_eq!(out, StepOutcome::Moved { ate: true, old_tail: (8, 10) });
    assert_eq!(body, vec![(12, 10), (11, 10), (10, 10), (9, 10), (8, 10)]);
    // turning back into the body crashes and leaves the snake as it was
    let out = snake::step(&mut body, (-1, 0), (0, 0));
    assert_eq!(out, StepOutcome::Crashed);
    assert_eq!(body.len(), 5);
}

#[test]
fn snake_crashes_into_the_wall() {
    let mut body = vec![(19, 0), (18, 0)];
    assert_eq!(snake::step(&mut body, (1, 0), (5, 5)), StepOutcome::Crashed);
    assert_eq!(snake::step(&mut body, (0, -1), (5, 5)), StepOutcome::Crashed);
    assert_eq!(body, vec![(19, 0), (18, 0)]);
}

#[test]
fn snake_turns_only_sideways() {
    assert_eq!(snake::turn((1, 0), snake::KEY_UP), (0, -1));
    assert_eq!(snake::turn((1, 0), snake::KEY_S), (0, 1));
    assert_eq!(snake::turn((1, 0), snake::KEY_LEFT), (1, 0));
    assert_eq!(snake::turn((0, 1), snake::KEY_A), (-1, 0));
    assert_eq!(snake::turn((0, 1), snake::KEY_D), (1, 0));
    assert_eq!(snake::turn((0, 1), snake::KEY_W), (0, 1));
    assert_eq!(snake::turn((0, 1), 99), (0, 1));
}

#[test]
fn snake_input_queue_keeps_two_keys() {
    let mut q = InputQueue::new();
    assert_eq!(q.pop(), None);
    q.push(1);
    q.push(2);
    q.push(3);
    assert_eq!(q.pop(), Some(1));
    assert_eq!(q.pop(), Some(2));
    assert_eq!(q.pop(), None);
}

#[test]
fn snake_food_avoids_the_body() {
    let mut p = Prng { state: snake::FOOD_SEED };
    let c = snake::food_candidate(&mut p);
    let s1 = 1234567u32.wrapping_mul(1664525).wrapping_add(1013904223);
    let s2 = s1.wrapping_mul(1664525).wrapping_add(1013904223);
    assert_eq!(c, ((s1 % 20) as i32, (s2 % 20) as i32));
    let mut p = Prng { state: snake::FOOD_SEED };
    let body = vec![c];
    assert_eq!(snake::try_spawn_food(&mut p, &body), None);
    let mut p = Prng { state: snake::FOOD_SEED };
    let other = vec![((c.0 + 1) % 20, c.1)];
    assert_eq!(snake::try_spawn_food(&mut p, &other), Some(c));
}

#[test]
fn snake_board_is_centred() {
    assert_eq!(snake::board_offset(800, 600), (200, 100));
    assert_eq!(snake::board_offset(300, 300), (0, 0));
    assert_eq!(snake::cell_origin(200, 100, (3, 4)), (260, 180));
}

#[test]
fn breakout_new_game() {
    let s = GameState::new(800, 600);
    assert_eq!(s.score, 0);
    assert_eq!(s.lives, 3);
    assert_eq!(s.paddle_x, 350);
    assert_eq!(s.ball_x_fp, 400 * 256);
    assert_eq!(s.ball_y_fp, (600 - 50 - 10 - 8) * 256);
    assert_eq!(s.ball_dx_fp, 384);
    assert_eq!(s.ball_dy_fp, -640);
    assert!(!s.active);
    assert_eq!(s.bricks[0], 1);
    assert_eq!(s.bricks[79], 8);
    assert_eq!(s.bricks[15], 2);
}

#[test]
fn breakout_narrow_screen_centres_with_truncation() {
    let s = GameState::new(51, 600);
    assert_eq!(s.paddle_x, -24);
}

#[test]
fn breakout_keys_move_paddle_and_launch() {
    let mut s = GameState::new(800, 600);
    assert_eq!(s.handle_event(breakout::EV_KEY, breakout::KEY_LEFT, 1, 800), KeyAction::Continue);
    assert_eq!(s.paddle_x, 345);
    assert_eq!(s.ball_x_fp, 395 * 256);
    assert_eq!(s.handle_event(breakout::EV_KEY, breakout::KEY_D, 2, 800), KeyAction::Continue);
    assert_eq!(s.paddle_x, 350);
    // releases are ignored
    assert_eq!(s.handle_event(breakout::EV_KEY, breakout::KEY_D, 0, 800), KeyAction::Continue);
    assert_eq!(s.paddle_x, 350);
    assert_eq!(s.handle_event(breakout::EV_KEY, breakout::KEY_SPACE, 1, 800), KeyAction::Continue);
    assert!(s.active);
    let x = s.ball_x_fp;
    s.handle_event(breakout::EV_KEY, breakout::KEY_LEFT, 1, 800);
    assert_eq!(s.ball_x_fp, x);
    assert_eq!(s.handle_event(breakout::EV_KEY, breakout::KEY_F5, 1, 800), KeyAction::Save);
    assert_eq!(s.handle_event(breakout::EV_KEY, breakout::KEY_F6, 1, 800), KeyAction::Load);
    assert_eq!(s.handle_event(breakout::EV_KEY, breakout::KEY_Q, 1, 800), KeyAction::Quit);
}

#[test]
fn breakout_paddle_stops_at_edges() {
    let mut s = GameState::new(800, 600);
    s.paddle_x = 2;
    s.handle_event(breakout::EV_KEY, breakout::KEY_A, 1, 800);
    assert_eq!(s.paddle_x, 0);
    s.paddle_x = 698;
    s.handle_event(breakout::EV_KEY, breakout::KEY_RIGHT, 1, 800);
    assert_eq!(s.paddle_x, 700);
}

#[test]
fn breakout_tick_idle_and_moving() {
    let mut s = GameState::new(800, 600);
    let before = s;
    assert_eq!(s.tick(800, 600, 2, 80), TickOutcome::Idle);
    assert_eq!(s.ball_x_fp, before.ball_x_fp);
    s.active = true;
    s.ball_x_fp = 100 * 256;
    s.ball_y_fp = 400 * 256;
    assert_eq!(s.tick(800, 600, 2, 80), TickOutcome::Moved { brick: None });
    assert_eq!(s.ball_x_fp, 100 * 256 + 384);
    assert_eq!(s.ball_y_fp, 400 * 256 - 640);
}

#[test]
fn breakout_tick_breaks_a_brick() {
    let mut s = GameState::new(800, 600);
    s.active = true;
    // just below brick (row 7, column 0) of a wall at (2, 80): its bottom edge is at 80 + 7 * 24 + 20
    s.ball_x_fp = 10 * 256;
    s.ball_y_fp = 270 * 256;
    let out = s.tick(800, 600, 2, 80);
    assert_eq!(out, TickOutcome::Moved { brick: Some(BrickPos { row: 7, col: 0 }) });
    assert_eq!(s.bricks[70], 0);
    assert_eq!(s.score, 10);
    assert_eq!(s.ball_dy_fp, 640);
}

#[test]
fn breakout_tick_loses_a_life() {
    let mut s = GameState::new(800, 600);
    s.active = true;
    s.ball_x_fp = 100 * 256;
    s.ball_y_fp = 595 * 256;
    s.ball_dy_fp = 640;
    assert_eq!(s.tick(800, 600, 2, 80), TickOutcome::BallLost);
    assert_eq!(s.lives, 2);
    assert!(!s.active);
    s.lives = 1;
    s.active = true;
    s.score = 50;
    s.ball_x_fp = 100 * 256;
    s.ball_y_fp = 595 * 256;
    s.ball_dy_fp = 640;
    assert_eq!(s.tick(800, 600, 2, 80), TickOutcome::BallLost);
    assert_eq!(s.lives, 3);
    assert_eq!(s.score, 0);
}

#[test]
fn breakout_save_and_load_round_trip() {
    let mut a = GameState::new(800, 600);
    a.score = 1234;
    a.paddle_x = -7;
    a.ball_dy_fp = -640;
    a.active = true;
    a.bricks[5] = 0;
    let img = a.save_image();
    assert_eq!(img.len(), breakout::IMAGE_LEN);
    assert_eq!(&img[80..84], &1234u32.to_le_bytes());
    assert_eq!(img[108], 1);
    let mut b = GameState::new(640, 480);
    b.load_image(&img);
    assert_eq!(b.save_image(), img);
    assert_eq!(b.score, 1234);
    assert_eq!(b.paddle_x, -7);
    assert!(b.active);
    assert_eq!(b.bricks[5], 0);
}

#[test]
fn breakout_short_file_overwrites_a_prefix() {
    let mut b = GameState::new(800, 600);
    let bytes = vec![0u8; 4];
    b.load_image(&bytes);
    assert_eq!(b.bricks[0], 0);
    assert_eq!(b.bricks[4], 1);
    assert_eq!(b.lives, 3);
}

#[test]
fn breakout_fps_line_and_wall() {
    let line = breakout::fps_line(60);
    let mut expected = vec![8u8; 15];
    expected.extend_from_slice(b"FPS: 60  ");
    assert_eq!(line, expected);
    let zero = breakout::fps_line(0);
    assert_eq!(&zero[15..], b"FPS: 0  ");
    assert_eq!(breakout::fps_line(u32::MAX).len(), 32);
    assert_eq!(breakout::wall_origin(800), (2, 80));
    assert_eq!(breakout::wall_origin(500), (0, 80));
}

#[test]
fn pong_starts_centred() {
    let s = PongState::new(800, 600);
    assert_eq!(s.paddle_a_y, 270);
    assert_eq!(s.paddle_b_y, 270);
    assert_eq!((s.ball_x, s.ball_y), (400, 300));
    assert_eq!((s.ball_vx, s.ball_vy), (4, 4));
    assert!(s.running);
}

#[test]
fn pong_keys_hold_and_latch() {
    let mut s = PongState::new(800, 600);
    assert!(!s.handle_key(1, 17, 1));
    assert!(s.p1_up && s.p1_up_latch);
    assert!(!s.handle_key(1, 17, 0));
    assert!(!s.p1_up && s.p1_up_latch);
    s.update_player_a(600);
    assert_eq!(s.paddle_a_y, 265);
    assert!(!s.p1_up_latch);
    assert!(!s.handle_key(1, 108, 1));
    s.update_player_b(600);
    assert_eq!(s.paddle_b_y, 275);
    assert!(s.handle_key(1, 16, 1));
    assert!(!s.running);
    let before = s;
    assert!(!s.handle_key(0, 16, 1));
    assert_eq!(s, before);
}

#[test]
fn pong_paddle_stays_in_court() {
    assert_eq!(tg_rcore::pingpong::paddle_update(82, true, false, false, false, 600), (80, false, false));
    assert_eq!(tg_rcore::pingpong::paddle_update(498, false, true, false, true, 600), (500, false, false));
    assert_eq!(tg_rcore::pingpong::paddle_update(300, true, true, true, true, 600), (300, true, true));
}

#[test]
fn pong_ball_bounces_and_scores() {
    let mut s = PongState::new(800, 600);
    s.ball_y = 78;
    s.ball_vy = -4;
    s.physics_tick(800, 600);
    assert_eq!(s.ball_y, 80);
    assert_eq!(s.ball_vy, 4);
    let mut t = PongState::new(800, 600);
    t.ball_x = 2;
    t.ball_y = 500;
    t.ball_vx = -4;
    t.physics_tick(800, 600);
    assert_eq!(t.score_b, 1);
    assert_eq!((t.ball_x, t.ball_y, t.ball_vx), (400, 300, 4));
    let mut u = PongState::new(800, 600);
    u.ball_x = 40;
    u.ball_y = 280;
    u.ball_vx = -4;
    u.physics_tick(800, 600);
    assert_eq!((u.ball_x, u.ball_vx), (45, 4));
    assert_eq!(tg_rcore::pingpong::center_dashes(50), vec![0, 20, 40]);
}

#[test]
fn breakout_label_texts() {
    assert_eq!(tg_rcore::breakout::label_text(tg_rcore::breakout::Label::Score), "SCORE:");
    assert_eq!(tg_rcore::breakout::label_text(tg_rcore::breakout::Label::Lives), "LIVES:");
    assert_eq!(tg_rcore::breakout::label_text(tg_rcore::breakout::Label::SaveLoad), "F5:SAVE F6:LOAD");
}
