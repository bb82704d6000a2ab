use tg_rcore::breakout::{self, DrawOp, GameState, Label, Tracker};
use tg_rcore::cursor;
use tg_rcore::input::{self, InputEvent};
use tg_rcore::ring_buffer::{OverflowStrategy, RingBuffer};
use tg_rcore::stress::{self, CaptureBuffer};

fn tiny_bmp(pixel: [u8; 3]) -> Vec<u8> {
    let mut b = Vec::new();
    b.extend_from_slice(b"BM");
    b.extend_from_slice(&58u32.to_le_bytes());
    b.extend_from_slice(&0u32.to_le_bytes());
    b.extend_from_slice(&54u32.to_le_bytes());
    b.extend_from_slice(&40u32.to_le_bytes());
    b.extend_from_slice(&1i32.to_le_bytes());
    b.extend_from_slice(&1i32.to_le_bytes());
    b.extend_from_slice(&1u16.to_le_bytes());
    b.extend_from_slice(&24u16.to_le_bytes());
    b.extend_from_slice(&0u32.to_le_bytes());
    b.extend_from_slice(&4u32.to_le_bytes());
    b.extend_from_slice(&2835i32.to_le_bytes());
    b.extend_from_slice(&2835i32.to_le_bytes());
    b.extend_from_slice(&0u32.to_le_bytes());
    b.extend_from_slice(&0u32.to_le_bytes());
    b.extend_from_slice(&pixel);
    b.push(0);
    b
}

#[test]
fn cursor_white_is_transparent() {
    assert_eq!(cursor::cursor_rgba(&[255, 255, 255, 1, 2, 3]), vec![255, 255, 255, 0, 1, 2, 3, 0xff]);
    assert_eq!(cursor::cursor_rgba(&[9, 9]), vec![9, 9, 0xff]);
    assert_eq!(cursor::cursor_rgba(&[]), Vec::<u8>::new());
}

#[test]
fn cursor_from_bmp_file() {
    let white = tiny_bmp([255, 255, 255]);
    assert_eq!(cursor::cursor_from_bmp(&white), Some(vec![255, 255, 255, 0, 0, 0xff]));
    let red = tiny_bmp([0, 0, 200]);
    assert_eq!(cursor::cursor_from_bmp(&red), Some(vec![0, 0, 200, 0xff, 0, 0xff]));
    assert_eq!(cursor::cursor_from_bmp(b"not a bitmap"), None);
}

#[test]
fn breakout_full_and_dirty_frames() {
    let s = GameState::new(800, 600);
    let mut t = Tracker { force_full_redraw: true, old_paddle_x: s.paddle_x, old_ball_x: 0, old_ball_y: 0, old_score: 0, old_lives: 3 };
    let ops = breakout::render_frame(&s, &mut t, 800, 600, 2, 80);
    assert_eq!(ops[0], DrawOp::Fill { x: 0, y: 0, w: 800, h: 600, color: (30, 25, 25) });
    assert_eq!(ops[3], DrawOp::Text { x: 500, y: 20, label: Label::SaveLoad, color: (50, 255, 50), scale: 2 });
    assert_eq!(ops[4], DrawOp::Fill { x: 2, y: 80, w: 76, h: 20, color: (230, 60, 60) });
    // 4 labels and clears, 80 bricks, paddle, ball, score, 3 lives
    assert_eq!(ops.len(), 4 + 80 + 1 + 1 + 1 + 3);
    assert_eq!(ops[ops.len() - 1], DrawOp::Fill { x: 170, y: 55, w: 12, h: 12, color: (200, 200, 200) });
    assert!(!t.force_full_redraw);
    assert_eq!((t.old_ball_x, t.old_ball_y), (400, 532));
    // nothing changed: erase and redraw the ball only
    let ops = breakout::render_frame(&s, &mut t, 800, 600, 2, 80);
    assert_eq!(ops, vec![
        DrawOp::Fill { x: 400, y: 532, w: 8, h: 8, color: (30, 25, 25) },
        DrawOp::Fill { x: 400, y: 532, w: 8, h: 8, color: (255, 255, 255) },
    ]);
    let mut s2 = s;
    s2.score = 10;
    let ops = breakout::render_frame(&s2, &mut t, 800, 600, 2, 80);
    assert_eq!(ops.len(), 4);
    assert_eq!(ops[3], DrawOp::Number { x: 130, y: 20, value: 10, color: (200, 200, 200), scale: 2 });
}

#[test]
fn stress_log_check() {
    let good = "Hart 0 finished prelude.\nStress test from hart 1, iteration 0\n\nStress test from hart 0, iteration 9\n";
    assert_eq!(stress::check_log(good), Ok(2));
    let bad = "Stress test from hart 1, iteration 0\nStress test fromStress test from hart 2, iteration 1\n";
    assert_eq!(stress::check_log(bad), Err(b"Stress test fromStress test from hart 2, iteration 1".to_vec()));
    let missing = "Stress test from hart 1 iteration 0";
    assert_eq!(stress::check_log(missing), Err(missing.as_bytes().to_vec()));
    assert_eq!(stress::check_log(""), Ok(0));
    let mut cap = CaptureBuffer::new();
    for _ in 0..5000 {
        cap.put_char(b'x');
    }
    assert_eq!(cap.contents().len(), stress::BUFFER_SIZE);
}

#[test]
fn input_records_round_trip() {
    let e = InputEvent { timestamp_usec: 0x0102_0304_0506_0708, event_type: 1, code: 30, value: 1 };
    let bytes = input::encode_event(&e);
    assert_eq!(bytes, vec![8, 7, 6, 5, 4, 3, 2, 1, 1, 0, 30, 0, 1, 0, 0, 0]);
    assert_eq!(input::decode_event(&bytes), e);
}

#[test]
fn input_reads_whole_records_only() {
    let mut q: RingBuffer<InputEvent, 8> = RingBuffer::new(OverflowStrategy::DropOldest);
    for k in 0..3u16 {
        let _ = q.push(InputEvent { timestamp_usec: k as u64, event_type: 1, code: k, value: 1 });
    }
    let out = input::read_events(&mut q, 40);
    assert_eq!(out.len(), 32);
    assert_eq!(input::decode_event(&out[16..32]).code, 1);
    let rest = input::read_events(&mut q, 100);
    assert_eq!(rest.len(), 16);
    assert_eq!(input::decode_event(&rest).code, 2);
    assert!(q.is_empty());
    assert_eq!(input::read_events(&mut q, 100).len(), 0);
    let f = input::InputDevFile::new(7u8);
    assert_eq!(f.device, 7);
}
