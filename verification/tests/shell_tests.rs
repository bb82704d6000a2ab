use tg_rcore::shell::{LineEditor, ShellAction};

fn feed_all(e: &mut LineEditor, bytes: &[u8]) -> Vec<ShellAction> {
    bytes.iter().map(|b| e.feed(*b)).collect()
}

#[test]
fn shell_echoes_printable_and_submits() {
    let mut e = LineEditor::new();
    let acts = feed_all(&mut e, b"ls");
    assert_eq!(acts, vec![ShellAction::Echo { echo: b"l".to_vec() }, ShellAction::Echo { echo: b"s".to_vec() }]);
    assert_eq!(e.line(), &b"ls".to_vec());
    assert_eq!(e.feed(b'\t'), ShellAction::Echo { echo: vec![] });
    assert_eq!(e.feed(b'\r'), ShellAction::Submit { command: Some(b"ls".to_vec()) });
    assert!(e.line().is_empty());
    assert_eq!(e.feed(b'\n'), ShellAction::Submit { command: None });
}

#[test]
fn shell_backspace_never_eats_the_prompt() {
    let mut e = LineEditor::new();
    assert_eq!(e.feed(0x7f), ShellAction::Echo { echo: vec![] });
    e.feed(b'a');
    assert_eq!(e.feed(0x08), ShellAction::Echo { echo: vec![8, b' ', 8] });
    assert!(e.line().is_empty());
}

#[test]
fn shell_history_with_arrows() {
    let mut e = LineEditor::new();
    feed_all(&mut e, b"one\rtwo\r");
    feed_all(&mut e, b"x");
    let up = feed_all(&mut e, b"\x1b[A");
    assert_eq!(up[2], ShellAction::Echo { echo: b"\x08 \x08two".to_vec() });
    assert_eq!(e.line(), &b"two".to_vec());
    feed_all(&mut e, b"\x1b[A");
    assert_eq!(e.line(), &b"one".to_vec());
    // at the oldest entry, up does nothing
    let none = feed_all(&mut e, b"\x1b[A");
    assert_eq!(none[2], ShellAction::Echo { echo: vec![] });
    feed_all(&mut e, b"\x1b[B");
    assert_eq!(e.line(), &b"two".to_vec());
    let down = feed_all(&mut e, b"\x1b[B");
    assert_eq!(down[2], ShellAction::Echo { echo: b"\x08 \x08\x08 \x08\x08 \x08".to_vec() });
    assert!(e.line().is_empty());
    // an unknown sequence is swallowed
    feed_all(&mut e, b"\x1bOq");
    assert_eq!(e.line(), &b"q".to_vec());
}
