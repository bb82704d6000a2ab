//! The user shell's line editor: printable input, backspace, submitting a command, and walking
//! the command history with the arrow keys' escape sequences.
use vstd::prelude::*;

verus! {

/// Line feed.
pub const LF: u8 = 0x0a;
/// Carriage return.
pub const CR: u8 = 0x0d;
/// Delete.
pub const DL: u8 = 0x7f;
/// Backspace.
pub const BS: u8 = 0x08;
/// Escape, which starts an arrow key's sequence.
pub const ESC: u8 = 0x1b;

/// Where the editor is in an escape sequence.
#[derive(Clone, Copy, PartialEq, Eq, Structural, Debug)]
pub enum EscState {
    /// Plain input.
    Normal,
    /// After ESC.
    Escape,
    /// After ESC `[`.
    Csi,
}

/// What the shell does after a byte of input.
#[derive(PartialEq, Eq, Debug)]
pub enum ShellAction {
    /// Print `echo` (possibly nothing).
    Echo { echo: Vec<u8> },
    /// Enter was pressed: end the line, run `command` if there is one, then prompt again.
    Submit { command: Option<Vec<u8>> },
}

/// The bytes that erase `n` characters on the terminal: backspace, space, backspace for each.
pub open spec fn erase(n: nat) -> Seq<u8>
    decreases n,
{
    if n == 0 { Seq::empty() } else { erase((n - 1) as nat) + seq![BS, 0x20u8, BS] }
}

/// The line editor's state.
pub struct LineEditor {
    line: Vec<u8>,
    history: Vec<Vec<u8>>,
    history_idx: usize,
    esc: EscState,
}

fn copy_bytes(v: &Vec<u8>) -> (r: Vec<u8>)
    ensures
        r@ == v@,
{
    let mut r: Vec<u8> = Vec::new();
    let mut i: usize = 0;
    while i < v.len()
        invariant
            0 <= i <= v@.len(),
            r@ == v@.subrange(0, i as int),
        decreases v@.len() - i,
    {
        r.push(v[i]);
        i = i + 1;
        assert(r@ =~= v@.subrange(0, i as int));
    }
    assert(v@.subrange(0, v@.len() as int) =~= v@);
    r
}

fn erase_bytes(n: usize) -> (r: Vec<u8>)
    ensures
        r@ == erase(n as nat),
{
    let mut r: Vec<u8> = Vec::new();
    let mut i: usize = 0;
    while i < n
        invariant
            0 <= i <= n,
            r@ == erase(i as nat),
        decreases n - i,
    {
        r.push(BS);
        r.push(0x20);
        r.push(BS);
        i = i + 1;
        assert(r@ =~= erase(i as nat));
    }
    r
}

impl LineEditor {
    /// The line being typed.
    pub closed spec fn line_view(&self) -> Seq<u8> {
        self.line@
    }

    /// The commands entered so far, oldest first.
    pub closed spec fn history_view(&self) -> Seq<Seq<u8>> {
        self.history@.map_values(|v: Vec<u8>| v@)
    }

    /// The history entry being browsed (the history's length when none is).
    pub closed spec fn spec_history_idx(&self) -> nat {
        self.history_idx as nat
    }

    /// The escape-sequence state.
    pub closed spec fn spec_esc(&self) -> EscState {
        self.esc
    }

    /// The browsing index stays within the history.
    pub closed spec fn wf(&self) -> bool {
        self.history_idx <= self.history@.len()
    }

    /// An editor with an empty line and no history.
    pub fn new() -> (e: Self)
        ensures
            e.wf(),
            e.line_view() == Seq::<u8>::empty(),
            e.history_view() == Seq::<Seq<u8>>::empty(),
            e.spec_history_idx() == 0,
            e.spec_esc() == EscState::Normal,
    {
        let e = LineEditor { line: Vec::new(), history: Vec::new(), history_idx: 0, esc: EscState::Normal };
        assert(e.history_view() =~= Seq::<Seq<u8>>::empty());
        e
    }

    /// The line being typed.
    pub fn line(&self) -> (r: &Vec<u8>)
        ensures
            r@ == self.line_view(),
    {
        &self.line
    }

    /// Feeds one byte of terminal input.
    ///
    /// Enter submits a nonempty line, which joins the history and resets browsing to its end;
    /// backspace and delete drop the last character (erasing it on screen); a printable ASCII
    /// character is appended and echoed; ESC `[` `A` and ESC `[` `B` replace the line with the
    /// previous or next history entry (an empty line past the newest). Anything else, including
    /// an unknown escape sequence, is ignored.
    pub fn feed(&mut self, c: u8) -> (act: ShellAction)
        requires
            old(self).wf(),
            old(self).history_view().len() < usize::MAX,
        ensures
            final(self).wf(),
            ({
                let o = *old(self);
                let n = *final(self);
                let line = o.line_view();
                let hist = o.history_view();
                let idx = o.spec_history_idx();
                match o.spec_esc() {
                    EscState::Normal => {
                        if c == LF || c == CR {
                            if line.len() > 0 {
                                &&& act matches ShellAction::Submit { command: Some(cmd) } && cmd@ == line
                                &&& n.history_view() == hist.push(line)
                                &&& n.spec_history_idx() == hist.len() + 1
                                &&& n.line_view() == Seq::<u8>::empty()
                                &&& n.spec_esc() == EscState::Normal
                            } else {
                                &&& act matches ShellAction::Submit { command: None }
                                &&& n.history_view() == hist && n.spec_history_idx() == idx
                                &&& n.line_view() == line && n.spec_esc() == EscState::Normal
                            }
                        } else if c == BS || c == DL {
                            &&& act matches ShellAction::Echo { echo } && echo@ == if line.len() > 0 { seq![BS, 0x20u8, BS] } else { Seq::empty() }
                            &&& n.line_view() == if line.len() > 0 { line.drop_last() } else { line }
                            &&& n.history_view() == hist && n.spec_history_idx() == idx && n.spec_esc() == EscState::Normal
                        } else if c == ESC {
                            &&& act matches ShellAction::Echo { echo } && echo@ == Seq::<u8>::empty()
                            &&& n.line_view() == line && n.history_view() == hist && n.spec_history_idx() == idx
                            &&& n.spec_esc() == EscState::Escape
                        } else {
                            &&& act matches ShellAction::Echo { echo } && echo@ == if 0x20 <= c <= 0x7e { seq![c] } else { Seq::empty() }
                            &&& n.line_view() == if 0x20 <= c <= 0x7e { line.push(c) } else { line }
                            &&& n.history_view() == hist && n.spec_history_idx() == idx && n.spec_esc() == EscState::Normal
                        }
                    },
                    EscState::Escape => {
                        &&& act matches ShellAction::Echo { echo } && echo@ == Seq::<u8>::empty()
                        &&& n.line_view() == line && n.history_view() == hist && n.spec_history_idx() == idx
                        &&& n.spec_esc() == if c == 0x5b { EscState::Csi } else { EscState::Normal }
                    },
                    EscState::Csi => {
                        &&& n.spec_esc() == EscState::Normal
                        &&& n.history_view() == hist
                        &&& if c == 0x41 && idx > 0 {
                            &&& n.spec_history_idx() == idx - 1
                            &&& n.line_view() == hist[idx - 1int]
                            &&& act matches ShellAction::Echo { echo } && echo@ == erase(line.len()) + hist[idx - 1int]
                        } else if c == 0x42 && idx < hist.len() {
                            let next = if idx + 1 < hist.len() { hist[idx + 1int] } else { Seq::<u8>::empty() };
                            &&& n.spec_history_idx() == idx + 1
                            &&& n.line_view() == next
                            &&& act matches ShellAction::Echo { echo } && echo@ == erase(line.len()) + next
                        } else {
                            &&& n.spec_history_idx() == idx
                            &&& n.line_view() == line
                            &&& act matches ShellAction::Echo { echo } && echo@ == Seq::<u8>::empty()
                        }
                    },
                }
            }),
    {
        match self.esc {
            EscState::Normal => {
                if c == LF || c == CR {
                    if self.line.len() > 0 {
                        let cmd = copy_bytes(&self.line);
                        let entry = copy_bytes(&self.line);
                        let ghost old_hist = self.history@;
                        self.history.push(entry);
                        self.history_idx = self.history.len();
                        self.line = Vec::new();
                        proof {
                            assert(self.history@.map_values(|v: Vec<u8>| v@) =~= old_hist.map_values(|v: Vec<u8>| v@).push(cmd@));
                        }
                        ShellAction::Submit { command: Some(cmd) }
                    } else {
                        ShellAction::Submit { command: None }
                    }
                } else if c == BS || c == DL {
                    if self.line.len() > 0 {
                        self.line.pop();
                        ShellAction::Echo { echo: vec![BS, 0x20, BS] }
                    } else {
                        ShellAction::Echo { echo: Vec::new() }
                    }
                } else if c == ESC {
                    self.esc = EscState::Escape;
                    ShellAction::Echo { echo: Vec::new() }
                } else if 0x20 <= c && c <= 0x7e {
                    self.line.push(c);
                    ShellAction::Echo { echo: vec![c] }
                } else {
                    ShellAction::Echo { echo: Vec::new() }
                }
            },
            EscState::Escape => {
                self.esc = if c == 0x5b { EscState::Csi } else { EscState::Normal };
                ShellAction::Echo { echo: Vec::new() }
            },
            EscState::Csi => {
                self.esc = EscState::Normal;
                if c == 0x41 && self.history_idx > 0 {
                    self.history_idx = self.history_idx - 1;
                    let mut echo = erase_bytes(self.line.len());
                    let entry = copy_bytes(&self.history[self.history_idx]);
                    let shown = copy_bytes(&entry);
                    self.line = entry;
                    let ghost before = echo@;
                    let mut i: usize = 0;
                    while i < shown.len()
                        invariant
                            0 <= i <= shown@.len(),
                            echo@ == before + shown@.subrange(0, i as int),
                        decreases shown@.len() - i,
                    {
                        echo.push(shown[i]);
                        i = i + 1;
                        assert(echo@ =~= before + shown@.subrange(0, i as int));
                    }
                    assert(shown@.subrange(0, shown@.len() as int) =~= shown@);
                    ShellAction::Echo { echo }
                } else if c == 0x42 && self.history_idx < self.history.len() {
                    self.history_idx = self.history_idx + 1;
                    let mut echo = erase_bytes(self.line.len());
                    let entry = if self.history_idx < self.history.len() {
                        copy_bytes(&self.history[self.history_idx])
                    } else {
                        Vec::new()
                    };
                    let shown = copy_bytes(&entry);
                    self.line = entry;
                    let ghost before = echo@;
                    let mut i: usize = 0;
                    while i < shown.len()
                        invariant
                            0 <= i <= shown@.len(),
                            echo@ == before + shown@.subrange(0, i as int),
                        decreases shown@.len() - i,
                    {
                        echo.push(shown[i]);
                        i = i + 1;
                        assert(echo@ =~= before + shown@.subrange(0, i as int));
                    }
                    assert(shown@.subrange(0, shown@.len() as int) =~= shown@);
                    ShellAction::Echo { echo }
                } else {
                    ShellAction::Echo { echo: Vec::new() }
                }
            },
        }
    }
}

} // verus!
