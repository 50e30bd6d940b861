//! Terminal decisions: which graphics protocol the terminal speaks, how
//! raw input events become viewer input, and what the status line shows.
//! Reading the environment and the input device, and writing to the
//! terminal, are the caller's part.

use vstd::prelude::*;
use crate::outside::{char_width, char_width_of, lowercase_of, str_width, str_width_of, string_from_chars, to_lowercase};
use crate::text::{
    chars_equal, chars_of, contains_chars, contains_seq, decimal, push_all, push_decimal, starts_with_chars,
    starts_with_seq,
};

verus! {

/// Terminal type detection
#[derive(Debug, Clone, Copy, PartialEq, Eq, Structural)]
pub enum TerminalType {
    /// Kitty terminal with native graphics protocol
    Kitty,
    /// WezTerm with native imgcat support
    WezTerm,
    /// Sixel-capable terminal (foot, mlterm, xterm, etc.)
    Sixel,
    /// Unknown terminal type
    Unknown,
}

/// The environment the terminal type is detected from: the values of
/// `TERM_PROGRAM`, `TERM` and `COLORTERM` (empty when unset) and whether
/// `KITTY_WINDOW_ID`, `WEZTERM_PANE`, `WEZTERM_UNIX_SOCKET` and `WT_SESSION`
/// are set.
pub struct TerminalEnv {
    pub term_program: String,
    pub term: String,
    pub colorterm: String,
    pub kitty_window_id: bool,
    pub wezterm_pane: bool,
    pub wezterm_unix_socket: bool,
    pub wt_session: bool,
}

/// Kitty: `TERM_PROGRAM` mentions kitty, `KITTY_WINDOW_ID` is set, or `TERM`
/// mentions xterm-kitty (both compared in lowercase).
pub open spec fn kitty_env(env: TerminalEnv) -> bool {
    ||| contains_seq(lowercase_of(env.term_program@), seq!['k', 'i', 't', 't', 'y'])
    ||| env.kitty_window_id
    ||| contains_seq(lowercase_of(env.term@), seq!['x', 't', 'e', 'r', 'm', '-', 'k', 'i', 't', 't', 'y'])
}

/// WezTerm: `WEZTERM_PANE` or `WEZTERM_UNIX_SOCKET` is set, or `TERM_PROGRAM`
/// mentions wezterm.
pub open spec fn wezterm_env(env: TerminalEnv) -> bool {
    ||| env.wezterm_pane
    ||| env.wezterm_unix_socket
    ||| contains_seq(lowercase_of(env.term_program@), seq!['w', 'e', 'z', 't', 'e', 'r', 'm'])
}

/// Sixel: foot, mlterm, contour, mintty, Windows Terminal, a truecolor
/// xterm, or any terminal when the chafa tool is installed.
pub open spec fn sixel_env(env: TerminalEnv, chafa_found: bool) -> bool {
    let term = lowercase_of(env.term@);
    ||| starts_with_seq(term, seq!['f', 'o', 'o', 't'])
    ||| term == seq!['m', 'l', 't', 'e', 'r', 'm']
    ||| contains_seq(term, seq!['c', 'o', 'n', 't', 'o', 'u', 'r'])
    ||| lowercase_of(env.term_program@) == seq!['m', 'i', 'n', 't', 't', 'y']
    ||| env.wt_session
    ||| (contains_seq(term, seq!['x', 't', 'e', 'r', 'm']) && lowercase_of(env.colorterm@) == seq![
        't',
        'r',
        'u',
        'e',
        'c',
        'o',
        'l',
        'o',
        'r',
    ])
    ||| chafa_found
}

/// The detected terminal type, checking Kitty first, then WezTerm, then Sixel.
pub open spec fn terminal_type_spec(env: TerminalEnv, chafa_found: bool) -> TerminalType {
    if kitty_env(env) {
        TerminalType::Kitty
    } else if wezterm_env(env) {
        TerminalType::WezTerm
    } else if sixel_env(env, chafa_found) {
        TerminalType::Sixel
    } else {
        TerminalType::Unknown
    }
}

fn lower_chars(s: &String) -> (out: Vec<char>)
    ensures
        out@ == lowercase_of(s@),
{
    let l = to_lowercase(s.as_str());
    chars_of(l.as_str())
}

/// Check if the terminal supports Sixel graphics (`chafa_found`: the chafa
/// tool is on the search path).
pub fn is_sixel_terminal(env: &TerminalEnv, chafa_found: bool) -> (sixel: bool)
    ensures
        sixel == sixel_env(*env, chafa_found),
{
    let term = lower_chars(&env.term);
    let term_program = lower_chars(&env.term_program);
    let colorterm = lower_chars(&env.colorterm);
    let term = term.as_slice();
    if starts_with_chars(term, &['f', 'o', 'o', 't']) || chars_equal(term, &['m', 'l', 't', 'e', 'r', 'm'])
        || contains_chars(term, &['c', 'o', 'n', 't', 'o', 'u', 'r']) {
        return true;
    }
    if chars_equal(term_program.as_slice(), &['m', 'i', 'n', 't', 't', 'y']) {
        return true;
    }
    if env.wt_session {
        return true;
    }
    if contains_chars(term, &['x', 't', 'e', 'r', 'm']) && chars_equal(
        colorterm.as_slice(),
        &['t', 'r', 'u', 'e', 'c', 'o', 'l', 'o', 'r'],
    ) {
        return true;
    }
    chafa_found
}

/// Detect the terminal type from the environment (see `terminal_type_spec`).
pub fn detect_terminal_type(env: &TerminalEnv, chafa_found: bool) -> (t: TerminalType)
    ensures
        t == terminal_type_spec(*env, chafa_found),
{
    let term_program = lower_chars(&env.term_program);
    let term = lower_chars(&env.term);
    if contains_chars(term_program.as_slice(), &['k', 'i', 't', 't', 'y']) || env.kitty_window_id || contains_chars(
        term.as_slice(),
        &['x', 't', 'e', 'r', 'm', '-', 'k', 'i', 't', 't', 'y'],
    ) {
        return TerminalType::Kitty;
    }
    if env.wezterm_pane || env.wezterm_unix_socket || contains_chars(
        term_program.as_slice(),
        &['w', 'e', 'z', 't', 'e', 'r', 'm'],
    ) {
        return TerminalType::WezTerm;
    }
    if is_sixel_terminal(env, chafa_found) {
        return TerminalType::Sixel;
    }
    TerminalType::Unknown
}

/// Input event types
#[derive(Debug, Clone, Copy, PartialEq, Eq, Structural)]
pub enum InputEvent {
    /// Character input
    Char(char),
    /// Arrow key
    Up,
    Down,
    Left,
    Right,
    /// Shift + Arrow
    ShiftLeft,
    ShiftRight,
    /// Enter key
    Enter,
    /// Escape key
    Escape,
    /// Mouse events
    MouseLeft,
    MouseRight,
    MouseMiddle,
    /// Resize event
    Resize,
    /// No input (timeout)
    NoInput,
}

/// A key as the terminal reports it.
#[derive(Debug, Clone, Copy, PartialEq, Eq, Structural)]
pub enum KeyCode {
    Char(char),
    Enter,
    Esc,
    Left,
    Right,
    Up,
    Down,
    /// Any other key.
    Other,
}

/// A mouse button.
#[derive(Debug, Clone, Copy, PartialEq, Eq, Structural)]
pub enum MouseButton {
    Left,
    Right,
    Middle,
}

/// An event as the terminal reports it.
#[derive(Debug, Clone, Copy, PartialEq, Eq, Structural)]
pub enum TermEvent {
    /// A key event: `press` for a key press (not a release or repeat);
    /// `shift_only` / `control_only` when exactly that modifier is held.
    Key { code: KeyCode, press: bool, shift_only: bool, control_only: bool },
    /// A mouse button went down.
    MouseDown(MouseButton),
    /// The terminal was resized.
    Resize,
    /// Any other event (mouse moves and releases, focus, paste).
    Other,
}

/// What reading input comes to: an input event, or Ctrl+C, on which the
/// program exits.
#[derive(Debug, Clone, Copy, PartialEq, Eq, Structural)]
pub enum ReadOutcome {
    Input(InputEvent),
    Interrupt,
}

/// The input a terminal event stands for (`None`: no event arrived).
pub open spec fn translate_spec(event: Option<TermEvent>) -> ReadOutcome {
    match event {
        Some(TermEvent::Key { code, press, shift_only, control_only }) => if !press {
            ReadOutcome::Input(InputEvent::NoInput)
        } else {
            match code {
                KeyCode::Char(c) => if c == 'c' && control_only {
                    ReadOutcome::Interrupt
                } else {
                    ReadOutcome::Input(InputEvent::Char(c))
                },
                KeyCode::Enter => ReadOutcome::Input(InputEvent::Enter),
                KeyCode::Esc => ReadOutcome::Input(InputEvent::Escape),
                KeyCode::Left => ReadOutcome::Input(if shift_only { InputEvent::ShiftLeft } else { InputEvent::Left }),
                KeyCode::Right => ReadOutcome::Input(if shift_only { InputEvent::ShiftRight } else { InputEvent::Right }),
                KeyCode::Up => ReadOutcome::Input(InputEvent::Up),
                KeyCode::Down => ReadOutcome::Input(InputEvent::Down),
                KeyCode::Other => ReadOutcome::Input(InputEvent::NoInput),
            }
        },
        Some(TermEvent::MouseDown(b)) => ReadOutcome::Input(
            match b {
                MouseButton::Left => InputEvent::MouseLeft,
                MouseButton::Right => InputEvent::MouseRight,
                MouseButton::Middle => InputEvent::MouseMiddle,
            },
        ),
        Some(TermEvent::Resize) => ReadOutcome::Input(InputEvent::Resize),
        Some(TermEvent::Other) => ReadOutcome::Input(InputEvent::NoInput),
        None => ReadOutcome::Input(InputEvent::NoInput),
    }
}

/// Turns a terminal event into viewer input: key presses map to keys
/// (Shift+Left/Right to their own events, Ctrl+C to an interrupt), mouse
/// button presses to mouse events, resizes to `Resize`; everything else,
/// and no event at all, to `InputEvent::NoInput`.
pub fn read_input(event: Option<TermEvent>) -> (outcome: ReadOutcome)
    ensures
        outcome == translate_spec(event),
{
    match event {
        Some(TermEvent::Key { code, press, shift_only, control_only }) => {
            if !press {
                return ReadOutcome::Input(InputEvent::NoInput);
            }
            match code {
                KeyCode::Char(c) => {
                    if c == 'c' && control_only {
                        ReadOutcome::Interrupt
                    } else {
                        ReadOutcome::Input(InputEvent::Char(c))
                    }
                },
                KeyCode::Enter => ReadOutcome::Input(InputEvent::Enter),
                KeyCode::Esc => ReadOutcome::Input(InputEvent::Escape),
                KeyCode::Left => ReadOutcome::Input(if shift_only { InputEvent::ShiftLeft } else { InputEvent::Left }),
                KeyCode::Right => ReadOutcome::Input(
                    if shift_only {
                        InputEvent::ShiftRight
                    } else {
                        InputEvent::Right
                    },
                ),
                KeyCode::Up => ReadOutcome::Input(InputEvent::Up),
                KeyCode::Down => ReadOutcome::Input(InputEvent::Down),
                KeyCode::Other => ReadOutcome::Input(InputEvent::NoInput),
            }
        },
        Some(TermEvent::MouseDown(b)) => ReadOutcome::Input(
            match b {
                MouseButton::Left => InputEvent::MouseLeft,
                MouseButton::Right => InputEvent::MouseRight,
                MouseButton::Middle => InputEvent::MouseMiddle,
            },
        ),
        Some(TermEvent::Resize) => ReadOutcome::Input(InputEvent::Resize),
        Some(TermEvent::Other) => ReadOutcome::Input(InputEvent::NoInput),
        None => ReadOutcome::Input(InputEvent::NoInput),
    }
}

/// Get a single input event: `None` for "no input".
pub fn get_input(event: InputEvent) -> (key: Option<InputEvent>)
    ensures
        key == (if event == InputEvent::NoInput { None } else { Some(event) }),
{
    match event {
        InputEvent::NoInput => None,
        other => Some(other),
    }
}

/// The display width counted for one character while truncating (control
/// characters count as 0).
pub open spec fn counted_width(c: char) -> int {
    match char_width_of(c) {
        Some(w) => w as int,
        None => 0,
    }
}

/// The summed widths of the characters of `s`.
pub open spec fn summed_width(s: Seq<char>) -> int
    decreases s.len(),
{
    if s.len() == 0 {
        0
    } else {
        summed_width(s.drop_last()) + counted_width(s.last())
    }
}

/// `text` cut to its first `k` characters: the longest prefix whose summed
/// character widths stay within `max_width`.
pub open spec fn fits_prefix(text: Seq<char>, max_width: int, k: int) -> bool {
    &&& 0 <= k <= text.len()
    &&& summed_width(text.take(k)) <= max_width
    &&& (k == text.len() || summed_width(text.take(k + 1)) > max_width)
}

proof fn lemma_summed_width_monotone(s: Seq<char>, i: int, j: int)
    requires
        0 <= i <= j <= s.len(),
    ensures
        summed_width(s.take(i)) <= summed_width(s.take(j)),
    decreases j - i,
{
    if i < j {
        lemma_summed_width_monotone(s, i, j - 1);
        assert(s.take(j).drop_last() =~= s.take(j - 1));
    }
}

proof fn lemma_fits_prefix_unique(text: Seq<char>, max_width: int, k1: int, k2: int)
    requires
        fits_prefix(text, max_width, k1),
        fits_prefix(text, max_width, k2),
    ensures
        k1 == k2,
{
    if k1 < k2 {
        lemma_summed_width_monotone(text, k1 + 1, k2);
    } else if k2 < k1 {
        lemma_summed_width_monotone(text, k2 + 1, k1);
    }
}

/// The text as `truncate_by_width` leaves it.
pub open spec fn truncated(text: Seq<char>, max_width: int) -> Seq<char> {
    if str_width_of(text) <= max_width {
        text
    } else {
        text.take(choose|k: int| fits_prefix(text, max_width, k))
    }
}

/// Truncate text to fit within max_width columns, accounting for wide
/// characters: the whole text when its display width fits, otherwise the
/// longest prefix whose character widths add up to at most `max_width`.
pub fn truncate_by_width(text: &str, max_width: usize) -> (out: String)
    ensures
        out@ == truncated(text@, max_width as int),
        str_width_of(text@) > max_width ==> exists|k: int| fits_prefix(text@, max_width as int, k) && out@ == text@.take(k),
{
    let chars = chars_of(text);
    if str_width(text) <= max_width {
        return string_from_chars(chars.as_slice());
    }
    let mut result: Vec<char> = Vec::new();
    let mut width: usize = 0;
    let mut i: usize = 0;
    while i < chars.len()
        invariant
            i <= chars@.len(),
            chars@ == text@,
            str_width_of(text@) > max_width,
            result@ == text@.take(i as int),
            width == summed_width(text@.take(i as int)),
            width <= max_width,
        decreases chars.len() - i,
    {
        let w = match char_width(chars[i]) {
            Some(w) => w,
            None => 0,
        };
        assert(text@.take(i + 1).drop_last() =~= text@.take(i as int));
        if w > max_width - width {
            assert(fits_prefix(text@, max_width as int, i as int));
            proof {
                let c = choose|k: int| fits_prefix(text@, max_width as int, k);
                lemma_fits_prefix_unique(text@, max_width as int, c, i as int);
            }
            return string_from_chars(result.as_slice());
        }
        result.push(chars[i]);
        width = width + w;
        assert(result@ =~= text@.take(i + 1));
        i = i + 1;
    }
    assert(text@.take(i as int) =~= text@);
    assert(fits_prefix(text@, max_width as int, i as int));
    proof {
        let c = choose|k: int| fits_prefix(text@, max_width as int, k);
        lemma_fits_prefix_unique(text@, max_width as int, c, i as int);
    }
    string_from_chars(result.as_slice())
}

/// The terminal line the status text goes to.
pub open spec fn status_line(lines: int, offset: int) -> int {
    if lines >= 2 + offset {
        lines - 2 + offset
    } else {
        1
    }
}

/// `s` padded on the right with spaces to `width` characters.
pub open spec fn pad_right(s: Seq<char>, width: int) -> Seq<char> {
    if s.len() < width {
        s + Seq::new((width - s.len()) as nat, |i: int| ' ')
    } else {
        s
    }
}

/// The escape sequence that moves to column 1 of `line` and clears it.
pub open spec fn line_prefix(line: nat) -> Seq<char> {
    seq!['\r', '\x1b', '['] + decimal(line) + seq![';', '1', 'H', '\x1b', '[', 'K']
}

/// The width the status text is cut and padded to: two columns less than
/// the terminal width.
pub open spec fn status_width(cols: int) -> int {
    if cols >= 2 {
        cols - 2
    } else {
        0
    }
}

/// Text to write status text on the status line: move to the line, clear
/// it, and write the text cut to the width less two columns and padded to
/// that width.
pub fn status_text(lines: usize, cols: usize, text: &str, offset: usize) -> (out: String)
    requires
        offset <= usize::MAX - 2,
        lines >= 2 + offset ==> lines - 2 + offset <= usize::MAX,
    ensures
        out@ == line_prefix(status_line(lines as int, offset as int) as nat) + pad_right(
            truncated(text@, status_width(cols as int)),
            status_width(cols as int),
        ),
{
    let line: usize = if lines >= 2 + offset { lines - 2 + offset } else { 1 };
    let max_width: usize = if cols >= 2 { cols - 2 } else { 0 };
    let truncated = truncate_by_width(text, max_width);
    let tchars = chars_of(truncated.as_str());
    let mut out: Vec<char> = Vec::new();
    push_all(&mut out, &['\r', '\x1b', '[']);
    push_decimal(&mut out, line);
    push_all(&mut out, &[';', '1', 'H', '\x1b', '[', 'K']);
    let ghost before_text = out@;
    push_all(&mut out, tchars.as_slice());
    let n = tchars.len();
    if n < max_width {
        let mut k: usize = n;
        while k < max_width
            invariant
                n <= k <= max_width,
                out@ == before_text + tchars@ + Seq::new((k - n) as nat, |i: int| ' '),
            decreases max_width - k,
        {
            out.push(' ');
            assert(Seq::new((k + 1 - n) as nat, |i: int| ' ') =~= Seq::new((k - n) as nat, |i: int| ' ').push(' '));
            k = k + 1;
        }
    }
    proof {
        assert(out@ =~= line_prefix(line as nat) + pad_right(truncated@, max_width as int));
    }
    string_from_chars(out.as_slice())
}

/// Keys become the input of the same key: each arrow pressed alone gives
/// its own arrow, with Shift (alone) the Shift arrow of the same side;
/// characters, Enter and Escape give themselves (Ctrl+C interrupts); a
/// release gives no input; mouse buttons give the button of the same side.
pub proof fn lemma_keys_keep_their_meaning(code: KeyCode, shift_only: bool, control_only: bool, c: char)
    ensures
        translate_spec(Some(TermEvent::Key { code: KeyCode::Left, press: true, shift_only: false, control_only }))
            == ReadOutcome::Input(InputEvent::Left),
        translate_spec(Some(TermEvent::Key { code: KeyCode::Right, press: true, shift_only: false, control_only }))
            == ReadOutcome::Input(InputEvent::Right),
        translate_spec(Some(TermEvent::Key { code: KeyCode::Left, press: true, shift_only: true, control_only }))
            == ReadOutcome::Input(InputEvent::ShiftLeft),
        translate_spec(Some(TermEvent::Key { code: KeyCode::Right, press: true, shift_only: true, control_only }))
            == ReadOutcome::Input(InputEvent::ShiftRight),
        translate_spec(Some(TermEvent::Key { code: KeyCode::Up, press: true, shift_only, control_only }))
            == ReadOutcome::Input(InputEvent::Up),
        translate_spec(Some(TermEvent::Key { code: KeyCode::Down, press: true, shift_only, control_only }))
            == ReadOutcome::Input(InputEvent::Down),
        translate_spec(Some(TermEvent::Key { code: KeyCode::Enter, press: true, shift_only, control_only }))
            == ReadOutcome::Input(InputEvent::Enter),
        translate_spec(Some(TermEvent::Key { code: KeyCode::Esc, press: true, shift_only, control_only }))
            == ReadOutcome::Input(InputEvent::Escape),
        !(c == 'c' && control_only) ==> translate_spec(
            Some(TermEvent::Key { code: KeyCode::Char(c), press: true, shift_only, control_only }),
        ) == ReadOutcome::Input(InputEvent::Char(c)),
        translate_spec(Some(TermEvent::Key { code: KeyCode::Char('c'), press: true, shift_only, control_only: true }))
            == ReadOutcome::Interrupt,
        translate_spec(Some(TermEvent::Key { code, press: false, shift_only, control_only })) == ReadOutcome::Input(
            InputEvent::NoInput,
        ),
        translate_spec(Some(TermEvent::MouseDown(MouseButton::Left))) == ReadOutcome::Input(InputEvent::MouseLeft),
        translate_spec(Some(TermEvent::MouseDown(MouseButton::Right))) == ReadOutcome::Input(InputEvent::MouseRight),
        translate_spec(Some(TermEvent::MouseDown(MouseButton::Middle))) == ReadOutcome::Input(InputEvent::MouseMiddle),
        translate_spec(Some(TermEvent::Resize)) == ReadOutcome::Input(InputEvent::Resize),
        translate_spec(None) == ReadOutcome::Input(InputEvent::NoInput),
{
}

} // verus!
