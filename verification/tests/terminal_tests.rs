use terma::terminal::{
    detect_terminal_type, get_input, is_sixel_terminal, read_input, status_text, truncate_by_width, InputEvent, KeyCode,
    MouseButton, ReadOutcome, TermEvent, TerminalEnv, TerminalType,
};

fn env(term_program: &str, term: &str, colorterm: &str) -> TerminalEnv {
    TerminalEnv {
        term_program: term_program.to_string(),
        term: term.to_string(),
        colorterm: colorterm.to_string(),
        kitty_window_id: false,
        wezterm_pane: false,
        wezterm_unix_socket: false,
        wt_session: false,
    }
}

fn key(code: KeyCode) -> Option<TermEvent> {
    Some(TermEvent::Key { code, press: true, shift_only: false, control_only: false })
}

#[test]
fn kitty_is_detected_first() {
    assert_eq!(detect_terminal_type(&env("kitty", "", ""), false), TerminalType::Kitty);
    assert_eq!(detect_terminal_type(&env("", "XTERM-KITTY", ""), true), TerminalType::Kitty);
    let mut e = env("WezTerm", "foot", "");
    e.kitty_window_id = true;
    assert_eq!(detect_terminal_type(&e, true), TerminalType::Kitty);
}

#[test]
fn wezterm_is_detected() {
    assert_eq!(detect_terminal_type(&env("WezTerm", "xterm-256color", ""), false), TerminalType::WezTerm);
    let mut e = env("", "", "");
    e.wezterm_pane = true;
    assert_eq!(detect_terminal_type(&e, false), TerminalType::WezTerm);
    let mut e = env("", "", "");
    e.wezterm_unix_socket = true;
    assert_eq!(detect_terminal_type(&e, false), TerminalType::WezTerm);
}

#[test]
fn sixel_terminals() {
    assert!(is_sixel_terminal(&env("", "foot-extra", ""), false));
    assert!(is_sixel_terminal(&env("", "MLterm", ""), false));
    assert!(!is_sixel_terminal(&env("", "mlterm-256", ""), false));
    assert!(is_sixel_terminal(&env("", "contour", ""), false));
    assert!(is_sixel_terminal(&env("MinTTY", "", ""), false));
    assert!(is_sixel_terminal(&env("", "xterm-256color", "TrueColor"), false));
    assert!(!is_sixel_terminal(&env("", "xterm-256color", "24bit"), false));
    assert!(is_sixel_terminal(&env("", "xterm-256color", "24bit"), true));
    let mut e = env("", "", "");
    e.wt_session = true;
    assert!(is_sixel_terminal(&e, false));
    assert_eq!(detect_terminal_type(&env("", "foot", ""), false), TerminalType::Sixel);
    assert_eq!(detect_terminal_type(&env("", "linux", ""), false), TerminalType::Unknown);
    assert_eq!(detect_terminal_type(&env("", "linux", ""), true), TerminalType::Sixel);
}

#[test]
fn key_events_become_input() {
    assert_eq!(read_input(key(KeyCode::Char('j'))), ReadOutcome::Input(InputEvent::Char('j')));
    assert_eq!(read_input(key(KeyCode::Enter)), ReadOutcome::Input(InputEvent::Enter));
    assert_eq!(read_input(key(KeyCode::Esc)), ReadOutcome::Input(InputEvent::Escape));
    assert_eq!(read_input(key(KeyCode::Up)), ReadOutcome::Input(InputEvent::Up));
    assert_eq!(read_input(key(KeyCode::Down)), ReadOutcome::Input(InputEvent::Down));
    assert_eq!(read_input(key(KeyCode::Left)), ReadOutcome::Input(InputEvent::Left));
    assert_eq!(read_input(key(KeyCode::Other)), ReadOutcome::Input(InputEvent::NoInput));
    let shift_right = Some(TermEvent::Key { code: KeyCode::Right, press: true, shift_only: true, control_only: false });
    assert_eq!(read_input(shift_right), ReadOutcome::Input(InputEvent::ShiftRight));
    let shift_left = Some(TermEvent::Key { code: KeyCode::Left, press: true, shift_only: true, control_only: false });
    assert_eq!(read_input(shift_left), ReadOutcome::Input(InputEvent::ShiftLeft));
    let release = Some(TermEvent::Key { code: KeyCode::Char('j'), press: false, shift_only: false, control_only: false });
    assert_eq!(read_input(release), ReadOutcome::Input(InputEvent::NoInput));
}

#[test]
fn control_c_interrupts() {
    let ctrl_c = Some(TermEvent::Key { code: KeyCode::Char('c'), press: true, shift_only: false, control_only: true });
    assert_eq!(read_input(ctrl_c), ReadOutcome::Interrupt);
    assert_eq!(read_input(key(KeyCode::Char('c'))), ReadOutcome::Input(InputEvent::Char('c')));
}

#[test]
fn mouse_and_other_events() {
    assert_eq!(read_input(Some(TermEvent::MouseDown(MouseButton::Left))), ReadOutcome::Input(InputEvent::MouseLeft));
    assert_eq!(read_input(Some(TermEvent::MouseDown(MouseButton::Right))), ReadOutcome::Input(InputEvent::MouseRight));
    assert_eq!(read_input(Some(TermEvent::MouseDown(MouseButton::Middle))), ReadOutcome::Input(InputEvent::MouseMiddle));
    assert_eq!(read_input(Some(TermEvent::Resize)), ReadOutcome::Input(InputEvent::Resize));
    assert_eq!(read_input(Some(TermEvent::Other)), ReadOutcome::Input(InputEvent::NoInput));
    assert_eq!(read_input(None), ReadOutcome::Input(InputEvent::NoInput));
}

#[test]
fn no_input_is_none() {
    assert_eq!(get_input(InputEvent::NoInput), None);
    assert_eq!(get_input(InputEvent::Enter), Some(InputEvent::Enter));
    assert_eq!(get_input(InputEvent::Char('q')), Some(InputEvent::Char('q')));
}

#[test]
fn truncation_counts_display_width() {
    assert_eq!(truncate_by_width("hello", 10), "hello");
    assert_eq!(truncate_by_width("hello world", 5), "hello");
    assert_eq!(truncate_by_width("日本語", 5), "日本");
    assert_eq!(truncate_by_width("日本語", 6), "日本語");
    assert_eq!(truncate_by_width("a日本", 2), "a");
    assert_eq!(truncate_by_width("abc", 0), "");
    assert_eq!(truncate_by_width("", 0), "");
}

#[test]
fn status_text_moves_clears_and_pads() {
    assert_eq!(status_text(24, 10, "hello world", 0), "\r\x1b[22;1H\x1b[Khello wo");
    assert_eq!(status_text(24, 12, "hi", 1), "\r\x1b[23;1H\x1b[Khi        ");
    assert_eq!(status_text(1, 0, "x", 0), "\r\x1b[1;1H\x1b[K");
    assert_eq!(status_text(3, 6, "日本語", 2), "\r\x1b[1;1H\x1b[K日本  ");
}
