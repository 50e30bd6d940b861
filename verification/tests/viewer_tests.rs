use terma::resume::ResumeState;
use terma::terminal::InputEvent;
use terma::viewer::{command_for, descend_into_only_subdir, start_position, Command, Outcome, Screen, ViewerState, TURBO_STEP};

fn manga_at(img_idx: usize) -> ViewerState {
    ViewerState { dir_idx: 0, img_idx, cover_mode: true, reading_mode: true, force_single: false }
}

#[test]
fn keys_map_to_commands() {
    assert_eq!(command_for(InputEvent::Char('j'), true), Command::Next);
    assert_eq!(command_for(InputEvent::Enter, false), Command::Next);
    assert_eq!(command_for(InputEvent::Char('k'), true), Command::Prev);
    assert_eq!(command_for(InputEvent::Char('l'), false), Command::Prev);
    assert_eq!(command_for(InputEvent::Char('J'), true), Command::TurboNext);
    assert_eq!(command_for(InputEvent::Char('L'), true), Command::TurboPrev);
    assert_eq!(command_for(InputEvent::Char('0'), true), Command::First);
    assert_eq!(command_for(InputEvent::Char('1'), true), Command::Percent(10));
    assert_eq!(command_for(InputEvent::Char('5'), true), Command::Percent(50));
    assert_eq!(command_for(InputEvent::Char('9'), false), Command::Percent(90));
    assert_eq!(command_for(InputEvent::Char('c'), true), Command::ToggleCover);
    assert_eq!(command_for(InputEvent::Char('r'), true), Command::ToggleReading);
    assert_eq!(command_for(InputEvent::Char('s'), true), Command::ToggleSingle);
    assert_eq!(command_for(InputEvent::Char(','), true), Command::NextVolume);
    assert_eq!(command_for(InputEvent::Char('.'), true), Command::PrevVolume);
    assert_eq!(command_for(InputEvent::Char('q'), true), Command::Quit);
    assert_eq!(command_for(InputEvent::Char('h'), true), Command::Quit);
    assert_eq!(command_for(InputEvent::Char('x'), true), Command::Ignore);
    assert_eq!(command_for(InputEvent::MouseLeft, true), Command::Next);
    assert_eq!(command_for(InputEvent::MouseRight, true), Command::Prev);
    assert_eq!(command_for(InputEvent::MouseMiddle, true), Command::Quit);
    assert_eq!(command_for(InputEvent::Resize, true), Command::Redraw);
    assert_eq!(command_for(InputEvent::NoInput, true), Command::Ignore);
    assert_eq!(command_for(InputEvent::Escape, true), Command::Ignore);
}

#[test]
fn arrows_follow_the_reading_direction() {
    assert_eq!(command_for(InputEvent::Left, true), Command::Next);
    assert_eq!(command_for(InputEvent::Right, true), Command::Prev);
    assert_eq!(command_for(InputEvent::Left, false), Command::Prev);
    assert_eq!(command_for(InputEvent::Right, false), Command::Next);
    assert_eq!(command_for(InputEvent::ShiftLeft, true), Command::TurboNext);
    assert_eq!(command_for(InputEvent::ShiftRight, true), Command::TurboPrev);
    assert_eq!(command_for(InputEvent::ShiftLeft, false), Command::TurboPrev);
    assert_eq!(command_for(InputEvent::ShiftRight, false), Command::TurboNext);
}

#[test]
fn next_walks_screens_then_volumes() {
    let pages = [false; 5];
    let mut s = manga_at(0);
    assert_eq!(s.handle_key(InputEvent::Char('j'), &pages, 2), Outcome::Stay { redraw: true });
    assert_eq!(s.img_idx, 1);
    assert_eq!(s.handle_key(InputEvent::Char('j'), &pages, 2), Outcome::Stay { redraw: true });
    assert_eq!(s.img_idx, 3);
    assert_eq!(s.handle_key(InputEvent::Char('j'), &pages, 2), Outcome::EnterVolume { to_last_page: false });
    assert_eq!((s.dir_idx, s.img_idx), (1, 0));
}

#[test]
fn next_stays_at_the_last_volume_end() {
    let pages = [false; 3];
    let mut s = ViewerState { dir_idx: 1, img_idx: 1, cover_mode: false, reading_mode: true, force_single: false };
    assert_eq!(s.handle_command(Command::Next, &pages, 2), Outcome::Stay { redraw: true });
    assert_eq!((s.dir_idx, s.img_idx), (1, 1));
}

#[test]
fn prev_goes_back_a_screen_or_a_volume() {
    let pages = [false; 5];
    let mut s = manga_at(3);
    assert_eq!(s.handle_key(InputEvent::Char('k'), &pages, 2), Outcome::Stay { redraw: true });
    assert_eq!(s.img_idx, 1);
    assert_eq!(s.handle_key(InputEvent::Char('k'), &pages, 2), Outcome::Stay { redraw: true });
    assert_eq!(s.img_idx, 0);
    assert_eq!(s.handle_key(InputEvent::Char('k'), &pages, 2), Outcome::Stay { redraw: true });
    assert_eq!(s.img_idx, 0);
    let mut s = ViewerState { dir_idx: 1, ..manga_at(0) };
    assert_eq!(s.handle_key(InputEvent::Right, &pages, 2), Outcome::EnterVolume { to_last_page: true });
    assert_eq!((s.dir_idx, s.img_idx), (0, 0));
    assert!(s.enter_volume(5, true));
    assert_eq!(s.img_idx, 4);
}

#[test]
fn prev_undoes_next() {
    let pages = [false, false, true, false, false, false];
    for cover in [false, true] {
        let mut s = ViewerState { dir_idx: 0, img_idx: 0, cover_mode: cover, reading_mode: false, force_single: false };
        loop {
            let before = s;
            if s.handle_command(Command::Next, &pages, 1) != (Outcome::Stay { redraw: true }) || s == before {
                break;
            }
            let after = s;
            let mut back = after;
            back.handle_command(Command::Prev, &pages, 1);
            assert_eq!(back, before);
        }
    }
}

#[test]
fn turbo_moves_ten_pages_within_the_volume() {
    let pages = [false; 25];
    let mut s = manga_at(0);
    s.handle_key(InputEvent::Char('J'), &pages, 1);
    assert_eq!(s.img_idx, TURBO_STEP);
    s.img_idx = 20;
    s.handle_key(InputEvent::Char('J'), &pages, 1);
    assert_eq!(s.img_idx, 24);
    s.img_idx = 5;
    s.handle_key(InputEvent::Char('K'), &pages, 1);
    assert_eq!(s.img_idx, 0);
    s.img_idx = 15;
    s.handle_key(InputEvent::ShiftRight, &pages, 1);
    assert_eq!(s.img_idx, 5);
}

#[test]
fn toggles_and_other_commands() {
    let pages = [false; 6];
    let mut s = manga_at(4);
    assert_eq!(s.handle_key(InputEvent::Char('c'), &pages, 1), Outcome::Stay { redraw: true });
    assert!(!s.cover_mode);
    assert_eq!(s.img_idx, 0);
    s.handle_key(InputEvent::Char('r'), &pages, 1);
    assert!(!s.reading_mode);
    s.handle_key(InputEvent::Char('r'), &pages, 1);
    assert!(s.reading_mode);
    s.handle_key(InputEvent::Char('s'), &pages, 1);
    assert!(s.force_single);
    assert_eq!(s.handle_key(InputEvent::Char('7'), &pages, 1), Outcome::JumpToPercent(70));
    assert_eq!(s.handle_key(InputEvent::Char('q'), &pages, 1), Outcome::Quit);
    assert_eq!(s.handle_key(InputEvent::Char('z'), &pages, 1), Outcome::Stay { redraw: false });
    s.jump_to(3, &pages);
    assert_eq!(s.img_idx, 3);
    assert_eq!(s.handle_key(InputEvent::Char('0'), &pages, 1), Outcome::Stay { redraw: true });
    assert_eq!(s.img_idx, 0);
}

#[test]
fn volume_keys() {
    let pages = [false; 2];
    let mut s = manga_at(1);
    assert_eq!(s.handle_key(InputEvent::Char(','), &pages, 3), Outcome::EnterVolume { to_last_page: false });
    assert_eq!((s.dir_idx, s.img_idx), (1, 0));
    assert_eq!(s.handle_key(InputEvent::Char('.'), &pages, 3), Outcome::EnterVolume { to_last_page: false });
    assert_eq!(s.dir_idx, 0);
    assert_eq!(s.handle_key(InputEvent::Char('.'), &pages, 3), Outcome::Stay { redraw: true });
    assert_eq!(s.dir_idx, 0);
}

#[test]
fn entering_volumes() {
    let mut s = manga_at(7);
    assert!(!s.enter_volume(0, false));
    assert_eq!((s.dir_idx, s.img_idx), (1, 7));
    assert!(s.enter_volume(3, false));
    assert_eq!(s.img_idx, 2);
    let mut s = manga_at(1);
    assert!(s.enter_volume(3, false));
    assert_eq!(s.img_idx, 1);
}

#[test]
fn screens_follow_the_reading_mode() {
    let pages = [false, false, false, true, false];
    assert_eq!(manga_at(0).screen(&pages), Screen::Cover(0));
    assert_eq!(manga_at(1).screen(&pages), Screen::Spread { right: 1, left: 2 });
    let comic = ViewerState { reading_mode: false, ..manga_at(1) };
    assert_eq!(comic.screen(&pages), Screen::Spread { right: 2, left: 1 });
    assert_eq!(manga_at(3).screen(&pages), Screen::Single(3));
    assert_eq!(manga_at(4).screen(&pages), Screen::Single(4));
    let no_cover = ViewerState { cover_mode: false, ..manga_at(0) };
    assert_eq!(no_cover.screen(&pages), Screen::Spread { right: 0, left: 1 });
    let single = ViewerState { force_single: true, ..manga_at(1) };
    assert_eq!(single.screen(&pages), Screen::Single(1));
}

#[test]
fn status_lines() {
    let s = manga_at(0);
    assert_eq!(
        s.status_line(true, "vol1", "001.png", "002.png"),
        " [Cover] [Multi] [Manga] [<前話][次話>] | DIR: vol1 | Cover: 001.png"
    );
    let s = ViewerState { cover_mode: false, reading_mode: false, force_single: true, ..manga_at(2) };
    assert_eq!(
        s.status_line(true, "v", "003.png", ""),
        " [NoCover] [Single] [Comic] [<前話][次話>] | DIR: v | Single: 003.png"
    );
    let s = manga_at(1);
    assert_eq!(
        s.status_line(false, "v", "002.png", "003.png"),
        " [Cover] [Multi] [Manga] [<前話][次話>] | DIR: v | R: 002.png L: 003.png"
    );
}

#[test]
fn where_reading_starts() {
    assert_eq!(start_position(false, Some((2, 5)), false, Some(2)), (2, 5));
    assert_eq!(start_position(false, Some((2, 5)), false, Some(1)), (2, 5));
    assert_eq!(start_position(false, Some((2, 5)), true, Some(1)), (1, 0));
    assert_eq!(start_position(true, Some((2, 5)), true, Some(1)), (2, 5));
    assert_eq!(start_position(false, None, false, Some(3)), (3, 0));
    assert_eq!(start_position(false, None, false, None), (0, 0));
    assert_eq!(start_position(true, None, true, Some(3)), (0, 0));
}

#[test]
fn starting_state() {
    let s = ViewerState::start(None, 1, 2);
    assert_eq!(s, ViewerState { dir_idx: 1, img_idx: 2, cover_mode: true, reading_mode: true, force_single: false });
    let saved = ResumeState {
        image_name: "a.png".to_string(),
        image_index: 0,
        is_archive: false,
        cover_mode: false,
        reading_mode: false,
        dir_rel: None,
        dir_path: None,
    };
    let s = ViewerState::start(Some(&saved), 0, 0);
    assert!(!s.cover_mode && !s.reading_mode && !s.force_single);
}

#[test]
fn only_subdirectory_is_descended_into() {
    assert!(descend_into_only_subdir(1, 0));
    assert!(!descend_into_only_subdir(1, 1));
    assert!(!descend_into_only_subdir(2, 0));
    assert!(!descend_into_only_subdir(0, 0));
}
