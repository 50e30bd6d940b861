use terma::display::{get_display_step, get_previous_page_index, should_display_single};

#[test]
fn single_when_forced_or_cover() {
    let pages = [false, false, false, false];
    assert!(should_display_single(&pages, 1, false, true));
    assert!(should_display_single(&pages, 0, true, false));
    assert!(!should_display_single(&pages, 0, false, false));
    assert!(!should_display_single(&pages, 1, true, false));
}

#[test]
fn single_on_last_page_and_landscape() {
    let pages = [false, false, true, false, false];
    assert!(should_display_single(&pages, 4, false, false));
    assert!(should_display_single(&pages, 2, false, false));
    // the next page is landscape
    assert!(should_display_single(&pages, 1, false, false));
    assert!(!should_display_single(&pages, 3, true, false));
    assert!(should_display_single(&[], 0, false, false));
    assert!(should_display_single(&pages, usize::MAX, false, false));
}

#[test]
fn step_is_one_or_two() {
    let pages = [false, false, true, false, false];
    assert_eq!(get_display_step(&pages, 0, false, false), 2);
    assert_eq!(get_display_step(&pages, 0, true, false), 1);
    assert_eq!(get_display_step(&pages, 1, false, false), 1);
    assert_eq!(get_display_step(&pages, 2, false, false), 1);
    assert_eq!(get_display_step(&pages, 3, false, false), 2);
    assert_eq!(get_display_step(&pages, 4, false, false), 1);
    assert_eq!(get_display_step(&pages, 3, false, true), 1);
}

#[test]
fn single_matches_step_one() {
    let pages = [false, true, false, false, true, false, false];
    for cover in [false, true] {
        for force in [false, true] {
            for i in 0..pages.len() - 1 {
                let single = should_display_single(&pages, i, cover, force);
                let step = get_display_step(&pages, i, cover, force);
                assert_eq!(single, step == 1);
            }
        }
    }
}

#[test]
fn previous_in_cover_mode() {
    let pages = [false; 6];
    // screens: 0 | 1-2 | 3-4 | 5
    assert_eq!(get_previous_page_index(&pages, 0, true, false), 0);
    assert_eq!(get_previous_page_index(&pages, 1, true, false), 0);
    assert_eq!(get_previous_page_index(&pages, 3, true, false), 1);
    assert_eq!(get_previous_page_index(&pages, 5, true, false), 3);
    assert_eq!(get_previous_page_index(&pages, 2, true, false), 1);
}

#[test]
fn previous_without_cover() {
    let pages = [false; 6];
    // screens: 0-1 | 2-3 | 4-5
    assert_eq!(get_previous_page_index(&pages, 2, false, false), 0);
    assert_eq!(get_previous_page_index(&pages, 4, false, false), 2);
    assert_eq!(get_previous_page_index(&pages, 3, false, false), 2);
    assert_eq!(get_previous_page_index(&pages, 0, false, false), 0);
    assert_eq!(get_previous_page_index(&pages, 6, false, false), 4);
}

#[test]
fn previous_with_landscape_and_forced_single() {
    let pages = [false, true, false, false];
    // screens: 0 | 1 | 2-3
    assert_eq!(get_previous_page_index(&pages, 2, false, false), 1);
    assert_eq!(get_previous_page_index(&pages, 1, false, false), 0);
    assert_eq!(get_previous_page_index(&pages, 3, false, true), 2);
}

#[test]
fn previous_undoes_next_on_screen_starts() {
    let pages = [false, false, true, false, false, false, true, false];
    for cover in [false, true] {
        let mut start = if cover { 1 } else { 0 };
        while start < pages.len() {
            let next = start + get_display_step(&pages, start, cover, false);
            if next < pages.len() {
                assert_eq!(get_previous_page_index(&pages, next, cover, false), start);
            }
            start = next;
        }
    }
}

#[test]
fn last_page_steps_by_one() {
    assert_eq!(get_display_step(&[false], 0, false, false), 1);
    assert!(should_display_single(&[false], 0, false, false));
    assert_eq!(get_display_step(&[false, false, false], 2, true, false), 1);
    assert_eq!(get_display_step(&[false, false, false], 1, false, false), 2);
}

#[test]
fn previous_with_forced_single_past_the_end() {
    let pages = [false, false];
    assert_eq!(get_previous_page_index(&pages, 5, false, true), 4);
    assert_eq!(get_previous_page_index(&pages, 5, true, true), 4);
}
