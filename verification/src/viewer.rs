//! The viewer's navigation: how input maps to commands, how commands move
//! through pages and volumes, what the screen shows, and where reading
//! starts. The caller runs the loop: it reads input, draws the screen and
//! loads the volumes, and hands the results to these functions.

use vstd::prelude::*;
use crate::display::{
    advance, first_screen, get_display_step, get_previous_page_index, is_screen_start, lemma_next_of_screen_start,
    lemma_previous_defined_within_volume, lemma_previous_goes_back, lemma_previous_of_advance, previous_spec,
    should_display_single, single_spec, step_spec,
};
use crate::terminal::InputEvent;
use crate::resume::ResumeState;
use crate::outside::string_from_chars;
use crate::text::{chars_of, push_all};

verus! {

/// Pages moved by the turbo keys.
pub const TURBO_STEP: usize = 10;

/// What a key asks the viewer to do.
#[derive(Debug, Clone, Copy, PartialEq, Eq, Structural)]
pub enum Command {
    /// Next screen (j, Enter; Left in manga mode, Right in comic mode; left click).
    Next,
    /// Previous screen (k, l; Right in manga mode, Left in comic mode; right click).
    Prev,
    /// Ten pages on (J; Shift+Left in manga mode, Shift+Right in comic mode).
    TurboNext,
    /// Ten pages back (K, L; Shift+Right in manga mode, Shift+Left in comic mode).
    TurboPrev,
    /// The first page (0).
    First,
    /// Jump to this percentage of the volume (1-9: 10%-90%).
    Percent(usize),
    /// Toggle cover mode (c).
    ToggleCover,
    /// Toggle manga/comic reading mode (r).
    ToggleReading,
    /// Toggle single page mode (s).
    ToggleSingle,
    /// Next volume (,).
    NextVolume,
    /// Previous volume (.).
    PrevVolume,
    /// Quit (q, Q, h; middle click).
    Quit,
    /// Redraw the screen (terminal resized).
    Redraw,
    /// Nothing to do.
    Ignore,
}

/// The command a key stands for in the given reading mode (`true`: manga,
/// right to left).
pub open spec fn command_spec(key: InputEvent, reading_mode: bool) -> Command {
    match key {
        InputEvent::Char(c) => {
            if c == 'j' {
                Command::Next
            } else if c == 'k' || c == 'l' {
                Command::Prev
            } else if c == 'J' {
                Command::TurboNext
            } else if c == 'K' || c == 'L' {
                Command::TurboPrev
            } else if c == '0' {
                Command::First
            } else if '1' <= c && c <= '9' {
                Command::Percent(((c as u32 - '0' as u32) * 10) as usize)
            } else if c == 'c' {
                Command::ToggleCover
            } else if c == 'r' {
                Command::ToggleReading
            } else if c == 's' {
                Command::ToggleSingle
            } else if c == ',' {
                Command::NextVolume
            } else if c == '.' {
                Command::PrevVolume
            } else if c == 'q' || c == 'Q' || c == 'h' {
                Command::Quit
            } else {
                Command::Ignore
            }
        },
        InputEvent::Enter => Command::Next,
        InputEvent::Left => if reading_mode { Command::Next } else { Command::Prev },
        InputEvent::Right => if reading_mode { Command::Prev } else { Command::Next },
        InputEvent::ShiftLeft => if reading_mode { Command::TurboNext } else { Command::TurboPrev },
        InputEvent::ShiftRight => if reading_mode { Command::TurboPrev } else { Command::TurboNext },
        InputEvent::MouseLeft => Command::Next,
        InputEvent::MouseRight => Command::Prev,
        InputEvent::MouseMiddle => Command::Quit,
        InputEvent::Resize => Command::Redraw,
        _ => Command::Ignore,
    }
}

fn digit_percent(c: char) -> (p: Option<usize>)
    ensures
        ('1' <= c && c <= '9') ==> p == Some(((c as u32 - '0' as u32) * 10) as usize),
        !('1' <= c && c <= '9') ==> p is None,
{
    if c == '1' {
        Some(10)
    } else if c == '2' {
        Some(20)
    } else if c == '3' {
        Some(30)
    } else if c == '4' {
        Some(40)
    } else if c == '5' {
        Some(50)
    } else if c == '6' {
        Some(60)
    } else if c == '7' {
        Some(70)
    } else if c == '8' {
        Some(80)
    } else if c == '9' {
        Some(90)
    } else {
        assert(!('1' <= c && c <= '9')) by {
            assert((c as u32) != ('1' as u32));
        }
        None
    }
}

/// The command a key stands for (see `command_spec`).
pub fn command_for(key: InputEvent, reading_mode: bool) -> (cmd: Command)
    ensures
        cmd == command_spec(key, reading_mode),
{
    match key {
        InputEvent::Char(c) => {
            if c == 'j' {
                Command::Next
            } else if c == 'k' || c == 'l' {
                Command::Prev
            } else if c == 'J' {
                Command::TurboNext
            } else if c == 'K' || c == 'L' {
                Command::TurboPrev
            } else if c == '0' {
                Command::First
            } else if let Some(p) = digit_percent(c) {
                Command::Percent(p)
            } else if c == 'c' {
                Command::ToggleCover
            } else if c == 'r' {
                Command::ToggleReading
            } else if c == 's' {
                Command::ToggleSingle
            } else if c == ',' {
                Command::NextVolume
            } else if c == '.' {
                Command::PrevVolume
            } else if c == 'q' || c == 'Q' || c == 'h' {
                Command::Quit
            } else {
                Command::Ignore
            }
        },
        InputEvent::Enter => Command::Next,
        InputEvent::Left => if reading_mode { Command::Next } else { Command::Prev },
        InputEvent::Right => if reading_mode { Command::Prev } else { Command::Next },
        InputEvent::ShiftLeft => if reading_mode { Command::TurboNext } else { Command::TurboPrev },
        InputEvent::ShiftRight => if reading_mode { Command::TurboPrev } else { Command::TurboNext },
        InputEvent::MouseLeft => Command::Next,
        InputEvent::MouseRight => Command::Prev,
        InputEvent::MouseMiddle => Command::Quit,
        InputEvent::Resize => Command::Redraw,
        _ => Command::Ignore,
    }
}

/// Where the reader is and how pages are shown.
#[derive(Debug, Clone, Copy, PartialEq, Eq, Structural)]
pub struct ViewerState {
    /// The volume (directory) being read.
    pub dir_idx: usize,
    /// The current page of that volume.
    pub img_idx: usize,
    /// The first page is shown alone as a cover.
    pub cover_mode: bool,
    /// Manga (right to left) rather than comic (left to right).
    pub reading_mode: bool,
    /// Every page is shown alone.
    pub force_single: bool,
}

/// What the caller does after a command.
#[derive(Debug, Clone, Copy, PartialEq, Eq, Structural)]
pub enum Outcome {
    /// Stay in the volume; redraw the screen when `redraw`.
    Stay { redraw: bool },
    /// Load the volume `dir_idx` now points at and call `enter_volume`;
    /// start on its last page when `to_last_page`.
    EnterVolume { to_last_page: bool },
    /// Save the reading position and quit.
    Quit,
    /// Compute the page at this percentage of the volume and call `jump_to`.
    JumpToPercent(usize),
}

/// The page "next" moves to from page `i` (before checking the volume's end).
pub open spec fn next_page_spec(s: ViewerState, landscape: Seq<bool>) -> int {
    s.img_idx + (if s.cover_mode && s.img_idx == 0 {
        1
    } else {
        step_spec(landscape, s.img_idx as int, s.cover_mode, s.force_single)
    })
}

/// The state and outcome after `cmd`, in a volume with these page shapes,
/// among `n_dirs` volumes.
pub open spec fn transition(s: ViewerState, cmd: Command, landscape: Seq<bool>, n_dirs: int) -> (ViewerState, Outcome) {
    let len = landscape.len() as int;
    match cmd {
        Command::Next => {
            let n = next_page_spec(s, landscape);
            if n >= len {
                if s.dir_idx + 1 < n_dirs {
                    (ViewerState { dir_idx: (s.dir_idx + 1) as usize, img_idx: 0, ..s }, Outcome::EnterVolume { to_last_page: false })
                } else {
                    (s, Outcome::Stay { redraw: true })
                }
            } else {
                (ViewerState { img_idx: n as usize, ..s }, Outcome::Stay { redraw: true })
            }
        },
        Command::Prev => {
            if s.img_idx == 0 {
                if s.dir_idx > 0 {
                    (ViewerState { dir_idx: (s.dir_idx - 1) as usize, img_idx: 0, ..s }, Outcome::EnterVolume { to_last_page: true })
                } else {
                    (s, Outcome::Stay { redraw: true })
                }
            } else {
                (
                    ViewerState {
                        img_idx: previous_spec(landscape, s.img_idx as int, s.cover_mode, s.force_single) as usize,
                        ..s
                    },
                    Outcome::Stay { redraw: true },
                )
            }
        },
        Command::TurboNext => (
            ViewerState {
                img_idx: (if s.img_idx + TURBO_STEP < len - 1 { s.img_idx + TURBO_STEP } else { len - 1 }) as usize,
                ..s
            },
            Outcome::Stay { redraw: true },
        ),
        Command::TurboPrev => (
            ViewerState { img_idx: (if s.img_idx >= TURBO_STEP { s.img_idx - TURBO_STEP } else { 0 }) as usize, ..s },
            Outcome::Stay { redraw: true },
        ),
        Command::First => (ViewerState { img_idx: 0, ..s }, Outcome::Stay { redraw: true }),
        Command::Percent(p) => (s, Outcome::JumpToPercent(p)),
        Command::ToggleCover => (
            ViewerState { cover_mode: !s.cover_mode, img_idx: 0, ..s },
            Outcome::Stay { redraw: true },
        ),
        Command::ToggleReading => (ViewerState { reading_mode: !s.reading_mode, ..s }, Outcome::Stay { redraw: true }),
        Command::ToggleSingle => (ViewerState { force_single: !s.force_single, ..s }, Outcome::Stay { redraw: true }),
        Command::NextVolume => {
            if s.dir_idx + 1 < n_dirs {
                (ViewerState { dir_idx: (s.dir_idx + 1) as usize, img_idx: 0, ..s }, Outcome::EnterVolume { to_last_page: false })
            } else {
                (s, Outcome::Stay { redraw: true })
            }
        },
        Command::PrevVolume => {
            if s.dir_idx > 0 {
                (ViewerState { dir_idx: (s.dir_idx - 1) as usize, img_idx: 0, ..s }, Outcome::EnterVolume { to_last_page: false })
            } else {
                (s, Outcome::Stay { redraw: true })
            }
        },
        Command::Quit => (s, Outcome::Quit),
        Command::Redraw => (s, Outcome::Stay { redraw: true }),
        Command::Ignore => (s, Outcome::Stay { redraw: false }),
    }
}

/// The state is inside the current volume and among the volumes.
pub open spec fn in_volume(s: ViewerState, landscape: Seq<bool>, n_dirs: int) -> bool {
    s.img_idx < landscape.len() && s.dir_idx < n_dirs
}

impl ViewerState {
    /// Carry out `cmd` in the current volume, whose pages have the shapes
    /// `landscape`, among `n_dirs` volumes (see `transition`).
    pub fn handle_command(&mut self, cmd: Command, landscape: &[bool], n_dirs: usize) -> (outcome: Outcome)
        requires
            in_volume(*old(self), landscape@, n_dirs as int),
        ensures
            (*final(self), outcome) == transition(*old(self), cmd, landscape@, n_dirs as int),
    {
        let len = landscape.len();
        let step = get_display_step(landscape, self.img_idx, self.cover_mode, self.force_single);
        match cmd {
            Command::Next => {
                let add: usize = if self.cover_mode && self.img_idx == 0 { 1 } else { step };
                if add >= len - self.img_idx {
                    if self.dir_idx + 1 < n_dirs {
                        self.dir_idx = self.dir_idx + 1;
                        self.img_idx = 0;
                        Outcome::EnterVolume { to_last_page: false }
                    } else {
                        Outcome::Stay { redraw: true }
                    }
                } else {
                    self.img_idx = self.img_idx + add;
                    Outcome::Stay { redraw: true }
                }
            },
            Command::Prev => {
                if self.img_idx == 0 {
                    if self.dir_idx > 0 {
                        self.dir_idx = self.dir_idx - 1;
                        self.img_idx = 0;
                        Outcome::EnterVolume { to_last_page: true }
                    } else {
                        Outcome::Stay { redraw: true }
                    }
                } else {
                    proof {
                        lemma_previous_defined_within_volume(landscape@, self.img_idx as int, self.cover_mode, self.force_single);
                    }
                    self.img_idx = get_previous_page_index(landscape, self.img_idx, self.cover_mode, self.force_single);
                    Outcome::Stay { redraw: true }
                }
            },
            Command::TurboNext => {
                self.img_idx = if len - 1 >= TURBO_STEP && self.img_idx < len - 1 - TURBO_STEP {
                    self.img_idx + TURBO_STEP
                } else {
                    len - 1
                };
                Outcome::Stay { redraw: true }
            },
            Command::TurboPrev => {
                self.img_idx = if self.img_idx >= TURBO_STEP { self.img_idx - TURBO_STEP } else { 0 };
                Outcome::Stay { redraw: true }
            },
            Command::First => {
                self.img_idx = 0;
                Outcome::Stay { redraw: true }
            },
            Command::Percent(p) => Outcome::JumpToPercent(p),
            Command::ToggleCover => {
                self.cover_mode = !self.cover_mode;
                self.img_idx = 0;
                Outcome::Stay { redraw: true }
            },
            Command::ToggleReading => {
                self.reading_mode = !self.reading_mode;
                Outcome::Stay { redraw: true }
            },
            Command::ToggleSingle => {
                self.force_single = !self.force_single;
                Outcome::Stay { redraw: true }
            },
            Command::NextVolume => {
                if self.dir_idx + 1 < n_dirs {
                    self.dir_idx = self.dir_idx + 1;
                    self.img_idx = 0;
                    Outcome::EnterVolume { to_last_page: false }
                } else {
                    Outcome::Stay { redraw: true }
                }
            },
            Command::PrevVolume => {
                if self.dir_idx > 0 {
                    self.dir_idx = self.dir_idx - 1;
                    self.img_idx = 0;
                    Outcome::EnterVolume { to_last_page: false }
                } else {
                    Outcome::Stay { redraw: true }
                }
            },
            Command::Quit => Outcome::Quit,
            Command::Redraw => Outcome::Stay { redraw: true },
            Command::Ignore => Outcome::Stay { redraw: false },
        }
    }

    /// Handle a key: its command in the current reading mode, carried out.
    pub fn handle_key(&mut self, key: InputEvent, landscape: &[bool], n_dirs: usize) -> (outcome: Outcome)
        requires
            in_volume(*old(self), landscape@, n_dirs as int),
        ensures
            (*final(self), outcome) == transition(
                *old(self),
                command_spec(key, old(self).reading_mode),
                landscape@,
                n_dirs as int,
            ),
    {
        let cmd = command_for(key, self.reading_mode);
        self.handle_command(cmd, landscape, n_dirs)
    }

    /// Go to page `page` of the current volume, whose pages have the shapes
    /// `landscape` (the page a percentage of the volume came to); the reader
    /// stays in the volume.
    pub fn jump_to(&mut self, page: usize, landscape: &[bool])
        requires
            page < landscape@.len(),
        ensures
            *final(self) == (ViewerState { img_idx: page, ..*old(self) }),
            forall|n_dirs: int| in_volume(*old(self), landscape@, n_dirs) ==> in_volume(*final(self), landscape@, n_dirs),
    {
        self.img_idx = page;
    }

    /// Enter the volume `dir_idx` points at, which has `n_images` pages.
    /// An empty volume is skipped: the next volume is chosen and `false`
    /// returned. Otherwise the page is kept within the volume (the last
    /// page when `to_last_page`) and `true` returned.
    pub fn enter_volume(&mut self, n_images: usize, to_last_page: bool) -> (shown: bool)
        requires
            old(self).dir_idx < usize::MAX,
        ensures
            shown == (n_images > 0),
            !shown ==> *final(self) == (ViewerState {
                dir_idx: (old(self).dir_idx + 1) as usize,
                img_idx: if to_last_page { 0 } else { old(self).img_idx },
                ..*old(self)
            }),
            shown ==> *final(self) == (ViewerState {
                img_idx: if to_last_page || old(self).img_idx >= n_images { (n_images - 1) as usize } else { old(self).img_idx },
                ..*old(self)
            }),
    {
        if to_last_page {
            self.img_idx = if n_images > 0 { n_images - 1 } else { 0 };
        }
        if n_images == 0 {
            self.dir_idx = self.dir_idx + 1;
            return false;
        }
        if self.img_idx >= n_images {
            self.img_idx = n_images - 1;
        }
        true
    }
}

/// What the screen shows.
#[derive(Debug, Clone, Copy, PartialEq, Eq, Structural)]
pub enum Screen {
    /// The cover page, alone.
    Cover(usize),
    /// One page alone.
    Single(usize),
    /// Two pages side by side: `right` on the right half, `left` on the left.
    Spread { right: usize, left: usize },
}

/// The screen for the current page. In manga mode (right to left) the
/// current page is on the right and the next page on the left; in comic
/// mode the current page is on the left.
pub open spec fn screen_spec(s: ViewerState, landscape: Seq<bool>) -> Screen {
    let i = s.img_idx as int;
    if s.cover_mode && i == 0 {
        Screen::Cover(s.img_idx)
    } else if single_spec(landscape, i, s.cover_mode, s.force_single) {
        Screen::Single(s.img_idx)
    } else if s.reading_mode {
        Screen::Spread { right: s.img_idx, left: (i + 1) as usize }
    } else {
        Screen::Spread { right: (i + 1) as usize, left: s.img_idx }
    }
}

impl ViewerState {
    /// The screen for the current page (see `screen_spec`).
    pub fn screen(&self, landscape: &[bool]) -> (scr: Screen)
        requires
            self.img_idx < landscape@.len(),
        ensures
            scr == screen_spec(*self, landscape@),
    {
        let single = should_display_single(landscape, self.img_idx, self.cover_mode, self.force_single);
        let len = landscape.len();
        if self.cover_mode && self.img_idx == 0 {
            Screen::Cover(self.img_idx)
        } else if single {
            Screen::Single(self.img_idx)
        } else if self.reading_mode {
            assert(self.img_idx + 1 < len);
            Screen::Spread { right: self.img_idx, left: self.img_idx + 1 }
        } else {
            assert(self.img_idx + 1 < len);
            Screen::Spread { right: self.img_idx + 1, left: self.img_idx }
        }
    }
}

/// What the status line says about the pages shown: the cover, a single
/// page, or the current (R) and next (L) page of a spread.
pub open spec fn file_info_spec(cover_page: bool, single: bool, current: Seq<char>, next: Seq<char>) -> Seq<char> {
    if cover_page {
        "Cover: "@ + current
    } else if single {
        "Single: "@ + current
    } else {
        "R: "@ + current + " L: "@ + next
    }
}

/// The status line: the cover, single-page and reading-mode labels, the
/// previous/next chapter buttons, the directory name and the page info.
pub open spec fn status_spec(s: ViewerState, dir_name: Seq<char>, info: Seq<char>) -> Seq<char> {
    (if s.cover_mode { " [Cover]"@ } else { " [NoCover]"@ }) + (if s.force_single { " [Single]"@ } else { " [Multi]"@ })
        + (if s.reading_mode { " [Manga]"@ } else { " [Comic]"@ }) + " [<前話]"@ + "[次話>]"@ + " | DIR: "@ + dir_name + " | "@
        + info
}

impl ViewerState {
    /// The status line for the current screen. `single` is whether the
    /// current page is shown alone; `current` and `next` are the file names
    /// of the current page and the page after it (empty when there is none).
    pub fn status_line(&self, single: bool, dir_name: &str, current: &str, next: &str) -> (line: String)
        ensures
            line@ == status_spec(
                *self,
                dir_name@,
                file_info_spec(self.cover_mode && self.img_idx == 0, single, current@, next@),
            ),
    {
        let mut out: Vec<char> = Vec::new();
        let cover = if self.cover_mode { chars_of(" [Cover]") } else { chars_of(" [NoCover]") };
        push_all(&mut out, cover.as_slice());
        let single_label = if self.force_single { chars_of(" [Single]") } else { chars_of(" [Multi]") };
        push_all(&mut out, single_label.as_slice());
        let mode = if self.reading_mode { chars_of(" [Manga]") } else { chars_of(" [Comic]") };
        push_all(&mut out, mode.as_slice());
        push_all(&mut out, chars_of(" [<前話]").as_slice());
        push_all(&mut out, chars_of("[次話>]").as_slice());
        push_all(&mut out, chars_of(" | DIR: ").as_slice());
        push_all(&mut out, chars_of(dir_name).as_slice());
        push_all(&mut out, chars_of(" | ").as_slice());
        let ghost before_info = out@;
        if self.cover_mode && self.img_idx == 0 {
            push_all(&mut out, chars_of("Cover: ").as_slice());
            push_all(&mut out, chars_of(current).as_slice());
        } else if single {
            push_all(&mut out, chars_of("Single: ").as_slice());
            push_all(&mut out, chars_of(current).as_slice());
        } else {
            push_all(&mut out, chars_of("R: ").as_slice());
            push_all(&mut out, chars_of(current).as_slice());
            push_all(&mut out, chars_of(" L: ").as_slice());
            push_all(&mut out, chars_of(next).as_slice());
        }
        assert(out@ =~= status_spec(
            *self,
            dir_name@,
            file_info_spec(self.cover_mode && self.img_idx == 0, single, current@, next@),
        ));
        string_from_chars(out.as_slice())
    }
}

/// Where reading starts: `resumed` is the volume and page a saved state
/// points at, if found. Outside an archive, the volume that was opened
/// (`opened_pos`, its place among the volumes) wins when it holds pages
/// itself or nothing was resumed; it starts at its first page unless it is
/// the resumed volume.
pub open spec fn start_spec(
    is_archive: bool,
    resumed: Option<(usize, usize)>,
    opened_has_pages: bool,
    opened_pos: Option<usize>,
) -> (usize, usize) {
    let (d, i) = match resumed {
        Some(p) => p,
        None => (0usize, 0usize),
    };
    if !is_archive && (opened_has_pages || resumed is None) && opened_pos is Some && opened_pos->0 != d {
        (opened_pos->0, 0usize)
    } else {
        (d, i)
    }
}

/// The volume and page reading starts at (see `start_spec`).
pub fn start_position(
    is_archive: bool,
    resumed: Option<(usize, usize)>,
    opened_has_pages: bool,
    opened_pos: Option<usize>,
) -> (start: (usize, usize))
    ensures
        start == start_spec(is_archive, resumed, opened_has_pages, opened_pos),
{
    let mut dir_idx: usize = 0;
    let mut img_idx: usize = 0;
    let mut was_resumed = false;
    if let Some((d, i)) = resumed {
        dir_idx = d;
        img_idx = i;
        was_resumed = true;
    }
    if !is_archive {
        if opened_has_pages || !was_resumed {
            if let Some(pos) = opened_pos {
                if pos != dir_idx {
                    dir_idx = pos;
                    img_idx = 0;
                }
            }
        }
    }
    (dir_idx, img_idx)
}

impl ViewerState {
    /// The state reading starts in: cover and reading modes as saved (cover
    /// mode and manga mode when nothing was saved), pages not forced
    /// single, at the given volume and page.
    pub fn start(saved: Option<&ResumeState>, dir_idx: usize, img_idx: usize) -> (s: ViewerState)
        ensures
            s.dir_idx == dir_idx,
            s.img_idx == img_idx,
            s.cover_mode == (match saved { Some(st) => st.cover_mode, None => true }),
            s.reading_mode == (match saved { Some(st) => st.reading_mode, None => true }),
            !s.force_single,
    {
        let (cover_mode, reading_mode) = match saved {
            Some(st) => (st.cover_mode, st.reading_mode),
            None => (true, true),
        };
        ViewerState { dir_idx, img_idx, cover_mode, reading_mode, force_single: false }
    }
}

/// Inside an extracted archive, a directory holding exactly one
/// subdirectory and no files is descended into.
pub fn descend_into_only_subdir(n_subdirs: usize, n_files: usize) -> (descend: bool)
    ensures
        descend == (n_subdirs == 1 && n_files == 0),
{
    n_subdirs == 1 && n_files == 0
}

/// "Previous" undoes "next": from the cover, or from any page that starts a
/// screen, pressing "next" and then "previous" comes back to the same page,
/// as long as "next" stays in the volume.
pub proof fn lemma_prev_undoes_next(s: ViewerState, landscape: Seq<bool>, n_dirs: int)
    requires
        in_volume(s, landscape, n_dirs),
        landscape.len() <= usize::MAX,
        (s.cover_mode && s.img_idx == 0) || is_screen_start(landscape, s.cover_mode, s.force_single, s.img_idx as int),
        next_page_spec(s, landscape) < landscape.len(),
    ensures
        transition(s, Command::Next, landscape, n_dirs).1 == (Outcome::Stay { redraw: true }),
        transition(transition(s, Command::Next, landscape, n_dirs).0, Command::Prev, landscape, n_dirs) == (
        s,
        Outcome::Stay { redraw: true },
        ),
{
    let c = s.cover_mode;
    let f = s.force_single;
    let first = first_screen(c);
    let s1 = transition(s, Command::Next, landscape, n_dirs).0;
    if c && s.img_idx == 0 {
        assert(s1.img_idx == 1);
        assert(previous_spec(landscape, 1, c, f) == 0);
    } else {
        let k = choose|k: nat| advance(landscape, c, f, first, k) == s.img_idx as int;
        lemma_next_of_screen_start(landscape, c, f, k);
        lemma_previous_of_advance(landscape, c, f, k + 1);
        assert(next_page_spec(s, landscape) == s.img_idx + step_spec(landscape, s.img_idx as int, c, f));
        assert(next_page_spec(s, landscape) == advance(landscape, c, f, first, k + 1));
        assert(s1 == ViewerState { img_idx: next_page_spec(s, landscape) as usize, ..s });
        assert(s1.img_idx == advance(landscape, c, f, first, k + 1));
        assert((k + 1 - 1) as nat == k);
    }
}

/// Toggling a mode twice restores the state; toggling cover mode also
/// returns to the first page.
pub proof fn lemma_toggles_undo(s: ViewerState, landscape: Seq<bool>, n_dirs: int)
    ensures
        transition(transition(s, Command::ToggleReading, landscape, n_dirs).0, Command::ToggleReading, landscape, n_dirs).0
            == s,
        transition(transition(s, Command::ToggleSingle, landscape, n_dirs).0, Command::ToggleSingle, landscape, n_dirs).0
            == s,
        transition(transition(s, Command::ToggleCover, landscape, n_dirs).0, Command::ToggleCover, landscape, n_dirs).0
            == (ViewerState { img_idx: 0, ..s }),
{
}

/// Commands keep the reader inside the volumes: staying keeps the page in
/// the volume, entering a volume picks an existing one (where
/// `enter_volume` keeps the page within it), and quitting or jumping leaves
/// the state unchanged until `jump_to`, which takes a page of the volume.
/// A jump is to 10% up to 90% of the volume, in steps of 10%.
pub proof fn lemma_transition_in_bounds(s: ViewerState, cmd: Command, landscape: Seq<bool>, n_dirs: int)
    requires
        in_volume(s, landscape, n_dirs),
    ensures
        transition(s, cmd, landscape, n_dirs).1 is Stay ==> in_volume(transition(s, cmd, landscape, n_dirs).0, landscape, n_dirs),
        transition(s, cmd, landscape, n_dirs).1 is EnterVolume ==> transition(s, cmd, landscape, n_dirs).0.dir_idx < n_dirs,
        transition(s, cmd, landscape, n_dirs).1 is Quit ==> transition(s, cmd, landscape, n_dirs).0 == s,
        transition(s, cmd, landscape, n_dirs).1 is JumpToPercent ==> transition(s, cmd, landscape, n_dirs).0 == s,
        forall|key: InputEvent, mode: bool|
            #[trigger] command_spec(key, mode) matches Command::Percent(p) ==> 10 <= p <= 90 && p % 10 == 0,
{
    if cmd == Command::Prev && s.img_idx > 0 {
        lemma_previous_goes_back(landscape, s.img_idx as int, s.cover_mode, s.force_single);
    }
}

/// The arrow keys follow the reading direction: what Left does in manga
/// mode, Right does in comic mode, and the other way round (likewise with
/// Shift); the letter keys do the same in both modes.
pub proof fn lemma_arrows_follow_reading_direction(c: char)
    ensures
        command_spec(InputEvent::Left, true) == command_spec(InputEvent::Right, false),
        command_spec(InputEvent::Right, true) == command_spec(InputEvent::Left, false),
        command_spec(InputEvent::ShiftLeft, true) == command_spec(InputEvent::ShiftRight, false),
        command_spec(InputEvent::ShiftRight, true) == command_spec(InputEvent::ShiftLeft, false),
        command_spec(InputEvent::Left, true) == Command::Next,
        command_spec(InputEvent::Right, true) == Command::Prev,
        command_spec(InputEvent::Char(c), true) == command_spec(InputEvent::Char(c), false),
{
}

} // verus!
