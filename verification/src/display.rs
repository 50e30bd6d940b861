//! Page pairing: which pages share a screen, how far "next" advances and
//! where "previous" goes back to.
//!
//! A volume is given as one flag per page: `true` where the page is
//! landscape (wider than tall). Landscape pages are always shown alone.

use vstd::prelude::*;

verus! {

/// Whether page `i` is shown alone (not as half of a spread).
pub open spec fn single_spec(landscape: Seq<bool>, i: int, cover_mode: bool, force_single: bool) -> bool {
    ||| force_single
    ||| (cover_mode && i == 0)
    ||| i + 1 >= landscape.len()
    ||| landscape[i]
    ||| landscape[i + 1]
}

/// How many pages "next" advances from page `i`: 1 for a single page, 2 for a spread.
pub open spec fn step_spec(landscape: Seq<bool>, i: int, cover_mode: bool, force_single: bool) -> int {
    if single_spec(landscape, i, cover_mode, force_single) {
        1
    } else {
        2
    }
}

/// Page `i` can be looked at: single pages are forced, it is the cover, or
/// it lies in the volume.
pub open spec fn step_defined(landscape: Seq<bool>, i: int, cover_mode: bool, force_single: bool) -> bool {
    force_single || (cover_mode && i == 0) || (0 <= i < landscape.len())
}

/// The first page of the first screen after the cover handling:
/// page 1 in cover mode (page 0 is the cover), page 0 otherwise.
pub open spec fn first_screen(cover_mode: bool) -> int {
    if cover_mode { 1 } else { 0 }
}

/// Walking screen by screen from page `idx`, every screen start below
/// `current` can be looked at (so the walk never reads past the volume).
pub open spec fn walk_in_bounds(landscape: Seq<bool>, cover_mode: bool, force_single: bool, idx: int, current: int) -> bool
    decreases if current > idx { current - idx } else { 0 },
{
    if idx < 0 || idx >= current {
        true
    } else {
        let next = idx + step_spec(landscape, idx, cover_mode, force_single);
        proof {
            assert(next > idx);
        }
        step_defined(landscape, idx, cover_mode, force_single) && walk_in_bounds(
            landscape,
            cover_mode,
            force_single,
            next,
            current,
        )
    }
}

/// The last screen start strictly below `current`, walking screen by screen
/// from `idx`; `last` if the walk starts at or beyond `current`.
pub open spec fn last_start_before(
    landscape: Seq<bool>,
    cover_mode: bool,
    force_single: bool,
    idx: int,
    current: int,
    last: int,
) -> int
    decreases if current > idx { current - idx } else { 0 },
{
    if idx < 0 || idx >= current {
        last
    } else {
        let next = idx + step_spec(landscape, idx, cover_mode, force_single);
        proof {
            assert(next > idx);
        }
        last_start_before(landscape, cover_mode, force_single, next, current, idx)
    }
}

/// The page that "previous" goes back to from page `current`.
pub open spec fn previous_spec(landscape: Seq<bool>, current: int, cover_mode: bool, force_single: bool) -> int {
    if cover_mode && current <= 1 {
        0
    } else {
        last_start_before(landscape, cover_mode, force_single, first_screen(cover_mode), current, 0)
    }
}

/// The inputs on which `get_previous_page_index` is defined.
pub open spec fn previous_defined(landscape: Seq<bool>, current: int, cover_mode: bool, force_single: bool) -> bool {
    (cover_mode && current <= 1)
        || walk_in_bounds(landscape, cover_mode, force_single, first_screen(cover_mode), current)
}

/// Determine if the current page should be displayed as a single page.
///
/// True when single pages are forced, on the cover in cover mode, on the
/// last page, on a landscape page, and when the page after it is landscape.
pub fn should_display_single(landscape: &[bool], current_idx: usize, cover_mode: bool, force_single: bool) -> (single: bool)
    ensures
        single == single_spec(landscape@, current_idx as int, cover_mode, force_single),
{
    if force_single {
        return true;
    }
    if cover_mode && current_idx == 0 {
        return true;
    }
    if landscape.len() == 0 || current_idx >= landscape.len() - 1 {
        return true;
    }
    if landscape[current_idx] {
        return true;
    }
    if landscape[current_idx + 1] {
        return true;
    }
    false
}

/// Get the number of pages to advance for the "next" action:
/// 1 for single-page display, 2 for spread display.
pub fn get_display_step(landscape: &[bool], current_idx: usize, cover_mode: bool, force_single: bool) -> (step: usize)
    requires
        step_defined(landscape@, current_idx as int, cover_mode, force_single),
    ensures
        step == step_spec(landscape@, current_idx as int, cover_mode, force_single),
        step == 1 <==> single_spec(landscape@, current_idx as int, cover_mode, force_single),
        step == 1 || step == 2,
{
    if should_display_single(landscape, current_idx, cover_mode, force_single) {
        1
    } else {
        2
    }
}

/// Get the index of the previous page, accounting for spread/single display:
/// the start of the last screen that begins before `current_idx`
/// (page 0 when there is none, and from the first page after the cover).
pub fn get_previous_page_index(landscape: &[bool], current_idx: usize, cover_mode: bool, force_single: bool) -> (prev: usize)
    requires
        previous_defined(landscape@, current_idx as int, cover_mode, force_single),
    ensures
        prev == previous_spec(landscape@, current_idx as int, cover_mode, force_single),
{
    if cover_mode && current_idx <= 1 {
        return 0;
    }
    let start: usize = if cover_mode { 1 } else { 0 };
    let mut last: usize = 0;
    let mut idx: usize = start;
    while idx < current_idx
        invariant
            walk_in_bounds(landscape@, cover_mode, force_single, idx as int, current_idx as int),
            last_start_before(landscape@, cover_mode, force_single, idx as int, current_idx as int, last as int)
                == previous_spec(landscape@, current_idx as int, cover_mode, force_single),
        decreases current_idx - idx,
    {
        let ghost before = idx as int;
        last = idx;
        let step = get_display_step(landscape, idx, cover_mode, force_single);
        if step >= current_idx - idx {
            idx = current_idx;
        } else {
            idx = idx + step;
        }
        assert(last_start_before(landscape@, cover_mode, force_single, before, current_idx as int, last as int)
            == last_start_before(landscape@, cover_mode, force_single, before + step, current_idx as int, before));
    }
    last
}

/// The screen start reached from page `idx` after `k` presses of "next".
pub open spec fn advance(landscape: Seq<bool>, cover_mode: bool, force_single: bool, idx: int, k: nat) -> int
    decreases k,
{
    if k == 0 {
        idx
    } else {
        advance(landscape, cover_mode, force_single, idx + step_spec(landscape, idx, cover_mode, force_single), (k - 1) as nat)
    }
}

/// `page` starts a screen: it is reached from the first screen by pressing "next".
pub open spec fn is_screen_start(landscape: Seq<bool>, cover_mode: bool, force_single: bool, page: int) -> bool {
    exists|k: nat| advance(landscape, cover_mode, force_single, first_screen(cover_mode), k) == page
}

proof fn lemma_advance_grows(landscape: Seq<bool>, cover_mode: bool, force_single: bool, idx: int, k: nat)
    ensures
        advance(landscape, cover_mode, force_single, idx, k) >= idx + k,
    decreases k,
{
    if k > 0 {
        lemma_advance_grows(
            landscape,
            cover_mode,
            force_single,
            idx + step_spec(landscape, idx, cover_mode, force_single),
            (k - 1) as nat,
        );
    }
}

proof fn lemma_advance_last_step(landscape: Seq<bool>, cover_mode: bool, force_single: bool, idx: int, k: nat)
    requires
        k >= 1,
    ensures
        advance(landscape, cover_mode, force_single, idx, k) == advance(landscape, cover_mode, force_single, idx, (k - 1) as nat)
            + step_spec(landscape, advance(landscape, cover_mode, force_single, idx, (k - 1) as nat), cover_mode, force_single),
    decreases k,
{
    let next = idx + step_spec(landscape, idx, cover_mode, force_single);
    assert(advance(landscape, cover_mode, force_single, idx, k) == advance(landscape, cover_mode, force_single, next, (k - 1) as nat));
    if k > 1 {
        lemma_advance_last_step(landscape, cover_mode, force_single, next, (k - 1) as nat);
        assert(advance(landscape, cover_mode, force_single, idx, (k - 1) as nat) == advance(
            landscape,
            cover_mode,
            force_single,
            next,
            (k - 2) as nat,
        ));
    } else {
        assert(advance(landscape, cover_mode, force_single, next, 0) == next);
        assert(advance(landscape, cover_mode, force_single, idx, 0) == idx);
    }
}

proof fn lemma_last_start_of_advance(landscape: Seq<bool>, cover_mode: bool, force_single: bool, idx: int, k: nat, last: int)
    requires
        k >= 1,
        idx >= 0,
    ensures
        last_start_before(landscape, cover_mode, force_single, idx, advance(landscape, cover_mode, force_single, idx, k), last)
            == advance(landscape, cover_mode, force_single, idx, (k - 1) as nat),
    decreases k,
{
    let next = idx + step_spec(landscape, idx, cover_mode, force_single);
    let target = advance(landscape, cover_mode, force_single, idx, k);
    lemma_advance_grows(landscape, cover_mode, force_single, next, (k - 1) as nat);
    assert(target == advance(landscape, cover_mode, force_single, next, (k - 1) as nat));
    assert(idx < target);
    assert(last_start_before(landscape, cover_mode, force_single, idx, target, last) == last_start_before(
        landscape,
        cover_mode,
        force_single,
        next,
        target,
        idx,
    ));
    if k > 1 {
        lemma_last_start_of_advance(landscape, cover_mode, force_single, next, (k - 1) as nat, idx);
        assert(advance(landscape, cover_mode, force_single, idx, (k - 1) as nat) == advance(
            landscape,
            cover_mode,
            force_single,
            next,
            (k - 2) as nat,
        ));
    } else {
        assert(target == next);
        assert(advance(landscape, cover_mode, force_single, idx, 0) == idx);
    }
}

/// A page is single exactly when "next" advances by one, and a spread
/// advances by two, on every page of the volume.
pub proof fn lemma_single_iff_step_one(landscape: Seq<bool>, i: int, cover_mode: bool, force_single: bool)
    requires
        0 <= i < landscape.len(),
    ensures
        single_spec(landscape, i, cover_mode, force_single) <==> step_spec(landscape, i, cover_mode, force_single) == 1,
        !single_spec(landscape, i, cover_mode, force_single) <==> step_spec(landscape, i, cover_mode, force_single) == 2,
{
}

/// "Previous" undoes "next": from any screen start after the first screen,
/// "previous" goes back to the screen start from which "next" lands on it,
/// which lies strictly before it. In cover mode, "next" from the cover lands
/// on the first screen and "previous" from there returns to the cover.
pub proof fn lemma_previous_undoes_next(landscape: Seq<bool>, cover_mode: bool, force_single: bool, page: int)
    requires
        is_screen_start(landscape, cover_mode, force_single, page),
        page != first_screen(cover_mode),
    ensures
        previous_spec(landscape, page, cover_mode, force_single) < page,
        previous_spec(landscape, page, cover_mode, force_single) + step_spec(
            landscape,
            previous_spec(landscape, page, cover_mode, force_single),
            cover_mode,
            force_single,
        ) == page,
        cover_mode ==> 0 + step_spec(landscape, 0, cover_mode, force_single) == first_screen(cover_mode)
            && previous_spec(landscape, first_screen(cover_mode), cover_mode, force_single) == 0,
{
    let first = first_screen(cover_mode);
    let k = choose|k: nat| advance(landscape, cover_mode, force_single, first, k) == page;
    assert(k >= 1);
    lemma_advance_grows(landscape, cover_mode, force_single, first, k);
    lemma_last_start_of_advance(landscape, cover_mode, force_single, first, k, 0);
    lemma_advance_last_step(landscape, cover_mode, force_single, first, k);
    lemma_advance_grows(landscape, cover_mode, force_single, first, (k - 1) as nat);
}

/// "Previous" from the screen reached after `k` presses of "next" is the
/// screen reached after `k - 1` presses.
pub proof fn lemma_previous_of_advance(landscape: Seq<bool>, cover_mode: bool, force_single: bool, k: nat)
    requires
        k >= 1,
    ensures
        previous_spec(
            landscape,
            advance(landscape, cover_mode, force_single, first_screen(cover_mode), k),
            cover_mode,
            force_single,
        ) == advance(landscape, cover_mode, force_single, first_screen(cover_mode), (k - 1) as nat),
        advance(landscape, cover_mode, force_single, first_screen(cover_mode), k) == advance(
            landscape,
            cover_mode,
            force_single,
            first_screen(cover_mode),
            (k - 1) as nat,
        ) + step_spec(
            landscape,
            advance(landscape, cover_mode, force_single, first_screen(cover_mode), (k - 1) as nat),
            cover_mode,
            force_single,
        ),
{
    let first = first_screen(cover_mode);
    lemma_advance_grows(landscape, cover_mode, force_single, first, k);
    lemma_last_start_of_advance(landscape, cover_mode, force_single, first, k, 0);
    lemma_advance_last_step(landscape, cover_mode, force_single, first, k);
}

/// A screen start is reached again after one more press of "next" from the
/// screen start before it.
pub proof fn lemma_next_of_screen_start(landscape: Seq<bool>, cover_mode: bool, force_single: bool, k: nat)
    ensures
        advance(landscape, cover_mode, force_single, first_screen(cover_mode), k + 1) == advance(
            landscape,
            cover_mode,
            force_single,
            first_screen(cover_mode),
            k,
        ) + step_spec(
            landscape,
            advance(landscape, cover_mode, force_single, first_screen(cover_mode), k),
            cover_mode,
            force_single,
        ),
        advance(landscape, cover_mode, force_single, first_screen(cover_mode), k) >= first_screen(cover_mode) + k,
{
    lemma_advance_last_step(landscape, cover_mode, force_single, first_screen(cover_mode), k + 1);
    lemma_advance_grows(landscape, cover_mode, force_single, first_screen(cover_mode), k);
}

proof fn lemma_last_start_below(landscape: Seq<bool>, cover_mode: bool, force_single: bool, idx: int, current: int, last: int)
    requires
        0 <= last < current,
    ensures
        0 <= last_start_before(landscape, cover_mode, force_single, idx, current, last) < current,
    decreases if current > idx { current - idx } else { 0 },
{
    if 0 <= idx < current {
        lemma_last_start_below(
            landscape,
            cover_mode,
            force_single,
            idx + step_spec(landscape, idx, cover_mode, force_single),
            current,
            idx,
        );
    }
}

/// "Previous" from any page after the first goes back, never forward.
pub proof fn lemma_previous_goes_back(landscape: Seq<bool>, current: int, cover_mode: bool, force_single: bool)
    requires
        current > 0,
    ensures
        0 <= previous_spec(landscape, current, cover_mode, force_single) < current,
{
    if !(cover_mode && current <= 1) {
        lemma_last_start_below(landscape, cover_mode, force_single, first_screen(cover_mode), current, 0);
    }
}

/// Every index up to the volume length is a valid start for "previous".
pub proof fn lemma_previous_defined_within_volume(landscape: Seq<bool>, current: int, cover_mode: bool, force_single: bool)
    requires
        0 <= current <= landscape.len(),
    ensures
        previous_defined(landscape, current, cover_mode, force_single),
{
    lemma_walk_in_bounds(landscape, cover_mode, force_single, first_screen(cover_mode), current);
}

proof fn lemma_walk_in_bounds(landscape: Seq<bool>, cover_mode: bool, force_single: bool, idx: int, current: int)
    requires
        current <= landscape.len(),
    ensures
        walk_in_bounds(landscape, cover_mode, force_single, idx, current),
    decreases if current > idx { current - idx } else { 0 },
{
    if 0 <= idx < current {
        lemma_walk_in_bounds(
            landscape,
            cover_mode,
            force_single,
            idx + step_spec(landscape, idx, cover_mode, force_single),
            current,
        );
    }
}

/// Landscape pages are never part of a spread: a landscape page, and a
/// page followed by a landscape page, are shown alone and "next" moves by
/// one from them, in every mode. A spread is two portrait pages of the
/// volume, and "next" moves past both.
pub proof fn lemma_landscape_pages_alone(landscape: Seq<bool>, i: int, cover_mode: bool, force_single: bool)
    requires
        0 <= i < landscape.len(),
    ensures
        landscape[i] ==> single_spec(landscape, i, cover_mode, force_single) && step_spec(
            landscape,
            i,
            cover_mode,
            force_single,
        ) == 1,
        i + 1 < landscape.len() && landscape[i + 1] ==> single_spec(landscape, i, cover_mode, force_single)
            && step_spec(landscape, i, cover_mode, force_single) == 1,
        i + 1 == landscape.len() ==> single_spec(landscape, i, cover_mode, force_single),
        force_single ==> single_spec(landscape, i, cover_mode, force_single),
        !single_spec(landscape, i, cover_mode, force_single) ==> i + 1 < landscape.len() && !landscape[i]
            && !landscape[i + 1] && !force_single && step_spec(landscape, i, cover_mode, force_single) == 2,
        !landscape[i] && i + 1 < landscape.len() && !landscape[i + 1] && !force_single && !(cover_mode && i == 0)
            ==> !single_spec(landscape, i, cover_mode, force_single),
{
}

} // verus!
