//! Resume state: what is saved of the last viewed position and how it is
//! found again. Reading and writing the JSON file is the caller's part; the
//! saved states live in a `ResumeStore` keyed by path.

use vstd::prelude::*;
use crate::text::str_equal;
use crate::outside::{path_relative, path_relative_of, paths_equal, paths_equal_of};

verus! {

/// Resume state for a single directory/archive.
#[derive(Debug, Clone)]
pub struct ResumeState {
    /// Name of the current image file
    pub image_name: String,
    /// Index of the current image
    pub image_index: usize,
    /// Whether this is an archive
    pub is_archive: bool,
    /// Cover mode state
    pub cover_mode: bool,
    /// Reading mode (true = Manga RTL, false = Comic LTR)
    pub reading_mode: bool,
    /// Relative directory path (for archives)
    pub dir_rel: Option<String>,
    /// Absolute directory path (for non-archives)
    pub dir_path: Option<String>,
}

fn copy_string(s: &String) -> (out: String)
    ensures
        out == *s,
{
    s.clone()
}

fn copy_opt_string(s: &Option<String>) -> (out: Option<String>)
    ensures
        out == *s,
{
    match s {
        Some(v) => Some(copy_string(v)),
        None => None,
    }
}

impl ResumeState {
    /// A copy of this state.
    pub fn duplicate(&self) -> (out: ResumeState)
        ensures
            out == *self,
    {
        ResumeState {
            image_name: copy_string(&self.image_name),
            image_index: self.image_index,
            is_archive: self.is_archive,
            cover_mode: self.cover_mode,
            reading_mode: self.reading_mode,
            dir_rel: copy_opt_string(&self.dir_rel),
            dir_path: copy_opt_string(&self.dir_path),
        }
    }
}

/// Some entry of `entries` has key `k`.
pub open spec fn has_key(entries: Seq<(String, ResumeState)>, k: Seq<char>) -> bool {
    exists|i: int| 0 <= i < entries.len() && #[trigger] entries[i].0@ == k
}

/// No two entries share a key.
pub open spec fn keys_distinct(entries: Seq<(String, ResumeState)>) -> bool {
    forall|i: int, j: int|
        0 <= i < entries.len() && 0 <= j < entries.len() && i != j ==> #[trigger] entries[i].0@ != #[trigger] entries[j].0@
}

/// The saved resume states, keyed by the canonical path of what was opened.
pub struct ResumeStore {
    entries: Vec<(String, ResumeState)>,
}

impl ResumeStore {
    #[verifier::type_invariant]
    spec fn wf(self) -> bool {
        keys_distinct(self.entries@)
    }

    /// The stored entries as a sequence.
    pub closed spec fn entries_view(&self) -> Seq<(String, ResumeState)> {
        self.entries@
    }

    /// The stored states as a map from key to state.
    pub closed spec fn view(&self) -> Map<Seq<char>, ResumeState> {
        Map::new(
            |k: Seq<char>| has_key(self.entries@, k),
            |k: Seq<char>| self.entries@[choose|i: int| 0 <= i < self.entries@.len() && #[trigger] self.entries@[i].0@ == k].1,
        )
    }

    /// An empty store.
    pub fn new() -> (store: ResumeStore)
        ensures
            store@ == Map::<Seq<char>, ResumeState>::empty(),
    {
        let store = ResumeStore { entries: Vec::new() };
        assert(store@ =~= Map::<Seq<char>, ResumeState>::empty());
        store
    }

    fn find(&self, key: &str) -> (found: Option<usize>)
        ensures
            found matches Some(i) ==> i < self.entries@.len() && self.entries@[i as int].0@ == key@,
            found is None ==> !has_key(self.entries@, key@),
    {
        let mut i: usize = 0;
        while i < self.entries.len()
            invariant
                i <= self.entries@.len(),
                forall|j: int| 0 <= j < i ==> #[trigger] self.entries@[j].0@ != key@,
            decreases self.entries.len() - i,
        {
            if str_equal(self.entries[i].0.as_str(), key) {
                return Some(i);
            }
            i = i + 1;
        }
        None
    }

    /// The state saved under `key`, if any.
    pub fn get(&self, key: &str) -> (state: Option<&ResumeState>)
        ensures
            state is Some <==> self@.contains_key(key@),
            state matches Some(s) ==> *s == self@[key@],
    {
        proof {
            use_type_invariant(self);
        }
        match self.find(key) {
            Some(i) => {
                proof {
                    let c = choose|j: int| 0 <= j < self.entries@.len() && #[trigger] self.entries@[j].0@ == key@;
                    assert(c == i);
                }
                Some(&self.entries[i].1)
            },
            None => None,
        }
    }

    /// Saves `state` under `key`, replacing any state saved there before.
    pub fn insert(&mut self, key: String, state: ResumeState)
        ensures
            final(self)@ == old(self)@.insert(key@, state),
    {
        proof {
            use_type_invariant(&*self);
        }
        let ghost old_entries = self.entries@;
        let ghost old_view = self@;
        let found = self.find(key.as_str());
        let mut entries: Vec<(String, ResumeState)> = Vec::new();
        std::mem::swap(&mut entries, &mut self.entries);
        let ghost k = key@;
        match found {
            Some(i) => {
                entries.set(i, (key, state));
            },
            None => {
                entries.push((key, state));
            },
        }
        proof {
            assert forall|a: int, b: int|
                0 <= a < entries@.len() && 0 <= b < entries@.len() && a != b implies #[trigger] entries@[a].0@
                != #[trigger] entries@[b].0@ by {
                if a < old_entries.len() && b < old_entries.len() {
                    if found is Some {
                        let i = found->0 as int;
                        if a != i && b != i {
                            assert(entries@[a] == old_entries[a]);
                            assert(entries@[b] == old_entries[b]);
                        } else if a == i {
                            assert(entries@[b] == old_entries[b]);
                            assert(old_entries[i].0@ == k);
                        } else {
                            assert(entries@[a] == old_entries[a]);
                            assert(old_entries[i].0@ == k);
                        }
                    } else {
                        assert(entries@[a] == old_entries[a]);
                        assert(entries@[b] == old_entries[b]);
                    }
                } else if a >= old_entries.len() {
                    assert(entries@[b] == old_entries[b]);
                    assert(entries@[a].0@ == k);
                } else {
                    assert(entries@[a] == old_entries[a]);
                    assert(entries@[b].0@ == k);
                }
            }
        }
        self.entries = entries;
        proof {
            assert(self.entries@ == entries@);
            assert forall|kk: Seq<char>| #[trigger] self@.contains_key(kk) <==> old_view.insert(k, state).contains_key(kk) by {
                if kk == k {
                    if found is Some {
                        assert(self.entries@[found->0 as int].0@ == k);
                    } else {
                        assert(self.entries@[old_entries.len() as int].0@ == k);
                    }
                } else {
                    if has_key(old_entries, kk) {
                        let j = choose|j: int| 0 <= j < old_entries.len() && #[trigger] old_entries[j].0@ == kk;
                        assert(self.entries@[j] == old_entries[j]);
                    }
                    if has_key(self.entries@, kk) {
                        let j = choose|j: int| 0 <= j < self.entries@.len() && #[trigger] self.entries@[j].0@ == kk;
                        assert(old_entries[j] == self.entries@[j]);
                    }
                }
            }
            assert forall|kk: Seq<char>| #[trigger] self@.contains_key(kk) implies self@[kk] == old_view.insert(k, state)[kk] by {
                let j = choose|j: int| 0 <= j < self.entries@.len() && #[trigger] self.entries@[j].0@ == kk;
                if kk == k {
                    if found is Some {
                        assert(j == found->0 as int);
                    } else {
                        assert(j == old_entries.len() as int);
                    }
                } else {
                    assert(self.entries@[j] == old_entries[j]);
                    let j2 = choose|j2: int| 0 <= j2 < old_entries.len() && #[trigger] old_entries[j2].0@ == kk;
                    assert(j2 == j);
                }
            }
            assert(self@ =~= old_view.insert(k, state));
        }
    }

    /// The number of saved states.
    pub fn len(&self) -> (n: usize)
        ensures
            n == self.entries_view().len(),
    {
        self.entries.len()
    }

    /// The `i`-th saved entry (in storage order), for writing the store out.
    pub fn entry(&self, i: usize) -> (e: (&String, &ResumeState))
        requires
            i < self.entries_view().len(),
        ensures
            self@.contains_key(e.0@),
            self@[e.0@] == *e.1,
            *e.0 == self.entries_view()[i as int].0,
    {
        proof {
            use_type_invariant(self);
            let k = self.entries@[i as int].0@;
            assert(has_key(self.entries@, k));
            let c = choose|j: int| 0 <= j < self.entries@.len() && #[trigger] self.entries@[j].0@ == k;
            assert(c == i);
        }
        (&self.entries[i].0, &self.entries[i].1)
    }
}

/// The text of an optional string.
pub open spec fn opt_view(o: Option<String>) -> Option<Seq<char>> {
    match o {
        Some(s) => Some(s@),
        None => None,
    }
}

/// Get the resume state saved under `resume_key`.
pub fn get_resume_state(store: &ResumeStore, resume_key: &str) -> (state: Option<ResumeState>)
    ensures
        state is Some <==> store@.contains_key(resume_key@),
        state matches Some(s) ==> s == store@[resume_key@],
{
    match store.get(resume_key) {
        Some(s) => Some(s.duplicate()),
        None => None,
    }
}

/// The page index that is saved: the current one, kept within the volume.
pub open spec fn saved_index(len: int, img_idx: int) -> int {
    if img_idx < len - 1 { img_idx } else { len - 1 }
}

/// The relative directory saved for an archive: the opened directory
/// relative to the archive's base directory, or "." when the directory does
/// not resolve or does not lie under the base.
pub open spec fn saved_dir_rel(target_canon: Option<Seq<char>>, base: Seq<char>) -> Seq<char> {
    match target_canon {
        Some(t) => match path_relative_of(t, base) {
            Some(r) => r,
            None => seq!['.'],
        },
        None => seq!['.'],
    }
}

/// The state saved for the page at `img_idx` of a volume whose page files
/// are named `image_names`; `None` for an empty volume.
///
/// `target_canon` is the volume's directory after canonicalization (`None`
/// when that failed); `archive_base` is the base directory of an extracted
/// archive, canonicalized where possible.
pub fn make_resume_state(
    image_names: &[String],
    img_idx: usize,
    is_archive: bool,
    archive_base: Option<&str>,
    target_canon: Option<&str>,
    cover_mode: bool,
    reading_mode: bool,
) -> (state: Option<ResumeState>)
    ensures
        state is None <==> image_names@.len() == 0,
        state matches Some(s) ==> s.cover_mode == cover_mode && s.reading_mode == reading_mode && s.is_archive
            == is_archive,
        state matches Some(s) ==> s.image_index < image_names@.len() && s.image_name@ == image_names@[s.image_index as int]@,
        state matches Some(s) ==> (img_idx < image_names@.len() ==> s.image_index == img_idx),
        state matches Some(s) ==> make_state_fields(
            s,
            image_names@,
            img_idx as int,
            is_archive,
            opt_str_view(archive_base),
            opt_str_view(target_canon),
            cover_mode,
            reading_mode,
        ),
{
    if image_names.len() == 0 {
        return None;
    }
    let safe_idx = if img_idx < image_names.len() - 1 { img_idx } else { image_names.len() - 1 };
    let mut state = ResumeState {
        image_name: copy_string(&image_names[safe_idx]),
        image_index: safe_idx,
        is_archive,
        cover_mode,
        reading_mode,
        dir_rel: None,
        dir_path: None,
    };
    if is_archive {
        if let Some(base) = archive_base {
            proof {
                reveal_strlit(".");
            }
            let rel = match target_canon {
                Some(t) => match path_relative(t, base) {
                    Some(r) => r,
                    None => String::from_str("."),
                },
                None => String::from_str("."),
            };
            assert(rel@ == saved_dir_rel(opt_str_view(target_canon), base@));
            state.dir_rel = Some(rel);
        }
    } else {
        if let Some(t) = target_canon {
            state.dir_path = Some(String::from_str(t));
        }
    }
    Some(state)
}

/// The text of an optional string slice.
pub open spec fn opt_str_view(o: Option<&str>) -> Option<Seq<char>> {
    match o {
        Some(s) => Some(s@),
        None => None,
    }
}

/// Save the current state for a specific key: the store afterwards holds
/// the state `make_resume_state` gives under `resume_key`; nothing is saved
/// for an empty volume.
pub fn save_resume_state(
    store: &mut ResumeStore,
    resume_key: &str,
    image_names: &[String],
    img_idx: usize,
    is_archive: bool,
    archive_base: Option<&str>,
    target_canon: Option<&str>,
    cover_mode: bool,
    reading_mode: bool,
) -> (saved: Option<ResumeState>)
    ensures
        saved is None <==> image_names@.len() == 0,
        saved is None ==> final(store)@ == old(store)@,
        saved matches Some(s) ==> s.cover_mode == cover_mode && s.reading_mode == reading_mode && s.is_archive
            == is_archive,
        saved matches Some(s) ==> s.image_index < image_names@.len() && s.image_name@ == image_names@[s.image_index as int]@,
        saved matches Some(s) ==> final(store)@ == old(store)@.insert(resume_key@, s),
        saved matches Some(s) ==> make_state_fields(
            s,
            image_names@,
            img_idx as int,
            is_archive,
            opt_str_view(archive_base),
            opt_str_view(target_canon),
            cover_mode,
            reading_mode,
        ),
{
    match make_resume_state(image_names, img_idx, is_archive, archive_base, target_canon, cover_mode, reading_mode) {
        Some(state) => {
            let copy = state.duplicate();
            store.insert(String::from_str(resume_key), state);
            Some(copy)
        },
        None => None,
    }
}

/// The fields of the state saved for page `img_idx` (see `make_resume_state`).
pub open spec fn make_state_fields(
    s: ResumeState,
    image_names: Seq<String>,
    img_idx: int,
    is_archive: bool,
    archive_base: Option<Seq<char>>,
    target_canon: Option<Seq<char>>,
    cover_mode: bool,
    reading_mode: bool,
) -> bool {
    let i = saved_index(image_names.len() as int, img_idx);
    &&& s.image_index == i
    &&& s.image_name@ == image_names[i]@
    &&& s.is_archive == is_archive
    &&& s.cover_mode == cover_mode
    &&& s.reading_mode == reading_mode
    &&& opt_view(s.dir_rel) == (if is_archive && archive_base is Some {
        Some(saved_dir_rel(target_canon, archive_base->0))
    } else {
        None
    })
    &&& opt_view(s.dir_path) == (if is_archive { None } else { target_canon })
}

/// Directory `d` (canonicalized; `None` where that failed) is the one a
/// saved state points at: for an archive, its path relative to the base is
/// the saved relative path; otherwise it is the saved directory (the same
/// text, or an equal path).
pub open spec fn dir_matches(
    d: Option<Seq<char>>,
    is_archive: bool,
    saved_rel: Seq<char>,
    base_canon: Seq<char>,
    saved_dir: Seq<char>,
) -> bool {
    match d {
        Some(dc) => if is_archive {
            path_relative_of(dc, base_canon) == Some(saved_rel)
        } else {
            dc == saved_dir || paths_equal_of(dc, saved_dir)
        },
        None => false,
    }
}

/// The saved directory to look for (`saved_dir_canon` is the saved path
/// after canonicalization, when that succeeded).
pub open spec fn saved_dir_target(state: ResumeState, saved_dir_canon: Option<Seq<char>>) -> Seq<char> {
    match saved_dir_canon {
        Some(c) => c,
        None => state.dir_path->0@,
    }
}

/// The state points at directory `t` (canonical text): for an archive, its
/// saved relative path is `t`'s path under the base; otherwise its saved
/// directory is `t`, and that still canonicalizes to `t` (or no longer
/// resolves).
pub open spec fn state_points_at(
    s: ResumeState,
    is_archive: bool,
    base_canon: Option<Seq<char>>,
    saved_dir_canon: Option<Seq<char>>,
    t: Seq<char>,
) -> bool {
    if is_archive {
        &&& base_canon is Some
        &&& path_relative_of(t, base_canon->0) is Some
        &&& opt_view(s.dir_rel) == path_relative_of(t, base_canon->0)
    } else {
        &&& opt_view(s.dir_path) == Some(t)
        &&& (saved_dir_canon is None || saved_dir_canon == Some(t))
    }
}

/// Find the directory index from resume state: the first directory that the
/// state points at, found whenever one does. `dirs_canon` holds the directories to browse after
/// canonicalization; `base_canon` the canonical archive base (`None` when
/// there is none or it does not resolve); `saved_dir_canon` the saved
/// directory after canonicalization.
pub fn find_resume_dir_index(
    dirs_canon: &[Option<String>],
    state: &ResumeState,
    is_archive: bool,
    base_canon: Option<&str>,
    saved_dir_canon: Option<&str>,
) -> (found: Option<usize>)
    ensures
        is_archive && (state.dir_rel is None || base_canon is None) ==> found is None,
        !is_archive && state.dir_path is None ==> found is None,
        found matches Some(i) ==> i < dirs_canon@.len() && dir_matches(
            opt_view(dirs_canon@[i as int]),
            is_archive,
            state.dir_rel->0@,
            base_canon->0@,
            saved_dir_target(*state, opt_str_view(saved_dir_canon)),
        ) && forall|j: int|
            0 <= j < i ==> !dir_matches(
                opt_view(#[trigger] dirs_canon@[j]),
                is_archive,
                state.dir_rel->0@,
                base_canon->0@,
                saved_dir_target(*state, opt_str_view(saved_dir_canon)),
            ),
        (if is_archive { state.dir_rel is Some && base_canon is Some } else { state.dir_path is Some }) ==> forall|j: int|
            0 <= j < dirs_canon@.len() && dir_matches(
                opt_view(#[trigger] dirs_canon@[j]),
                is_archive,
                state.dir_rel->0@,
                base_canon->0@,
                saved_dir_target(*state, opt_str_view(saved_dir_canon)),
            ) ==> (found matches Some(i) && i <= j),
        forall|j: int, t: Seq<char>|
            #![trigger dirs_canon@[j], state_points_at(*state, is_archive, opt_str_view(base_canon), opt_str_view(saved_dir_canon), t)]
            0 <= j < dirs_canon@.len() && opt_view(dirs_canon@[j]) == Some(t) && state_points_at(
                *state,
                is_archive,
                opt_str_view(base_canon),
                opt_str_view(saved_dir_canon),
                t,
            ) ==> (found matches Some(i) && i <= j),
        found is None && (if is_archive { state.dir_rel is Some && base_canon is Some } else { state.dir_path is Some })
            ==> forall|j: int|
            0 <= j < dirs_canon@.len() ==> !dir_matches(
                opt_view(#[trigger] dirs_canon@[j]),
                is_archive,
                state.dir_rel->0@,
                base_canon->0@,
                saved_dir_target(*state, opt_str_view(saved_dir_canon)),
            ),
{
    let ghost target = saved_dir_target(*state, opt_str_view(saved_dir_canon));
    if is_archive {
        let saved_rel = match &state.dir_rel {
            Some(r) => r,
            None => return None,
        };
        let base = match base_canon {
            Some(b) => b,
            None => return None,
        };
        let mut i: usize = 0;
        while i < dirs_canon.len()
            invariant
                i <= dirs_canon@.len(),
                is_archive,
                state.dir_rel == Some(*saved_rel),
                target == saved_dir_target(*state, opt_str_view(saved_dir_canon)),
                base_canon == Some(base),
                forall|j: int|
                    0 <= j < i ==> !dir_matches(opt_view(#[trigger] dirs_canon@[j]), is_archive, saved_rel@, base@, target),
            decreases dirs_canon.len() - i,
        {
            if let Some(d) = &dirs_canon[i] {
                if let Some(rel) = path_relative(d.as_str(), base) {
                    if str_equal(rel.as_str(), saved_rel.as_str()) {
                        assert(opt_view(dirs_canon@[i as int]) == Some(d@));
                        return Some(i);
                    }
                }
            }
            i = i + 1;
        }
        None
    } else {
        let saved = match &state.dir_path {
            Some(p) => p,
            None => return None,
        };
        let wanted: &str = match saved_dir_canon {
            Some(c) => c,
            None => saved.as_str(),
        };
        assert(wanted@ == target);
        let mut i: usize = 0;
        while i < dirs_canon.len()
            invariant
                i <= dirs_canon@.len(),
                !is_archive,
                state.dir_path == Some(*saved),
                target == saved_dir_target(*state, opt_str_view(saved_dir_canon)),
                wanted@ == target,
                forall|j: int|
                    0 <= j < i ==> !dir_matches(
                        opt_view(#[trigger] dirs_canon@[j]),
                        is_archive,
                        state.dir_rel->0@,
                        base_canon->0@,
                        target,
                    ),
            decreases dirs_canon.len() - i,
        {
            if let Some(d) = &dirs_canon[i] {
                let ds = d.as_str();
                if str_equal(ds, wanted) || paths_equal(ds, wanted) {
                    assert(opt_view(dirs_canon@[i as int]) == Some(d@));
                    return Some(i);
                }
            }
            i = i + 1;
        }
        None
    }
}

/// The index of the first page file named `name`, if any.
pub open spec fn first_named(image_names: Seq<String>, name: Seq<char>, i: int) -> bool {
    0 <= i < image_names.len() && image_names[i]@ == name && forall|j: int|
        0 <= j < i ==> (#[trigger] image_names[j])@ != name
}

/// Find the image index from resume state: the first page with the saved
/// file name; otherwise the saved index, kept within the volume (0 for an
/// empty volume).
pub fn find_resume_image_index(image_names: &[String], state: &ResumeState) -> (idx: usize)
    ensures
        (exists|i: int| 0 <= i < image_names@.len() && #[trigger] image_names@[i]@ == state.image_name@) ==> first_named(
            image_names@,
            state.image_name@,
            idx as int,
        ),
        !(exists|i: int| 0 <= i < image_names@.len() && #[trigger] image_names@[i]@ == state.image_name@) ==> idx == (
        if image_names@.len() == 0 {
            0
        } else {
            saved_index(image_names@.len() as int, state.image_index as int)
        }),
{
    let mut i: usize = 0;
    while i < image_names.len()
        invariant
            i <= image_names@.len(),
            forall|j: int| 0 <= j < i ==> (#[trigger] image_names@[j])@ != state.image_name@,
        decreases image_names.len() - i,
    {
        if str_equal(image_names[i].as_str(), state.image_name.as_str()) {
            return i;
        }
        i = i + 1;
    }
    if image_names.len() == 0 {
        0
    } else if state.image_index < image_names.len() - 1 {
        state.image_index
    } else {
        image_names.len() - 1
    }
}

/// A read gives back what was saved: after saving state `s` under `key`,
/// the store holds `s` under `key` and every other key keeps its state.
pub proof fn lemma_read_after_save(before: Map<Seq<char>, ResumeState>, key: Seq<char>, s: ResumeState, other: Seq<char>)
    ensures
        before.insert(key, s).contains_key(key),
        before.insert(key, s)[key] == s,
        other != key ==> (before.insert(key, s).contains_key(other) <==> before.contains_key(other)),
        other != key && before.contains_key(other) ==> before.insert(key, s)[other] == before[other],
{
}

/// Resuming restores the page: when the page files of a volume have
/// distinct names, the state saved at page `img_idx` leads back to that page
/// (kept within the volume).
pub proof fn lemma_resume_restores_page(
    image_names: Seq<String>,
    img_idx: int,
    s: ResumeState,
    is_archive: bool,
    archive_base: Option<Seq<char>>,
    target_canon: Option<Seq<char>>,
    cover_mode: bool,
    reading_mode: bool,
)
    requires
        image_names.len() > 0,
        0 <= img_idx,
        forall|a: int, b: int| 0 <= a < b < image_names.len() ==> (#[trigger] image_names[a])@ != (#[trigger] image_names[b])@,
        make_state_fields(s, image_names, img_idx, is_archive, archive_base, target_canon, cover_mode, reading_mode),
    ensures
        exists|i: int| 0 <= i < image_names.len() && #[trigger] image_names[i]@ == s.image_name@,
        first_named(image_names, s.image_name@, saved_index(image_names.len() as int, img_idx)),
{
    let i = saved_index(image_names.len() as int, img_idx);
    assert(image_names[i]@ == s.image_name@);
    assert forall|j: int| 0 <= j < i implies (#[trigger] image_names[j])@ != s.image_name@ by {
        assert(image_names[j]@ != image_names[i]@);
    }
}

/// Resuming restores the directory that was being read: outside an archive,
/// the directory a state was saved for matches that state again, as long as
/// the saved path still canonicalizes to itself (or no longer resolves);
/// `find_resume_dir_index` then finds that directory or an earlier match.
pub proof fn lemma_resume_restores_dir(
    image_names: Seq<String>,
    img_idx: int,
    s: ResumeState,
    target: Seq<char>,
    cover_mode: bool,
    reading_mode: bool,
    saved_dir_canon: Option<Seq<char>>,
)
    requires
        image_names.len() > 0,
        make_state_fields(s, image_names, img_idx, false, None, Some(target), cover_mode, reading_mode),
        saved_dir_canon is None || saved_dir_canon == Some(target),
    ensures
        s.dir_path is Some,
        dir_matches(Some(target), false, seq![], seq![], saved_dir_target(s, saved_dir_canon)),
{
}

/// A saved directory is found again on resume: the state saved for the
/// volume in directory `t` (canonical) points at `t` when the archive base
/// and the saved directory are passed back canonically, so that
/// `find_resume_dir_index` returns an index no later than any place of `t`
/// among the directories (for an archive, `t` must lie under the base).
pub proof fn lemma_saved_directory_found_again(
    image_names: Seq<String>,
    img_idx: int,
    s: ResumeState,
    is_archive: bool,
    archive_base: Option<Seq<char>>,
    t: Seq<char>,
    cover_mode: bool,
    reading_mode: bool,
    saved_dir_canon: Option<Seq<char>>,
)
    requires
        image_names.len() > 0,
        make_state_fields(s, image_names, img_idx, is_archive, archive_base, Some(t), cover_mode, reading_mode),
        is_archive ==> archive_base is Some && path_relative_of(t, archive_base->0) is Some,
        !is_archive ==> saved_dir_canon is None || saved_dir_canon == Some(t),
    ensures
        state_points_at(s, is_archive, archive_base, saved_dir_canon, t),
{
}

/// Resuming restores the chapter of an archive: the directory a state was
/// saved for matches that state again when the archive is reopened at the
/// same base, provided it lies under the base.
pub proof fn lemma_resume_restores_archive_dir(
    image_names: Seq<String>,
    img_idx: int,
    s: ResumeState,
    base: Seq<char>,
    target: Seq<char>,
    cover_mode: bool,
    reading_mode: bool,
    saved_dir_canon: Option<Seq<char>>,
)
    requires
        image_names.len() > 0,
        path_relative_of(target, base) is Some,
        make_state_fields(s, image_names, img_idx, true, Some(base), Some(target), cover_mode, reading_mode),
    ensures
        s.dir_rel is Some,
        dir_matches(Some(target), true, s.dir_rel->0@, base, saved_dir_target(s, saved_dir_canon)),
{
}

/// A saved state keeps what it was given: the cover and reading modes, the
/// kind of volume, and the page (the current one, or the last page when the
/// index lies past the volume), named by its file; a folder keeps its
/// directory and no relative path, an archive the reverse.
pub proof fn lemma_saved_state_keeps_modes(
    image_names: Seq<String>,
    img_idx: int,
    s: ResumeState,
    is_archive: bool,
    archive_base: Option<Seq<char>>,
    target_canon: Option<Seq<char>>,
    cover_mode: bool,
    reading_mode: bool,
)
    requires
        image_names.len() > 0,
        0 <= img_idx,
        make_state_fields(s, image_names, img_idx, is_archive, archive_base, target_canon, cover_mode, reading_mode),
    ensures
        s.cover_mode == cover_mode,
        s.reading_mode == reading_mode,
        s.is_archive == is_archive,
        img_idx < image_names.len() ==> s.image_index == img_idx,
        img_idx >= image_names.len() ==> s.image_index == image_names.len() - 1,
        s.image_name@ == image_names[s.image_index as int]@,
        !is_archive ==> s.dir_rel is None && opt_view(s.dir_path) == target_canon,
        is_archive ==> s.dir_path is None && (s.dir_rel is Some <==> archive_base is Some),
{
}

} // verus!
