//! Renderer decisions: which display method the terminal gets, in which
//! order the methods are tried for a page or a spread, and the byte-level
//! work on graphics data (the Kitty z-index, the WezTerm probe image).
//! Running the chafa tool, Kitty's icat or WezTerm's imgcat, and writing to
//! the terminal, are the caller's part.

use vstd::prelude::*;
use crate::terminal::TerminalType;
use crate::outside::{
    base64_encode, base64_of, crc32, crc32_of, find_comma, find_z_eq, regex_replace_first, replace_first_z_value,
    string_from_chars, utf8_decode, zlib_compress, zlib_compressed,
};
use crate::text::{chars_of, contains_chars, contains_seq, decimal, is_digit, lemma_decimal_digits, push_all, push_decimal};
use vstd::utf8::{
    decode_utf8, decode_utf8_encode_utf8, encode_scalar, encode_utf8, encode_utf8_decode_utf8, encode_utf8_valid_utf8,
    is_ascii_chars, is_ascii_chars_encode_utf8, valid_utf8,
};

verus! {

/// The image renderer, automatically selecting the best available method.
pub struct SixelRenderer {
    /// Whether chafa is available and usable
    pub use_chafa: bool,
    /// Whether the terminal is Kitty
    pub is_kitty: bool,
    /// Whether the terminal is WezTerm
    pub is_wezterm: bool,
    /// Whether chafa is required (not Kitty/WezTerm)
    pub chafa_required: bool,
}

/// Whether the terminal must be probed for WezTerm/iTerm2 inline images:
/// neither Kitty nor WezTerm was detected and chafa is not available.
pub open spec fn probe_needed_spec(term_type: TerminalType, use_chafa: bool) -> bool {
    term_type != TerminalType::Kitty && term_type != TerminalType::WezTerm && !use_chafa
}

impl SixelRenderer {
    /// Whether `new` needs the result of the inline-image probe (see
    /// `probe_needed_spec`).
    pub fn needs_probe(term_type: TerminalType, use_chafa: bool) -> (needed: bool)
        ensures
            needed == probe_needed_spec(term_type, use_chafa),
    {
        term_type != TerminalType::Kitty && term_type != TerminalType::WezTerm && !use_chafa
    }

    /// Create a new renderer from the detected terminal type and whether the
    /// chafa tool is usable. When neither Kitty nor WezTerm was detected and
    /// chafa is missing, the terminal was probed with an inline image
    /// (`probe_succeeded`); a successful probe counts as WezTerm and no
    /// longer requires chafa. `probe_succeeded` is ignored otherwise.
    pub fn new(term_type: TerminalType, use_chafa: bool, probe_succeeded: bool) -> (r: SixelRenderer)
        ensures
            r.use_chafa == use_chafa,
            r.is_kitty == (term_type == TerminalType::Kitty),
            probe_needed_spec(term_type, use_chafa) ==> r.is_wezterm == probe_succeeded && r.chafa_required
                == !probe_succeeded,
            !probe_needed_spec(term_type, use_chafa) ==> r.is_wezterm == (term_type == TerminalType::WezTerm)
                && r.chafa_required == (term_type != TerminalType::Kitty && term_type != TerminalType::WezTerm),
    {
        let is_kitty = term_type == TerminalType::Kitty;
        let is_wezterm = term_type == TerminalType::WezTerm;
        let chafa_required = !is_kitty && !is_wezterm;
        let (is_wezterm, chafa_required) = if chafa_required && !use_chafa {
            if probe_succeeded {
                (true, false)
            } else {
                (false, true)
            }
        } else {
            (is_wezterm, chafa_required)
        };
        SixelRenderer { use_chafa, is_kitty, is_wezterm, chafa_required }
    }
}

/// One way of putting an image on the screen.
#[derive(Debug, Clone, Copy, PartialEq, Eq, Structural)]
pub enum DisplayAttempt {
    /// Convert the page with chafa and write the result, centred.
    ChafaPage,
    /// Show the page with Kitty's icat.
    KittyPage,
    /// Show the page with WezTerm's imgcat.
    WezTermPage,
    /// Join both pages side by side, convert with chafa and write the result.
    ChafaSpread,
    /// Join both pages into a temporary file and show it with Kitty's icat.
    KittySpread,
    /// Join both pages into a temporary file and show it with WezTerm's imgcat.
    WezTermSpread,
}

/// The native methods of this terminal for one page.
pub open spec fn native_page(r: SixelRenderer) -> Seq<DisplayAttempt> {
    (if r.is_kitty { seq![DisplayAttempt::KittyPage] } else { seq![] }) + (if r.is_wezterm {
        seq![DisplayAttempt::WezTermPage]
    } else {
        seq![]
    })
}

/// The methods tried, in order, to show one page; when none succeeds the
/// "no display method" warning is shown. With chafa, chafa comes first. On
/// Kitty or WezTerm the native viewer follows; elsewhere chafa is tried once
/// more.
pub open spec fn single_plan(r: SixelRenderer) -> Seq<DisplayAttempt> {
    (if r.use_chafa { seq![DisplayAttempt::ChafaPage] } else { seq![] }) + (if r.is_kitty || r.is_wezterm {
        native_page(r)
    } else if r.use_chafa {
        seq![DisplayAttempt::ChafaPage]
    } else {
        seq![]
    })
}

/// The methods tried, in order, to show a spread whose right page is shown
/// alone where all of these fail (`has_left`: there is a second page).
pub open spec fn spread_plan(r: SixelRenderer, has_left: bool) -> Seq<DisplayAttempt> {
    let native = r.is_kitty || r.is_wezterm;
    (if r.use_chafa && has_left { seq![DisplayAttempt::ChafaSpread] } else { seq![] }) + (if native && has_left {
        (if r.is_kitty { seq![DisplayAttempt::KittySpread] } else { seq![] }) + (if r.is_wezterm {
            seq![DisplayAttempt::WezTermSpread]
        } else {
            seq![]
        })
    } else {
        seq![]
    }) + (if !native && has_left && r.use_chafa { seq![DisplayAttempt::ChafaSpread] } else { seq![] })
        + single_plan(r)
}

impl SixelRenderer {
    fn push_native_page(&self, plan: &mut Vec<DisplayAttempt>)
        ensures
            final(plan)@ == old(plan)@ + native_page(*self),
    {
        if self.is_kitty {
            plan.push(DisplayAttempt::KittyPage);
        }
        if self.is_wezterm {
            plan.push(DisplayAttempt::WezTermPage);
        }
        assert(final(plan)@ =~= old(plan)@ + native_page(*self));
    }

    fn push_single(&self, plan: &mut Vec<DisplayAttempt>)
        ensures
            final(plan)@ == old(plan)@ + single_plan(*self),
    {
        let ghost start = plan@;
        if self.use_chafa {
            plan.push(DisplayAttempt::ChafaPage);
        }
        let ghost mid = plan@;
        if self.is_kitty || self.is_wezterm {
            self.push_native_page(plan);
        } else if self.use_chafa {
            plan.push(DisplayAttempt::ChafaPage);
        }
        assert(plan@ =~= start + single_plan(*self));
    }

    /// Display a single image (cover or single page): the display methods
    /// to try in order (see `single_plan`).
    pub fn display_single(&self) -> (plan: Vec<DisplayAttempt>)
        ensures
            plan@ == single_plan(*self),
    {
        let mut plan: Vec<DisplayAttempt> = Vec::new();
        self.push_single(&mut plan);
        assert(plan@ =~= single_plan(*self));
        plan
    }

    /// Display a cover page (same as single).
    pub fn display_cover(&self) -> (plan: Vec<DisplayAttempt>)
        ensures
            plan@ == single_plan(*self),
    {
        self.display_single()
    }

    /// Display a spread (two pages side by side): the display methods to
    /// try in order (see `spread_plan`).
    pub fn display_spread(&self, has_left: bool) -> (plan: Vec<DisplayAttempt>)
        ensures
            plan@ == spread_plan(*self, has_left),
    {
        let mut plan: Vec<DisplayAttempt> = Vec::new();
        let native = self.is_kitty || self.is_wezterm;
        if self.use_chafa && has_left {
            plan.push(DisplayAttempt::ChafaSpread);
        }
        if native && has_left {
            if self.is_kitty {
                plan.push(DisplayAttempt::KittySpread);
            }
            if self.is_wezterm {
                plan.push(DisplayAttempt::WezTermSpread);
            }
        }
        if !native && has_left && self.use_chafa {
            plan.push(DisplayAttempt::ChafaSpread);
        }
        let ghost before = plan@;
        self.push_single(&mut plan);
        assert(plan@ =~= spread_plan(*self, has_left));
        plan
    }
}

/// Without chafa no attempt converts with chafa, and every attempt on a
/// terminal that is neither Kitty nor WezTerm uses chafa. With chafa, chafa
/// is tried first. On Kitty (or WezTerm) a two-page spread is tried with
/// its own viewer whether chafa is there or not, and Kitty's icat (or
/// WezTerm's imgcat) shows a single page. Every spread plan ends with the
/// plan for one page, and without a second page it is that plan.
pub proof fn lemma_plans_use_available_methods(r: SixelRenderer, has_left: bool)
    ensures
        !r.use_chafa ==> forall|i: int|
            0 <= i < spread_plan(r, has_left).len() ==> #[trigger] spread_plan(r, has_left)[i]
                != DisplayAttempt::ChafaPage && spread_plan(r, has_left)[i] != DisplayAttempt::ChafaSpread,
        !r.is_kitty && !r.is_wezterm ==> forall|i: int|
            0 <= i < spread_plan(r, has_left).len() ==> (#[trigger] spread_plan(r, has_left)[i]
                == DisplayAttempt::ChafaPage || spread_plan(r, has_left)[i] == DisplayAttempt::ChafaSpread),
        r.is_kitty ==> single_plan(r).contains(DisplayAttempt::KittyPage),
        r.is_wezterm ==> single_plan(r).contains(DisplayAttempt::WezTermPage),
        r.use_chafa ==> single_plan(r).len() > 0 && single_plan(r)[0] == DisplayAttempt::ChafaPage,
        r.use_chafa && has_left ==> spread_plan(r, has_left)[0] == DisplayAttempt::ChafaSpread,
        r.is_kitty && has_left ==> spread_plan(r, has_left).contains(DisplayAttempt::KittySpread),
        r.is_wezterm && has_left ==> spread_plan(r, has_left).contains(DisplayAttempt::WezTermSpread),
        !has_left ==> spread_plan(r, has_left) == single_plan(r),
        spread_plan(r, has_left).len() >= single_plan(r).len(),
        spread_plan(r, has_left).skip(spread_plan(r, has_left).len() - single_plan(r).len()) == single_plan(r),
{
    let c: int = if r.use_chafa && has_left { 1 } else { 0 };
    if r.is_kitty && has_left {
        assert(spread_plan(r, has_left)[c] == DisplayAttempt::KittySpread);
    }
    if r.is_wezterm && has_left {
        let k: int = c + (if r.is_kitty { 1int } else { 0int });
        assert(spread_plan(r, has_left)[k] == DisplayAttempt::WezTermSpread);
    }
    let sp = spread_plan(r, has_left);
    assert(sp.skip(sp.len() - single_plan(r).len()) =~= single_plan(r));
    if !has_left {
        assert(sp =~= single_plan(r));
    }
    if r.is_kitty {
        let k: int = if r.use_chafa { 1 } else { 0 };
        assert(single_plan(r)[k] == DisplayAttempt::KittyPage);
    }
    if r.is_wezterm {
        let k: int = (if r.use_chafa { 1int } else { 0int }) + (if r.is_kitty { 1int } else { 0int });
        assert(single_plan(r)[k] == DisplayAttempt::WezTermPage);
    }
}

/// The decimal representation of a signed number.
pub open spec fn signed_decimal(z: int) -> Seq<char> {
    if z < 0 {
        seq!['-'] + decimal((-z) as nat)
    } else {
        decimal(z as nat)
    }
}

fn push_signed_decimal(out: &mut Vec<char>, z: i32)
    ensures
        final(out)@ == old(out)@ + signed_decimal(z as int),
{
    if z < 0 {
        out.push('-');
        let ghost mid = out@;
        let magnitude = (-(z as i64)) as usize;
        push_decimal(out, magnitude);
        assert(final(out)@ =~= old(out)@ + signed_decimal(z as int));
    } else {
        push_decimal(out, z as usize);
    }
}

/// A Kitty graphics command ("ESC _ G") starts at byte `i`.
pub open spec fn kitty_start(data: Seq<u8>, i: int) -> bool {
    0 <= i && i + 3 <= data.len() && data[i] == 0x1bu8 && data[i + 1] == 0x5fu8 && data[i + 2] == 0x47u8
}

/// The first Kitty graphics command at or after `from`.
pub open spec fn find_kitty(data: Seq<u8>, from: int) -> Option<int>
    decreases data.len() - from,
{
    if from < 0 || from + 3 > data.len() {
        None
    } else if kitty_start(data, from) {
        Some(from)
    } else {
        find_kitty(data, from + 1)
    }
}

/// The first ';' or ESC at or after `from`: where the command's parameters end.
pub open spec fn find_param_end(rest: Seq<u8>, from: int) -> Option<int>
    decreases rest.len() - from,
{
    if from < 0 || from >= rest.len() {
        None
    } else if rest[from] == 0x3bu8 || rest[from] == 0x1bu8 {
        Some(from)
    } else {
        find_param_end(rest, from + 1)
    }
}

/// The parameters as text: empty when they are not valid UTF-8.
pub open spec fn params_text(params: Seq<u8>) -> Seq<char> {
    if valid_utf8(params) {
        decode_utf8(params)
    } else {
        seq![]
    }
}

/// The z-index parameter `z=<z>`.
pub open spec fn z_param(z: int) -> Seq<char> {
    seq!['z', '='] + signed_decimal(z)
}

/// The parameters with the z-index set: the first existing `z=...` (up to
/// the next ',') is replaced, otherwise `,z=<z>` is appended.
pub open spec fn with_z_index(params: Seq<char>, z: int) -> Seq<char> {
    if contains_seq(params, seq!['z', '=']) {
        replace_first_z_value(params, z_param(z))
    } else {
        params + seq![','] + z_param(z)
    }
}

proof fn lemma_signed_decimal_chars(z: int)
    ensures
        forall|i: int|
            0 <= i < signed_decimal(z).len() ==> #[trigger] signed_decimal(z)[i] == '-' || is_digit(signed_decimal(z)[i]),
{
    if z < 0 {
        lemma_decimal_digits((-z) as nat);
        assert forall|i: int| 0 <= i < signed_decimal(z).len() implies #[trigger] signed_decimal(z)[i] == '-' || is_digit(
            signed_decimal(z)[i],
        ) by {
            if i > 0 {
                assert(signed_decimal(z)[i] == decimal((-z) as nat)[i - 1]);
            }
        }
    } else {
        lemma_decimal_digits(z as nat);
    }
}

proof fn lemma_z_param_chars(z: int)
    ensures
        z_param(z).len() >= 2,
        z_param(z)[0] == 'z',
        z_param(z)[1] == '=',
        !z_param(z).contains('$'),
        forall|i: int| 2 <= i < z_param(z).len() ==> #[trigger] z_param(z)[i] != ',',
{
    lemma_signed_decimal_chars(z);
    assert forall|i: int| 2 <= i < z_param(z).len() implies #[trigger] z_param(z)[i] != ',' && z_param(z)[i] != '$' by {
        assert(z_param(z)[i] == signed_decimal(z)[i - 2]);
    }
    if z_param(z).contains('$') {
        let i = choose|i: int| 0 <= i < z_param(z).len() && z_param(z)[i] == '$';
        assert(z_param(z)[i] != '$');
    }
}

proof fn lemma_find_z_eq(s: Seq<char>, from: int)
    requires
        0 <= from,
    ensures
        find_z_eq(s, from) matches Some(i) ==> from <= i && i + 2 <= s.len() && s[i] == 'z' && s[i + 1] == '='
            && forall|k: int| from <= k < i ==> !(#[trigger] s[k] == 'z' && s[k + 1] == '='),
        find_z_eq(s, from) is None ==> forall|k: int| from <= k && k + 2 <= s.len() ==> !(#[trigger] s[k] == 'z' && s[k + 1] == '='),
    decreases s.len() - from,
{
    if from + 2 <= s.len() && !(s[from] == 'z' && s[from + 1] == '=') {
        lemma_find_z_eq(s, from + 1);
    }
}

proof fn lemma_find_comma(s: Seq<char>, from: int)
    requires
        0 <= from,
    ensures
        from <= find_comma(s, from) <= s.len() || (from > s.len() && find_comma(s, from) == s.len()),
        find_comma(s, from) < s.len() ==> s[find_comma(s, from)] == ',',
        forall|k: int| from <= k < find_comma(s, from) ==> #[trigger] s[k] != ',',
    decreases s.len() - from,
{
    if from < s.len() && s[from] != ',' {
        lemma_find_comma(s, from + 1);
    }
}

proof fn lemma_find_comma_at(s: Seq<char>, from: int, at: int)
    requires
        0 <= from <= at <= s.len(),
        forall|k: int| from <= k < at ==> #[trigger] s[k] != ',',
        at == s.len() || s[at] == ',',
    ensures
        find_comma(s, from) == at,
    decreases at - from,
{
    if from < at {
        lemma_find_comma_at(s, from + 1, at);
    }
}

proof fn lemma_find_z_eq_at(s: Seq<char>, from: int, at: int)
    requires
        0 <= from <= at,
        at + 2 <= s.len(),
        s[at] == 'z' && s[at + 1] == '=',
        forall|k: int| from <= k < at ==> !(#[trigger] s[k] == 'z' && s[k + 1] == '='),
    ensures
        find_z_eq(s, from) == Some(at),
    decreases at - from,
{
    if from < at {
        lemma_find_z_eq_at(s, from + 1, at);
    }
}

/// Injecting sets the z-index: in the parameters as injected, the first
/// `z=` entry (up to the next ',' or the end) is exactly `z=<z>`.
pub proof fn lemma_z_index_is_set(params: Seq<char>, z: int)
    ensures
        find_z_eq(with_z_index(params, z), 0) matches Some(i) && with_z_index(params, z).subrange(
            i,
            find_comma(with_z_index(params, z), i + 2),
        ) == z_param(z),
{
    let r = with_z_index(params, z);
    let rep = z_param(z);
    lemma_z_param_chars(z);
    lemma_find_z_eq(params, 0);
    if contains_seq(params, seq!['z', '=']) {
        let w = choose|w: int| 0 <= w && w + 2 <= params.len() && #[trigger] params.subrange(w, w + 2) == seq!['z', '='];
        assert(params.subrange(w, w + 2)[0] == params[w]);
        assert(params.subrange(w, w + 2)[1] == params[w + 1]);
        let i = find_z_eq(params, 0)->0;
        let j = find_comma(params, i + 2);
        lemma_find_comma(params, i + 2);
        assert(r =~= params.take(i) + rep + params.skip(j));
        assert forall|k: int| 0 <= k < i implies !(#[trigger] r[k] == 'z' && r[k + 1] == '=') by {
            assert(r[k] == params[k]);
            if k + 1 < i {
                assert(r[k + 1] == params[k + 1]);
            } else {
                assert(r[k + 1] == rep[0]);
            }
        }
        lemma_find_z_eq_at(r, 0, i);
        let e = i + rep.len();
        assert forall|k: int| i + 2 <= k < e implies #[trigger] r[k] != ',' by {
            assert(r[k] == rep[k - i]);
        }
        if e < r.len() {
            assert(r[e] == params[j]);
        }
        lemma_find_comma_at(r, i + 2, e);
        assert(r.subrange(i, e) =~= rep);
    } else {
        if find_z_eq(params, 0) is Some {
            let i = find_z_eq(params, 0)->0;
            assert(params.subrange(i, i + 2) =~= seq!['z', '=']);
        }
        let n = params.len() as int;
        assert(r =~= params + seq![','] + rep);
        assert forall|k: int| 0 <= k < n + 1 implies !(#[trigger] r[k] == 'z' && r[k + 1] == '=') by {
            if k + 1 < n {
                assert(r[k] == params[k] && r[k + 1] == params[k + 1]);
            } else if k + 1 == n {
                assert(r[k + 1] == ',');
            } else {
                assert(r[k] == ',');
            }
        }
        lemma_find_z_eq_at(r, 0, n + 1);
        assert forall|k: int| n + 3 <= k < r.len() implies #[trigger] r[k] != ',' by {
            assert(r[k] == rep[k - n - 1]);
        }
        lemma_find_comma_at(r, n + 3, r.len() as int);
        assert(r.subrange(n + 1, r.len() as int) =~= rep);
    }
}

/// `data` with the z-index of its first Kitty graphics command set to `z`;
/// unchanged when there is no such command or its parameters do not end.
pub open spec fn inject_spec(data: Seq<u8>, z: int) -> Seq<u8> {
    match find_kitty(data, 0) {
        None => data,
        Some(idx) => {
            let rest = data.skip(idx + 2);
            match find_param_end(rest, 0) {
                None => data,
                Some(pe) => data.take(idx + 2) + encode_utf8(with_z_index(params_text(rest.take(pe)), z)) + rest.skip(pe),
            }
        },
    }
}

proof fn lemma_find_kitty_bounds(data: Seq<u8>, from: int)
    ensures
        find_kitty(data, from) matches Some(i) ==> from <= i && i + 3 <= data.len() && kitty_start(data, i),
    decreases data.len() - from,
{
    if !(from < 0 || from + 3 > data.len()) && !kitty_start(data, from) {
        lemma_find_kitty_bounds(data, from + 1);
    }
}

proof fn lemma_find_param_end_bounds(rest: Seq<u8>, from: int)
    ensures
        find_param_end(rest, from) matches Some(i) ==> from <= i < rest.len(),
    decreases rest.len() - from,
{
    if !(from < 0 || from >= rest.len()) && !(rest[from] == 0x3bu8 || rest[from] == 0x1bu8) {
        lemma_find_param_end_bounds(rest, from + 1);
    }
}

fn find_kitty_start(data: &[u8]) -> (found: Option<usize>)
    ensures
        found matches Some(i) ==> find_kitty(data@, 0) == Some(i as int),
        found is None ==> find_kitty(data@, 0) is None,
{
    let n = data.len();
    if n < 3 {
        return None;
    }
    let mut i: usize = 0;
    while i < n - 2
        invariant
            n == data@.len(),
            n >= 3,
            find_kitty(data@, 0) == find_kitty(data@, i as int),
        decreases n - i,
    {
        if data[i] == 0x1b && data[i + 1] == 0x5f && data[i + 2] == 0x47 {
            return Some(i);
        }
        i = i + 1;
    }
    None
}

fn find_params_end(rest: &[u8]) -> (found: Option<usize>)
    ensures
        found matches Some(i) ==> find_param_end(rest@, 0) == Some(i as int),
        found is None ==> find_param_end(rest@, 0) is None,
{
    let mut i: usize = 0;
    while i < rest.len()
        invariant
            i <= rest@.len(),
            find_param_end(rest@, 0) == find_param_end(rest@, i as int),
        decreases rest.len() - i,
    {
        if rest[i] == 0x3b || rest[i] == 0x1b {
            return Some(i);
        }
        i = i + 1;
    }
    None
}

fn push_bytes(out: &mut Vec<u8>, s: &[u8])
    ensures
        final(out)@ == old(out)@ + s@,
{
    let mut i: usize = 0;
    while i < s.len()
        invariant
            i <= s@.len(),
            out@ == old(out)@ + s@.take(i as int),
        decreases s.len() - i,
    {
        out.push(s[i]);
        assert(s@.take(i + 1) =~= s@.take(i as int).push(s[i as int]));
        i = i + 1;
    }
    assert(s@.take(i as int) =~= s@);
}

/// Inject z-index parameter into Kitty graphics protocol sequences: the
/// first command's parameters get `z=<z>` (see `inject_spec`).
pub fn inject_kitty_z_index(data: &[u8], z: i32) -> (out: Vec<u8>)
    ensures
        out@ == inject_spec(data@, z as int),
{
    let mut out: Vec<u8> = Vec::new();
    let idx = match find_kitty_start(data) {
        Some(i) => i,
        None => {
            push_bytes(&mut out, data);
            assert(out@ =~= data@);
            return out;
        },
    };
    proof {
        lemma_find_kitty_bounds(data@, 0);
    }
    let n = data.len();
    assert(idx + 3 <= n);
    let rest = data.split_at(idx + 2).1;
    assert(rest@ =~= data@.skip(idx + 2));
    let param_end = match find_params_end(rest) {
        Some(p) => p,
        None => {
            push_bytes(&mut out, data);
            assert(out@ =~= data@);
            return out;
        },
    };
    proof {
        lemma_find_param_end_bounds(rest@, 0);
    }
    let (params, tail) = rest.split_at(param_end);
    let text: Vec<char> = match utf8_decode(params) {
        Some(s) => chars_of(s.as_str()),
        None => Vec::new(),
    };
    assert(text@ == params_text(rest@.take(param_end as int)));
    let new_params: String = if contains_chars(text.as_slice(), &['z', '=']) {
        let mut replacement: Vec<char> = Vec::new();
        push_all(&mut replacement, &['z', '=']);
        push_signed_decimal(&mut replacement, z);
        let hay = string_from_chars(text.as_slice());
        let rep = string_from_chars(replacement.as_slice());
        proof {
            lemma_z_param_chars(z as int);
        }
        assert(rep@ == z_param(z as int));
        regex_replace_first("z=[^,]*", hay.as_str(), rep.as_str())
    } else {
        let mut appended: Vec<char> = Vec::new();
        push_all(&mut appended, text.as_slice());
        push_all(&mut appended, &[',', 'z', '=']);
        push_signed_decimal(&mut appended, z);
        string_from_chars(appended.as_slice())
    };
    assert(new_params@ == with_z_index(params_text(rest@.take(param_end as int)), z as int));
    let head = data.split_at(idx + 2).0;
    push_bytes(&mut out, head);
    push_bytes(&mut out, new_params.as_str().as_bytes());
    push_bytes(&mut out, tail);
    assert(out@ =~= inject_spec(data@, z as int));
    out
}

/// The parameters of the first Kitty graphics command of `data`, as text
/// (`None` when there is no command or its parameters do not end).
pub open spec fn first_command_params(data: Seq<u8>) -> Option<Seq<char>> {
    match find_kitty(data, 0) {
        None => None,
        Some(idx) => match find_param_end(data.skip(idx + 2), 0) {
            None => None,
            Some(pe) => Some(params_text(data.skip(idx + 2).take(pe))),
        },
    }
}

/// The z entry of command parameters: from the first `z=` up to the next
/// ',' or the end.
pub open spec fn z_entry(params: Seq<char>) -> Option<Seq<char>> {
    match find_z_eq(params, 0) {
        None => None,
        Some(i) => Some(params.subrange(i, find_comma(params, i + 2))),
    }
}

/// No byte ends the parameters of a Kitty command.
spec fn no_param_end(b: Seq<u8>) -> bool {
    forall|k: int| 0 <= k < b.len() ==> #[trigger] b[k] != 0x3bu8 && b[k] != 0x1bu8
}

proof fn lemma_find_kitty_first(data: Seq<u8>, from: int)
    requires
        0 <= from,
    ensures
        find_kitty(data, from) matches Some(i) ==> forall|k: int| from <= k < i ==> !kitty_start(data, k),
    decreases data.len() - from,
{
    if from + 3 <= data.len() && !kitty_start(data, from) {
        lemma_find_kitty_first(data, from + 1);
    }
}

proof fn lemma_find_kitty_at(data: Seq<u8>, from: int, at: int)
    requires
        0 <= from <= at,
        kitty_start(data, at),
        forall|k: int| from <= k < at ==> !kitty_start(data, k),
    ensures
        find_kitty(data, from) == Some(at),
    decreases at - from,
{
    if from < at {
        lemma_find_kitty_at(data, from + 1, at);
    }
}

proof fn lemma_find_param_end_first(rest: Seq<u8>, from: int)
    requires
        0 <= from,
    ensures
        find_param_end(rest, from) matches Some(i) ==> (rest[i] == 0x3bu8 || rest[i] == 0x1bu8) && forall|k: int|
            from <= k < i ==> #[trigger] rest[k] != 0x3bu8 && rest[k] != 0x1bu8,
    decreases rest.len() - from,
{
    if from < rest.len() && !(rest[from] == 0x3bu8 || rest[from] == 0x1bu8) {
        lemma_find_param_end_first(rest, from + 1);
    }
}

proof fn lemma_find_param_end_at(rest: Seq<u8>, from: int, at: int)
    requires
        0 <= from <= at < rest.len(),
        rest[at] == 0x3bu8 || rest[at] == 0x1bu8,
        forall|k: int| from <= k < at ==> #[trigger] rest[k] != 0x3bu8 && rest[k] != 0x1bu8,
    ensures
        find_param_end(rest, from) == Some(at),
    decreases at - from,
{
    if from < at {
        lemma_find_param_end_at(rest, from + 1, at);
    }
}

proof fn lemma_encode_concat(a: Seq<char>, b: Seq<char>)
    ensures
        encode_utf8(a + b) == encode_utf8(a) + encode_utf8(b),
    decreases a.len(),
{
    if a.len() == 0 {
        assert(a + b =~= b);
        assert(encode_utf8(a) + encode_utf8(b) =~= encode_utf8(b));
    } else {
        lemma_encode_concat(a.drop_first(), b);
        assert((a + b).drop_first() =~= a.drop_first() + b);
        assert((a + b)[0] == a[0]);
        assert(encode_utf8(a + b) =~= encode_utf8(a) + encode_utf8(b));
    }
}

proof fn lemma_encode_nonempty(a: Seq<char>)
    requires
        a.len() > 0,
    ensures
        encode_utf8(a).len() > 0,
{
    assert(encode_scalar(a[0] as u32).len() >= 1);
}

proof fn lemma_encode_split(t: Seq<char>, i: int)
    requires
        0 <= i <= t.len(),
    ensures
        encode_utf8(t) == encode_utf8(t.take(i)) + encode_utf8(t.skip(i)),
{
    assert(t =~= t.take(i) + t.skip(i));
    lemma_encode_concat(t.take(i), t.skip(i));
}

proof fn lemma_no_param_end_parts(x: Seq<u8>, y: Seq<u8>)
    requires
        no_param_end(x + y),
    ensures
        no_param_end(x),
        no_param_end(y),
{
    assert forall|k: int| 0 <= k < x.len() implies #[trigger] x[k] != 0x3bu8 && x[k] != 0x1bu8 by {
        assert((x + y)[k] == x[k]);
    }
    assert forall|k: int| 0 <= k < y.len() implies #[trigger] y[k] != 0x3bu8 && y[k] != 0x1bu8 by {
        assert((x + y)[x.len() + k] == y[k]);
    }
}

proof fn lemma_ascii_tail(z: int)
    ensures
        is_ascii_chars(seq![','] + z_param(z)),
        is_ascii_chars(z_param(z)),
        no_param_end(encode_utf8(z_param(z))),
        no_param_end(encode_utf8(seq![','] + z_param(z))),
{
    lemma_signed_decimal_chars(z);
    let r = z_param(z);
    let c = seq![','] + r;
    assert forall|i: int| 0 <= i < r.len() implies '\0' <= #[trigger] r[i] <= '\u{7f}' && r[i] != ';' && r[i] != '\x1b' by {
        if i >= 2 {
            assert(r[i] == signed_decimal(z)[i - 2]);
        }
    }
    assert forall|i: int| 0 <= i < c.len() implies '\0' <= #[trigger] c[i] <= '\u{7f}' && c[i] != ';' && c[i] != '\x1b' by {
        if i >= 1 {
            assert(c[i] == r[i - 1]);
        }
    }
    is_ascii_chars_encode_utf8(r);
    is_ascii_chars_encode_utf8(c);
    assert forall|k: int| 0 <= k < encode_utf8(r).len() implies #[trigger] encode_utf8(r)[k] != 0x3bu8
        && encode_utf8(r)[k] != 0x1bu8 by {
        assert(r[k] as u8 == encode_utf8(r)[k]);
    }
    assert forall|k: int| 0 <= k < encode_utf8(c).len() implies #[trigger] encode_utf8(c)[k] != 0x3bu8
        && encode_utf8(c)[k] != 0x1bu8 by {
        assert(c[k] as u8 == encode_utf8(c)[k]);
    }
}

/// The text parameters of a command that starts with 'G', with the
/// z-index set, still start with 'G' and contain no byte that ends the
/// parameters.
proof fn lemma_new_params_bytes(p: Seq<u8>, z: int)
    requires
        p.len() > 0,
        p[0] == 0x47u8,
        valid_utf8(p),
        no_param_end(p),
    ensures
        encode_utf8(with_z_index(decode_utf8(p), z)).len() > 0,
        encode_utf8(with_z_index(decode_utf8(p), z))[0] == 0x47u8,
        no_param_end(encode_utf8(with_z_index(decode_utf8(p), z))),
{
    let t = decode_utf8(p);
    let rep = z_param(z);
    decode_utf8_encode_utf8(p);
    assert(encode_utf8(t) == p);
    lemma_ascii_tail(z);
    if t.len() == 0 {
        assert(encode_utf8(t) =~= Seq::<u8>::empty());
    }
    if contains_seq(t, seq!['z', '=']) {
        lemma_find_z_eq(t, 0);
        let w = choose|w: int| 0 <= w && w + 2 <= t.len() && #[trigger] t.subrange(w, w + 2) == seq!['z', '='];
        assert(t.subrange(w, w + 2)[0] == t[w]);
        assert(t.subrange(w, w + 2)[1] == t[w + 1]);
        let i = find_z_eq(t, 0)->0;
        let j = find_comma(t, i + 2);
        lemma_find_comma(t, i + 2);
        let n = with_z_index(t, z);
        assert(n == t.take(i) + rep + t.skip(j));
        if i == 0 {
            assert(t =~= seq![t[0]] + t.drop_first());
            lemma_encode_concat(seq![t[0]], t.drop_first());
            is_ascii_chars_encode_utf8(seq!['z']);
            assert(seq![t[0]] =~= seq!['z']);
            assert(encode_utf8(seq!['z'])[0] == 'z' as u8);
            assert(p[0] == encode_utf8(seq!['z'])[0]);
            assert(false);
        }
        lemma_encode_split(t, i);
        lemma_encode_split(t, j);
        lemma_no_param_end_parts(encode_utf8(t.take(i)), encode_utf8(t.skip(i)));
        lemma_no_param_end_parts(encode_utf8(t.take(j)), encode_utf8(t.skip(j)));
        lemma_encode_nonempty(t.take(i));
        lemma_encode_concat(t.take(i), rep + t.skip(j));
        lemma_encode_concat(rep, t.skip(j));
        assert(n =~= t.take(i) + (rep + t.skip(j)));
        let e = encode_utf8(n);
        assert(e == encode_utf8(t.take(i)) + (encode_utf8(rep) + encode_utf8(t.skip(j))));
        assert(e[0] == encode_utf8(t.take(i))[0]);
        assert(p[0] == encode_utf8(t.take(i))[0]);
        assert forall|k: int| 0 <= k < e.len() implies #[trigger] e[k] != 0x3bu8 && e[k] != 0x1bu8 by {
            let a = encode_utf8(t.take(i));
            let b = encode_utf8(rep);
            let c = encode_utf8(t.skip(j));
            if k < a.len() {
                assert(e[k] == a[k]);
            } else if k < a.len() + b.len() {
                assert(e[k] == b[k - a.len()]);
            } else {
                assert(e[k] == c[k - a.len() - b.len()]);
            }
        }
    } else {
        let n = with_z_index(t, z);
        assert(n =~= t + (seq![','] + rep));
        lemma_encode_concat(t, seq![','] + rep);
        lemma_encode_nonempty(t);
        let e = encode_utf8(n);
        assert(e[0] == p[0]);
        assert forall|k: int| 0 <= k < e.len() implies #[trigger] e[k] != 0x3bu8 && e[k] != 0x1bu8 by {
            if k < p.len() {
                assert(e[k] == p[k]);
            } else {
                assert(e[k] == encode_utf8(seq![','] + rep)[k - p.len()]);
            }
        }
    }
}

/// Injecting sets the z-index of the first Kitty command: where that
/// command's parameters end and are text (valid UTF-8), the injected data
/// has its first command at the same place, its parameters are the old ones
/// with the z-index set, and their z entry is exactly `z=<z>`.
pub proof fn lemma_injected_command_has_z(data: Seq<u8>, z: int)
    requires
        first_command_params(data) is Some,
        valid_utf8(data.skip(find_kitty(data, 0)->0 + 2).take(find_param_end(data.skip(find_kitty(data, 0)->0 + 2), 0)->0)),
    ensures
        find_kitty(inject_spec(data, z), 0) == find_kitty(data, 0),
        first_command_params(inject_spec(data, z)) == Some(with_z_index(first_command_params(data)->0, z)),
        z_entry(first_command_params(inject_spec(data, z))->0) == Some(z_param(z)),
{
    let idx = find_kitty(data, 0)->0;
    lemma_find_kitty_bounds(data, 0);
    lemma_find_kitty_first(data, 0);
    let rest = data.skip(idx + 2);
    let pe = find_param_end(rest, 0)->0;
    lemma_find_param_end_bounds(rest, 0);
    lemma_find_param_end_first(rest, 0);
    let p = rest.take(pe);
    assert(rest[0] == 0x47u8);
    assert(pe > 0);
    assert(p[0] == 0x47u8);
    assert(no_param_end(p)) by {
        assert forall|k: int| 0 <= k < p.len() implies #[trigger] p[k] != 0x3bu8 && p[k] != 0x1bu8 by {
            assert(p[k] == rest[k]);
        }
    }
    let t = params_text(p);
    assert(t == decode_utf8(p));
    let n = with_z_index(t, z);
    let e = encode_utf8(n);
    lemma_new_params_bytes(p, z);
    let tail = rest.skip(pe);
    let out = inject_spec(data, z);
    assert(out == data.take(idx + 2) + e + tail);
    // the first command stays where it was
    assert(out[idx] == data[idx]);
    assert(out[idx + 1] == data[idx + 1]);
    assert(out[idx + 2] == e[0]);
    assert forall|k: int| 0 <= k < idx implies !kitty_start(out, k) by {
        assert(out[k] == data[k]);
        assert(out[k + 1] == data[k + 1]);
        assert(out[k + 2] == data[k + 2]);
        assert(!kitty_start(data, k));
    }
    lemma_find_kitty_at(out, 0, idx);
    // its parameters end right after the new ones
    let rest2 = out.skip(idx + 2);
    assert(rest2 =~= e + tail);
    assert(rest2[e.len() as int] == rest[pe]);
    assert forall|k: int| 0 <= k < e.len() implies #[trigger] rest2[k] != 0x3bu8 && rest2[k] != 0x1bu8 by {
        assert(rest2[k] == e[k]);
    }
    lemma_find_param_end_at(rest2, 0, e.len() as int);
    assert(rest2.take(e.len() as int) =~= e);
    encode_utf8_valid_utf8(n);
    encode_utf8_decode_utf8(n);
    assert(params_text(rest2.take(e.len() as int)) == n);
    lemma_z_index_is_set(t, z);
}

/// A 32-bit number as four big-endian bytes.
pub open spec fn be32(x: u32) -> Seq<u8> {
    seq![(x / 0x1000000) as u8, ((x / 0x10000) % 256) as u8, ((x / 0x100) % 256) as u8, (x % 256) as u8]
}

fn push_be32(out: &mut Vec<u8>, x: u32)
    ensures
        final(out)@ == old(out)@ + be32(x),
{
    out.push((x / 0x1000000) as u8);
    out.push(((x / 0x10000) % 256) as u8);
    out.push(((x / 0x100) % 256) as u8);
    out.push((x % 256) as u8);
    assert(final(out)@ =~= old(out)@ + be32(x));
}

/// A PNG chunk: the data length (32 bits, big-endian), the chunk type, the
/// data, and the CRC-32 of type and data.
pub open spec fn png_chunk_spec(kind: Seq<u8>, data: Seq<u8>) -> Seq<u8> {
    be32(data.len() as u32) + kind + data + be32(crc32_of(kind + data))
}

/// Builds a PNG chunk (see `png_chunk_spec`).
pub fn png_chunk(kind: &[u8], data: &[u8]) -> (chunk: Vec<u8>)
    ensures
        chunk@ == png_chunk_spec(kind@, data@),
{
    let mut chunk: Vec<u8> = Vec::new();
    push_be32(&mut chunk, data.len() as u32);
    push_bytes(&mut chunk, kind);
    push_bytes(&mut chunk, data);
    let mut covered: Vec<u8> = Vec::new();
    push_bytes(&mut covered, kind);
    push_bytes(&mut covered, data);
    let crc = crc32(covered.as_slice());
    push_be32(&mut chunk, crc);
    assert(chunk@ =~= png_chunk_spec(kind@, data@));
    chunk
}

/// The PNG signature.
pub open spec fn png_signature() -> Seq<u8> {
    seq![0x89u8, 0x50u8, 0x4eu8, 0x47u8, 0x0du8, 0x0au8, 0x1au8, 0x0au8]
}

/// The header of a 1x1 8-bit RGB image.
pub open spec fn probe_header() -> Seq<u8> {
    be32(1) + be32(1) + seq![8u8, 2u8, 0u8, 0u8, 0u8]
}

/// The pixel data of the probe image: filter byte 0 and one red pixel.
pub open spec fn probe_pixels() -> Seq<u8> {
    seq![0x00u8, 0xffu8, 0x00u8, 0x00u8]
}

/// The probe image: a 1x1 red PNG.
pub open spec fn probe_png_spec() -> Seq<u8> {
    png_signature() + png_chunk_spec(seq![0x49u8, 0x48u8, 0x44u8, 0x52u8], probe_header()) + png_chunk_spec(
        seq![0x49u8, 0x44u8, 0x41u8, 0x54u8],
        zlib_compressed(probe_pixels()),
    ) + png_chunk_spec(seq![0x49u8, 0x45u8, 0x4eu8, 0x44u8], seq![])
}

/// The 1x1 red PNG the terminal is probed with.
pub fn probe_png() -> (png: Vec<u8>)
    ensures
        png@ == probe_png_spec(),
{
    let mut png: Vec<u8> = Vec::new();
    push_bytes(&mut png, &[0x89, 0x50, 0x4e, 0x47, 0x0d, 0x0a, 0x1a, 0x0a]);
    let mut header: Vec<u8> = Vec::new();
    push_be32(&mut header, 1);
    push_be32(&mut header, 1);
    push_bytes(&mut header, &[8, 2, 0, 0, 0]);
    assert(header@ =~= probe_header());
    let ihdr = png_chunk(&[0x49, 0x48, 0x44, 0x52], header.as_slice());
    push_bytes(&mut png, ihdr.as_slice());
    let compressed = zlib_compress(&[0x00, 0xff, 0x00, 0x00]);
    let idat = png_chunk(&[0x49, 0x44, 0x41, 0x54], compressed.as_slice());
    push_bytes(&mut png, idat.as_slice());
    let iend = png_chunk(&[0x49, 0x45, 0x4e, 0x44], &[]);
    push_bytes(&mut png, iend.as_slice());
    assert(png@ =~= probe_png_spec());
    png
}

/// The inline-image escape sequence (iTerm2/WezTerm "File" command) that
/// shows `png`: its size in bytes and its Base64 text.
pub open spec fn imgcat_sequence_spec(png: Seq<u8>) -> Seq<char> {
    seq!['\x1b', ']', '1', '3', '3', '7', ';', 'F', 'i', 'l', 'e', '=', 'i', 'n', 'l', 'i', 'n', 'e', '=', '1', ';', 's', 'i', 'z', 'e', '=']
        + decimal(png.len()) + seq![':'] + base64_of(png) + seq!['\x07']
}

/// The inline-image escape sequence for `png` (see `imgcat_sequence_spec`).
pub fn imgcat_sequence(png: &[u8]) -> (seq: String)
    requires
        png@.len() <= usize::MAX / 4,
    ensures
        seq@ == imgcat_sequence_spec(png@),
{
    let mut out: Vec<char> = Vec::new();
    push_all(
        &mut out,
        &['\x1b', ']', '1', '3', '3', '7', ';', 'F', 'i', 'l', 'e', '=', 'i', 'n', 'l', 'i', 'n', 'e', '=', '1', ';', 's', 'i', 'z', 'e', '='],
    );
    push_decimal(&mut out, png.len());
    out.push(':');
    let b64 = base64_encode(png);
    let b64_chars = chars_of(b64.as_str());
    push_all(&mut out, b64_chars.as_slice());
    out.push('\x07');
    assert(out@ =~= imgcat_sequence_spec(png@));
    string_from_chars(out.as_slice())
}

/// What is written to probe the terminal for inline images: the escape
/// sequence showing the probe image; `None` only if that image were too
/// large to encode.
pub fn probe_sequence() -> (seq: Option<String>)
    ensures
        probe_png_spec().len() <= usize::MAX / 4 ==> (seq matches Some(s) && s@ == imgcat_sequence_spec(probe_png_spec())),
        probe_png_spec().len() > usize::MAX / 4 ==> seq is None,
{
    let png = probe_png();
    if png.len() <= usize::MAX / 4 {
        Some(imgcat_sequence(png.as_slice()))
    } else {
        None
    }
}

impl SixelRenderer {
    /// The chafa output format: Kitty's protocol on Kitty, Sixel elsewhere.
    pub fn chafa_format(&self) -> (fmt: String)
        ensures
            fmt@ == (if self.is_kitty { "kitty"@ } else { "sixels"@ }),
    {
        if self.is_kitty {
            String::from_str("kitty")
        } else {
            String::from_str("sixels")
        }
    }
}

/// "<cols>x<rows>": a size in terminal cells, as chafa's --size takes it.
pub open spec fn cells_spec(cols: usize, rows: usize) -> Seq<char> {
    decimal(cols as nat) + seq!['x'] + decimal(rows as nat)
}

/// A size in terminal cells for chafa's --size option (see `cells_spec`).
pub fn cells_argument(cols: usize, rows: usize) -> (arg: String)
    ensures
        arg@ == cells_spec(cols, rows),
{
    let mut out: Vec<char> = Vec::new();
    push_decimal(&mut out, cols);
    out.push('x');
    push_decimal(&mut out, rows);
    assert(out@ =~= cells_spec(cols, rows));
    string_from_chars(out.as_slice())
}

/// The placement for Kitty's icat: the size in cells at the top left corner.
pub fn kitty_place_argument(cols: usize, rows: usize) -> (arg: String)
    ensures
        arg@ == cells_spec(cols, rows) + seq!['@', '0', 'x', '0'],
{
    let mut out: Vec<char> = Vec::new();
    push_decimal(&mut out, cols);
    out.push('x');
    push_decimal(&mut out, rows);
    push_all(&mut out, &['@', '0', 'x', '0']);
    assert(out@ =~= cells_spec(cols, rows) + seq!['@', '0', 'x', '0']);
    string_from_chars(out.as_slice())
}

/// The column an image `display_cols` wide starts at to be centred on a
/// terminal `term_width` wide; `None` when it is not narrower by at least
/// two columns (the cursor then stays where it is).
pub open spec fn center_column_spec(display_cols: int, term_width: int) -> Option<int> {
    if display_cols < term_width && (term_width - display_cols) / 2 > 0 {
        Some((term_width - display_cols) / 2 + 1)
    } else {
        None
    }
}

/// The escape sequence that moves the cursor to where a centred image of
/// `display_cols` columns starts on the first line (see
/// `center_column_spec`).
pub fn center_cursor(display_cols: usize, term_width: usize) -> (seq: Option<String>)
    ensures
        seq is None <==> center_column_spec(display_cols as int, term_width as int) is None,
        seq matches Some(s) ==> s@ == seq!['\x1b', '[', '1', ';'] + decimal(
            center_column_spec(display_cols as int, term_width as int)->0 as nat,
        ) + seq!['H'],
{
    if display_cols < term_width {
        let offset = (term_width - display_cols) / 2;
        if offset > 0 {
            let mut out: Vec<char> = Vec::new();
            push_all(&mut out, &['\x1b', '[', '1', ';']);
            push_decimal(&mut out, offset + 1);
            out.push('H');
            assert(out@ =~= seq!['\x1b', '[', '1', ';'] + decimal((offset + 1) as nat) + seq!['H']);
            return Some(string_from_chars(out.as_slice()));
        }
    }
    None
}

/// The terminal row of line `i` of the `n`-line warning on a terminal
/// `height` rows high (the block is centred vertically); `None` where the
/// line would fall on or below the status row.
pub open spec fn warning_row_spec(height: int, n: int, i: int) -> Option<int> {
    let y = (if height > n { height - n } else { 0 }) / 2 + i + 1;
    if y < (if height > 1 { height - 1 } else { 0 }) {
        Some(y)
    } else {
        None
    }
}

/// The rows of the lines of the "no display method" warning (see
/// `warning_row_spec`).
pub fn warning_rows(height: usize, n: usize) -> (rows: Vec<Option<usize>>)
    requires
        n <= usize::MAX / 2,
    ensures
        rows@.len() == n,
        forall|i: int| 0 <= i < n ==> (#[trigger] rows@[i] matches Some(y) ==> warning_row_spec(height as int, n as int, i) == Some(y as int)),
        forall|i: int| 0 <= i < n ==> (rows@[i] is None <==> #[trigger] warning_row_spec(height as int, n as int, i) is None),
{
    let top = (if height > n { height - n } else { 0 }) / 2;
    let limit = if height > 1 { height - 1 } else { 0 };
    let mut rows: Vec<Option<usize>> = Vec::new();
    for i in 0..n
        invariant
            rows@.len() == i,
            top == (if height > n { height - n } else { 0 }) / 2,
            limit == (if height > 1 { height - 1 } else { 0 }),
            n <= usize::MAX / 2,
            forall|j: int| 0 <= j < i ==> (#[trigger] rows@[j] matches Some(y) ==> warning_row_spec(height as int, n as int, j) == Some(y as int)),
            forall|j: int| 0 <= j < i ==> (rows@[j] is None <==> #[trigger] warning_row_spec(height as int, n as int, j) is None),
    {
        let y = top + i + 1;
        if y < limit {
            rows.push(Some(y));
        } else {
            rows.push(None);
        }
    }
    rows
}

} // verus!
