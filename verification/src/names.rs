//! File-name logic: natural ordering of names, which files are pages and
//! archives, and the choice of one file per page among duplicates.

use vstd::prelude::*;
use crate::text::{chars_less, chars_lt, is_digit, lemma_chars_lt_irreflexive, lemma_chars_lt_total, lemma_chars_lt_transitive};
use crate::outside::{lowercase_of, string_from_chars, to_lowercase};
use crate::text::{chars_of, char_vecs_view, chars_equal, strings_view, sub_chars};

verus! {

broadcast use vstd::seq_lib::group_to_multiset_ensures;

/// Splits a name into its maximal runs of digits and of non-digits, in order.
pub open spec fn runs(s: Seq<char>) -> Seq<Seq<char>>
    decreases s.len(),
{
    if s.len() == 0 {
        seq![]
    } else {
        let r = runs(s.drop_last());
        let c = s.last();
        if r.len() > 0 && is_digit(r.last().last()) == is_digit(c) {
            r.drop_last().push(r.last().push(c))
        } else {
            r.push(seq![c])
        }
    }
}

/// A digit run padded on the left with '0' to 20 characters (unchanged when
/// already that long), so that equal-length runs compare by value.
pub open spec fn pad20(run: Seq<char>) -> Seq<char> {
    if run.len() < 20 {
        Seq::new((20 - run.len()) as nat, |i: int| '0') + run
    } else {
        run
    }
}

/// The sort form of one run: digits zero-padded, text lowercased.
pub open spec fn normalize_run(run: Seq<char>) -> Seq<char> {
    if run.len() > 0 && is_digit(run[0]) {
        pad20(run)
    } else {
        lowercase_of(run)
    }
}

/// The natural sort key of a name.
pub open spec fn natural_key(s: Seq<char>) -> Seq<Seq<char>> {
    runs(s).map_values(|r: Seq<char>| normalize_run(r))
}

/// Strict lexicographic order on keys (sequences of strings).
pub open spec fn keys_lt(a: Seq<Seq<char>>, b: Seq<Seq<char>>) -> bool
    decreases a.len(),
{
    if a.len() == 0 {
        b.len() > 0
    } else if b.len() == 0 {
        false
    } else if a[0] != b[0] {
        chars_lt(a[0], b[0])
    } else {
        keys_lt(a.drop_first(), b.drop_first())
    }
}

/// `a` sorts before `b` or together with it by natural key.
pub open spec fn natural_le(a: Seq<char>, b: Seq<char>) -> bool {
    !keys_lt(natural_key(b), natural_key(a))
}

/// Natural keys are totally ordered: of two different keys one sorts
/// before the other, and never both before each other.
pub proof fn lemma_keys_lt_total(a: Seq<Seq<char>>, b: Seq<Seq<char>>)
    ensures
        a != b ==> keys_lt(a, b) || keys_lt(b, a),
        !(keys_lt(a, b) && keys_lt(b, a)),
    decreases a.len(),
{
    if a.len() > 0 && b.len() > 0 {
        lemma_chars_lt_total(a[0], b[0]);
        lemma_keys_lt_total(a.drop_first(), b.drop_first());
        if a[0] == b[0] && a.drop_first() == b.drop_first() {
            assert(a =~= seq![a[0]] + a.drop_first());
            assert(b =~= seq![b[0]] + b.drop_first());
        }
    } else if a.len() == 0 && b.len() == 0 {
        assert(a =~= b);
    }
}

/// No key sorts before itself.
pub proof fn lemma_keys_lt_irreflexive(a: Seq<Seq<char>>)
    ensures
        !keys_lt(a, a),
    decreases a.len(),
{
    if a.len() > 0 {
        lemma_keys_lt_irreflexive(a.drop_first());
    }
}

/// Sorting before is transitive.
pub proof fn lemma_keys_lt_transitive(a: Seq<Seq<char>>, b: Seq<Seq<char>>, c: Seq<Seq<char>>)
    requires
        keys_lt(a, b),
        keys_lt(b, c),
    ensures
        keys_lt(a, c),
    decreases a.len(),
{
    if a.len() > 0 && b.len() > 0 && c.len() > 0 {
        if a[0] == b[0] && b[0] == c[0] {
            lemma_keys_lt_transitive(a.drop_first(), b.drop_first(), c.drop_first());
        } else if a[0] != b[0] && b[0] != c[0] {
            lemma_chars_lt_transitive(a[0], b[0], c[0]);
            lemma_chars_lt_total(a[0], c[0]);
        }
    }
}

/// Compare two keys: true iff `a` sorts strictly before `b`.
pub fn keys_less(a: &Vec<Vec<char>>, b: &Vec<Vec<char>>) -> (less: bool)
    ensures
        less == keys_lt(char_vecs_view(a@), char_vecs_view(b@)),
{
    let ghost av = char_vecs_view(a@);
    let ghost bv = char_vecs_view(b@);
    let mut i: usize = 0;
    assert(av.skip(0) =~= av);
    assert(bv.skip(0) =~= bv);
    while i < a.len() && i < b.len()
        invariant
            i <= a.len(),
            i <= b.len(),
            av == char_vecs_view(a@),
            bv == char_vecs_view(b@),
            keys_lt(av, bv) == keys_lt(av.skip(i as int), bv.skip(i as int)),
        decreases a.len() - i,
    {
        let lt = chars_less(a[i].as_slice(), b[i].as_slice());
        let gt = chars_less(b[i].as_slice(), a[i].as_slice());
        proof {
            lemma_chars_lt_total(a[i as int]@, b[i as int]@);
            assert(av[i as int] == a[i as int]@);
            assert(bv[i as int] == b[i as int]@);
        }
        if lt {
            return true;
        }
        if gt {
            return false;
        }
        assert(av.skip(i as int).drop_first() =~= av.skip(i + 1));
        assert(bv.skip(i as int).drop_first() =~= bv.skip(i + 1));
        i = i + 1;
    }
    i < b.len()
}

fn is_ascii_digit(c: char) -> (d: bool)
    ensures
        d == is_digit(c),
{
    c >= '0' && c <= '9'
}

/// Splits `s` into its maximal runs of digits and non-digits.
pub fn split_runs(s: &[char]) -> (parts: Vec<Vec<char>>)
    ensures
        char_vecs_view(parts@) == runs(s@),
{
    let mut parts: Vec<Vec<char>> = Vec::new();
    let mut current: Vec<char> = Vec::new();
    let mut prev_is_digit = false;
    let n = s.len();
    for i in 0..n
        invariant
            n == s@.len(),
            i == 0 ==> parts.len() == 0 && current.len() == 0,
            i > 0 ==> current.len() > 0 && prev_is_digit == is_digit(current@.last())
                && char_vecs_view(parts@).push(current@) == runs(s@.take(i as int)),
    {
        let ch = s[i];
        let d = is_ascii_digit(ch);
        let ghost old_parts = char_vecs_view(parts@);
        let ghost old_current = current@;
        let ghost old_prev = prev_is_digit;
        proof {
            assert(s@.take(i + 1).drop_last() =~= s@.take(i as int));
            assert(s@.take(i + 1).last() == ch);
        }
        if d != prev_is_digit && current.len() > 0 {
            let mut done: Vec<char> = Vec::new();
            std::mem::swap(&mut done, &mut current);
            parts.push(done);
            assert(char_vecs_view(parts@) =~= old_parts.push(old_current));
        }
        current.push(ch);
        prev_is_digit = d;
        proof {
            if i == 0 {
                assert(s@.take(0) =~= Seq::<char>::empty());
                assert(char_vecs_view(parts@) =~= Seq::<Seq<char>>::empty());
                let t = s@.take(1);
                assert(t.drop_last() =~= Seq::<char>::empty());
                assert(runs(t.drop_last()) =~= Seq::<Seq<char>>::empty());
                assert(runs(t) == Seq::<Seq<char>>::empty().push(seq![ch]));
                assert(current@ =~= seq![ch]);
                assert(char_vecs_view(parts@).push(current@) =~= runs(s@.take(i + 1)));
            } else {
                let t = s@.take(i + 1);
                let r = old_parts.push(old_current);
                assert(runs(t.drop_last()) == r);
                assert(r.last() == old_current);
                assert(r.drop_last() =~= old_parts);
                assert(is_digit(r.last().last()) == old_prev);
                if d == old_prev {
                    assert(runs(t) == r.drop_last().push(r.last().push(ch)));
                    assert(char_vecs_view(parts@) =~= old_parts);
                    assert(current@ =~= old_current.push(ch));
                } else {
                    assert(runs(t) == r.push(seq![ch]));
                    assert(current@ =~= seq![ch]);
                }
                assert(char_vecs_view(parts@).push(current@) =~= runs(s@.take(i + 1)));
            }
        }
    }
    if current.len() > 0 {
        let ghost old_parts = char_vecs_view(parts@);
        parts.push(current);
        assert(char_vecs_view(parts@) =~= old_parts.push(current@));
    }
    proof {
        assert(s@.take(n as int) =~= s@);
        if n == 0 {
            assert(char_vecs_view(parts@) =~= runs(s@));
        }
    }
    parts
}

fn pad_run(run: &Vec<char>) -> (out: Vec<char>)
    ensures
        out@ == pad20(run@),
{
    if run.len() < 20 {
        let n = 20 - run.len();
        let mut out: Vec<char> = Vec::new();
        for k in 0..n
            invariant
                out@ =~= Seq::new(k as nat, |i: int| '0'),
        {
            out.push('0');
        }
        let mut rest = run.clone();
        proof {
            assert(rest@ =~= run@);
        }
        out.append(&mut rest);
        out
    } else {
        run.clone()
    }
}

fn normalize(run: &Vec<char>) -> (out: Vec<char>)
    ensures
        out@ == normalize_run(run@),
{
    if run.len() > 0 && is_ascii_digit(run[0]) {
        pad_run(run)
    } else {
        let s = string_from_chars(run.as_slice());
        let lower = to_lowercase(s.as_str());
        chars_of(lower.as_str())
    }
}

/// The natural sort key of the characters `s`, one entry per run.
pub fn key_of_chars(s: &[char]) -> (key: Vec<Vec<char>>)
    ensures
        char_vecs_view(key@) == natural_key(s@),
{
    let parts = split_runs(s);
    let mut key: Vec<Vec<char>> = Vec::new();
    let n = parts.len();
    for i in 0..n
        invariant
            n == parts.len(),
            char_vecs_view(parts@) == runs(s@),
            char_vecs_view(key@) =~= runs(s@).take(i as int).map_values(|r: Seq<char>| normalize_run(r)),
    {
        let ghost before = char_vecs_view(key@);
        let part = normalize(&parts[i]);
        key.push(part);
        proof {
            assert(char_vecs_view(parts@)[i as int] == parts[i as int]@);
            assert(char_vecs_view(key@) =~= before.push(normalize_run(runs(s@)[i as int])));
            assert(runs(s@).take(i + 1) =~= runs(s@).take(i as int).push(runs(s@)[i as int]));
        }
    }
    assert(runs(s@).take(n as int) =~= runs(s@));
    key
}

/// Natural sort key (e.g. "page2" < "page10"): the name split into runs of
/// digits and non-digits; digit runs zero-padded to 20 characters so that
/// they compare by value, text runs lowercased.
pub fn natural_sort_key(s: &str) -> (key: Vec<String>)
    ensures
        strings_view(key@) == natural_key(s@),
{
    let chars = chars_of(s);
    let parts = key_of_chars(chars.as_slice());
    let mut key: Vec<String> = Vec::new();
    let n = parts.len();
    for i in 0..n
        invariant
            n == parts.len(),
            char_vecs_view(parts@) == natural_key(s@),
            strings_view(key@) =~= natural_key(s@).take(i as int),
    {
        let ghost before = strings_view(key@);
        let part = string_from_chars(parts[i].as_slice());
        key.push(part);
        proof {
            assert(char_vecs_view(parts@)[i as int] == parts[i as int]@);
            assert(strings_view(key@) =~= before.push(part@));
            assert(natural_key(s@).take(i + 1) =~= natural_key(s@).take(i as int).push(natural_key(s@)[i as int]));
        }
    }
    assert(natural_key(s@).take(n as int) =~= natural_key(s@));
    key
}

proof fn lemma_insert_to_multiset<A>(s: Seq<A>, j: int, x: A)
    requires
        0 <= j <= s.len(),
    ensures
        s.insert(j, x).to_multiset() =~= s.to_multiset().insert(x),
{
    let t = s.insert(j, x);
    assert(t.remove(j) =~= s);
    assert(t[j] == x);
    assert(t.to_multiset().count(x) > 0) by {
        assert(t.contains(x));
    }
    assert forall|y: A| #[trigger] t.to_multiset().count(y) == s.to_multiset().insert(x).count(y) by {
        assert(t.remove(j).to_multiset() == t.to_multiset().remove(x));
    }
}

/// `names` in natural order: the same names, each placed after every name
/// whose key sorts before or with its own.
pub open spec fn naturally_sorted(names: Seq<Seq<char>>) -> bool {
    forall|a: int, b: int| 0 <= a < b < names.len() ==> natural_le(#[trigger] names[a], #[trigger] names[b])
}

/// Sorts names by their natural sort key.
pub fn sort_natural(names: Vec<String>) -> (out: Vec<String>)
    ensures
        out@.to_multiset() == names@.to_multiset(),
        strings_view(out@).to_multiset() == strings_view(names@).to_multiset(),
        naturally_sorted(strings_view(out@)),
{
    let mut out: Vec<String> = Vec::new();
    let mut keys: Vec<Vec<Vec<char>>> = Vec::new();
    let n = names.len();
    for i in 0..n
        invariant
            n == names.len(),
            out.len() == keys.len(),
            forall|t: int| 0 <= t < out.len() ==> char_vecs_view(#[trigger] keys[t]@) == natural_key(out[t]@),
            forall|a: int, b: int|
                0 <= a < b < out.len() ==> !keys_lt(natural_key(#[trigger] out[b]@), natural_key(#[trigger] out[a]@)),
            out@.to_multiset() == names@.take(i as int).to_multiset(),
            strings_view(out@).to_multiset() == strings_view(names@.take(i as int)).to_multiset(),
    {
        let name = names[i].clone();
        let chars = chars_of(name.as_str());
        let key = key_of_chars(chars.as_slice());
        let ghost kv = natural_key(name@);
        let mut j: usize = 0;
        while j < keys.len() && !keys_less(&key, &keys[j])
            invariant
                j <= keys.len(),
                out.len() == keys.len(),
                char_vecs_view(key@) == kv,
                forall|t: int| 0 <= t < out.len() ==> char_vecs_view(#[trigger] keys[t]@) == natural_key(out[t]@),
                forall|t: int| 0 <= t < j ==> !keys_lt(kv, natural_key(#[trigger] out[t]@)),
            decreases keys.len() - j,
        {
            j = j + 1;
        }
        proof {
            if j < keys.len() {
                assert(keys_lt(kv, natural_key(out[j as int]@)));
                assert forall|t: int| j <= t < out.len() implies !keys_lt(natural_key(#[trigger] out[t]@), kv) by {
                    let kj = natural_key(out[j as int]@);
                    let kt = natural_key(out[t]@);
                    if t > j {
                        assert(!keys_lt(kt, kj));
                        lemma_keys_lt_total(kt, kj);
                        if kt != kj {
                            lemma_keys_lt_transitive(kv, kj, kt);
                        }
                    }
                    lemma_keys_lt_total(kv, kt);
                }
            }
        }
        let ghost old_out = out@;
        let ghost old_keys = keys@;
        out.insert(j, name);
        keys.insert(j, key);
        proof {
            assert(out@ == old_out.insert(j as int, name));
            lemma_insert_to_multiset(old_out, j as int, name);
            assert(strings_view(out@) =~= strings_view(old_out).insert(j as int, name@));
            lemma_insert_to_multiset(strings_view(old_out), j as int, name@);
            assert(names@.take(i + 1) =~= names@.take(i as int).push(names[i as int]));
            assert(strings_view(names@.take(i + 1)) =~= strings_view(names@.take(i as int)).push(name@));
            assert(names[i as int] == name);
            assert forall|t: int| 0 <= t < out.len() implies char_vecs_view(#[trigger] keys[t]@) == natural_key(out[t]@) by {
                if t < j {
                    assert(keys[t] == old_keys[t]);
                    assert(out[t] == old_out[t]);
                } else if t > j {
                    assert(keys[t] == old_keys[t - 1]);
                    assert(out[t] == old_out[t - 1]);
                }
            }
            assert forall|a: int, b: int| 0 <= a < b < out.len() implies !keys_lt(
                natural_key(#[trigger] out[b]@),
                natural_key(#[trigger] out[a]@),
            ) by {
                if b < j {
                    assert(out[a] == old_out[a] && out[b] == old_out[b]);
                } else if a > j {
                    assert(out[a] == old_out[a - 1] && out[b] == old_out[b - 1]);
                } else if a < j && b > j {
                    assert(out[a] == old_out[a] && out[b] == old_out[b - 1]);
                } else if a == j {
                    assert(out[b] == old_out[b - 1]);
                } else {
                    assert(out[a] == old_out[a]);
                }
            }
        }
    }
    proof {
        assert(names@.take(n as int) =~= names@);
        assert(strings_view(names@.take(n as int)) =~= strings_view(names@));
        assert forall|a: int, b: int| 0 <= a < b < strings_view(out@).len() implies natural_le(
            #[trigger] strings_view(out@)[a],
            #[trigger] strings_view(out@)[b],
        ) by {
            assert(strings_view(out@)[a] == out[a]@);
            assert(strings_view(out@)[b] == out[b]@);
        }
    }
    out
}

/// Index of the last '.' in `name`, or -1 when there is none.
pub open spec fn last_dot(name: Seq<char>) -> int
    decreases name.len(),
{
    if name.len() == 0 {
        -1
    } else if name.last() == '.' {
        name.len() - 1
    } else {
        last_dot(name.drop_last())
    }
}

/// The name "..".
pub open spec fn is_dot_dot(name: Seq<char>) -> bool {
    name == seq!['.', '.']
}

/// The extension of a file name, as `Path::extension` gives it: the part
/// after the last '.', unless there is no '.', the only '.' starts the name,
/// or the name is "..".
pub open spec fn file_extension(name: Seq<char>) -> Option<Seq<char>> {
    let d = last_dot(name);
    if is_dot_dot(name) || d <= 0 {
        None
    } else {
        Some(name.skip(d + 1))
    }
}

/// The stem of a file name, as `Path::file_stem` gives it: the part before
/// the last '.', or the whole name where there is no extension.
pub open spec fn file_stem(name: Seq<char>) -> Seq<char> {
    let d = last_dot(name);
    if is_dot_dot(name) || d <= 0 {
        name
    } else {
        name.take(d)
    }
}

fn find_last_dot(name: &[char]) -> (d: Option<usize>)
    ensures
        d is None <==> last_dot(name@) == -1,
        d matches Some(k) ==> k == last_dot(name@),
{
    let mut k = name.len();
    assert(name@.take(k as int) =~= name@);
    while k > 0
        invariant
            k <= name@.len(),
            last_dot(name@) == last_dot(name@.take(k as int)),
        decreases k,
    {
        let ghost t = name@.take(k as int);
        assert(t.drop_last() =~= name@.take(k - 1));
        if name[k - 1] == '.' {
            return Some(k - 1);
        }
        k = k - 1;
    }
    assert(name@.take(0) =~= Seq::<char>::empty());
    None
}

/// Splits a file name into stem and extension as `Path` does.
pub fn split_file_name(name: &[char]) -> (parts: (Vec<char>, Option<Vec<char>>))
    ensures
        parts.0@ == file_stem(name@),
        parts.1 is None <==> file_extension(name@) is None,
        parts.1 matches Some(e) ==> file_extension(name@) == Some(e@),
{
    proof {
        lemma_last_dot_bounds(name@);
    }
    let dot_dot = chars_equal(name, &['.', '.']);
    match find_last_dot(name) {
        Some(d) => {
            let n = name.len();
            assert(d < n);
            if dot_dot || d == 0 {
                (sub_chars(name, 0, name.len()), None)
            } else {
                (sub_chars(name, 0, d), Some(sub_chars(name, d + 1, n)))
            }
        },
        None => (sub_chars(name, 0, name.len()), None),
    }
}

proof fn lemma_last_dot_bounds(name: Seq<char>)
    ensures
        -1 <= last_dot(name) < name.len(),
    decreases name.len(),
{
    if name.len() > 0 {
        lemma_last_dot_bounds(name.drop_last());
    }
}

/// The lowercase form of the characters `v`.
fn lowercase_chars(v: &[char]) -> (out: Vec<char>)
    ensures
        out@ == lowercase_of(v@),
{
    let s = string_from_chars(v);
    let lower = to_lowercase(s.as_str());
    chars_of(lower.as_str())
}

/// The rank of a (lowercased) image extension among duplicates of one page:
/// jpg/jpeg first, then png, gif, webp, bmp, avif. `None` for any other
/// extension.
pub open spec fn image_rank(ext: Seq<char>) -> Option<u8> {
    if ext == seq!['j', 'p', 'g'] || ext == seq!['j', 'p', 'e', 'g'] {
        Some(0u8)
    } else if ext == seq!['p', 'n', 'g'] {
        Some(1u8)
    } else if ext == seq!['g', 'i', 'f'] {
        Some(2u8)
    } else if ext == seq!['w', 'e', 'b', 'p'] {
        Some(3u8)
    } else if ext == seq!['b', 'm', 'p'] {
        Some(4u8)
    } else if ext == seq!['a', 'v', 'i', 'f'] {
        Some(5u8)
    } else {
        None
    }
}

fn rank_of_extension(ext: &[char]) -> (rank: Option<u8>)
    ensures
        rank == image_rank(ext@),
{
    if chars_equal(ext, &['j', 'p', 'g']) || chars_equal(ext, &['j', 'p', 'e', 'g']) {
        Some(0)
    } else if chars_equal(ext, &['p', 'n', 'g']) {
        Some(1)
    } else if chars_equal(ext, &['g', 'i', 'f']) {
        Some(2)
    } else if chars_equal(ext, &['w', 'e', 'b', 'p']) {
        Some(3)
    } else if chars_equal(ext, &['b', 'm', 'p']) {
        Some(4)
    } else if chars_equal(ext, &['a', 'v', 'i', 'f']) {
        Some(5)
    } else {
        None
    }
}

/// The rank of a file name as a page image, `None` when its extension is
/// not an image extension (compared case-insensitively).
pub open spec fn page_rank(name: Seq<char>) -> Option<u8> {
    match file_extension(name) {
        Some(e) => image_rank(lowercase_of(e)),
        None => None,
    }
}

/// Files whose lowercased stems agree show the same page.
pub open spec fn page_class(name: Seq<char>) -> Seq<char> {
    lowercase_of(file_stem(name))
}

/// The class and rank of a file name that is a page image.
fn page_info(name: &str) -> (info: Option<(Vec<char>, u8)>)
    ensures
        info is Some <==> page_rank(name@) is Some,
        info matches Some(p) ==> p.0@ == page_class(name@) && Some(p.1) == page_rank(name@),
{
    let chars = chars_of(name);
    let (stem, ext) = split_file_name(chars.as_slice());
    match ext {
        Some(e) => {
            let lower = lowercase_chars(e.as_slice());
            match rank_of_extension(lower.as_slice()) {
                Some(r) => Some((lowercase_chars(stem.as_slice()), r)),
                None => None,
            }
        },
        None => None,
    }
}

/// Among files showing the same page, file `i` is preferred to file `j`:
/// a better-ranked extension, or the same rank and an earlier position.
pub open spec fn preferred(names: Seq<Seq<char>>, i: int, j: int) -> bool {
    let ri = page_rank(names[i])->0;
    let rj = page_rank(names[j])->0;
    ri < rj || (ri == rj && i < j)
}

/// File `i` is a page image preferred to every other file of its page.
pub open spec fn kept(names: Seq<Seq<char>>, i: int) -> bool {
    &&& page_rank(names[i]) is Some
    &&& forall|j: int|
        0 <= j < names.len() && j != i && page_rank(names[j]) is Some && #[trigger] page_class(names[j])
            == page_class(names[i]) ==> preferred(names, i, j)
}

/// The kept files among the first `k` names, in their original order.
pub open spec fn kept_prefix(names: Seq<Seq<char>>, k: int) -> Seq<Seq<char>>
    decreases k,
{
    if k <= 0 {
        seq![]
    } else if kept(names, k - 1) {
        kept_prefix(names, k - 1).push(names[k - 1])
    } else {
        kept_prefix(names, k - 1)
    }
}

/// The page images among `names`: one file per page (by lowercased stem),
/// choosing jpg/jpeg over png over gif over webp over bmp over avif, and the
/// earliest file among equals.
pub open spec fn page_files(names: Seq<Seq<char>>) -> Seq<Seq<char>> {
    kept_prefix(names, names.len() as int)
}

/// Some entry of `best` is for page class `c`.
pub open spec fn covered(best: Seq<(Vec<char>, usize, u8)>, c: Seq<char>) -> bool {
    exists|t: int| 0 <= t < best.len() && #[trigger] best[t].0@ == c
}

fn find_class(best: &Vec<(Vec<char>, usize, u8)>, class: &Vec<char>) -> (found: Option<usize>)
    ensures
        found matches Some(t) ==> t < best.len() && best[t as int].0@ == class@,
        found is None ==> forall|t: int| 0 <= t < best.len() ==> #[trigger] best[t].0@ != class@,
{
    let mut t: usize = 0;
    while t < best.len()
        invariant
            t <= best.len(),
            forall|u: int| 0 <= u < t ==> #[trigger] best[u].0@ != class@,
        decreases best.len() - t,
    {
        if chars_equal(best[t].0.as_slice(), class.as_slice()) {
            return Some(t);
        }
        t = t + 1;
    }
    None
}

/// The page images among `names`, in their original order (see `page_files`).
pub fn select_pages(names: &Vec<String>) -> (out: Vec<String>)
    ensures
        strings_view(out@) == page_files(strings_view(names@)),
{
    let ghost nv = strings_view(names@);
    let n = names.len();
    let mut infos: Vec<Option<(Vec<char>, u8)>> = Vec::new();
    for i in 0..n
        invariant
            n == names.len(),
            nv == strings_view(names@),
            infos.len() == i,
            forall|j: int| 0 <= j < i ==> (#[trigger] infos[j] is Some <==> page_rank(nv[j]) is Some),
            forall|j: int|
                0 <= j < i ==> (#[trigger] infos[j] matches Some(p) ==> p.0@ == page_class(nv[j]) && Some(p.1)
                    == page_rank(nv[j])),
    {
        let info = page_info(names[i].as_str());
        assert(nv[i as int] == names[i as int]@);
        infos.push(info);
    }
    let mut best: Vec<(Vec<char>, usize, u8)> = Vec::new();
    for k in 0..n
        invariant
            n == names.len(),
            nv == strings_view(names@),
            nv.len() == n,
            infos.len() == n,
            forall|j: int| 0 <= j < n ==> (#[trigger] infos[j] is Some <==> page_rank(nv[j]) is Some),
            forall|j: int|
                0 <= j < n ==> (#[trigger] infos[j] matches Some(p) ==> p.0@ == page_class(nv[j]) && Some(p.1)
                    == page_rank(nv[j])),
            forall|t: int|
                0 <= t < best.len() ==> {
                    let e = #[trigger] best[t];
                    &&& e.1 < k
                    &&& page_rank(nv[e.1 as int]) == Some(e.2)
                    &&& e.0@ == page_class(nv[e.1 as int])
                    &&& forall|j: int|
                        0 <= j < k && j != e.1 && page_rank(nv[j]) is Some && #[trigger] page_class(nv[j]) == e.0@
                            ==> preferred(nv, e.1 as int, j)
                },
            forall|j: int| 0 <= j < k && page_rank(nv[j]) is Some ==> covered(best@, #[trigger] page_class(nv[j])),
            forall|t1: int, t2: int| 0 <= t1 < best.len() && 0 <= t2 < best.len() && t1 != t2 ==> #[trigger] best[t1].0@ != #[trigger] best[t2].0@,
    {
        match &infos[k] {
            Some(info) => {
                let class = &info.0;
                let rank = info.1;
                assert(page_rank(nv[k as int]) == Some(rank));
                match find_class(&best, class) {
                    Some(t) => {
                        if rank < best[t].2 {
                            let ghost old_best = best@;
                            let ghost i0 = best[t as int].1 as int;
                            best.set(t, (class.clone(), k, rank));
                            proof {
                                assert(best[t as int].0@ == class@);
                                assert forall|j: int|
                                    0 <= j < k + 1 && j != k && page_rank(nv[j]) is Some && #[trigger] page_class(nv[j])
                                        == class@ implies preferred(nv, k as int, j) by {
                                    if j != i0 {
                                        assert(preferred(nv, i0, j));
                                    }
                                }
                                assert forall|j: int|
                                    0 <= j < k + 1 && page_rank(nv[j]) is Some implies covered(best@, page_class(nv[j])) by {
                                    if j < k {
                                        assert(covered(old_best, page_class(nv[j])));
                                        let u = choose|u: int| 0 <= u < old_best.len() && #[trigger] old_best[u].0@ == page_class(nv[j]);
                                        assert(best[u].0@ == page_class(nv[j]));
                                    } else {
                                        assert(best[t as int].0@ == page_class(nv[j]));
                                    }
                                }
                            }
                        } else {
                            proof {
                                let e = best[t as int];
                                assert(preferred(nv, e.1 as int, k as int));
                                assert forall|j: int|
                                    0 <= j < k + 1 && page_rank(nv[j]) is Some implies covered(best@, page_class(nv[j])) by {
                                    if j == k {
                                        assert(best[t as int].0@ == page_class(nv[j]));
                                    }
                                }
                            }
                        }
                    },
                    None => {
                        let ghost old_best = best@;
                        best.push((class.clone(), k, rank));
                        proof {
                            assert forall|j: int|
                                0 <= j < k + 1 && page_rank(nv[j]) is Some implies covered(best@, page_class(nv[j])) by {
                                if j < k {
                                    assert(covered(old_best, page_class(nv[j])));
                                        assert(covered(old_best, page_class(nv[j])));
                                    let u = choose|u: int| 0 <= u < old_best.len() && #[trigger] old_best[u].0@ == page_class(nv[j]);
                                    assert(best[u].0@ == page_class(nv[j]));
                                } else {
                                    assert(best[old_best.len() as int].0@ == page_class(nv[j]));
                                }
                            }
                        }
                    },
                }
            },
            None => {
                proof {
                    assert forall|j: int|
                        0 <= j < k + 1 && page_rank(nv[j]) is Some implies covered(best@, page_class(nv[j])) by {
                        if j == k {
                            assert(infos[j] is Some);
                        }
                    }
                }
            },
        }
    }
    let mut out: Vec<String> = Vec::new();
    for i in 0..n
        invariant
            n == names.len(),
            nv == strings_view(names@),
            nv.len() == n,
            infos.len() == n,
            forall|j: int| 0 <= j < n ==> (#[trigger] infos[j] is Some <==> page_rank(nv[j]) is Some),
            forall|j: int|
                0 <= j < n ==> (#[trigger] infos[j] matches Some(p) ==> p.0@ == page_class(nv[j]) && Some(p.1)
                    == page_rank(nv[j])),
            forall|t: int|
                0 <= t < best.len() ==> {
                    let e = #[trigger] best[t];
                    &&& e.1 < n
                    &&& page_rank(nv[e.1 as int]) == Some(e.2)
                    &&& e.0@ == page_class(nv[e.1 as int])
                    &&& forall|j: int|
                        0 <= j < n && j != e.1 && page_rank(nv[j]) is Some && #[trigger] page_class(nv[j]) == e.0@
                            ==> preferred(nv, e.1 as int, j)
                },
            forall|j: int| 0 <= j < n && page_rank(nv[j]) is Some ==> covered(best@, #[trigger] page_class(nv[j])),
            strings_view(out@) == kept_prefix(nv, i as int),
    {
        let ghost before = strings_view(out@);
        match &infos[i] {
            Some(info) => {
                proof {
                    assert(page_rank(nv[i as int]) is Some);
                }
                match find_class(&best, &info.0) {
                    Some(t) => {
                        let e_idx = best[t].1;
                        proof {
                            let e = best[t as int];
                            if e.1 == i {
                                assert(kept(nv, i as int));
                            } else {
                                assert(preferred(nv, e.1 as int, i as int));
                                assert(!kept(nv, i as int)) by {
                                    assert(page_class(nv[e.1 as int]) == page_class(nv[i as int]));
                                }
                            }
                        }
                        if e_idx == i {
                            out.push(names[i].clone());
                            assert(strings_view(out@) =~= before.push(nv[i as int]));
                        }
                    },
                    None => {
                        proof {
                            assert(covered(best@, page_class(nv[i as int])));
                            let t = choose|t: int| 0 <= t < best.len() && #[trigger] best[t].0@ == page_class(nv[i as int]);
                            assert(best[t].0@ == info.0@);
                        }
                    },
                }
            },
            None => {
                assert(!kept(nv, i as int));
            },
        }
    }
    out
}

/// Sorts sibling directory names in natural order.
pub fn get_sorted_dirs(dir_names: Vec<String>) -> (sorted: Vec<String>)
    ensures
        sorted@.to_multiset() == dir_names@.to_multiset(),
        naturally_sorted(strings_view(sorted@)),
{
    sort_natural(dir_names)
}

/// The page images of a directory, given the names of its regular files:
/// one file per page (see `page_files`), in natural order.
pub fn get_sorted_images(file_names: &Vec<String>) -> (images: Vec<String>)
    ensures
        strings_view(images@).to_multiset() == page_files(strings_view(file_names@)).to_multiset(),
        naturally_sorted(strings_view(images@)),
{
    let pages = select_pages(file_names);
    sort_natural(pages)
}

/// The lowercased extension of a file name.
pub open spec fn lower_extension(name: Seq<char>) -> Option<Seq<char>> {
    match file_extension(name) {
        Some(e) => Some(lowercase_of(e)),
        None => None,
    }
}

fn lower_extension_of(name: &str) -> (ext: Option<Vec<char>>)
    ensures
        ext is None <==> lower_extension(name@) is None,
        ext matches Some(e) ==> lower_extension(name@) == Some(e@),
{
    let chars = chars_of(name);
    let (_stem, ext) = split_file_name(chars.as_slice());
    match ext {
        Some(e) => Some(lowercase_chars(e.as_slice())),
        None => None,
    }
}

/// Extensions of the archive formats the viewer opens.
pub open spec fn is_archive_extension(ext: Seq<char>) -> bool {
    ||| ext == seq!['z', 'i', 'p']
    ||| ext == seq!['c', 'b', 'z']
    ||| ext == seq!['r', 'a', 'r']
    ||| ext == seq!['c', 'b', 'r']
    ||| ext == seq!['t', 'a', 'r']
    ||| ext == seq!['g', 'z']
    ||| ext == seq!['t', 'g', 'z']
    ||| ext == seq!['b', 'z', '2']
    ||| ext == seq!['t', 'b', 'z']
    ||| ext == seq!['x', 'z']
    ||| ext == seq!['t', 'x', 'z']
}

/// Check if a path is an archive file: a regular file whose extension is
/// one of zip, cbz, rar, cbr, tar, gz, tgz, bz2, tbz, xz, txz (any case).
pub fn is_archive_file(is_file: bool, file_name: &str) -> (archive: bool)
    ensures
        archive == (is_file && (lower_extension(file_name@) matches Some(e) && is_archive_extension(e))),
{
    if !is_file {
        return false;
    }
    match lower_extension_of(file_name) {
        Some(e) => {
            let e = e.as_slice();
            chars_equal(e, &['z', 'i', 'p']) || chars_equal(e, &['c', 'b', 'z']) || chars_equal(e, &['r', 'a', 'r'])
                || chars_equal(e, &['c', 'b', 'r']) || chars_equal(e, &['t', 'a', 'r']) || chars_equal(e, &['g', 'z'])
                || chars_equal(e, &['t', 'g', 'z']) || chars_equal(e, &['b', 'z', '2']) || chars_equal(
                e,
                &['t', 'b', 'z'],
            ) || chars_equal(e, &['x', 'z']) || chars_equal(e, &['t', 'x', 'z'])
        },
        None => false,
    }
}

/// A RAR archive (extension rar or cbr, any case), which is extracted with
/// an external unrar or 7z tool.
pub fn is_rar_archive(file_name: &str) -> (rar: bool)
    ensures
        rar == (lower_extension(file_name@) matches Some(e) && (e == seq!['r', 'a', 'r'] || e == seq!['c', 'b', 'r'])),
{
    match lower_extension_of(file_name) {
        Some(e) => chars_equal(e.as_slice(), &['r', 'a', 'r']) || chars_equal(e.as_slice(), &['c', 'b', 'r']),
        None => false,
    }
}

/// An archive found inside an extracted archive that is extracted in turn
/// (extension zip, cbz, rar or cbr, any case).
pub fn is_nested_archive(file_name: &str) -> (nested: bool)
    ensures
        nested == (lower_extension(file_name@) matches Some(e) && (e == seq!['z', 'i', 'p'] || e == seq!['c', 'b', 'z']
            || e == seq!['r', 'a', 'r'] || e == seq!['c', 'b', 'r'])),
{
    match lower_extension_of(file_name) {
        Some(e) => {
            let e = e.as_slice();
            chars_equal(e, &['z', 'i', 'p']) || chars_equal(e, &['c', 'b', 'z']) || chars_equal(e, &['r', 'a', 'r'])
                || chars_equal(e, &['c', 'b', 'r'])
        },
        None => false,
    }
}

/// Whether a file name is that of a page image (an image extension, any
/// case, after a non-empty stem); used to find the chapter directories
/// inside an extracted archive.
pub fn is_image_file_name(file_name: &str) -> (image: bool)
    ensures
        image == (page_rank(file_name@) is Some),
{
    page_info(file_name).is_some()
}

/// All characters of `s` are decimal digits.
pub open spec fn all_digits(s: Seq<char>) -> bool {
    forall|i: int| 0 <= i < s.len() ==> is_digit(#[trigger] s[i])
}

/// 10 to the power `n`.
pub open spec fn pow10(n: nat) -> nat
    decreases n,
{
    if n == 0 {
        1
    } else {
        10 * pow10((n - 1) as nat)
    }
}

/// The number a string of decimal digits stands for.
pub open spec fn digits_value(s: Seq<char>) -> nat
    decreases s.len(),
{
    if s.len() == 0 {
        0
    } else {
        ((s[0] as u32 - '0' as u32) as nat) * pow10((s.len() - 1) as nat) + digits_value(s.drop_first())
    }
}

proof fn lemma_pow10_positive(n: nat)
    ensures
        pow10(n) >= 1,
    decreases n,
{
    if n > 0 {
        lemma_pow10_positive((n - 1) as nat);
    }
}

proof fn lemma_digit_range(c: char)
    requires
        is_digit(c),
    ensures
        0 <= c as u32 - '0' as u32 <= 9,
{
}

proof fn lemma_digits_value_bound(s: Seq<char>)
    requires
        all_digits(s),
    ensures
        digits_value(s) < pow10(s.len()),
    decreases s.len(),
{
    if s.len() > 0 {
        let rest = s.drop_first();
        assert(all_digits(rest)) by {
            assert forall|i: int| 0 <= i < rest.len() implies is_digit(#[trigger] rest[i]) by {
                assert(rest[i] == s[i + 1]);
            }
        }
        lemma_digits_value_bound(rest);
        lemma_digit_range(s[0]);
        let d = (s[0] as u32 - '0' as u32) as nat;
        let p = pow10(rest.len());
        assert(pow10(s.len()) == 10 * p);
        assert(d * p + digits_value(rest) < 10 * p) by (nonlinear_arith)
            requires
                d <= 9,
                digits_value(rest) < p,
        ;
    }
}

/// For digit strings of equal length, the character order is the order of
/// their values.
proof fn lemma_equal_length_digits_order(x: Seq<char>, y: Seq<char>)
    requires
        all_digits(x),
        all_digits(y),
        x.len() == y.len(),
    ensures
        chars_lt(x, y) <==> digits_value(x) < digits_value(y),
    decreases x.len(),
{
    if x.len() > 0 {
        let xr = x.drop_first();
        let yr = y.drop_first();
        assert(all_digits(xr)) by {
            assert forall|i: int| 0 <= i < xr.len() implies is_digit(#[trigger] xr[i]) by {
                assert(xr[i] == x[i + 1]);
            }
        }
        assert(all_digits(yr)) by {
            assert forall|i: int| 0 <= i < yr.len() implies is_digit(#[trigger] yr[i]) by {
                assert(yr[i] == y[i + 1]);
            }
        }
        lemma_digits_value_bound(xr);
        lemma_digits_value_bound(yr);
        lemma_digit_range(x[0]);
        lemma_digit_range(y[0]);
        let dx = (x[0] as u32 - '0' as u32) as nat;
        let dy = (y[0] as u32 - '0' as u32) as nat;
        let p = pow10(xr.len());
        let vx = digits_value(xr);
        let vy = digits_value(yr);
        if x[0] == y[0] {
            lemma_equal_length_digits_order(xr, yr);
        } else if x[0] < y[0] {
            assert(dx < dy);
            assert(dx * p + vx < dy * p + vy) by (nonlinear_arith)
                requires
                    dx < dy,
                    vx < p,
            ;
        } else {
            assert(dy < dx);
            assert(dy * p + vy < dx * p + vx) by (nonlinear_arith)
                requires
                    dy < dx,
                    vy < p,
            ;
        }
    }
}

proof fn lemma_zeros_value(n: nat, s: Seq<char>)
    ensures
        digits_value(Seq::new(n, |i: int| '0') + s) == digits_value(s),
    decreases n,
{
    if n > 0 {
        let z = Seq::new(n, |i: int| '0') + s;
        assert(z.drop_first() =~= Seq::new((n - 1) as nat, |i: int| '0') + s);
        lemma_zeros_value((n - 1) as nat, s);
        assert(z[0] == '0');
        assert(z.len() > 0);
        assert(digits_value(z) == ((z[0] as u32 - '0' as u32) as nat) * pow10((z.len() - 1) as nat) + digits_value(
            z.drop_first(),
        ));
        assert(((z[0] as u32 - '0' as u32) as nat) == 0);
        let v = digits_value(z.drop_first());
        assert(v == digits_value(s));
        let pz = pow10((z.len() - 1) as nat);
        let d = ((z[0] as u32 - '0' as u32) as nat);
        assert(d * pz == 0) by (nonlinear_arith)
            requires
                d == 0,
        ;
        assert(digits_value(z) == v);
    } else {
        assert(Seq::new(n, |i: int| '0') + s =~= s);
    }
}

proof fn lemma_pad20_digits(a: Seq<char>)
    requires
        all_digits(a),
        a.len() <= 20,
    ensures
        pad20(a).len() == 20,
        all_digits(pad20(a)),
        digits_value(pad20(a)) == digits_value(a),
{
    if a.len() < 20 {
        lemma_zeros_value((20 - a.len()) as nat, a);
        let p = pad20(a);
        assert forall|i: int| 0 <= i < p.len() implies is_digit(#[trigger] p[i]) by {
            if i >= 20 - a.len() {
                assert(p[i] == a[i - (20 - a.len())]);
            }
        }
    }
}

proof fn lemma_runs_nonempty(s: Seq<char>)
    requires
        s.len() > 0,
    ensures
        runs(s).len() > 0,
        runs(s).last().len() > 0,
        runs(s).last().last() == s.last(),
    decreases s.len(),
{
    let r = runs(s.drop_last());
    if s.len() > 1 {
        lemma_runs_nonempty(s.drop_last());
    }
}

/// A text followed by a run of digits: the runs of the text, then the digits.
proof fn lemma_runs_text_then_digits(t: Seq<char>, a: Seq<char>)
    requires
        t.len() == 0 || !is_digit(t.last()),
        all_digits(a),
        a.len() > 0,
    ensures
        runs(t + a) == runs(t).push(a),
    decreases a.len(),
{
    let s = t + a;
    let c = a.last();
    assert(s.last() == c);
    if a.len() == 1 {
        assert(s.drop_last() =~= t);
        if t.len() > 0 {
            lemma_runs_nonempty(t);
        }
        assert(a =~= seq![c]);
    } else {
        let a2 = a.drop_last();
        assert(all_digits(a2)) by {
            assert forall|i: int| 0 <= i < a2.len() implies is_digit(#[trigger] a2[i]) by {
                assert(a2[i] == a[i]);
            }
        }
        assert(s.drop_last() =~= t + a2);
        lemma_runs_text_then_digits(t, a2);
        let r = runs(t + a2);
        assert(r == runs(t).push(a2));
        assert(r.last() == a2);
        assert(is_digit(a2.last())) by {
            assert(a2.last() == a2[a2.len() - 1]);
        }
        assert(is_digit(c)) by {
            assert(c == a[a.len() - 1]);
        }
        assert(a2.push(c) =~= a);
        assert(r.drop_last() =~= runs(t));
        assert(r.drop_last().push(r.last().push(c)) =~= runs(t).push(a));
    }
}

/// Runs of a name that ends in a digit, followed by a text that does not
/// start with one: the runs of the name, then those of the text.
proof fn lemma_runs_append(x: Seq<char>, u: Seq<char>)
    requires
        x.len() > 0,
        is_digit(x.last()),
        u.len() == 0 || !is_digit(u[0]),
    ensures
        runs(x + u) == runs(x) + runs(u),
    decreases u.len(),
{
    lemma_runs_nonempty(x);
    if u.len() == 0 {
        assert(x + u =~= x);
        assert(runs(x) + runs(u) =~= runs(x));
    } else if u.len() == 1 {
        let c = u[0];
        assert((x + u).drop_last() =~= x);
        assert((x + u).last() == c);
        assert(u.drop_last() =~= Seq::<char>::empty());
        assert(u.last() == c);
        assert(runs(u.drop_last()) =~= Seq::<Seq<char>>::empty());
        assert(runs(u) =~= seq![seq![c]]);
        assert(runs(x + u) =~= runs(x).push(seq![c]));
        assert(runs(x) + runs(u) =~= runs(x).push(seq![c]));
    } else {
        let u2 = u.drop_last();
        let c = u.last();
        assert(u2[0] == u[0]);
        lemma_runs_append(x, u2);
        lemma_runs_nonempty(u2);
        assert((x + u).drop_last() =~= x + u2);
        assert((x + u).last() == c);
        let a = runs(x);
        let r = runs(u2);
        assert((a + r).last() == r.last());
        if is_digit(r.last().last()) == is_digit(c) {
            assert((a + r).drop_last().push((a + r).last().push(c)) =~= a + r.drop_last().push(r.last().push(c)));
        } else {
            assert((a + r).push(seq![c]) =~= a + r.push(seq![c]));
        }
    }
}

proof fn lemma_keys_common_prefix_suffix(k: Seq<Seq<char>>, x: Seq<char>, y: Seq<char>, w: Seq<Seq<char>>)
    ensures
        keys_lt(k.push(x) + w, k.push(y) + w) <==> chars_lt(x, y),
    decreases k.len(),
{
    lemma_chars_lt_irreflexive(x);
    if k.len() == 0 {
        let a = k.push(x) + w;
        let b = k.push(y) + w;
        assert(a[0] == x && b[0] == y);
        if x == y {
            assert(a =~= b);
            lemma_keys_lt_irreflexive(a);
        }
    } else {
        assert((k.push(x) + w)[0] == k[0]);
        assert((k.push(y) + w)[0] == k[0]);
        assert((k.push(x) + w).drop_first() =~= k.drop_first().push(x) + w);
        assert((k.push(y) + w).drop_first() =~= k.drop_first().push(y) + w);
        lemma_keys_common_prefix_suffix(k.drop_first(), x, y, w);
    }
}

/// Natural order puts numbers in numeric order: two names that share their
/// text before and after a number of up to 20 digits sort by the values of
/// those numbers (so "page2" sorts before "page10", and "p2.png" before
/// "p10.png"). The text before may not end, and the text after may not
/// start, with a digit.
pub proof fn lemma_numbers_sort_by_value(t: Seq<char>, a: Seq<char>, b: Seq<char>, u: Seq<char>)
    requires
        t.len() == 0 || !is_digit(t.last()),
        u.len() == 0 || !is_digit(u[0]),
        all_digits(a),
        all_digits(b),
        1 <= a.len() <= 20,
        1 <= b.len() <= 20,
    ensures
        keys_lt(natural_key(t + a + u), natural_key(t + b + u)) <==> digits_value(a) < digits_value(b),
{
    lemma_runs_text_then_digits(t, a);
    lemma_runs_text_then_digits(t, b);
    assert(is_digit(a[0]));
    assert(is_digit(b[0]));
    assert((t + a).last() == a.last());
    assert((t + b).last() == b.last());
    assert(is_digit(a.last())) by {
        assert(a.last() == a[a.len() - 1]);
    }
    assert(is_digit(b.last())) by {
        assert(b.last() == b[b.len() - 1]);
    }
    lemma_runs_append(t + a, u);
    lemma_runs_append(t + b, u);
    let k = runs(t).map_values(|r: Seq<char>| normalize_run(r));
    let w = runs(u).map_values(|r: Seq<char>| normalize_run(r));
    assert(natural_key(t + a + u) =~= k.push(pad20(a)) + w);
    assert(natural_key(t + b + u) =~= k.push(pad20(b)) + w);
    lemma_keys_common_prefix_suffix(k, pad20(a), pad20(b), w);
    lemma_pad20_digits(a);
    lemma_pad20_digits(b);
    lemma_equal_length_digits_order(pad20(a), pad20(b));
}

proof fn lemma_kept_prefix_members(names: Seq<Seq<char>>, k: int, p: int)
    requires
        0 <= k <= names.len(),
        0 <= p < kept_prefix(names, k).len(),
    ensures
        exists|i: int| 0 <= i < k && kept(names, i) && #[trigger] names[i] == kept_prefix(names, k)[p],
    decreases k,
{
    if k > 0 {
        if kept(names, k - 1) && p == kept_prefix(names, k - 1).len() {
            assert(names[k - 1] == kept_prefix(names, k)[p]);
        } else {
            lemma_kept_prefix_members(names, k - 1, p);
            let i = choose|i: int| 0 <= i < k - 1 && kept(names, i) && #[trigger] names[i] == kept_prefix(names, k - 1)[p];
            assert(names[i] == kept_prefix(names, k)[p]);
        }
    }
}

proof fn lemma_kept_prefix_classes(names: Seq<Seq<char>>, k: int)
    requires
        0 <= k <= names.len(),
    ensures
        forall|a: int, b: int|
            0 <= a < b < kept_prefix(names, k).len() ==> page_class(#[trigger] kept_prefix(names, k)[a]) != page_class(
                #[trigger] kept_prefix(names, k)[b],
            ),
    decreases k,
{
    if k > 0 {
        lemma_kept_prefix_classes(names, k - 1);
        let prev = kept_prefix(names, k - 1);
        if kept(names, k - 1) {
            assert forall|a: int, b: int|
                0 <= a < b < kept_prefix(names, k).len() implies page_class(#[trigger] kept_prefix(names, k)[a])
                != page_class(#[trigger] kept_prefix(names, k)[b]) by {
                if b < prev.len() {
                    assert(kept_prefix(names, k)[a] == prev[a]);
                    assert(kept_prefix(names, k)[b] == prev[b]);
                } else {
                    lemma_kept_prefix_members(names, k - 1, a);
                    let i = choose|i: int| 0 <= i < k - 1 && kept(names, i) && #[trigger] names[i] == prev[a];
                    assert(kept_prefix(names, k)[a] == names[i]);
                    assert(kept_prefix(names, k)[b] == names[k - 1]);
                    if page_class(names[i]) == page_class(names[k - 1]) {
                        assert(preferred(names, i, k - 1));
                        assert(preferred(names, k - 1, i));
                    }
                }
            }
        }
    }
}

/// One file per page: no two of the page images chosen from a directory
/// show the same page (their lowercased stems differ).
pub proof fn lemma_one_file_per_page(names: Seq<Seq<char>>, a: int, b: int)
    requires
        0 <= a < b < page_files(names).len(),
    ensures
        page_class(page_files(names)[a]) != page_class(page_files(names)[b]),
{
    lemma_kept_prefix_classes(names, names.len() as int);
}

/// Every page image is chosen: each file with an image extension shows a
/// page that one of the chosen files shows, with an extension ranked at
/// least as high.
pub proof fn lemma_every_page_chosen(names: Seq<Seq<char>>, j: int)
    requires
        0 <= j < names.len(),
        page_rank(names[j]) is Some,
    ensures
        exists|p: int|
            0 <= p < page_files(names).len() && page_class(#[trigger] page_files(names)[p]) == page_class(names[j])
                && page_rank(page_files(names)[p])->0 <= page_rank(names[j])->0,
{
    let c = page_class(names[j]);
    let n = names.len() as int;
    lemma_best_of_class(names, c, n);
    let b = best_of_class(names, c, n);
    assert(b != -1);
    assert(kept(names, b));
    lemma_kept_in_prefix(names, n, b);
    let p = choose|p: int| 0 <= p < kept_prefix(names, n).len() && #[trigger] kept_prefix(names, n)[p] == names[b];
    assert(page_files(names)[p] == names[b]);
}

/// The preferred file of page class `c` among the first `n` names (-1 when
/// none of them is a page image of that class).
spec fn best_of_class(names: Seq<Seq<char>>, c: Seq<char>, n: int) -> int
    decreases n,
{
    if n <= 0 {
        -1
    } else {
        let b = best_of_class(names, c, n - 1);
        if page_rank(names[n - 1]) is Some && page_class(names[n - 1]) == c && (b == -1 || page_rank(names[n - 1])->0
            < page_rank(names[b])->0) {
            n - 1
        } else {
            b
        }
    }
}

proof fn lemma_best_of_class(names: Seq<Seq<char>>, c: Seq<char>, n: int)
    requires
        0 <= n <= names.len(),
    ensures
        best_of_class(names, c, n) == -1 <==> forall|j: int|
            0 <= j < n ==> !(page_rank(#[trigger] names[j]) is Some && page_class(names[j]) == c),
        best_of_class(names, c, n) != -1 ==> {
            let b = best_of_class(names, c, n);
            &&& 0 <= b < n
            &&& page_rank(names[b]) is Some
            &&& page_class(names[b]) == c
            &&& forall|j: int|
                0 <= j < n && j != b && page_rank(names[j]) is Some && #[trigger] page_class(names[j]) == c
                    ==> preferred(names, b, j)
        },
    decreases n,
{
    if n > 0 {
        lemma_best_of_class(names, c, n - 1);
    }
}

proof fn lemma_kept_in_prefix(names: Seq<Seq<char>>, k: int, i: int)
    requires
        0 <= i < k <= names.len(),
        kept(names, i),
    ensures
        exists|p: int| 0 <= p < kept_prefix(names, k).len() && #[trigger] kept_prefix(names, k)[p] == names[i],
    decreases k,
{
    if i == k - 1 {
        assert(kept_prefix(names, k)[kept_prefix(names, k - 1).len() as int] == names[i]);
    } else {
        lemma_kept_in_prefix(names, k - 1, i);
        let p = choose|p: int| 0 <= p < kept_prefix(names, k - 1).len() && #[trigger] kept_prefix(names, k - 1)[p]
            == names[i];
        assert(kept_prefix(names, k)[p] == names[i]);
    }
}

/// The image extensions and their priority among files of one page: jpg and
/// jpeg first, then png, gif, webp, bmp and avif; no other extension is an
/// image. A file is a page image exactly when its lowercased extension is one
/// of these.
pub proof fn lemma_image_extension_table(ext: Seq<char>, name: Seq<char>)
    ensures
        image_rank(seq!['j', 'p', 'g']) == Some(0u8),
        image_rank(seq!['j', 'p', 'e', 'g']) == Some(0u8),
        image_rank(seq!['p', 'n', 'g']) == Some(1u8),
        image_rank(seq!['g', 'i', 'f']) == Some(2u8),
        image_rank(seq!['w', 'e', 'b', 'p']) == Some(3u8),
        image_rank(seq!['b', 'm', 'p']) == Some(4u8),
        image_rank(seq!['a', 'v', 'i', 'f']) == Some(5u8),
        image_rank(ext) is Some ==> ext == seq!['j', 'p', 'g'] || ext == seq!['j', 'p', 'e', 'g'] || ext == seq![
            'p',
            'n',
            'g',
        ] || ext == seq!['g', 'i', 'f'] || ext == seq!['w', 'e', 'b', 'p'] || ext == seq!['b', 'm', 'p'] || ext
            == seq!['a', 'v', 'i', 'f'],
        page_rank(name) is Some <==> (file_extension(name) matches Some(e) && image_rank(lowercase_of(e)) is Some),
        file_extension(name) matches Some(e) ==> page_rank(name) == image_rank(lowercase_of(e)),
{
}

} // verus!
