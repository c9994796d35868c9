//! Paths, as texts in which slashes part the steps; on Windows, backslashes do so too.
use crate::byte_text::same_text;
use crate::parts::{lemma_parts_make_the_text, parts_of, split_text, texts_of};
use vstd::prelude::*;

verus! {

/// The kind of system that a process runs on.
#[derive(Debug, Clone, Copy, PartialEq, Eq, Structural, Default)]
pub enum SystemFamily {
    #[default]
    Unix,
    Windows,
    Other,
}

/// Whether a path leads from the root.
pub open spec fn is_absolute(path: Seq<char>) -> bool {
    path.len() > 0 && path[0] == '/'
}

/// The steps among the parts of a path. Empty parts are none, and neither is a dot unless the path
/// begins with it.
pub open spec fn steps_among(parts: Seq<Seq<char>>) -> Seq<Seq<char>>
    decreases parts.len(),
{
    if parts.len() == 0 {
        Seq::empty()
    } else {
        let front = steps_among(parts.drop_last());
        if is_step(parts.last(), parts.len() == 1) {
            front.push(parts.last())
        } else {
            front
        }
    }
}

/// Whether a part of a path is a step.
pub open spec fn is_step(part: Seq<char>, first: bool) -> bool {
    part.len() > 0 && (first || part != seq!['.'])
}

/// The steps of a path.
pub open spec fn steps(path: Seq<char>) -> Seq<Seq<char>> {
    steps_among(parts_of(path, '/'))
}

/// Whether two paths lead through the same steps.
pub open spec fn same_steps(a: Seq<char>, b: Seq<char>) -> bool {
    is_absolute(a) == is_absolute(b) && steps(a) == steps(b)
}

/// A path behind another one.
pub open spec fn joined(base: Seq<char>, path: Seq<char>) -> Seq<char> {
    if is_absolute(path) {
        path
    } else if base.len() == 0 || base.last() == '/' {
        base + path
    } else {
        base + seq!['/'] + path
    }
}

/// Steps with a slash between each two of them.
pub open spec fn with_slashes(steps: Seq<Seq<char>>) -> Seq<char>
    decreases steps.len(),
{
    if steps.len() == 0 {
        Seq::empty()
    } else if steps.len() == 1 {
        steps[0]
    } else {
        with_slashes(steps.drop_last()) + seq!['/'] + steps.last()
    }
}

/// The path that leads through some steps.
pub open spec fn path_of(absolute: bool, steps: Seq<Seq<char>>) -> Seq<char> {
    if absolute {
        seq!['/'] + with_slashes(steps)
    } else {
        with_slashes(steps)
    }
}

/// The path without its last step, if it has one.
pub open spec fn parent_of(path: Seq<char>) -> Option<Seq<char>> {
    if steps(path).len() == 0 {
        None
    } else {
        Some(path_of(is_absolute(path), steps(path).drop_last()))
    }
}

/// Tells whether a path leads from the root.
pub fn leads_from_root(path: &str) -> (absolute: bool)
    ensures
        absolute == is_absolute(path@),
{
    path.unicode_len() > 0 && path.get_char(0) == '/'
}

/// Finds the steps of a path.
pub fn path_steps(path: &str) -> (found: Vec<String>)
    ensures
        texts_of(found@) == steps(path@),
{
    let parts = split_text(path, '/');
    let ghost all = texts_of(parts@);
    let mut found: Vec<String> = Vec::new();
    assert(all.take(0) =~= Seq::empty());
    assert(texts_of(found@) =~= Seq::empty());
    for i in 0..parts.len()
        invariant
            all == texts_of(parts@),
            texts_of(found@) == steps_among(all.take(i as int)),
    {
        let ghost before = texts_of(found@);
        proof {
            reveal_strlit(".");
            assert("."@ =~= seq!['.']);
            assert(all.take(i + 1).drop_last() =~= all.take(i as int));
            assert(all.take(i + 1).last() == parts@[i as int]@);
        }
        if parts[i].as_str().unicode_len() > 0 && (i == 0 || !same_text(&parts[i], ".")) {
            found.push(parts[i].clone());
            assert(texts_of(found@) =~= before.push(parts@[i as int]@));
        }
    }
    assert(all.take(parts.len() as int) =~= all);
    found
}

/// Tells whether two paths have the same steps.
fn have_same_steps(a: &str, b: &str) -> (same: bool)
    ensures
        same == (steps(a@) == steps(b@)),
{
    let left = path_steps(a);
    let right = path_steps(b);
    if left.len() != right.len() {
        assert(texts_of(left@).len() != texts_of(right@).len());
        return false;
    }
    for i in 0..left.len()
        invariant
            left.len() == right.len(),
            texts_of(left@) == steps(a@),
            texts_of(right@) == steps(b@),
            forall|k: int|
                0 <= k < i ==> (#[trigger] texts_of(left@)[k]) == texts_of(right@)[k],
    {
        if !same_text(&left[i], &right[i]) {
            assert(texts_of(left@)[i as int] != texts_of(right@)[i as int]);
            return false;
        }
    }
    assert(texts_of(left@) =~= texts_of(right@));
    true
}

/// Tells whether two paths lead through the same steps.
pub fn same_path(a: &str, b: &str) -> (same: bool)
    ensures
        same == same_steps(a@, b@),
{
    leads_from_root(a) == leads_from_root(b) && have_same_steps(a, b)
}

/// Puts a path behind another one.
pub fn join(base: &str, path: &str) -> (whole: String)
    ensures
        whole@ == joined(base@, path@),
{
    if leads_from_root(path) {
        return path.to_owned();
    }
    let mut whole = base.to_owned();
    let len: usize = base.unicode_len();
    if len > 0 && base.get_char(len - 1) != '/' {
        proof {
            reveal_strlit("/");
            assert("/"@ =~= seq!['/']);
        }
        whole.append("/");
    }
    whole.append(path);
    whole
}

/// Takes the last step off a path, if it has one.
pub fn parent(path: &str) -> (shorter: Option<String>)
    ensures
        match shorter {
            Some(shorter) => parent_of(path@) == Some(shorter@),
            None => parent_of(path@) is None,
        },
{
    let found = path_steps(path);
    assert(texts_of(found@).len() == found.len());
    if found.len() == 0 {
        return None;
    }
    let ghost all = texts_of(found@);
    let mut shorter = String::new();
    proof {
        reveal_strlit("/");
        assert("/"@ =~= seq!['/']);
    }
    let absolute = leads_from_root(path);
    if absolute {
        shorter.append("/");
    }
    let ghost start = shorter@;
    assert(all.take(0) =~= Seq::empty());
    assert(start + Seq::<char>::empty() =~= start);
    let count: usize = found.len() - 1;
    for i in 0..count
        invariant
            count == found.len() - 1,
            "/"@ == seq!['/'],
            all == texts_of(found@),
            shorter@ == start + with_slashes(all.take(i as int)),
    {
        proof {
            assert(all.take(i + 1).drop_last() =~= all.take(i as int));
            assert(all.take(i + 1).last() == found@[i as int]@);
        }
        let ghost front = with_slashes(all.take(i as int));
        if i > 0 {
            shorter.append("/");
        }
        shorter.append(&found[i]);
        assert(shorter@ =~= start + with_slashes(all.take(i + 1)));
    }
    assert(all.drop_last() =~= all.take(found.len() - 1));
    assert(absolute ==> start =~= seq!['/']);
    Some(shorter)
}

/// The parts of two texts with a separator between them.
proof fn lemma_parts_of_both(a: Seq<char>, b: Seq<char>, separator: char)
    ensures
        parts_of(a + seq![separator] + b, separator) == parts_of(a, separator) + parts_of(
            b,
            separator,
        ),
        parts_of(b, separator).len() > 0,
    decreases b.len(),
{
    let whole = a + seq![separator] + b;
    if b.len() == 0 {
        assert(whole.drop_last() =~= a);
    } else {
        lemma_parts_of_both(a, b.drop_last(), separator);
        assert(whole.drop_last() =~= a + seq![separator] + b.drop_last());
        assert(whole.last() == b.last());
        let front = parts_of(a, separator);
        let back = parts_of(b.drop_last(), separator);
        assert((front + back).drop_last() =~= front + back.drop_last());
        assert((front + back).last() == back.last());
    }
}

/// A text without the separator is one part, and no part holds it.
proof fn lemma_parts_hold_no_separator(text: Seq<char>, separator: char)
    ensures
        !text.contains(separator) ==> parts_of(text, separator) == seq![text],
        forall|i: int|
            0 <= i < parts_of(text, separator).len() ==> !(#[trigger] parts_of(
                text,
                separator,
            )[i]).contains(separator),
        parts_of(text, separator).len() > 0,
    decreases text.len(),
{
    if text.len() > 0 {
        lemma_parts_hold_no_separator(text.drop_last(), separator);
        let before = parts_of(text.drop_last(), separator);
        let last = before.last();
        if text.last() != separator {
            assert(!last.push(text.last()).contains(separator)) by {
                assert(!before[before.len() - 1].contains(separator));
                if last.push(text.last()).contains(separator) {
                    let at = choose|at: int|
                        0 <= at < last.len() + 1 && last.push(text.last())[at] == separator;
                    assert(last[at] == separator);
                }
            }
        }
        if !text.contains(separator) {
            assert(text.last() != separator);
            assert forall|at: int| 0 <= at < text.len() - 1 implies text.drop_last()[at]
                != separator by {
                assert(text[at] != separator);
            }
            assert(before.drop_last().push(text) =~= seq![text]);
            assert(text.drop_last().push(text.last()) =~= text);
        }
    } else {
        assert(text =~= Seq::empty());
    }
}

/// The steps among parts are those among the first of them and those of the others.
proof fn lemma_steps_among_both(a: Seq<Seq<char>>, b: Seq<Seq<char>>)
    requires
        a.len() > 0,
        b.len() > 0 ==> b[0] != seq!['.'],
    ensures
        steps_among(a + b) == steps_among(a) + steps_among(b),
    decreases b.len(),
{
    if b.len() == 0 {
        assert(a + b =~= a);
        assert(steps_among(a) + steps_among(b) =~= steps_among(a));
    } else {
        lemma_steps_among_both(a, b.drop_last());
        assert((a + b).drop_last() =~= a + b.drop_last());
        assert((a + b).last() == b.last());
        assert(steps_among(a + b) =~= steps_among(a) + steps_among(b));
    }
}

proof fn lemma_no_steps()
    ensures
        steps_among(seq![Seq::empty()]) == Seq::<Seq<char>>::empty(),
{
    let empty: Seq<Seq<char>> = seq![Seq::empty()];
    assert(empty.drop_last() =~= Seq::empty());
    assert(steps_among(empty.drop_last()) =~= Seq::empty());
    assert(empty.last().len() == 0);
}

/// Joining paths puts their steps one behind the other, unless the second path leads from the root
/// or begins with a dot.
pub proof fn lemma_joined_steps(base: Seq<char>, path: Seq<char>)
    requires
        base.len() > 0,
        !is_absolute(path),
        parts_of(path, '/')[0] != seq!['.'],
    ensures
        is_absolute(joined(base, path)) == is_absolute(base),
        steps(joined(base, path)) == steps(base) + steps(path),
{
    lemma_parts_hold_no_separator(path, '/');
    if base.last() == '/' {
        let front = base.drop_last();
        lemma_parts_of_both(front, path, '/');
        lemma_parts_of_both(front, Seq::empty(), '/');
        lemma_parts_hold_no_separator(front, '/');
        assert(base + path =~= front + seq!['/'] + path);
        assert(base =~= front + seq!['/'] + Seq::<char>::empty());
        let empty: Seq<Seq<char>> = seq![Seq::empty()];
        lemma_steps_among_both(parts_of(front, '/'), empty);
        lemma_no_steps();
        assert(steps(base) =~= steps_among(parts_of(front, '/')));
        lemma_steps_among_both(parts_of(front, '/'), parts_of(path, '/'));
    } else {
        lemma_parts_of_both(base, path, '/');
        lemma_parts_hold_no_separator(base, '/');
        lemma_steps_among_both(parts_of(base, '/'), parts_of(path, '/'));
    }
}

/// Whether steps are those of a path: none is empty or holds a slash, and none is a dot unless a
/// relative path begins with it.
pub open spec fn are_steps(absolute: bool, steps: Seq<Seq<char>>) -> bool {
    forall|i: int|
        0 <= i < steps.len() ==> (#[trigger] steps[i]).len() > 0 && !steps[i].contains('/') && (
        steps[i] != seq!['.'] || (i == 0 && !absolute))
}

proof fn lemma_steps_among_are_parts(parts: Seq<Seq<char>>, absolute: bool)
    requires
        forall|i: int| 0 <= i < parts.len() ==> !(#[trigger] parts[i]).contains('/'),
        absolute ==> parts.len() > 0 ==> parts[0].len() == 0,
    ensures
        are_steps(absolute, steps_among(parts)),
        parts.len() <= 1 ==> steps_among(parts).len() <= 1,
    decreases parts.len(),
{
    if parts.len() > 0 {
        lemma_steps_among_are_parts(parts.drop_last(), absolute);
        assert(!parts[parts.len() - 1].contains('/'));
    }
}

/// The steps of a path hold no slash, and are no dot unless a relative path begins with it.
pub proof fn lemma_steps(path: Seq<char>)
    ensures
        are_steps(is_absolute(path), steps(path)),
{
    lemma_parts_hold_no_separator(path, '/');
    if is_absolute(path) {
        lemma_parts_of_both(Seq::empty(), path.drop_first(), '/');
        assert(path =~= Seq::<char>::empty() + seq!['/'] + path.drop_first());
    }
    lemma_steps_among_are_parts(parts_of(path, '/'), is_absolute(path));
}

proof fn lemma_with_slashes_parts(steps: Seq<Seq<char>>)
    requires
        steps.len() > 0,
        forall|i: int| 0 <= i < steps.len() ==> !(#[trigger] steps[i]).contains('/'),
    ensures
        parts_of(with_slashes(steps), '/') == steps,
    decreases steps.len(),
{
    lemma_parts_hold_no_separator(steps.last(), '/');
    assert(!steps[steps.len() - 1].contains('/'));
    if steps.len() == 1 {
        assert(steps =~= seq![steps[0]]);
    } else {
        lemma_with_slashes_parts(steps.drop_last());
        lemma_parts_of_both(with_slashes(steps.drop_last()), steps.last(), '/');
        assert(steps.drop_last() + seq![steps.last()] =~= steps);
    }
}

proof fn lemma_steps_among_steps(steps: Seq<Seq<char>>)
    requires
        are_steps(false, steps),
    ensures
        steps_among(steps) == steps,
    decreases steps.len(),
{
    if steps.len() > 0 {
        lemma_steps_among_steps(steps.drop_last());
        assert(steps[steps.len() - 1].len() > 0);
        assert(steps_among(steps) =~= steps);
    } else {
        assert(steps =~= Seq::empty());
    }
}

/// The path that leads through some steps has those steps.
pub proof fn lemma_path_of_steps(absolute: bool, given: Seq<Seq<char>>)
    requires
        are_steps(absolute, given),
    ensures
        is_absolute(path_of(absolute, given)) == absolute,
        steps(path_of(absolute, given)) == given,
{
    let text = with_slashes(given);
    let empty: Seq<Seq<char>> = seq![Seq::empty()];
    lemma_no_steps();
    if given.len() == 0 {
        assert(given =~= Seq::empty());
        if absolute {
            lemma_parts_of_both(Seq::empty(), Seq::empty(), '/');
            assert(seq!['/'] + text =~= Seq::<char>::empty() + seq!['/'] + Seq::empty());
            lemma_steps_among_both(empty, empty);
            assert(steps(path_of(absolute, given)) =~= given);
        }
    } else {
        lemma_with_slashes_parts(given);
        lemma_steps_among_steps(given);
        assert(given[0].len() > 0);
        lemma_first_of_slashes(given);
        if absolute {
            lemma_parts_of_both(Seq::empty(), text, '/');
            assert(seq!['/'] + text =~= Seq::<char>::empty() + seq!['/'] + text);
            lemma_steps_among_both(empty, given);
            assert(Seq::<Seq<char>>::empty() + given =~= given);
        } else {
            assert(given[0].contains(given[0][0]));
        }
    }
}

proof fn lemma_first_of_slashes(steps: Seq<Seq<char>>)
    requires
        steps.len() > 0,
        steps[0].len() > 0,
    ensures
        with_slashes(steps).len() > 0,
        with_slashes(steps)[0] == steps[0][0],
    decreases steps.len(),
{
    if steps.len() > 1 {
        lemma_first_of_slashes(steps.drop_last());
    }
}

/// A parent leads through the same steps but for the last.
pub proof fn lemma_parent_steps(path: Seq<char>)
    requires
        parent_of(path) is Some,
    ensures
        is_absolute(parent_of(path)->0) == is_absolute(path),
        steps(parent_of(path)->0) == steps(path).drop_last(),
{
    lemma_steps(path);
    lemma_path_of_steps(is_absolute(path), steps(path).drop_last());
}

/// A text with one character in place of another.
pub open spec fn with_char(text: Seq<char>, from: char, to: char) -> Seq<char> {
    Seq::new(
        text.len(),
        |i: int|
            if text[i] == from {
                to
            } else {
                text[i]
            },
    )
}

/// A path with slashes in place of backslashes.
pub open spec fn slashed(path: Seq<char>) -> Seq<char> {
    with_char(path, '\\', '/')
}

/// Whether a character is a letter that a drive can have.
pub open spec fn is_letter(c: char) -> bool {
    ('a' <= c && c <= 'z') || ('A' <= c && c <= 'Z')
}

/// Whether a path begins with the name of a drive.
pub open spec fn has_drive(path: Seq<char>) -> bool {
    path.len() >= 2 && is_letter(path[0]) && path[1] == ':'
}

/// Where the part of a path ends that begins at `from`: before the next slash.
pub open spec fn part_end(path: Seq<char>, from: int) -> int
    decreases path.len() - from,
{
    if 0 <= from < path.len() && path[from] != '/' {
        part_end(path, from + 1)
    } else {
        from
    }
}

/// How long the name of a shared directory is that a path begins with: two slashes, the name of a
/// server, a slash and the name of the directory.
pub open spec fn share_len(path: Seq<char>) -> int {
    if path.len() >= 2 && path[0] == '/' && path[1] == '/' {
        let server = part_end(path, 2);
        let end = part_end(path, server + 1);
        if 2 < server < path.len() && server + 1 < end {
            end
        } else {
            0
        }
    } else {
        0
    }
}

/// How long the name of a drive, or of a shared directory, is that a path with slashes begins with.
pub open spec fn prefix_len(path: Seq<char>) -> int {
    if share_len(path) > 0 {
        share_len(path)
    } else if has_drive(path) {
        2
    } else {
        0
    }
}

/// A path behind another one on some system. On Windows, a path that names a drive or a shared
/// directory stands alone, and one that leads from the root stays on the drive.
pub open spec fn joined_on(family: SystemFamily, base: Seq<char>, path: Seq<char>) -> Seq<char> {
    if family == SystemFamily::Windows {
        let start = slashed(base);
        if prefix_len(slashed(path)) > 0 {
            path
        } else if is_absolute(slashed(path)) {
            base.take(prefix_len(start)) + path
        } else if base.len() == 0 || start.last() == '/' || (base.len() == 2 && has_drive(start)) {
            base + path
        } else {
            base + seq!['\\'] + path
        }
    } else {
        joined(base, path)
    }
}

/// The path without its last step, if it has one, on some system. On Windows it is spelled with
/// backslashes.
pub open spec fn parent_on(family: SystemFamily, path: Seq<char>) -> Option<Seq<char>> {
    if family == SystemFamily::Windows {
        let whole = slashed(path);
        let at = prefix_len(whole);
        match parent_of(whole.skip(at)) {
            Some(shorter) => Some(with_char(whole.take(at) + shorter, '/', '\\')),
            None => None,
        }
    } else {
        parent_of(path)
    }
}

/// Whether two letters are the same but for their case.
pub open spec fn same_letter(a: char, b: char) -> bool {
    a == b || (is_letter(a) && is_letter(b) && (a as int == b as int + 32 || b as int == a as int
        + 32))
}

/// Whether two paths with slashes begin with the name of the same drive or of the same shared
/// directory, or with neither.
pub open spec fn same_prefix(a: Seq<char>, b: Seq<char>) -> bool {
    if prefix_len(a) == 2 && prefix_len(b) == 2 {
        same_letter(a[0], b[0])
    } else {
        a.take(prefix_len(a)) == b.take(prefix_len(b))
    }
}

/// Whether a path with slashes leads from the root of a drive or of a shared directory.
pub open spec fn is_rooted(path: Seq<char>) -> bool {
    share_len(path) > 0 || is_absolute(path.skip(prefix_len(path)))
}

/// Whether two paths lead through the same steps on some system.
pub open spec fn same_steps_on(family: SystemFamily, a: Seq<char>, b: Seq<char>) -> bool {
    if family == SystemFamily::Windows {
        let (a, b) = (slashed(a), slashed(b));
        &&& same_prefix(a, b)
        &&& is_rooted(a) == is_rooted(b)
        &&& steps(a.skip(prefix_len(a))) == steps(b.skip(prefix_len(b)))
    } else {
        same_steps(a, b)
    }
}

/// Puts one character in place of another.
fn replace_char(text: &str, from: char, to: char, to_text: &str) -> (turned: String)
    requires
        to_text@ == seq![to],
    ensures
        turned@ == with_char(text@, from, to),
{
    let len: usize = text.unicode_len();
    let mut turned = String::new();
    let ghost whole = with_char(text@, from, to);
    assert(turned@ =~= whole.take(0));
    for i in 0..len
        invariant
            len == text@.len(),
            to_text@ == seq![to],
            whole == with_char(text@, from, to),
            turned@ == whole.take(i as int),
    {
        if text.get_char(i) == from {
            turned.append(to_text);
        } else {
            turned.append(text.substring_char(i, i + 1));
        }
        assert(turned@ =~= whole.take(i + 1));
    }
    assert(whole.take(len as int) =~= whole);
    turned
}

/// Puts slashes in place of backslashes.
fn slash(path: &str) -> (turned: String)
    ensures
        turned@ == slashed(path@),
{
    proof {
        reveal_strlit("/");
        assert("/"@ =~= seq!['/']);
    }
    replace_char(path, '\\', '/', "/")
}

/// Finds where the part of a path ends that begins at `from`.
fn find_part_end(path: &str, from: usize) -> (end: usize)
    requires
        from <= path@.len(),
    ensures
        end == part_end(path@, from as int),
        from <= end <= path@.len(),
{
    let len: usize = path.unicode_len();
    let mut end: usize = from;
    while end < len && path.get_char(end) != '/'
        invariant
            len == path@.len(),
            from <= end <= len,
            part_end(path@, from as int) == part_end(path@, end as int),
        decreases len - end,
    {
        end = end + 1;
    }
    end
}

/// Measures the name of a shared directory that a path with slashes begins with.
fn measure_share(path: &str) -> (len: usize)
    ensures
        len == share_len(path@),
        len <= path@.len(),
{
    let len: usize = path.unicode_len();
    if len < 2 || path.get_char(0) != '/' || path.get_char(1) != '/' {
        return 0;
    }
    let server: usize = find_part_end(path, 2);
    if server == 2 || server == len {
        return 0;
    }
    let end: usize = find_part_end(path, server + 1);
    if end == server + 1 {
        0
    } else {
        end
    }
}

/// Tells whether a path begins with the name of a drive.
fn names_drive(path: &str) -> (drive: bool)
    ensures
        drive == has_drive(path@),
{
    if path.unicode_len() < 2 {
        return false;
    }
    let c: char = path.get_char(0);
    (('a' <= c && c <= 'z') || ('A' <= c && c <= 'Z')) && path.get_char(1) == ':'
}

/// Measures the name of a drive, or of a shared directory, that a path with slashes begins with.
fn measure_prefix(path: &str) -> (len: usize)
    ensures
        len == prefix_len(path@),
        len <= path@.len(),
{
    let share: usize = measure_share(path);
    if share > 0 {
        share
    } else if names_drive(path) {
        2
    } else {
        0
    }
}

/// Puts a path behind another one on some system.
pub fn join_on(family: SystemFamily, base: &str, path: &str) -> (whole: String)
    ensures
        whole@ == joined_on(family, base@, path@),
{
    if family != SystemFamily::Windows {
        return join(base, path);
    }
    let start = slash(base);
    let end = slash(path);
    if measure_prefix(&end) > 0 {
        return path.to_owned();
    }
    let len: usize = base.unicode_len();
    if leads_from_root(&end) {
        let at: usize = measure_prefix(&start);
        let mut whole = base.substring_char(0, at).to_owned();
        assert(whole@ =~= base@.take(at as int));
        whole.append(path);
        return whole;
    }
    let mut whole = base.to_owned();
    if len > 0 && start.as_str().get_char(len - 1) != '/' && !(len == 2 && names_drive(&start)) {
        proof {
            reveal_strlit("\\");
            assert("\\"@ =~= seq!['\\']);
        }
        whole.append("\\");
    }
    whole.append(path);
    whole
}

/// Takes the last step off a path, if it has one, on some system.
pub fn take_parent(family: SystemFamily, path: &str) -> (shorter: Option<String>)
    ensures
        match shorter {
            Some(shorter) => parent_on(family, path@) == Some(shorter@),
            None => parent_on(family, path@) is None,
        },
{
    if family != SystemFamily::Windows {
        return parent(path);
    }
    let whole = slash(path);
    let at: usize = measure_prefix(&whole);
    let len: usize = whole.as_str().unicode_len();
    let rest = whole.as_str().substring_char(at, len);
    assert(rest@ =~= whole@.skip(at as int));
    match parent(rest) {
        Some(up) => {
            let mut shorter = whole.as_str().substring_char(0, at).to_owned();
            assert(shorter@ =~= whole@.take(at as int));
            shorter.append(&up);
            proof {
                reveal_strlit("\\");
                assert("\\"@ =~= seq!['\\']);
            }
            Some(replace_char(&shorter, '/', '\\', "\\"))
        },
        None => None,
    }
}

/// Tells whether two paths with slashes begin with the name of the same drive or of the same shared
/// directory, or with neither.
fn share_prefix(a: &str, b: &str) -> (same: bool)
    ensures
        same == same_prefix(a@, b@),
{
    let left: usize = measure_prefix(a);
    let right: usize = measure_prefix(b);
    if left == 2 && right == 2 {
        let (x, y): (char, char) = (a.get_char(0), b.get_char(0));
        let x_letter: bool = ('a' <= x && x <= 'z') || ('A' <= x && x <= 'Z');
        let y_letter: bool = ('a' <= y && y <= 'z') || ('A' <= y && y <= 'Z');
        x == y || (x_letter && y_letter && (x as u32 == y as u32 + 32 || y as u32 == x as u32 + 32))
    } else {
        let (x, y) = (a.substring_char(0, left), b.substring_char(0, right));
        assert(x@ =~= a@.take(left as int));
        assert(y@ =~= b@.take(right as int));
        same_text(x, y)
    }
}

/// Tells whether two paths lead through the same steps on some system.
pub fn same_path_on(family: SystemFamily, a: &str, b: &str) -> (same: bool)
    ensures
        same == same_steps_on(family, a@, b@),
{
    if family != SystemFamily::Windows {
        return same_path(a, b);
    }
    let (a, b) = (slash(a), slash(b));
    let (a, b) = (a.as_str(), b.as_str());
    let (left, right): (usize, usize) = (measure_prefix(a), measure_prefix(b));
    let x = a.substring_char(left, a.unicode_len());
    let y = b.substring_char(right, b.unicode_len());
    assert(x@ =~= a@.skip(left as int));
    assert(y@ =~= b@.skip(right as int));
    let x_rooted: bool = measure_share(a) > 0 || leads_from_root(x);
    let y_rooted: bool = measure_share(b) > 0 || leads_from_root(y);
    x_rooted == y_rooted && share_prefix(a, b) && have_same_steps(x, y)
}

/// The steps of a path are what stands between its slashes, without what is empty and without the
/// dots. Only a dot with which the path begins is kept.
pub proof fn lemma_steps_are_parts(path: Seq<char>)
    ensures
        ({
            let parts = parts_of(path, '/');
            steps(path) == parts.take(1).filter(|part: Seq<char>| part.len() > 0) + parts.skip(
                1,
            ).filter(|part: Seq<char>| part.len() > 0 && part != seq!['.'])
        }),
{
    lemma_parts_make_the_text(path, '/');
    lemma_steps_among_filter(parts_of(path, '/'));
}

proof fn lemma_steps_among_filter(parts: Seq<Seq<char>>)
    requires
        parts.len() > 0,
    ensures
        steps_among(parts) == parts.take(1).filter(|part: Seq<char>| part.len() > 0) + parts.skip(
            1,
        ).filter(|part: Seq<char>| part.len() > 0 && part != seq!['.']),
    decreases parts.len(),
{
    let is_some = |part: Seq<char>| part.len() > 0;
    let counts = |part: Seq<char>| part.len() > 0 && part != seq!['.'];
    reveal(Seq::filter);
    let head = parts.take(1).filter(is_some);
    let tail = parts.skip(1).filter(counts);
    if parts.len() == 1 {
        assert(parts.drop_last() =~= Seq::empty());
        assert(parts.take(1) =~= parts);
        assert(steps_among(parts.drop_last()) =~= Seq::empty());
        reveal_with_fuel(Seq::filter, 2);
        assert(parts.take(1).drop_last() =~= Seq::empty());
        assert(parts.skip(1) =~= Seq::empty());
        assert(steps_among(parts) =~= head + tail);
    } else {
        let front = parts.drop_last();
        lemma_steps_among_filter(front);
        assert(front.take(1) =~= parts.take(1));
        assert(front.skip(1) =~= parts.skip(1).drop_last());
        assert(parts.skip(1).last() == parts.last());
        assert(steps_among(parts) =~= head + tail);
    }
}

/// Where the part ends that begins at `from`: at the next slash, or at the end.
proof fn lemma_part_end(path: Seq<char>, from: int)
    requires
        0 <= from <= path.len(),
    ensures
        from <= part_end(path, from) <= path.len(),
        forall|i: int| from <= i < part_end(path, from) ==> #[trigger] path[i] != '/',
        part_end(path, from) < path.len() ==> path[part_end(path, from)] == '/',
    decreases path.len() - from,
{
    if from < path.len() && path[from] != '/' {
        lemma_part_end(path, from + 1);
    }
}

/// A path begins with the name of a shared directory if it is two slashes, a name, a slash, and a
/// name, up to the next slash or the end.
pub proof fn lemma_shared_directory(path: Seq<char>) -> (server: int)
    ensures
        share_len(path) > 0 ==> {
            &&& share_len(path) <= path.len()
            &&& path[0] == '/' && path[1] == '/'
            &&& 2 < server < share_len(path) - 1
            &&& path[server] == '/'
            &&& forall|i: int|
                2 <= i < share_len(path) && i != server ==> #[trigger] path[i] != '/'
            &&& share_len(path) < path.len() ==> path[share_len(path)] == '/'
        },
        share_len(path) <= 0 ==> forall|s: int, e: int| !#[trigger] is_share(path, s, e),
{
    if path.len() >= 2 && path[0] == '/' && path[1] == '/' {
        lemma_part_end(path, 2);
        let server = part_end(path, 2);
        if server < path.len() {
            lemma_part_end(path, server + 1);
        }
        let end = part_end(path, server + 1);
        if share_len(path) <= 0 {
            assert forall|s: int, e: int| !#[trigger] is_share(path, s, e) by {
                if is_share(path, s, e) {
                    if server < s {
                        assert(path[server] != '/');
                    } else if s < server {
                        assert(path[s] != '/');
                    }
                    assert(path[s + 1] != '/');
                    assert(server + 1 < end);
                }
            }
        }
        server
    } else {
        0
    }
}

/// Whether a path begins with the name of a server up to `s` and that of a directory up to `e`.
pub open spec fn is_share(path: Seq<char>, s: int, e: int) -> bool {
    &&& path.len() >= e
    &&& path[0] == '/' && path[1] == '/'
    &&& 2 < s < e - 1
    &&& path[s] == '/'
    &&& forall|i: int| 2 <= i < e && i != s ==> #[trigger] path[i] != '/'
}

/// A path that does not lead from a root, behind another one: that one comes first, then at most
/// one separator, then the path. No separator is added behind one, or where there is nothing
/// before it.
pub proof fn lemma_joined_paths(family: SystemFamily, base: Seq<char>, path: Seq<char>)
    requires
        path.len() == 0 || (path[0] != '/' && path[0] != '\\'),
        path.len() < 2 || path[1] != ':',
    ensures
        ({
            let whole = joined_on(family, base, path);
            let separator = if family is Windows {
                '\\'
            } else {
                '/'
            };
            &&& whole == base + path || whole == base + seq![separator] + path
            &&& base.len() == 0 ==> whole == path
            &&& base.len() > 0 && base.last() == '/' ==> whole == base + path
            &&& base.len() > 0 && base.last() == '\\' && family is Windows ==> whole == base + path
            &&& base.len() > 0 && base.last() != '/' && base.last() != '\\' && base.last() != ':'
                ==> whole == base + seq![separator] + path
        }),
{
    assert(base.len() == 0 ==> base + path =~= path);
    if base.len() > 0 {
        assert(slashed(base).last() == slashed(base)[base.len() - 1]);
    }
}

/// A path that leads from the root takes the place of another one. On Windows it stays on the
/// drive or in the shared directory, unless it names one itself.
pub proof fn lemma_joined_roots(family: SystemFamily, base: Seq<char>, path: Seq<char>)
    ensures
        !(family is Windows) && path.len() > 0 && path[0] == '/' ==> joined_on(family, base, path)
            == path,
        family is Windows && path.len() >= 2 && is_letter(path[0]) && path[1] == ':' ==> joined_on(
            family,
            base,
            path,
        ) == path,
        family is Windows && path.len() == 1 && (path[0] == '/' || path[0] == '\\')
            && base.len() >= 2 && is_letter(base[0]) && base[1] == ':' ==> joined_on(
            family,
            base,
            path,
        ) == base.take(2) + path,
        family is Windows && path.len() >= 2 && (path[0] == '/' || path[0] == '\\') && path[1] != '/'
            && path[1] != '\\' && base.len() >= 2 && is_letter(base[0]) && base[1] == ':'
            ==> joined_on(family, base, path) == base.take(2) + path,
{
    if family is Windows && path.len() >= 2 && is_letter(path[0]) {
        assert(slashed(path)[0] == path[0]);
        assert(slashed(path)[1] == if path[1] == '\\' {
            '/'
        } else {
            path[1]
        });
    }
    if family is Windows && base.len() >= 2 && is_letter(base[0]) {
        assert(slashed(base)[0] == base[0]);
        assert(slashed(base)[1] == if base[1] == '\\' {
            '/'
        } else {
            base[1]
        });
    }
    if family is Windows && path.len() >= 1 {
        assert(slashed(path)[0] == if path[0] == '\\' {
            '/'
        } else {
            path[0]
        });
        if path.len() >= 2 {
            assert(slashed(path)[1] == if path[1] == '\\' {
                '/'
            } else {
                path[1]
            });
        }
    }
}

/// How the separators of a Windows path are spelled does not matter.
pub proof fn lemma_same_spelling(a: Seq<char>, b: Seq<char>)
    requires
        a.len() == b.len(),
        forall|i: int|
            0 <= i < a.len() ==> #[trigger] a[i] == b[i] || (a[i] == '/' && b[i] == '\\') || (a[i]
                == '\\' && b[i] == '/'),
    ensures
        same_steps_on(SystemFamily::Windows, a, b),
{
    assert(slashed(a) =~= slashed(b));
}

/// Two Windows paths that differ in nothing but the case of the letter of their drive are the same.
pub proof fn lemma_drive_letters(a: Seq<char>, b: Seq<char>)
    requires
        a.len() == b.len() >= 2,
        a[1] == ':',
        'a' <= a[0] <= 'z',
        b[0] as int == a[0] as int - 32,
        a.skip(1) == b.skip(1),
    ensures
        same_steps_on(SystemFamily::Windows, a, b),
{
    assert forall|i: int| 1 <= i < a.len() implies a[i] == b[i] by {
        assert(a.skip(1)[i - 1] == b.skip(1)[i - 1]);
    }
    let (x, y) = (slashed(a), slashed(b));
    assert(x[0] == a[0] && x[1] == ':');
    assert(y[0] == b[0] && y[1] == ':');
    assert(x.skip(2) =~= y.skip(2));
}

} // verus!
