//! Names of files.

use crate::text;
use vstd::prelude::*;

verus! {

/// The last place of a character in a text.
pub open spec fn last_place(text: Seq<char>, c: char) -> Option<int>
    decreases text.len(),
{
    if text.len() == 0 {
        None
    } else if text.last() == c {
        Some(text.len() - 1)
    } else {
        last_place(text.drop_last(), c)
    }
}

/// The part of a file's name before its extension: what stands before the last dot. A name without
/// a dot, or with one at its beginning alone, has no extension.
pub open spec fn file_stem(name: Seq<char>) -> Seq<char> {
    match last_place(name, '.') {
        Some(dot) => if dot > 0 {
            name.take(dot)
        } else {
            name
        },
        None => name,
    }
}

/// The extension of a file's name: what stands behind the last dot.
pub open spec fn file_extension(name: Seq<char>) -> Option<Seq<char>> {
    match last_place(name, '.') {
        Some(dot) => if dot > 0 {
            Some(name.skip(dot + 1))
        } else {
            None
        },
        None => None,
    }
}

/// Finds the last place of a character in a text.
pub fn find_last(chars: &Vec<char>, c: char) -> (place: Option<usize>)
    ensures
        match place {
            Some(i) => last_place(chars@, c) == Some(i as int) && i < chars@.len(),
            None => last_place(chars@, c) is None,
        },
{
    let mut end: usize = chars.len();
    assert(chars@.take(end as int) =~= chars@);
    while end > 0
        invariant
            end <= chars@.len(),
            last_place(chars@, c) == last_place(chars@.take(end as int), c),
        decreases end,
    {
        let ghost start = chars@.take(end as int);
        assert(start.last() == chars@[end - 1]);
        assert(start.drop_last() =~= chars@.take(end - 1));
        if chars[end - 1] == c {
            return Some(end - 1);
        }
        end = end - 1;
    }
    None
}

/// Whether a character parts the components of a path in an i3d file.
pub open spec fn is_separator(c: char) -> bool {
    c == '/' || c == '\\'
}

/// Whether a path in an i3d file leads to a file of the given name: the path is the name, or ends
/// with it behind a separator.
pub open spec fn leads_to(path: Seq<char>, name: Seq<char>) -> bool {
    let n = path.len() - name.len();
    n >= 0 && path.skip(n) == name && (n > 0 ==> is_separator(path[n - 1]))
}

/// Whether a path in an i3d file leads to a file of the given name.
pub fn is_path_of(path: &Vec<char>, name: &Vec<char>) -> (leads: bool)
    ensures
        leads == leads_to(path@, name@),
{
    if path.len() < name.len() {
        return false;
    }
    let n: usize = path.len() - name.len();
    let end: Vec<char> = text::part_of(path, n, path.len());
    assert(end@ =~= path@.skip(n as int));
    text::same_text(&end, name) && (n == 0 || path[n - 1] == '/' || path[n - 1] == '\\')
}

/// A path leads to one name without separators, and no other.
pub proof fn law_one_name(path: Seq<char>, a: Seq<char>, b: Seq<char>)
    requires
        leads_to(path, a),
        leads_to(path, b),
        forall|i: int| 0 <= i < a.len() ==> !is_separator(#[trigger] a[i]),
        forall|i: int| 0 <= i < b.len() ==> !is_separator(#[trigger] b[i]),
    ensures
        a == b,
{
    let m = path.len() - a.len();
    let n = path.len() - b.len();
    if m < n {
        assert(path.skip(m)[n - 1 - m] == path[n - 1]);
        assert(!is_separator(a[n - 1 - m]));
    } else if n < m {
        assert(path.skip(n)[m - 1 - n] == path[m - 1]);
        assert(!is_separator(b[m - 1 - n]));
    }
}

/// The text behind the last slash of a path.
pub open spec fn base_name(path: Seq<char>) -> Seq<char> {
    match last_place(path, '/') {
        Some(slash) => path.skip(slash + 1),
        None => path,
    }
}

/// The text behind the last slash of a path.
pub fn base_name_of(path: &Vec<char>) -> (name: Vec<char>)
    ensures
        name@ == base_name(path@),
{
    assert(path.len() == path@.len());
    let start: usize = match find_last(path, '/') {
        Some(slash) => slash + 1,
        None => 0,
    };
    let name: Vec<char> = text::part_of(path, start, path.len());
    assert(name@ =~= base_name(path@));
    name
}

/// The last component of a path. Slashes at the end, and the components that stand for the
/// directory itself, do not count. A path that ends with the directory above has none.
pub open spec fn last_component(path: Seq<char>) -> Option<Seq<char>>
    decreases path.len(),
{
    let name = base_name(path);
    if path.len() == 0 {
        None
    } else if name.len() == 0 || name == "."@ {
        last_component(path.drop_last())
    } else if name == ".."@ {
        None
    } else {
        Some(name)
    }
}

/// The last component of a path.
pub fn last_component_of(path: &Vec<char>) -> (component: Option<Vec<char>>)
    ensures
        match component {
            Some(name) => last_component(path@) == Some(name@),
            None => last_component(path@) is None,
        },
{
    let dot: Vec<char> = text::chars_of(".");
    let dots: Vec<char> = text::chars_of("..");
    let mut end: usize = path.len();
    assert(path@.take(end as int) =~= path@);
    while end > 0
        invariant
            end <= path@.len(),
            dot@ == "."@,
            dots@ == ".."@,
            last_component(path@) == last_component(path@.take(end as int)),
        decreases end,
    {
        let start: Vec<char> = text::part_of(path, 0, end);
        assert(start@ =~= path@.take(end as int));
        assert(start@.drop_last() =~= path@.take(end - 1));
        let name: Vec<char> = base_name_of(&start);
        if name.len() > 0 && !text::same_text(&name, &dot) {
            return if text::same_text(&name, &dots) {
                None
            } else {
                Some(name)
            };
        }
        end = end - 1;
    }
    None
}

proof fn lemma_last_place_of_suffix(before: Seq<char>, c: char, after: Seq<char>)
    requires
        !after.contains(c),
    ensures
        last_place(before.push(c) + after, c) == Some(before.len() as int),
    decreases after.len(),
{
    let whole = before.push(c) + after;
    if after.len() == 0 {
        assert(whole =~= before.push(c));
    } else {
        assert(after.contains(after.last()));
        let shorter = after.drop_last();
        assert forall|i: int| 0 <= i < shorter.len() implies shorter[i] != c by {
            assert(after.contains(after[i]));
        }
        lemma_last_place_of_suffix(before, c, shorter);
        assert(whole.drop_last() =~= before.push(c) + shorter);
    }
}

/// The directories before a name do not count: a path and the name behind its last slash have the
/// same last component.
pub proof fn law_directories_are_ignored(directories: Seq<char>, name: Seq<char>)
    requires
        !name.contains('/'),
    ensures
        base_name(directories.push('/') + name) == name,
        base_name(name) == name,
        name.len() > 0 && name != "."@ ==> last_component(directories.push('/') + name)
            == last_component(name),
{
    lemma_last_place_of_suffix(directories, '/', name);
    assert((directories.push('/') + name).skip(directories.len() as int + 1) =~= name);
    lemma_absent(name, '/');
}

proof fn lemma_absent(text: Seq<char>, c: char)
    requires
        !text.contains(c),
    ensures
        last_place(text, c) is None,
    decreases text.len(),
{
    if text.len() > 0 {
        assert(text.contains(text.last()));
        let shorter = text.drop_last();
        assert forall|i: int| 0 <= i < shorter.len() implies shorter[i] != c by {
            assert(text.contains(text[i]));
        }
        lemma_absent(shorter, c);
    }
}

/// The part of a file's name before its extension.
pub fn stem_of(name: &Vec<char>) -> (stem: Vec<char>)
    ensures
        stem@ == file_stem(name@),
{
    let end: usize = match find_last(name, '.') {
        Some(dot) => if dot > 0 {
            dot
        } else {
            name.len()
        },
        None => name.len(),
    };
    let stem: Vec<char> = text::part_of(name, 0, end);
    assert(stem@ =~= file_stem(name@));
    stem
}

/// The extension of a file's name.
pub fn extension_of(name: &Vec<char>) -> (extension: Option<Vec<char>>)
    ensures
        match extension {
            Some(chars) => file_extension(name@) == Some(chars@),
            None => file_extension(name@) is None,
        },
{
    assert(name.len() == name@.len());
    match find_last(name, '.') {
        Some(dot) => if dot > 0 {
            let chars: Vec<char> = text::part_of(name, dot + 1, name.len());
            assert(chars@ =~= name@.skip(dot + 1));
            Some(chars)
        } else {
            None
        },
        None => None,
    }
}

/// A file's name with another extension, which is given with its dot.
pub open spec fn renamed(name: Seq<char>, extension: Seq<char>) -> Seq<char> {
    file_stem(name) + extension
}

/// A file's name with another extension, which is given with its dot.
pub fn with_extension(name: &str, extension: &str) -> (new_name: String)
    ensures
        new_name@ == renamed(name@, extension@),
{
    let stem: Vec<char> = stem_of(&text::chars_of(name));
    text::string_of(&text::joined(&stem, &text::chars_of(extension)))
}

/// An ASCII letter in lower case, and any other character as it is.
pub open spec fn lower_case(c: char) -> char {
    if 'A' <= c <= 'Z' {
        (c as u8 + 32) as u8 as char
    } else {
        c
    }
}

/// Whether two texts are the same but for the case of ASCII letters.
pub open spec fn same_but_case(a: Seq<char>, b: Seq<char>) -> bool {
    a.len() == b.len() && forall|i: int|
        0 <= i < a.len() ==> lower_case(#[trigger] a[i]) == lower_case(b[i])
}

fn to_lower_case(c: char) -> (lower: char)
    ensures
        lower == lower_case(c),
{
    if 'A' <= c && c <= 'Z' {
        (c as u8 + 32) as char
    } else {
        c
    }
}

/// Whether the extension of a file's name is the given one, in upper or lower case.
pub open spec fn extension_is(name: Seq<char>, extension: Seq<char>) -> bool {
    match file_extension(name) {
        Some(found) => same_but_case(found, extension),
        None => false,
    }
}

/// Whether the extension of a file's name is the given one, in upper or lower case.
pub fn has_extension(name: &str, extension: &str) -> (same: bool)
    ensures
        same == extension_is(name@, extension@),
{
    let found: Vec<char> = match extension_of(&text::chars_of(name)) {
        Some(chars) => chars,
        None => {
            return false;
        },
    };
    let expected: Vec<char> = text::chars_of(extension);
    if found.len() != expected.len() {
        return false;
    }
    let mut i: usize = 0;
    while i < found.len()
        invariant
            i <= found@.len(),
            found@.len() == expected@.len(),
            expected@ == extension@,
            file_extension(name@) == Some(found@),
            forall|j: int| 0 <= j < i ==> lower_case(#[trigger] found@[j]) == lower_case(expected@[j]),
        decreases found@.len() - i,
    {
        if to_lower_case(found[i]) != to_lower_case(expected[i]) {
            assert(lower_case(found@[i as int]) != lower_case(expected@[i as int]));
            return false;
        }
        i = i + 1;
    }
    true
}

} // verus!
