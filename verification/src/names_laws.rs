//! What the names of files are made of.

use crate::names::{
    base_name, extension_is, file_extension, file_stem, last_component, last_place,
    law_directories_are_ignored, leads_to, lower_case, renamed, same_but_case,
};
use vstd::prelude::*;

verus! {

/// A character is found at its last place.
pub proof fn law_last_place(text: Seq<char>, c: char)
    ensures
        match last_place(text, c) {
            Some(i) => 0 <= i < text.len() && text[i] == c && forall|j: int|
                i < j < text.len() ==> #[trigger] text[j] != c,
            None => !text.contains(c),
        },
    decreases text.len(),
{
    if text.len() > 0 && text.last() != c {
        let less = text.drop_last();
        law_last_place(less, c);
        match last_place(less, c) {
            Some(i) => {
                assert forall|j: int| i < j < text.len() implies #[trigger] text[j] != c by {
                    if j < less.len() {
                        assert(less[j] == text[j]);
                    }
                }
            },
            None => {
                assert forall|j: int| 0 <= j < text.len() implies text[j] != c by {
                    if j < less.len() {
                        assert(less.contains(less[j]));
                    }
                }
            },
        }
    }
}

/// The last dot of a name parts its extension from the rest, unless it stands first. Renaming a
/// file puts something else in the place of the dot and the extension.
pub proof fn law_extensions(stem: Seq<char>, extension: Seq<char>, new_extension: Seq<char>)
    requires
        stem.len() > 0,
        !extension.contains('.'),
    ensures
        file_stem(stem.push('.') + extension) == stem,
        file_extension(stem.push('.') + extension) == Some(extension),
        renamed(stem.push('.') + extension, new_extension) == stem + new_extension,
        file_stem(extension) == extension,
        file_extension(extension) is None,
        renamed(extension, new_extension) == extension + new_extension,
        file_stem(seq!['.'] + extension) == seq!['.'] + extension,
        file_extension(seq!['.'] + extension) is None,
        renamed(seq!['.'] + extension, new_extension) == seq!['.'] + extension + new_extension,
{
    let whole = stem.push('.') + extension;
    lemma_dot(stem, extension);
    assert(whole.take(stem.len() as int) =~= stem);
    assert(whole.skip(stem.len() as int + 1) =~= extension);
    law_last_place(extension, '.');
    if let Some(i) = last_place(extension, '.') {
        assert(extension.contains(extension[i]));
    }
    lemma_dot(Seq::empty(), extension);
    assert(Seq::<char>::empty().push('.') + extension =~= seq!['.'] + extension);
}

proof fn lemma_dot(stem: Seq<char>, extension: Seq<char>)
    requires
        !extension.contains('.'),
    ensures
        last_place(stem.push('.') + extension, '.') == Some(stem.len() as int),
{
    let whole = stem.push('.') + extension;
    law_last_place(whole, '.');
    assert(whole[stem.len() as int] == '.');
    match last_place(whole, '.') {
        Some(i) => {
            if i > stem.len() {
                assert(extension.contains(extension[i - stem.len() - 1]));
            }
        },
        None => {
            assert(whole.contains(whole[stem.len() as int]));
        },
    }
}

/// Two characters are the same but for their case where they are the same, or the large and the
/// small form of one letter.
pub proof fn law_cases(a: char, b: char)
    ensures
        lower_case(a) == lower_case(b) <==> {
            ||| a == b
            ||| 'A' <= a <= 'Z' && b as int == a as int + 32
            ||| 'A' <= b <= 'Z' && a as int == b as int + 32
        },
{
}

/// The extension of a name is compared as a whole, character by character, but for case.
pub proof fn law_extension_is(stem: Seq<char>, extension: Seq<char>, expected: Seq<char>)
    requires
        stem.len() > 0,
        !extension.contains('.'),
    ensures
        extension_is(stem.push('.') + extension, expected) <==> {
            &&& extension.len() == expected.len()
            &&& forall|i: int|
                0 <= i < expected.len() ==> {
                    let a = extension[i];
                    let b = #[trigger] expected[i];
                    ||| a == b
                    ||| 'A' <= a <= 'Z' && b as int == a as int + 32
                    ||| 'A' <= b <= 'Z' && a as int == b as int + 32
                }
        },
        !extension_is(extension, expected),
        !extension_is(seq!['.'] + extension, expected),
{
    law_extensions(stem, extension, Seq::empty());
    if same_but_case(extension, expected) {
        assert forall|i: int| 0 <= i < expected.len() implies {
            let a = extension[i];
            let b = #[trigger] expected[i];
            ||| a == b
            ||| 'A' <= a <= 'Z' && b as int == a as int + 32
            ||| 'A' <= b <= 'Z' && a as int == b as int + 32
        } by {
            assert(lower_case(extension[i]) == lower_case(expected[i]));
            law_cases(extension[i], expected[i]);
        }
    }
    if extension.len() == expected.len() && forall|i: int|
        0 <= i < expected.len() ==> {
            let a = extension[i];
            let b = #[trigger] expected[i];
            ||| a == b
            ||| 'A' <= a <= 'Z' && b as int == a as int + 32
            ||| 'A' <= b <= 'Z' && a as int == b as int + 32
        } {
        assert forall|i: int| 0 <= i < extension.len() implies lower_case(#[trigger] extension[i])
            == lower_case(expected[i]) by {
            assert(expected[i] == expected[i]);
            law_cases(extension[i], expected[i]);
        }
    }
}

/// A path leads to a name where it is that name, or where the name stands behind a slash or a
/// backslash at its end.
pub proof fn law_leads_to(path: Seq<char>, name: Seq<char>)
    ensures
        leads_to(path, name) <==> path == name || exists|directories: Seq<char>, c: char|
            path == #[trigger] directories.push(c) + name && (c == '/' || c == '\\'),
{
    let n = path.len() - name.len();
    if leads_to(path, name) {
        if n > 0 {
            let directories = path.take(n - 1);
            let c = path[n - 1];
            assert(path =~= directories.push(c) + path.skip(n));
            assert(path == directories.push(c) + name && (c == '/' || c == '\\'));
        } else {
            assert(path.skip(0) =~= path);
        }
    }
    if path == name {
        assert(path.skip(0) =~= name);
    }
    if exists|directories: Seq<char>, c: char|
        path == #[trigger] directories.push(c) + name && (c == '/' || c == '\\') {
        let (directories, c) = choose|directories: Seq<char>, c: char|
            path == #[trigger] directories.push(c) + name && (c == '/' || c == '\\');
        assert(n == directories.len() + 1);
        assert(path.skip(n) =~= name);
        assert(path[n - 1] == c);
    }
}

/// The last component of a path is the name behind its last slash. A slash at the end, or a dot
/// behind it, does not count, and two dots are no name.
pub proof fn law_last_component(path: Seq<char>, name: Seq<char>)
    requires
        !name.contains('/'),
    ensures
        last_component(Seq::empty()) is None,
        last_component(path.push('/')) == last_component(path),
        last_component(path.push('/').push('.')) == last_component(path),
        last_component(path.push('/').push('.').push('.')) is None,
        name.len() > 0 && name != seq!['.'] && name != seq!['.', '.'] ==> last_component(
            path.push('/') + name,
        ) == Some(name) && last_component(name) == Some(name),
{
    reveal_strlit(".");
    reveal_strlit("..");
    let dot = seq!['.'];
    let dots = seq!['.', '.'];
    assert("."@ =~= dot);
    assert(".."@ =~= dots);
    assert(!dot.contains('/'));
    assert(!dots.contains('/'));
    let slash = path.push('/');
    assert(slash =~= path.push('/') + Seq::<char>::empty());
    law_directories_are_ignored(path, Seq::empty());
    assert(base_name(slash).len() == 0);
    assert(slash.drop_last() =~= path);
    assert(slash.push('.') =~= path.push('/') + dot);
    law_directories_are_ignored(path, dot);
    assert(slash.push('.').drop_last() =~= slash);
    assert(slash.push('.').push('.') =~= path.push('/') + dots);
    law_directories_are_ignored(path, dots);
    law_directories_are_ignored(path, name);
}

} // verus!
