//! What looking up a layer in an i3d file gives.

use crate::i3d::{
    attr_key, attr_number, attr_text, blanks_end, element_at, file_id, id_for, id_in_line,
    info_channels, is_i3d, layer_of, map_line, names_file, params_for, path_at, png_name, refers,
};
use crate::layer::{LayerParams, LayerType};
use crate::names::{file_stem, last_component, leads_to};
use crate::text::{find_from, law_find_from, lines_of, occurs, occurs_at, parsed_number};
use vstd::prelude::*;

verus! {

/// The value of an attribute in a line: it begins behind the first place at which the name of the
/// attribute, an equals sign and a quote stand, and ends before the next quote. Where one of these
/// is missing there is none. Its number is what the value stands for.
pub proof fn law_attributes(line: Seq<char>, name: Seq<char>, i: int, end: int)
    ensures
        !occurs(line, name + "=\""@) ==> attr_text(line, name) is None && attr_number(
            line,
            name,
        ) is None,
        occurs_at(line, name + "=\""@, i) && (forall|j: int|
            0 <= j < i ==> !#[trigger] occurs_at(line, name + "=\""@, j)) ==> {
            &&& i + name.len() + 2 <= end < line.len() && line[end] == '"' && (forall|j: int|
                i + name.len() + 2 <= j < end ==> #[trigger] line[j] != '"') ==> {
                &&& attr_text(line, name) == Some(line.subrange(i + name.len() + 2, end))
                &&& attr_number(line, name) == parsed_number(
                    line.subrange(i + name.len() + 2, end),
                )
            }
            &&& (forall|j: int|
                i + name.len() + 2 <= j < line.len() ==> #[trigger] line[j] != '"') ==> attr_text(
                line,
                name,
            ) is None && attr_number(line, name) is None
        },
{
    reveal_strlit("=\"");
    reveal_strlit("\"");
    let key = name + "=\""@;
    let quote = "\""@;
    assert(quote =~= seq!['"']);
    assert(attr_key(name) == key);
    law_find_from(line, key, 0);
    if occurs_at(line, key, i) && (forall|j: int| 0 <= j < i ==> !#[trigger] occurs_at(line, key, j)) {
        assert(find_from(line, key, 0) == Some(i));
        let from = i + name.len() + 2;
        assert(key.len() == name.len() + 2);
        assert forall|j: int| occurs_at(line, quote, j) <==> 0 <= j < line.len() && line[j] == '"' by {
            if 0 <= j < line.len() {
                let part = line.subrange(j, j + 1);
                assert(part[0] == line[j]);
                if line[j] == '"' {
                    assert(part =~= quote);
                }
                if part == quote {
                    assert(quote[0] == '"');
                }
            }
        }
        law_find_from(line, quote, from);
        if from <= end < line.len() && line[end] == '"' && (forall|j: int|
            from <= j < end ==> #[trigger] line[j] != '"') {
            assert(occurs_at(line, quote, end));
            let found = find_from(line, quote, from)->0;
            assert(occurs_at(line, quote, found) && found <= end);
            assert(line[found] == '"');
            assert(found == end);
            assert(attr_text(line, name) == Some(line.subrange(from, end)));
        }
        if forall|j: int| from <= j < line.len() ==> #[trigger] line[j] != '"' {
            if let Some(found) = find_from(line, quote, from) {
                assert(occurs_at(line, quote, found));
                assert(line[found] == '"');
            }
        }
    }
}

/// An i3d file refers to a density map by the name of a PNG file: the name of the map where it ends
/// so, and else the name with that extension in place of its own.
pub proof fn law_png_name(name: Seq<char>)
    ensures
        png_name(name + seq!['.', 'p', 'n', 'g']) == name + seq!['.', 'p', 'n', 'g'],
        name.len() < 4 || name.skip(name.len() - 4) != seq!['.', 'p', 'n', 'g'] ==> png_name(name)
            == file_stem(name) + seq!['.', 'p', 'n', 'g'],
{
    reveal_strlit(".png");
    let end = seq!['.', 'p', 'n', 'g'];
    assert(".png"@ =~= end);
    let whole = name + end;
    assert(whole.skip(whole.len() - 4) =~= end);
}

proof fn lemma_blanks_end(line: Seq<char>, from: int)
    requires
        0 <= from,
    ensures
        from <= blanks_end(line, from),
        from <= line.len() ==> blanks_end(line, from) <= line.len(),
        forall|j: int|
            from <= j < blanks_end(line, from) ==> #[trigger] line[j] == ' ' || line[j] == '\t',
        blanks_end(line, from) < line.len() ==> line[blanks_end(line, from)] != ' '
            && line[blanks_end(line, from)] != '\t',
    decreases line.len() - from,
{
    if 0 <= from < line.len() && (line[from] == ' ' || line[from] == '\t') {
        lemma_blanks_end(line, from + 1);
    }
}

proof fn lemma_blanks_end_is(line: Seq<char>, from: int, end: int)
    requires
        0 <= from <= end < line.len(),
        forall|j: int| from <= j < end ==> #[trigger] line[j] == ' ' || line[j] == '\t',
        line[end] != ' ' && line[end] != '\t',
    ensures
        blanks_end(line, from) == end,
{
    lemma_blanks_end(line, from);
    let e = blanks_end(line, from);
    if e < end {
        assert(line[e] == ' ' || line[e] == '\t');
    }
}

proof fn lemma_one_character(text: Seq<char>, c: char, j: int)
    ensures
        occurs_at(text, seq![c], j) <==> 0 <= j < text.len() && text[j] == c,
{
    if 0 <= j < text.len() {
        let part = text.subrange(j, j + 1);
        assert(part[0] == text[j]);
        if text[j] == c {
            assert(part =~= seq![c]);
        }
        if part == seq![c] {
            assert(seq![c][0] == c);
        }
    }
}

/// A file element names a file where one of its attributes for a path, in quotes of either kind and
/// with or without blanks around its equals sign, leads to that file.
pub proof fn law_names_file(element: Seq<char>, png: Seq<char>)
    ensures
        names_file(element, png) <==> exists|i: int, sign: int, quote: int, end: int|
            #![trigger occurs_at(element, "filename"@, i), element[sign], element[quote], element[end]]
            {
                &&& occurs_at(element, "filename"@, i)
                &&& i + 8 <= sign < quote < end < element.len()
                &&& forall|j: int|
                    i + 8 <= j < sign ==> #[trigger] element[j] == ' ' || element[j] == '\t'
                &&& element[sign] == '='
                &&& forall|j: int|
                    sign < j < quote ==> #[trigger] element[j] == ' ' || element[j] == '\t'
                &&& element[quote] == '"' || element[quote] == '\''
                &&& forall|j: int|
                    quote < j < end ==> #[trigger] element[j] != element[quote]
                &&& element[end] == element[quote]
                &&& leads_to(element.subrange(quote + 1, end), png)
            },
{
    reveal_strlit("filename");
    if names_file(element, png) {
        let i = choose|i: int|
            0 <= i < element.len() && (#[trigger] path_at(element, i) matches Some(path)
                && leads_to(path, png));
        let sign = blanks_end(element, i + 8);
        let quote = blanks_end(element, sign + 1);
        lemma_blanks_end(element, i + 8);
        lemma_blanks_end(element, sign + 1);
        let mark = seq![element[quote]];
        law_find_from(element, mark, quote + 1);
        let end = find_from(element, mark, quote + 1)->0;
        lemma_one_character(element, element[quote], end);
        assert forall|j: int| quote < j < end implies #[trigger] element[j] != element[quote] by {
            lemma_one_character(element, element[quote], j);
            assert(!occurs_at(element, mark, j));
        }
        assert(occurs_at(element, "filename"@, i));
        assert(leads_to(element.subrange(quote + 1, end), png));
        assert(element[sign] == '=' && element[end] == element[quote]);
    }
    if exists|i: int, sign: int, quote: int, end: int|
        #![trigger occurs_at(element, "filename"@, i), element[sign], element[quote], element[end]]
        {
            &&& occurs_at(element, "filename"@, i)
            &&& i + 8 <= sign < quote < end < element.len()
            &&& forall|j: int|
                i + 8 <= j < sign ==> #[trigger] element[j] == ' ' || element[j] == '\t'
            &&& element[sign] == '='
            &&& forall|j: int|
                sign < j < quote ==> #[trigger] element[j] == ' ' || element[j] == '\t'
            &&& element[quote] == '"' || element[quote] == '\''
            &&& forall|j: int| quote < j < end ==> #[trigger] element[j] != element[quote]
            &&& element[end] == element[quote]
            &&& leads_to(element.subrange(quote + 1, end), png)
        } {
        let (i, sign, quote, end) = choose|i: int, sign: int, quote: int, end: int|
            #![trigger occurs_at(element, "filename"@, i), element[sign], element[quote], element[end]]
            {
                &&& occurs_at(element, "filename"@, i)
                &&& i + 8 <= sign < quote < end < element.len()
                &&& forall|j: int|
                    i + 8 <= j < sign ==> #[trigger] element[j] == ' ' || element[j] == '\t'
                &&& element[sign] == '='
                &&& forall|j: int|
                    sign < j < quote ==> #[trigger] element[j] == ' ' || element[j] == '\t'
                &&& element[quote] == '"' || element[quote] == '\''
                &&& forall|j: int| quote < j < end ==> #[trigger] element[j] != element[quote]
                &&& element[end] == element[quote]
                &&& leads_to(element.subrange(quote + 1, end), png)
            };
        lemma_blanks_end_is(element, i + 8, sign);
        lemma_blanks_end_is(element, sign + 1, quote);
        let mark = seq![element[quote]];
        law_find_from(element, mark, quote + 1);
        lemma_one_character(element, element[quote], end);
        assert(occurs_at(element, mark, end));
        assert(find_from(element, mark, quote + 1) == Some(end)) by {
            let found = find_from(element, mark, quote + 1)->0;
            lemma_one_character(element, element[quote], found);
            if found < end {
                assert(element[found] != element[quote]);
            }
        }
        assert(path_at(element, i) == Some(element.subrange(quote + 1, end)));
    }
}

/// The id that a line gives to a file: its file elements are asked one after the other, each from
/// where it begins to where the next begins, or to the end of the line. The first that names the
/// file and has an id gives it.
pub proof fn law_id_in_line(line: Seq<char>, png: Seq<char>, from: nat, i: int, next: int)
    ensures
        (forall|j: int| from <= j ==> !#[trigger] occurs_at(line, "<File"@, j)) ==> id_in_line(
            line,
            png,
            from,
        ) is None,
        from <= i < next <= line.len() && occurs_at(line, "<File"@, i) && (next == line.len()
            || occurs_at(line, "<File"@, next)) && (forall|j: int|
            from <= j < next && j != i ==> !#[trigger] occurs_at(line, "<File"@, j)) ==> id_in_line(
            line,
            png,
            from,
        ) == (if names_file(line.subrange(i, next), png) && attr_text(
            line.subrange(i, next),
            "fileId"@,
        ) is Some {
            attr_text(line.subrange(i, next), "fileId"@)
        } else {
            id_in_line(line, png, next as nat)
        }),
{
    let tag = "<File"@;
    reveal_strlit("<File");
    law_find_from(line, tag, from as int);
    if from <= i < next <= line.len() && occurs_at(line, tag, i) && (next == line.len()
        || occurs_at(line, tag, next)) && (forall|j: int|
        from <= j < next && j != i ==> !#[trigger] occurs_at(line, tag, j)) {
        assert(find_from(line, tag, from as int) == Some(i));
        law_find_from(line, tag, i + 1);
        law_find_from(line, tag, next as int);
        if next == line.len() {
            assert forall|j: int| next <= j implies !#[trigger] occurs_at(line, tag, j) by {}
            assert(find_from(line, tag, i + 1) is None);
            assert(line.skip(i) =~= line.subrange(i, next));
        } else {
            assert(find_from(line, tag, i + 1) == Some(next));
        }
        assert(element_at(line, i) == line.subrange(i, next));
        assert(find_from(line, tag, i + 1) == find_from(line, tag, next));
        assert(id_in_line(line, png, (i + 1) as nat) == id_in_line(line, png, next as nat));
    }
}

/// The id of a file is that which the first line that gives it one gives it.
pub proof fn law_file_id(lines: Seq<Seq<char>>, png: Seq<char>, n: int)
    ensures
        (forall|i: int| 0 <= i < lines.len() ==> id_in_line(#[trigger] lines[i], png, 0) is None)
            ==> file_id(lines, png) is None,
        0 <= n < lines.len() && id_in_line(lines[n], png, 0) is Some && (forall|i: int|
            0 <= i < n ==> id_in_line(#[trigger] lines[i], png, 0) is None) ==> file_id(lines, png)
            == id_in_line(lines[n], png, 0),
    decreases lines.len(),
{
    if lines.len() > 0 {
        let rest = lines.skip(1);
        law_file_id(rest, png, n - 1);
        if forall|i: int| 0 <= i < lines.len() ==> id_in_line(#[trigger] lines[i], png, 0) is None {
            assert(id_in_line(lines[0], png, 0) is None);
            assert forall|i: int| 0 <= i < rest.len() implies id_in_line(
                #[trigger] rest[i],
                png,
                0,
            ) is None by {
                assert(rest[i] == lines[i + 1]);
            }
        }
        if 0 < n < lines.len() && (forall|i: int|
            0 <= i < n ==> id_in_line(#[trigger] lines[i], png, 0) is None) {
            assert(id_in_line(lines[0], png, 0) is None);
            assert forall|i: int| 0 <= i < n - 1 implies id_in_line(#[trigger] rest[i], png, 0) is None by {
                assert(rest[i] == lines[i + 1]);
            }
            assert(rest[n - 1] == lines[n]);
        }
    }
}

/// A map is looked for under the name that its last component gives it.
pub proof fn law_id_for(content: Seq<char>, path: Seq<char>)
    ensures
        id_for(content, path) == (match last_component(path) {
            Some(name) => file_id(lines_of(content), png_name(name)),
            None => None,
        }),
        id_for(content, path) is None ==> params_for(content, path) is None,
{
}

/// A line refers to a file where it holds the beginning of the element, and the attribute with the
/// whole id in quotes.
pub proof fn law_refers(line: Seq<char>, element: Seq<char>, name: Seq<char>, value: Seq<char>)
    ensures
        refers(line, element, name, value) <==> occurs(line, element) && occurs(
            line,
            name + "=\""@ + value + "\""@,
        ),
{
}

proof fn lemma_info_channels(lines: Seq<Seq<char>>, id: Seq<char>, n: int)
    ensures
        (forall|i: int|
            0 <= i < lines.len() ==> !(refers(#[trigger] lines[i], "<InfoLayer"@, "fileId"@, id)
                && attr_number(lines[i], "numChannels"@) is Some)) ==> info_channels(lines, id) is None,
        0 <= n < lines.len() && refers(lines[n], "<InfoLayer"@, "fileId"@, id) && attr_number(
            lines[n],
            "numChannels"@,
        ) is Some && (forall|i: int|
            0 <= i < n ==> !(refers(#[trigger] lines[i], "<InfoLayer"@, "fileId"@, id)
                && attr_number(lines[i], "numChannels"@) is Some)) ==> info_channels(lines, id)
            == attr_number(lines[n], "numChannels"@),
    decreases lines.len(),
{
    if lines.len() > 0 {
        let rest = lines.skip(1);
        lemma_info_channels(rest, id, n - 1);
        assert forall|i: int| 0 <= i < rest.len() implies #[trigger] rest[i] == lines[i + 1] by {}
        if n > 0 && n < lines.len() {
            assert(rest[n - 1] == lines[n]);
        }
        assert(lines[0] == lines[0]);
    }
}

proof fn lemma_map_line(lines: Seq<Seq<char>>, element: Seq<char>, id: Seq<char>, n: int)
    ensures
        (forall|i: int|
            0 <= i < lines.len() ==> !refers(#[trigger] lines[i], element, "densityMapId"@, id))
            ==> map_line(lines, element, id) is None,
        0 <= n < lines.len() && refers(lines[n], element, "densityMapId"@, id) && (forall|i: int|
            0 <= i < n ==> !refers(#[trigger] lines[i], element, "densityMapId"@, id)) ==> map_line(
            lines,
            element,
            id,
        ) == Some(lines[n]),
    decreases lines.len(),
{
    if lines.len() > 0 {
        let rest = lines.skip(1);
        lemma_map_line(rest, element, id, n - 1);
        assert forall|i: int| 0 <= i < rest.len() implies #[trigger] rest[i] == lines[i + 1] by {}
        if n > 0 && n < lines.len() {
            assert(rest[n - 1] == lines[n]);
        }
        assert(lines[0] == lines[0]);
    }
}

/// The first info layer that refers to a map and says how many channels it has decides, whatever
/// other layers refer to the map. Info layers are not split, and have no number for the engine.
pub proof fn law_info_layer(content: Seq<char>, path: Seq<char>, id: Seq<char>, n: int, channels: usize)
    requires
        id_for(content, path) == Some(id),
        0 <= n < lines_of(content).len(),
        refers(lines_of(content)[n], "<InfoLayer"@, "fileId"@, id),
        attr_number(lines_of(content)[n], "numChannels"@) == Some(channels),
        forall|i: int|
            0 <= i < n ==> !(refers(
                #[trigger] lines_of(content)[i],
                "<InfoLayer"@,
                "fileId"@,
                id,
            ) && attr_number(lines_of(content)[i], "numChannels"@) is Some),
    ensures
        params_for(content, path) == Some(
            (LayerParams {
                layer_type: LayerType::InfoLayer,
                num_channels: channels,
                compression_channels: None,
                type_index_channels: 0,
            }),
        ),
        layer_of(lines_of(content), id) matches Some(found) && found.element is InfoLayer
            && params_for(content, path) == Some(found.params),
{
    lemma_info_channels(lines_of(content), id, n);
}

/// Without an info layer the first detail layer that refers to a map decides. It has the channels
/// and the split that it says, no split where its line does not speak of one, and no number for the
/// engine. Nothing is known of the map where it does not say how many channels it has.
pub proof fn law_detail_layer(content: Seq<char>, path: Seq<char>, id: Seq<char>, n: int)
    requires
        id_for(content, path) == Some(id),
        forall|i: int|
            0 <= i < lines_of(content).len() ==> !(refers(
                #[trigger] lines_of(content)[i],
                "<InfoLayer"@,
                "fileId"@,
                id,
            ) && attr_number(lines_of(content)[i], "numChannels"@) is Some),
        0 <= n < lines_of(content).len(),
        refers(lines_of(content)[n], "<DetailLayer"@, "densityMapId"@, id),
        forall|i: int|
            0 <= i < n ==> !refers(
                #[trigger] lines_of(content)[i],
                "<DetailLayer"@,
                "densityMapId"@,
                id,
            ),
    ensures
        ({
            let line = lines_of(content)[n];
            let channels = attr_number(line, "numDensityMapChannels"@);
            let params = params_for(content, path);
            &&& params is Some <==> channels is Some
            &&& params matches Some(p) ==> {
                &&& p.layer_type is GdmLayer
                &&& Some(p.num_channels) == channels
                &&& p.compression_channels == attr_number(line, "compressionChannels"@)
                &&& !occurs(
                    line,
                    "compressionChannels"@ + "=\""@,
                ) ==> p.compression_channels is None
                &&& p.type_index_channels == 0
            }
            &&& layer_of(lines_of(content), id) matches Some(found) ==> found.element is DetailLayer
                && params == Some(found.params)
        }),
{
    let lines = lines_of(content);
    lemma_info_channels(lines, id, 0);
    lemma_map_line(lines, "<DetailLayer"@, id, n);
    law_attributes(lines[n], "compressionChannels"@, 0, 0);
}

/// Without an info layer and a detail layer the first foliage layer that refers to a map decides.
/// It has the channels, the split and the number for the engine that it says, and zero for the last
/// where it says none. Nothing is known of the map where it does not say how many channels it has.
pub proof fn law_foliage_layer(content: Seq<char>, path: Seq<char>, id: Seq<char>, n: int)
    requires
        id_for(content, path) == Some(id),
        forall|i: int|
            0 <= i < lines_of(content).len() ==> !(refers(
                #[trigger] lines_of(content)[i],
                "<InfoLayer"@,
                "fileId"@,
                id,
            ) && attr_number(lines_of(content)[i], "numChannels"@) is Some) && !refers(
                lines_of(content)[i],
                "<DetailLayer"@,
                "densityMapId"@,
                id,
            ),
        0 <= n < lines_of(content).len(),
        refers(lines_of(content)[n], "<FoliageMultiLayer"@, "densityMapId"@, id),
        forall|i: int|
            0 <= i < n ==> !refers(
                #[trigger] lines_of(content)[i],
                "<FoliageMultiLayer"@,
                "densityMapId"@,
                id,
            ),
    ensures
        ({
            let line = lines_of(content)[n];
            let channels = attr_number(line, "numChannels"@);
            let types = attr_number(line, "numTypeIndexChannels"@);
            let params = params_for(content, path);
            &&& params is Some <==> channels is Some
            &&& params matches Some(p) ==> {
                &&& p.layer_type is GdmLayer
                &&& Some(p.num_channels) == channels
                &&& p.compression_channels == attr_number(line, "compressionChannels"@)
                &&& !occurs(
                    line,
                    "compressionChannels"@ + "=\""@,
                ) ==> p.compression_channels is None
                &&& types matches Some(t) ==> p.type_index_channels == t
                &&& types is None ==> p.type_index_channels == 0
            }
            &&& layer_of(lines_of(content), id) matches Some(found) ==> found.element
                is FoliageMultiLayer && params == Some(found.params)
        }),
{
    let lines = lines_of(content);
    lemma_info_channels(lines, id, 0);
    lemma_map_line(lines, "<DetailLayer"@, id, 0);
    lemma_map_line(lines, "<FoliageMultiLayer"@, id, n);
    law_attributes(lines[n], "compressionChannels"@, 0, 0);
}

/// Nothing is known of a map that no layer refers to.
pub proof fn law_no_layer(content: Seq<char>, path: Seq<char>, id: Seq<char>)
    requires
        id_for(content, path) == Some(id),
        forall|i: int|
            0 <= i < lines_of(content).len() ==> !(refers(
                #[trigger] lines_of(content)[i],
                "<InfoLayer"@,
                "fileId"@,
                id,
            ) && attr_number(lines_of(content)[i], "numChannels"@) is Some) && !refers(
                lines_of(content)[i],
                "<DetailLayer"@,
                "densityMapId"@,
                id,
            ) && !refers(lines_of(content)[i], "<FoliageMultiLayer"@, "densityMapId"@, id),
    ensures
        params_for(content, path) is None,
        layer_of(lines_of(content), id) is None,
{
    let lines = lines_of(content);
    lemma_info_channels(lines, id, 0);
    lemma_map_line(lines, "<DetailLayer"@, id, 0);
    lemma_map_line(lines, "<FoliageMultiLayer"@, id, 0);
}

/// The extension of i3d files, which is told from others by case too.
pub proof fn law_is_i3d(s: String)
    ensures
        is_i3d(Some(s)) <==> s@ == seq!['i', '3', 'd'],
        !is_i3d(None),
{
    reveal_strlit("i3d");
    assert("i3d"@ =~= seq!['i', '3', 'd']);
}

} // verus!
