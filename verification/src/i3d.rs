//! Looking up in an i3d file how a density map is to be written.

use crate::layer::{LayerParams, LayerType};
use crate::names;
use crate::text;
use vstd::prelude::*;

verus! {

/// What begins the value of an attribute.
pub open spec fn attr_key(name: Seq<char>) -> Seq<char> {
    name + "=\""@
}

/// The text between the quotes behind the first occurrence of an attribute in a line.
pub open spec fn attr_text(line: Seq<char>, name: Seq<char>) -> Option<Seq<char>> {
    match text::find(line, attr_key(name)) {
        Some(i) => {
            let from = i + attr_key(name).len();
            match text::find_from(line, "\""@, from) {
                Some(end) => Some(line.subrange(from, end)),
                None => None,
            }
        },
        None => None,
    }
}

/// The number that an attribute of a line has for its value.
pub open spec fn attr_number(line: Seq<char>, name: Seq<char>) -> Option<usize> {
    match attr_text(line, name) {
        Some(value) => text::parsed_number(value),
        None => None,
    }
}

fn find_attr(line: &Vec<char>, name: &str) -> (value: Option<Vec<char>>)
    ensures
        match value {
            Some(chars) => attr_text(line@, name@) == Some(chars@),
            None => attr_text(line@, name@) is None,
        },
{
    assert(line.len() == line@.len());
    let key: Vec<char> = text::joined(&text::chars_of(name), &text::chars_of("=\""));
    match text::find_text(line, &key, 0) {
        Some(i) => {
            let from: usize = i + key.len();
            match text::find_text(line, &text::chars_of("\""), from) {
                Some(end) => Some(text::part_of(line, from, end)),
                None => None,
            }
        },
        None => None,
    }
}

fn find_number(line: &Vec<char>, name: &str) -> (number: Option<usize>)
    ensures
        number == attr_number(line@, name@),
{
    match find_attr(line, name) {
        Some(value) => text::parse_number(&value),
        None => None,
    }
}

/// Reads the number that an attribute of a line has for its value.
pub fn extract_attr(line: &str, attr_name: &str) -> (number: Option<usize>)
    ensures
        number == attr_number(line@, attr_name@),
{
    find_number(&text::chars_of(line), attr_name)
}

/// The value of an attribute is the text between its quotes: that of the first such attribute of
/// a line, whatever surrounds it.
pub proof fn law_attr_read_back(
    before: Seq<char>,
    name: Seq<char>,
    value: Seq<char>,
    after: Seq<char>,
)
    requires
        !value.contains('"'),
        forall|i: int|
            0 <= i < before.len() ==> !#[trigger] text::occurs_at(
                before + attr_key(name) + value + "\""@ + after,
                attr_key(name),
                i,
            ),
    ensures
        attr_text(before + attr_key(name) + value + "\""@ + after, name) == Some(value),
        attr_number(before + attr_key(name) + value + "\""@ + after, name) == text::parsed_number(
            value,
        ),
{
    reveal_strlit("\"");
    let key = attr_key(name);
    let line = before + key + value + "\""@ + after;
    let start = before.len() as int;
    let from = start + key.len();
    let end = from + value.len();
    assert(line.subrange(start, from) =~= key);
    text::law_find_from(line, key, 0);
    assert(text::occurs_at(line, key, start));
    assert(text::find(line, key) == Some(start));
    assert(line.subrange(end, end + 1) =~= "\""@);
    assert(text::occurs_at(line, "\""@, end));
    text::law_find_from(line, "\""@, from);
    assert forall|i: int| from <= i < end implies !#[trigger] text::occurs_at(line, "\""@, i) by {
        assert(line.subrange(i, i + 1)[0] == value[i - from]);
        assert(value.contains(value[i - from]));
    }
    assert(line.subrange(from, end) =~= value);
}

/// The name under which an i3d file refers to a density map: that of the PNG file that the map was
/// made from.
pub open spec fn png_name(name: Seq<char>) -> Seq<char> {
    let n = name.len() - ".png"@.len();
    if n >= 0 && name.skip(n) == ".png"@ {
        name
    } else {
        names::renamed(name, ".png"@)
    }
}

fn find_png_name(chars: &Vec<char>) -> (found: String)
    ensures
        found@ == png_name(chars@),
{
    let end: Vec<char> = text::chars_of(".png");
    if chars.len() >= end.len() {
        let n: usize = chars.len() - end.len();
        let last: Vec<char> = text::part_of(chars, n, chars.len());
        assert(last@ =~= chars@.skip(n as int));
        if text::same_text(&last, &end) {
            return text::string_of(chars);
        }
    }
    text::string_of(&text::joined(&names::stem_of(chars), &end))
}

/// The first place from `from` on at which `line` holds no blank.
pub open spec fn blanks_end(line: Seq<char>, from: int) -> int
    decreases line.len() - from,
{
    if 0 <= from < line.len() && (line[from] == ' ' || line[from] == '\t') {
        blanks_end(line, from + 1)
    } else {
        from
    }
}

fn skip_blanks(line: &Vec<char>, from: usize) -> (place: usize)
    requires
        from <= line@.len(),
    ensures
        place == blanks_end(line@, from as int),
        from <= place <= line@.len(),
{
    let mut i: usize = from;
    while i < line.len() && (line[i] == ' ' || line[i] == '\t')
        invariant
            from <= i <= line@.len(),
            blanks_end(line@, from as int) == blanks_end(line@, i as int),
        decreases line@.len() - i,
    {
        i = i + 1;
    }
    i
}

/// The path that an attribute at place `i` of an element gives to its file, in quotes of either
/// kind. Blanks may surround the equals sign.
pub open spec fn path_at(element: Seq<char>, i: int) -> Option<Seq<char>> {
    let sign = blanks_end(element, i + "filename"@.len());
    let quote = blanks_end(element, sign + 1);
    if text::occurs_at(element, "filename"@, i) && sign < element.len() && element[sign] == '='
        && quote < element.len() && (element[quote] == '"' || element[quote] == '\'') {
        match text::find_from(element, seq![element[quote]], quote + 1) {
            Some(end) => Some(element.subrange(quote + 1, end)),
            None => None,
        }
    } else {
        None
    }
}

fn read_path_at(element: &Vec<char>, i: usize, key: &Vec<char>) -> (path: Option<Vec<char>>)
    requires
        key@ == "filename"@,
        i <= element@.len(),
    ensures
        match path {
            Some(chars) => path_at(element@, i as int) == Some(chars@),
            None => path_at(element@, i as int) is None,
        },
{
    assert(element.len() == element@.len());
    if key.len() > element.len() - i || !text::is_at(element, key, i) {
        return None;
    }
    let sign: usize = skip_blanks(element, i + key.len());
    if sign == element.len() || element[sign] != '=' {
        return None;
    }
    let quote: usize = skip_blanks(element, sign + 1);
    if quote == element.len() || (element[quote] != '"' && element[quote] != '\'') {
        return None;
    }
    let mark: Vec<char> = text::part_of(element, quote, quote + 1);
    assert(mark@ =~= seq![element@[quote as int]]);
    match text::find_text(element, &mark, quote + 1) {
        Some(end) => Some(text::part_of(element, quote + 1, end)),
        None => None,
    }
}

/// Whether the path of an element leads to a file of the given name.
pub open spec fn names_file(element: Seq<char>, png: Seq<char>) -> bool {
    exists|i: int|
        0 <= i < element.len() && (#[trigger] path_at(element, i) matches Some(path)
            && names::leads_to(path, png))
}

fn find_name(element: &Vec<char>, png: &Vec<char>) -> (named: bool)
    ensures
        named == names_file(element@, png@),
{
    let key: Vec<char> = text::chars_of("filename");
    let mut i: usize = 0;
    while i < element.len()
        invariant
            i <= element@.len(),
            key@ == "filename"@,
            forall|j: int|
                0 <= j < i ==> !(#[trigger] path_at(element@, j) matches Some(path)
                    && names::leads_to(path, png@)),
        decreases element@.len() - i,
    {
        if let Some(path) = read_path_at(element, i, &key) {
            if names::is_path_of(&path, png) {
                return true;
            }
        }
        i = i + 1;
    }
    false
}

/// An element names the file that its path leads to, whatever directories stand in the path and
/// whatever surrounds it.
pub proof fn law_file_directories_are_ignored(
    before: Seq<char>,
    directories: Seq<char>,
    separator: char,
    name: Seq<char>,
    after: Seq<char>,
)
    requires
        !directories.contains('"'),
        !name.contains('"'),
        names::is_separator(separator),
    ensures
        names_file(before + attr_key("filename"@) + name + "\""@ + after, name),
        names_file(
            before + attr_key("filename"@) + (directories.push(separator) + name) + "\""@ + after,
            name,
        ),
{
    let path = directories.push(separator) + name;
    assert forall|i: int| 0 <= i < path.len() implies path[i] != '"' by {
        if i < directories.len() {
            assert(directories.contains(directories[i]));
        } else if i > directories.len() {
            assert(name.contains(name[i - directories.len() - 1]));
        }
    }
    assert(path.skip(directories.len() as int + 1) =~= name);
    assert(name.skip(0) =~= name);
    lemma_path_read_back(before, path, after);
    lemma_path_read_back(before, name, after);
}

proof fn lemma_path_read_back(before: Seq<char>, path: Seq<char>, after: Seq<char>)
    requires
        !path.contains('"'),
    ensures
        before.len() < (before + attr_key("filename"@) + path + "\""@ + after).len(),
        path_at(before + attr_key("filename"@) + path + "\""@ + after, before.len() as int) == Some(
            path,
        ),
{
    reveal_strlit("filename");
    reveal_strlit("=\"");
    reveal_strlit("\"");
    let element = before + attr_key("filename"@) + path + "\""@ + after;
    let i = before.len() as int;
    let quote = i + 9;
    let end = quote + 1 + path.len();
    assert(element.subrange(i, i + 8) =~= "filename"@);
    assert(element[i + 8] == '=' && element[quote] == '"');
    let mark = seq![element[quote]];
    assert(element.subrange(end, end + 1) =~= mark);
    assert(text::occurs_at(element, mark, end));
    text::law_find_from(element, mark, quote + 1);
    assert forall|j: int| quote < j < end implies !#[trigger] text::occurs_at(element, mark, j) by {
        assert(element.subrange(j, j + 1)[0] == path[j - quote - 1]);
        assert(path.contains(path[j - quote - 1]));
    }
    assert(element.subrange(quote + 1, end) =~= path);
}

/// The file element that begins at place `i` of a line: what stands before the next one.
pub open spec fn element_at(line: Seq<char>, i: int) -> Seq<char> {
    match text::find_from(line, "<File"@, i + 1) {
        Some(next) => line.subrange(i, next),
        None => line.skip(i),
    }
}

/// The id of the first file element, of those that begin at `from` or later in a line, which names
/// the given file and has an id.
pub open spec fn id_in_line(line: Seq<char>, png: Seq<char>, from: nat) -> Option<Seq<char>>
    decreases line.len() + 1 - from,
{
    match text::find_from(line, "<File"@, from as int) {
        Some(i) => {
            proof {
                text::law_find_from(line, "<File"@, from as int);
            }
            let id = attr_text(element_at(line, i), "fileId"@);
            if names_file(element_at(line, i), png) && id is Some {
                id
            } else {
                id_in_line(line, png, (i + 1) as nat)
            }
        },
        None => None,
    }
}

fn find_id_in_line(line: &Vec<char>, png: &Vec<char>) -> (id: Option<Vec<char>>)
    ensures
        match id {
            Some(chars) => id_in_line(line@, png@, 0) == Some(chars@),
            None => id_in_line(line@, png@, 0) is None,
        },
{
    let tag: Vec<char> = text::chars_of("<File");
    proof {
        reveal_strlit("<File");
    }
    let mut from: usize = 0;
    assert(line.len() == line@.len());
    while from < line.len()
        invariant
            from <= line@.len() <= usize::MAX,
            tag@ == "<File"@,
            tag@.len() == 5,
            id_in_line(line@, png@, 0) == id_in_line(line@, png@, from as nat),
        decreases line@.len() - from,
    {
        let i: usize = match text::find_text(line, &tag, from) {
            Some(i) => i,
            None => {
                return None;
            },
        };
        let end: usize = match text::find_text(line, &tag, i + 1) {
            Some(next) => next,
            None => line.len(),
        };
        let element: Vec<char> = text::part_of(line, i, end);
        assert(element@ =~= element_at(line@, i as int));
        if find_name(&element, png) {
            let id: Option<Vec<char>> = find_attr(&element, "fileId");
            if id.is_some() {
                return id;
            }
        }
        from = i + 1;
    }
    None
}

/// The id that the lines of an i3d file give to the file of the given name: that of the first file
/// element which names this file, and has an id.
pub open spec fn file_id(lines: Seq<Seq<char>>, png: Seq<char>) -> Option<Seq<char>>
    decreases lines.len(),
{
    if lines.len() == 0 {
        None
    } else {
        let id = id_in_line(lines[0], png, 0);
        if id is Some {
            id
        } else {
            file_id(lines.skip(1), png)
        }
    }
}

fn find_file_id(lines: &Vec<Vec<char>>, png: &str) -> (id: Option<Vec<char>>)
    ensures
        match id {
            Some(chars) => file_id(text::texts(lines@), png@) == Some(chars@),
            None => file_id(text::texts(lines@), png@) is None,
        },
{
    let ghost all = text::texts(lines@);
    let name: Vec<char> = text::chars_of(png);
    let mut i: usize = 0;
    assert(all.skip(0) =~= all);
    while i < lines.len()
        invariant
            i <= lines@.len(),
            all == text::texts(lines@),
            name@ == png@,
            file_id(all, png@) == file_id(all.skip(i as int), png@),
        decreases lines@.len() - i,
    {
        assert(all.skip(i as int).skip(1) =~= all.skip(i + 1));
        let id: Option<Vec<char>> = find_id_in_line(&lines[i], &name);
        if id.is_some() {
            return id;
        }
        i = i + 1;
    }
    None
}

/// Whether a line holds the beginning of an element, and an attribute with the given value.
pub open spec fn refers(line: Seq<char>, element: Seq<char>, name: Seq<char>, value: Seq<char>) -> bool {
    text::occurs(line, element) && text::occurs(line, attr_key(name) + value + "\""@)
}

/// The number of channels of the first info layer that refers to a file and says how many channels
/// it has.
pub open spec fn info_channels(lines: Seq<Seq<char>>, id: Seq<char>) -> Option<usize>
    decreases lines.len(),
{
    if lines.len() == 0 {
        None
    } else if refers(lines[0], "<InfoLayer"@, "fileId"@, id) && attr_number(
        lines[0],
        "numChannels"@,
    ) is Some {
        attr_number(lines[0], "numChannels"@)
    } else {
        info_channels(lines.skip(1), id)
    }
}

fn find_reference(line: &Vec<char>, element: &str, name: &str, value: &Vec<char>) -> (found: bool)
    ensures
        found == refers(line@, element@, name@, value@),
{
    let key: Vec<char> = text::joined(&text::chars_of(name), &text::chars_of("=\""));
    let start: Vec<char> = text::joined(&key, value);
    let whole: Vec<char> = text::joined(&start, &text::chars_of("\""));
    text::has_text(line, &text::chars_of(element)) && text::has_text(line, &whole)
}

fn find_info_channels(lines: &Vec<Vec<char>>, id: &Vec<char>) -> (channels: Option<usize>)
    ensures
        channels == info_channels(text::texts(lines@), id@),
{
    let ghost all = text::texts(lines@);
    let mut i: usize = 0;
    assert(all.skip(0) =~= all);
    while i < lines.len()
        invariant
            i <= lines@.len(),
            all == text::texts(lines@),
            info_channels(all, id@) == info_channels(all.skip(i as int), id@),
        decreases lines@.len() - i,
    {
        assert(all.skip(i as int).skip(1) =~= all.skip(i + 1));
        if find_reference(&lines[i], "<InfoLayer", "fileId", id) {
            let channels: Option<usize> = find_number(&lines[i], "numChannels");
            if channels.is_some() {
                return channels;
            }
        }
        i = i + 1;
    }
    None
}

/// The first line with an element of the given kind that refers to a density map.
pub open spec fn map_line(lines: Seq<Seq<char>>, element: Seq<char>, id: Seq<char>) -> Option<Seq<char>>
    decreases lines.len(),
{
    if lines.len() == 0 {
        None
    } else if refers(lines[0], element, "densityMapId"@, id) {
        Some(lines[0])
    } else {
        map_line(lines.skip(1), element, id)
    }
}

fn find_map_line(lines: &Vec<Vec<char>>, element: &str, id: &Vec<char>) -> (place: Option<usize>)
    ensures
        match place {
            Some(i) => i < lines@.len() && map_line(text::texts(lines@), element@, id@) == Some(
                lines@[i as int]@,
            ),
            None => map_line(text::texts(lines@), element@, id@) is None,
        },
{
    let ghost all = text::texts(lines@);
    let mut i: usize = 0;
    assert(all.skip(0) =~= all);
    while i < lines.len()
        invariant
            i <= lines@.len(),
            all == text::texts(lines@),
            map_line(all, element@, id@) == map_line(all.skip(i as int), element@, id@),
        decreases lines@.len() - i,
    {
        assert(all.skip(i as int).skip(1) =~= all.skip(i + 1));
        if find_reference(&lines[i], element, "densityMapId", id) {
            return Some(i);
        }
        i = i + 1;
    }
    None
}

/// The elements that describe layers.
#[derive(Debug, Clone, Copy, PartialEq, Eq, Structural)]
pub enum LayerElement {
    InfoLayer,
    DetailLayer,
    FoliageMultiLayer,
}

/// A layer as an i3d file describes it.
#[derive(Debug, Clone, Copy, PartialEq, Eq)]
pub struct FoundLayer {
    pub element: LayerElement,
    pub params: LayerParams,
}

/// A layer that a detail layer element describes. Nothing is known of one without a number of
/// channels.
pub open spec fn detail_layer(line: Seq<char>) -> Option<FoundLayer> {
    match attr_number(line, "numDensityMapChannels"@) {
        Some(num_channels) => Some(
            FoundLayer {
                element: LayerElement::DetailLayer,
                params: LayerParams {
                    layer_type: LayerType::GdmLayer,
                    num_channels,
                    compression_channels: attr_number(line, "compressionChannels"@),
                    type_index_channels: 0,
                },
            },
        ),
        None => None,
    }
}

/// A layer that a foliage layer element describes. Nothing is known of one without a number of
/// channels.
pub open spec fn foliage_layer(line: Seq<char>) -> Option<FoundLayer> {
    match attr_number(line, "numChannels"@) {
        Some(num_channels) => Some(
            FoundLayer {
                element: LayerElement::FoliageMultiLayer,
                params: LayerParams {
                    layer_type: LayerType::GdmLayer,
                    num_channels,
                    compression_channels: attr_number(line, "compressionChannels"@),
                    type_index_channels: match attr_number(line, "numTypeIndexChannels"@) {
                        Some(n) => n,
                        None => 0,
                    },
                },
            },
        ),
        None => None,
    }
}

/// The layer that refers to the file of the given id: an info layer if there is one, else the
/// first detail layer, else the first foliage layer.
pub open spec fn layer_of(lines: Seq<Seq<char>>, id: Seq<char>) -> Option<FoundLayer> {
    match info_channels(lines, id) {
        Some(num_channels) => Some(
            FoundLayer {
                element: LayerElement::InfoLayer,
                params: LayerParams {
                    layer_type: LayerType::InfoLayer,
                    num_channels,
                    compression_channels: None,
                    type_index_channels: 0,
                },
            },
        ),
        None => match map_line(lines, "<DetailLayer"@, id) {
            Some(line) => detail_layer(line),
            None => match map_line(lines, "<FoliageMultiLayer"@, id) {
                Some(line) => foliage_layer(line),
                None => None,
            },
        },
    }
}

fn read_detail_layer(line: &Vec<char>) -> (layer: Option<FoundLayer>)
    ensures
        layer == detail_layer(line@),
{
    match find_number(line, "numDensityMapChannels") {
        Some(num_channels) => Some(
            FoundLayer {
                element: LayerElement::DetailLayer,
                params: LayerParams {
                    layer_type: LayerType::GdmLayer,
                    num_channels,
                    compression_channels: find_number(line, "compressionChannels"),
                    type_index_channels: 0,
                },
            },
        ),
        None => None,
    }
}

fn read_foliage_layer(line: &Vec<char>) -> (layer: Option<FoundLayer>)
    ensures
        layer == foliage_layer(line@),
{
    match find_number(line, "numChannels") {
        Some(num_channels) => Some(
            FoundLayer {
                element: LayerElement::FoliageMultiLayer,
                params: LayerParams {
                    layer_type: LayerType::GdmLayer,
                    num_channels,
                    compression_channels: find_number(line, "compressionChannels"),
                    type_index_channels: match find_number(line, "numTypeIndexChannels") {
                        Some(n) => n,
                        None => 0,
                    },
                },
            },
        ),
        None => None,
    }
}

fn find_layer(lines: &Vec<Vec<char>>, id: &Vec<char>) -> (layer: Option<FoundLayer>)
    ensures
        layer == layer_of(text::texts(lines@), id@),
{
    if let Some(num_channels) = find_info_channels(lines, id) {
        return Some(
            FoundLayer {
                element: LayerElement::InfoLayer,
                params: LayerParams {
                    layer_type: LayerType::InfoLayer,
                    num_channels,
                    compression_channels: None,
                    type_index_channels: 0,
                },
            },
        );
    }
    if let Some(i) = find_map_line(lines, "<DetailLayer", id) {
        return read_detail_layer(&lines[i]);
    }
    match find_map_line(lines, "<FoliageMultiLayer", id) {
        Some(i) => read_foliage_layer(&lines[i]),
        None => None,
    }
}

/// What an i3d file says of a density map: the name it is looked for under, the id of that file,
/// and the layer that refers to it. The name is empty where a path leads to no file.
#[derive(Debug)]
pub struct Lookup {
    pub png_name: String,
    pub file_id: Option<String>,
    pub layer: Option<FoundLayer>,
}

/// The id of the file that a density map is looked for under. A path that leads to no file has
/// none.
pub open spec fn id_for(content: Seq<char>, path: Seq<char>) -> Option<Seq<char>> {
    match names::last_component(path) {
        Some(name) => file_id(text::lines_of(content), png_name(name)),
        None => None,
    }
}

/// Looks up what an i3d file says of the density map in the file that a path leads to.
pub fn look_up_layer(content: &str, file_name: &str) -> (found: Lookup)
    ensures
        found.png_name@ == (match names::last_component(file_name@) {
            Some(name) => png_name(name),
            None => Seq::empty(),
        }),
        match id_for(content@, file_name@) {
            Some(id) => {
                &&& found.file_id matches Some(s) && s@ == id
                &&& found.layer == layer_of(text::lines_of(content@), id)
            },
            None => found.file_id is None && found.layer is None,
        },
{
    let name: String = match names::last_component_of(&text::chars_of(file_name)) {
        Some(component) => find_png_name(&component),
        None => {
            return Lookup { png_name: String::new(), file_id: None, layer: None };
        },
    };
    let lines: Vec<Vec<char>> = text::split_lines(&text::chars_of(content));
    match find_file_id(&lines, name.as_str()) {
        Some(id) => Lookup {
            png_name: name,
            file_id: Some(text::string_of(&id)),
            layer: find_layer(&lines, &id),
        },
        None => Lookup { png_name: name, file_id: None, layer: None },
    }
}

/// How the density map in the file that a path leads to is to be written, as an i3d file says.
pub open spec fn params_for(content: Seq<char>, path: Seq<char>) -> Option<LayerParams> {
    match id_for(content, path) {
        Some(id) => match layer_of(text::lines_of(content), id) {
            Some(found) => Some(found.params),
            None => None,
        },
        None => None,
    }
}

/// Reads from an i3d file how the density map in the file that a path leads to is to be written.
pub fn parse_i3d_for_file(content: &str, file_name: &str) -> (params: Option<LayerParams>)
    ensures
        params == params_for(content@, file_name@),
{
    match look_up_layer(content, file_name).layer {
        Some(found) => Some(found.params),
        None => None,
    }
}

/// What to do after a look at a directory in the search for an i3d file.
#[derive(Debug, Clone, Copy, PartialEq, Eq)]
pub enum SearchStep {
    /// Take the entry at this place.
    Found(usize),
    /// Go on in the directory above.
    Ascend,
    /// Give up.
    NotFound,
}

/// Whether an extension is that of i3d files.
pub open spec fn is_i3d(extension: Option<String>) -> bool {
    extension matches Some(s) && s@ == "i3d"@
}

/// Decides how the search for an i3d file goes on from a directory, of which the extensions of the
/// entries are given in the order in which they are listed.
pub fn search_step(extensions: &Vec<Option<String>>, has_parent: bool) -> (step: SearchStep)
    ensures
        match step {
            SearchStep::Found(i) => {
                &&& i < extensions@.len()
                &&& is_i3d(extensions@[i as int])
                &&& forall|j: int| 0 <= j < i ==> !is_i3d(#[trigger] extensions@[j])
            },
            SearchStep::Ascend => {
                &&& has_parent
                &&& forall|j: int| 0 <= j < extensions@.len() ==> !is_i3d(#[trigger] extensions@[j])
            },
            SearchStep::NotFound => {
                &&& !has_parent
                &&& forall|j: int| 0 <= j < extensions@.len() ==> !is_i3d(#[trigger] extensions@[j])
            },
        },
{
    let mut i: usize = 0;
    while i < extensions.len()
        invariant
            i <= extensions@.len(),
            forall|j: int| 0 <= j < i ==> !is_i3d(#[trigger] extensions@[j]),
        decreases extensions@.len() - i,
    {
        if let Some(extension) = &extensions[i] {
            if text::is_text(extension.as_str(), "i3d") {
                return SearchStep::Found(i);
            }
        }
        i = i + 1;
    }
    if has_parent {
        SearchStep::Ascend
    } else {
        SearchStep::NotFound
    }
}

} // verus!
