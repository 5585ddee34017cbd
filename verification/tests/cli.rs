use grleconvert::cli::{
    choose_params, encoded_output, input_kind, is_grle_name, parse_arguments, png_output, Arguments,
    Command, InputKind, ParamChoice,
};
use grleconvert::layer::{LayerParams, LayerType};
use grleconvert::names::{
    base_name_of, extension_of, has_extension, last_component_of, stem_of, with_extension,
};
use grleconvert::text::{find_text, parse_number, split_lines};

fn parse(args: &[&str]) -> Command {
    let mut all = vec!["grleconvert".to_string()];
    all.extend(args.iter().map(|a| a.to_string()));
    parse_arguments(&all)
}

fn arguments(args: &[&str]) -> Arguments {
    match parse(args) {
        Command::Convert(arguments) => arguments,
        other => panic!("{:?}", other),
    }
}

fn chars(s: &str) -> Vec<char> {
    s.chars().collect()
}

#[test]
fn paths_are_input_and_output() {
    let a = arguments(&["in.png", "out.gdm", "more"]);
    assert_eq!(a.input_path, "in.png");
    assert_eq!(a.output_path, Some("out.gdm".to_string()));
    assert_eq!((a.i3d_path, a.channels, a.compress_at, a.type_index), (None, None, None, 0));
}

#[test]
fn options_take_their_values() {
    let a = arguments(&[
        "--i3d", "map.i3d", "--channels", "10", "in.png", "--compress-at", "5", "--type-index", "7",
    ]);
    assert_eq!(a.input_path, "in.png");
    assert_eq!(a.output_path, None);
    assert_eq!(a.i3d_path, Some("map.i3d".to_string()));
    assert_eq!((a.channels, a.compress_at, a.type_index), (Some(10), Some(5), 7));
}

#[test]
fn bad_numbers_count_as_none() {
    let a = arguments(&["x", "--channels", "4", "--channels", "four", "--type-index", "-1"]);
    assert_eq!((a.channels, a.type_index), (None, 0));
}

#[test]
fn option_at_the_end_means_nothing() {
    let a = arguments(&["x", "--i3d"]);
    assert_eq!(a.i3d_path, None);
    let a = arguments(&["x", "--channels"]);
    assert_eq!(a.channels, None);
}

#[test]
fn value_of_an_option_may_look_like_one() {
    let a = arguments(&["x", "--i3d", "--help"]);
    assert_eq!(a.i3d_path, Some("--help".to_string()));
}

#[test]
fn help_comes_before_what_follows() {
    assert!(matches!(parse(&["--help", "--nonsense"]), Command::Help));
    assert!(matches!(parse(&["x", "-h"]), Command::Help));
}

#[test]
fn no_input_is_told() {
    assert!(matches!(parse(&[]), Command::NoInput));
    assert!(matches!(parse_arguments(&Vec::new()), Command::NoInput));
    assert!(matches!(parse(&["--channels", "3"]), Command::NoInput));
}

#[test]
fn unknown_option_is_told() {
    match parse(&["x", "-q", "--help"]) {
        Command::UnknownOption(option) => assert_eq!(option, "-q"),
        other => panic!("{:?}", other),
    }
    assert!(matches!(parse(&["-"]), Command::UnknownOption(_)));
    assert_eq!(arguments(&[""]).input_path, "");
}

#[test]
fn extension_tells_the_kind() {
    assert_eq!(input_kind("a.grle"), InputKind::Grle);
    assert_eq!(input_kind("a.GDM"), InputKind::Gdm);
    assert_eq!(input_kind("a.b.Png"), InputKind::Png);
    assert_eq!(input_kind("a.grle.txt"), InputKind::Unknown);
    assert_eq!(input_kind("png"), InputKind::Unknown);
    assert_eq!(input_kind(".png"), InputKind::Unknown);
    assert_eq!(input_kind("a."), InputKind::Unknown);
    assert!(is_grle_name("out.Grle"));
    assert!(!is_grle_name("grle"));
}

#[test]
fn found_parameters_come_first() {
    let found = LayerParams {
        layer_type: LayerType::GdmLayer,
        num_channels: 9,
        compression_channels: None,
        type_index_channels: 1,
    };
    let a = arguments(&["x.png", "--channels", "4"]);
    assert_eq!(choose_params(Some(found), &a, "x.png", true), ParamChoice::Found(found));
}

#[test]
fn manual_parameters_come_second() {
    let a = arguments(&["x.png", "--channels", "4", "--compress-at", "2", "--type-index", "3"]);
    let params = |layer_type| LayerParams {
        layer_type,
        num_channels: 4,
        compression_channels: Some(2),
        type_index_channels: 3,
    };
    assert_eq!(
        choose_params(None, &a, "x.png", false),
        ParamChoice::Manual(params(LayerType::GdmLayer))
    );
    assert_eq!(
        choose_params(None, &a, "x.png", true),
        ParamChoice::Manual(params(LayerType::InfoLayer))
    );
    assert_eq!(
        choose_params(None, &a, "my_infoLayer_1.png", false),
        ParamChoice::Manual(params(LayerType::InfoLayer))
    );
    assert_eq!(
        choose_params(None, &a, "my_infolayer.png", false),
        ParamChoice::Manual(params(LayerType::GdmLayer))
    );
}

#[test]
fn grle_needs_no_parameters() {
    let a = arguments(&["x.png"]);
    assert_eq!(
        choose_params(None, &a, "x.png", true),
        ParamChoice::Default(LayerParams {
            layer_type: LayerType::InfoLayer,
            num_channels: 1,
            compression_channels: None,
            type_index_channels: 0,
        })
    );
    assert_eq!(choose_params(None, &a, "infoLayer.png", false), ParamChoice::Missing);
}

#[test]
fn decoded_files_are_named_after_the_input() {
    assert_eq!(png_output(&None, "map.v1.gdm"), "map.v1.png");
    assert_eq!(png_output(&Some("out".to_string()), "map.gdm"), "out");
}

#[test]
fn encoded_files_are_named_after_the_input() {
    let out = encoded_output(&None, false, "map.png", LayerType::InfoLayer);
    assert_eq!((out.path.as_str(), out.use_grle), ("map.grle", true));
    let out = encoded_output(&None, false, "map.png", LayerType::GdmLayer);
    assert_eq!((out.path.as_str(), out.use_grle), ("map.gdm", false));
    let asked = Some("dir/out.bin".to_string());
    let out = encoded_output(&asked, false, "map.png", LayerType::InfoLayer);
    assert_eq!((out.path.as_str(), out.use_grle), ("dir/out.bin", false));
    let asked = Some("out.grle".to_string());
    let out = encoded_output(&asked, true, "map.png", LayerType::GdmLayer);
    assert_eq!((out.path.as_str(), out.use_grle), ("out.grle", true));
}

#[test]
fn names_are_split_at_the_last_dot() {
    assert_eq!(stem_of(&chars("a.b.c")), chars("a.b"));
    assert_eq!(extension_of(&chars("a.b.c")), Some(chars("c")));
    assert_eq!(stem_of(&chars(".c")), chars(".c"));
    assert_eq!(extension_of(&chars(".c")), None);
    assert_eq!(extension_of(&chars("c")), None);
    assert_eq!(extension_of(&chars("c.")), Some(Vec::new()));
    assert_eq!(with_extension("c.", ".x"), "c.x");
    assert!(has_extension("a.I3d", "i3D"));
    assert!(!has_extension("a.i3dx", "i3d"));
}

#[test]
fn lines_end_as_in_the_standard_library() {
    for text in ["", "\n", "a", "a\n", "a\nb", "a\r\nb\r", "\r\n\r\n", "a\r\r\nb\n\nc\r\n"] {
        let lines: Vec<String> = split_lines(&chars(text))
            .into_iter()
            .map(|line| line.into_iter().collect())
            .collect();
        let expected: Vec<String> = text.lines().map(|line| line.to_string()).collect();
        assert_eq!(lines, expected);
    }
}

#[test]
fn numbers_are_read_as_in_the_standard_library() {
    for text in ["", "0", "+", "+0", "-0", "12", "0012", "++1", "1+", "18446744073709551615",
        "18446744073709551616", "184467440737095516150", "1 ", "x", "\u{00b2}"]
    {
        assert_eq!(parse_number(&chars(text)), text.parse::<usize>().ok());
    }
}

#[test]
fn text_is_found_at_its_first_place() {
    let text = chars("abcabc");
    assert_eq!(find_text(&text, &chars("bc"), 0), Some(1));
    assert_eq!(find_text(&text, &chars("bc"), 2), Some(4));
    assert_eq!(find_text(&text, &chars("cb"), 0), None);
    assert_eq!(find_text(&text, &chars(""), 6), Some(6));
    assert_eq!(find_text(&text, &chars(""), 7), None);
    assert_eq!(find_text(&text, &chars("abcabca"), 0), None);
}

#[test]
fn base_name_stands_behind_the_last_slash() {
    assert_eq!(base_name_of(&chars("a/b/c.png")), chars("c.png"));
    assert_eq!(base_name_of(&chars("c.png")), chars("c.png"));
    assert_eq!(base_name_of(&chars("a/")), chars(""));
    assert_eq!(base_name_of(&chars("/c")), chars("c"));
}

#[test]
fn last_component_is_that_of_the_standard_library() {
    for path in ["", "/", "//", ".", "./", "..", "a", "a/", "a//", "a/b", "a/.", "a/./", "a/././b/.",
        "a/..", "a/../", "../a", "...", "a/...", ".a", "a/.b/", "/..", "/."]
    {
        let expected = std::path::Path::new(path).file_name().and_then(|n| n.to_str()).map(chars);
        assert_eq!(last_component_of(&chars(path)), expected);
    }
}
