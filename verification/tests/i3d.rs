use grleconvert::i3d::{
    extract_attr, look_up_layer, parse_i3d_for_file, search_step, LayerElement, SearchStep,
};
use grleconvert::layer::{LayerParams, LayerType};

const MAP: &str = "<i3D>\n\
  <Files>\n\
    <File fileId=\"11\" filename=\"$data/maps/infoLayer_farmlands.png\"/>\r\n\
    <File filename=\"maps/noId.png\"/>\n\
    <File fileId=\"12\" filename=\"maps/densityMap_ground.png\"/>\n\
    <File fileId=\"13\" filename=\"maps/densityMap_fruits.png\"/>\n\
    <File fileId=\"14\" filename=\"maps/densityMap_height.png\"/>\n\
    <File fileId=\"15\" filename=\"maps/unused.png\"/>\n\
  </Files>\n\
  <DetailLayer densityMapId=\"14\" compressionChannels=\"6\"/>\n\
  <FoliageMultiLayer densityMapId=\"14\" numChannels=\"9\"/>\n\
  <FoliageMultiLayer densityMapId=\"13\" numChannels=\"10\" compressionChannels=\"5\" numTypeIndexChannels=\"7\"/>\n\
  <DetailLayer densityMapId=\"12\" numDensityMapChannels=\"11\" compressionChannels=\"7\"/>\n\
  <InfoLayer fileId=\"111\" numChannels=\"2\"/>\n\
  <InfoLayer fileId=\"11\" numChannels=\"many\"/>\n\
  <InfoLayer fileId=\"11\" numChannels=\"8\"/>\n\
</i3D>";

#[test]
fn attribute_number_is_read() {
    assert_eq!(extract_attr("<InfoLayer numChannels=\"4\" />", "numChannels"), Some(4));
    assert_eq!(extract_attr("a=\"007\"", "a"), Some(7));
    assert_eq!(extract_attr("a=\"+12\"", "a"), Some(12));
    assert_eq!(extract_attr("a=\"18446744073709551615\"", "a"), Some(usize::MAX));
}

#[test]
fn attribute_without_a_number_gives_none() {
    assert_eq!(extract_attr("<InfoLayer />", "numChannels"), None);
    assert_eq!(extract_attr("numChannels=\"4", "numChannels"), None);
    assert_eq!(extract_attr("numChannels=4", "numChannels"), None);
    assert_eq!(extract_attr("a=\"\"", "a"), None);
    assert_eq!(extract_attr("a=\"+\"", "a"), None);
    assert_eq!(extract_attr("a=\"-1\"", "a"), None);
    assert_eq!(extract_attr("a=\" 1\"", "a"), None);
    assert_eq!(extract_attr("a=\"1x\"", "a"), None);
    assert_eq!(extract_attr("a=\"\u{0661}\"", "a"), None);
    assert_eq!(extract_attr("a=\"18446744073709551616\"", "a"), None);
    assert_eq!(extract_attr("a=\"99999999999999999999999\"", "a"), None);
}

#[test]
fn first_attribute_of_the_name_counts() {
    assert_eq!(extract_attr("\u{00e9} n=\"1\" n=\"2\"", "n"), Some(1));
    assert_eq!(extract_attr("n=\"x\" n=\"2\"", "n"), None);
    assert_eq!(extract_attr("<L subChannels=\"3\" Channels=\"5\"/>", "Channels"), Some(3));
}

#[test]
fn info_layer_is_found() {
    let expected = LayerParams {
        layer_type: LayerType::InfoLayer,
        num_channels: 8,
        compression_channels: None,
        type_index_channels: 0,
    };
    assert_eq!(parse_i3d_for_file(MAP, "infoLayer_farmlands.png"), Some(expected));
    assert_eq!(parse_i3d_for_file(MAP, "infoLayer_farmlands.grle"), Some(expected));
    assert_eq!(parse_i3d_for_file(MAP, "infoLayer_farmlands"), Some(expected));
}

#[test]
fn detail_layer_is_found() {
    let found = look_up_layer(MAP, "densityMap_ground.gdm");
    assert_eq!(found.png_name, "densityMap_ground.png");
    assert_eq!(found.file_id, Some("12".to_string()));
    let layer = found.layer.unwrap();
    assert_eq!(layer.element, LayerElement::DetailLayer);
    assert_eq!(
        layer.params,
        LayerParams {
            layer_type: LayerType::GdmLayer,
            num_channels: 11,
            compression_channels: Some(7),
            type_index_channels: 0,
        }
    );
}

#[test]
fn foliage_layer_is_found() {
    let layer = look_up_layer(MAP, "densityMap_fruits.png").layer.unwrap();
    assert_eq!(layer.element, LayerElement::FoliageMultiLayer);
    assert_eq!(
        layer.params,
        LayerParams {
            layer_type: LayerType::GdmLayer,
            num_channels: 10,
            compression_channels: Some(5),
            type_index_channels: 7,
        }
    );
    let bare = "<File fileId=\"3\" filename=\"a.png\"/>\n<FoliageMultiLayer densityMapId=\"3\" numChannels=\"2\"/>";
    assert_eq!(
        parse_i3d_for_file(bare, "a.png"),
        Some(LayerParams {
            layer_type: LayerType::GdmLayer,
            num_channels: 2,
            compression_channels: None,
            type_index_channels: 0,
        })
    );
}

#[test]
fn detail_layer_without_channels_ends_the_search() {
    let found = look_up_layer(MAP, "densityMap_height.png");
    assert_eq!(found.file_id, Some("14".to_string()));
    assert_eq!(found.layer, None);
}

#[test]
fn unknown_files_and_layers_give_none() {
    let missing = look_up_layer(MAP, "other.tar.gz");
    assert_eq!(missing.png_name, "other.tar.png");
    assert_eq!(missing.file_id, None);
    assert_eq!(missing.layer, None);
    let unused = look_up_layer(MAP, "unused.png");
    assert_eq!(unused.file_id, Some("15".to_string()));
    assert_eq!(unused.layer, None);
    assert_eq!(look_up_layer(MAP, "noId.png").file_id, None);
    assert_eq!(parse_i3d_for_file("", "unused.png"), None);
}

#[test]
fn hidden_file_keeps_its_name() {
    assert_eq!(look_up_layer("", ".map").png_name, ".map.png");
    assert_eq!(look_up_layer("", ".png").png_name, ".png");
    assert_eq!(look_up_layer("", "a.PNG").png_name, "a.png");
}

#[test]
fn element_and_name_stand_in_one_line() {
    let split = "<File\n fileId=\"1\" filename=\"a.png\"/>\n<InfoLayer fileId=\"1\" numChannels=\"4\"/>";
    assert_eq!(parse_i3d_for_file(split, "a.png"), None);
}

#[test]
fn search_takes_the_first_i3d_file() {
    let entries: Vec<Option<String>> = vec![
        None,
        Some("I3D".to_string()),
        Some("xml".to_string()),
        Some("i3d".to_string()),
        Some("i3d".to_string()),
    ];
    assert_eq!(search_step(&entries, true), SearchStep::Found(3));
}

#[test]
fn search_goes_up_and_ends_at_the_root() {
    let entries = vec![Some("xml".to_string()), None];
    assert_eq!(search_step(&entries, true), SearchStep::Ascend);
    assert_eq!(search_step(&entries, false), SearchStep::NotFound);
    assert_eq!(search_step(&Vec::new(), true), SearchStep::Ascend);
}

#[test]
fn file_is_found_by_its_whole_base_name() {
    let map = "<File fileId=\"1\" filename=\"a/xfoo.png\"/>\n\
        <File fileId=\"2\" filename=\"a/foo.png\"/>\n\
        <InfoLayer fileId=\"1\" numChannels=\"3\"/>\n\
        <InfoLayer fileId=\"2\" numChannels=\"5\"/>";
    let params = |num_channels| LayerParams {
        layer_type: LayerType::InfoLayer,
        num_channels,
        compression_channels: None,
        type_index_channels: 0,
    };
    assert_eq!(look_up_layer(map, "foo.png").file_id, Some("2".to_string()));
    assert_eq!(parse_i3d_for_file(map, "foo.png"), Some(params(5)));
    assert_eq!(parse_i3d_for_file(map, "xfoo.png"), Some(params(3)));
    assert_eq!(parse_i3d_for_file(map, "oo.png"), None);
    assert_eq!(parse_i3d_for_file(map, ".png"), None);
}

#[test]
fn directories_of_the_file_do_not_count() {
    for path in [
        "foo.png", "/foo.png", "$data/maps/foo.png", "foo.png/foo.png", "maps\\foo.png",
        "c:\\data/maps\\foo.png", "a/b\\/foo.png",
    ] {
        let map = format!("<File fileId=\"9\" filename=\"{}\"/>", path);
        assert_eq!(look_up_layer(&map, "foo.grle").file_id, Some("9".to_string()));
    }
    for path in ["foo.png/bar.png", "foo.png/", "my_foo.png", "foo.png.bak", "maps\\xfoo.png", "foo.png\\"] {
        let map = format!("<File fileId=\"9\" filename=\"{}\"/>", path);
        assert_eq!(look_up_layer(&map, "foo.grle").file_id, None);
    }
}

#[test]
fn name_outside_the_filename_does_not_count() {
    let map = "<File fileId=\"1\" comment=\"foo.png\"/>\n\
        <File fileId=\"2\" comment=\"foo.png\" filename=\"bar.png\"/>\n\
        <File filename=\"foo.png\"/>\n\
        <File filename=\"b/foo.png\" fileId=\"4\"/>";
    assert_eq!(look_up_layer(map, "foo.png").file_id, Some("4".to_string()));
}

#[test]
fn directories_of_the_target_do_not_count() {
    for path in ["foo.grle", "x/foo.grle", "/a/b/foo.png", "x/foo.grle/", "./foo/."] {
        let found = look_up_layer("<File fileId=\"7\" filename=\"d/foo.png\"/>", path);
        assert_eq!(found.png_name, "foo.png");
        assert_eq!(found.file_id, Some("7".to_string()));
    }
}

#[test]
fn path_to_no_file_finds_nothing() {
    let map = "<File fileId=\"7\" filename=\".png\"/>\n<InfoLayer fileId=\"7\" numChannels=\"1\"/>";
    for path in ["", "/", ".", "..", "a/.."] {
        let found = look_up_layer(map, path);
        assert_eq!(found.png_name, "");
        assert_eq!(found.file_id, None);
        assert_eq!(parse_i3d_for_file(map, path), None);
    }
}

#[test]
fn backslashes_part_directories() {
    let map = "<File fileId=\"3\" filename=\"maps\\foo.png\"/>\n<InfoLayer fileId=\"3\" numChannels=\"4\"/>";
    assert_eq!(
        parse_i3d_for_file(map, "foo.png"),
        Some(LayerParams {
            layer_type: LayerType::InfoLayer,
            num_channels: 4,
            compression_channels: None,
            type_index_channels: 0,
        })
    );
}

#[test]
fn id_is_that_of_the_element_which_names_the_file() {
    let map = "<Files><File fileId=\"1\" filename=\"a/bar.png\"/><File fileId=\"2\" filename=\"a/foo.png\"/>\
        <File filename=\"b/baz.png\"/><File filename=\"b/baz.png\" fileId=\"4\"/></Files>";
    assert_eq!(look_up_layer(map, "bar.png").file_id, Some("1".to_string()));
    assert_eq!(look_up_layer(map, "foo.png").file_id, Some("2".to_string()));
    assert_eq!(look_up_layer(map, "baz.png").file_id, Some("4".to_string()));
    assert_eq!(look_up_layer(map, "ar.png").file_id, None);
}

#[test]
fn path_may_stand_in_single_quotes_and_among_blanks() {
    for attribute in [
        "filename='a/foo.png'",
        "filename = \"a/foo.png\"",
        "filename\t=  'foo.png'",
        "filename=\"old.png\" filename=\"foo.png\"",
        "filename=\"it's/foo.png\"",
    ] {
        let map = format!("  <File fileId=\"6\" {}/>", attribute);
        assert_eq!(look_up_layer(&map, "foo.png").file_id, Some("6".to_string()));
    }
}
