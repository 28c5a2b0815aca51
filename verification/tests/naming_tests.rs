use voxelshape_conv::emit::Style;
use voxelshape_conv::emit::mkindent;
use voxelshape_conv::naming::ends_with_variant_index;
use voxelshape_conv::naming::fieldify;
use voxelshape_conv::naming::increment_variant_index;
use voxelshape_conv::naming::mcid_to_stem;

#[test]
fn mcid_strips_namespace_and_path() {
    assert_eq!(mcid_to_stem("minecraft:block/stone"), "stone");
    assert_eq!(mcid_to_stem("block/stone"), "stone");
    assert_eq!(mcid_to_stem("stone"), "stone");
    assert_eq!(mcid_to_stem("mod:thing"), "thing");
    assert_eq!(mcid_to_stem("a:b/c/d"), "d");
}

#[test]
fn mcid_of_trailing_slash_is_empty() {
    assert_eq!(mcid_to_stem("block/"), "");
}

#[test]
fn fieldify_keeps_legal_names() {
    assert_eq!(fieldify("stone"), "stone");
    assert_eq!(fieldify("Stone2"), "Stone2");
}

#[test]
fn fieldify_replaces_illegal_characters() {
    assert_eq!(fieldify("3stone"), "nstone");
    assert_eq!(fieldify("my-block.id"), "my_block_id");
    assert_eq!(fieldify("_x"), "nx");
    assert_eq!(fieldify(""), "");
}

#[test]
fn variant_index_detection() {
    assert!(ends_with_variant_index("stone_F0"));
    assert!(ends_with_variant_index("stone_F12"));
    assert!(ends_with_variant_index("_F7"));
    assert!(!ends_with_variant_index("stoneF0"));
    assert!(!ends_with_variant_index("stone_F"));
    assert!(!ends_with_variant_index("stone_0"));
    assert!(!ends_with_variant_index("stone"));
    assert!(!ends_with_variant_index("F0"));
}

#[test]
fn variant_index_increments() {
    let mut s = String::from("stone_F0");
    increment_variant_index(&mut s);
    assert_eq!(s, "stone_F1");

    let mut s = String::from("stone_F9");
    increment_variant_index(&mut s);
    assert_eq!(s, "stone_F10");

    let mut s = String::from("stone_F19");
    increment_variant_index(&mut s);
    assert_eq!(s, "stone_F20");
}

#[test]
fn mkindent_expands_tabs_or_not() {
    let spaces = Style { start_indent_level: 1, tab_width: 4, expand_tab: true };
    assert_eq!(mkindent(2, &spaces), "        ");
    let tabs = Style { start_indent_level: 1, tab_width: 4, expand_tab: false };
    assert_eq!(mkindent(3, &tabs), "\t\t\t");
    assert_eq!(mkindent(0, &spaces), "");
}
