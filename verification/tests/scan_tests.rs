use voxelshape_conv::scan::blacklist_dirs;
use voxelshape_conv::scan::blockshape_package;
use voxelshape_conv::scan::filter_blockmodels;
use voxelshape_conv::scan::filter_blockstates;
use voxelshape_conv::scan::find_dquots;
use voxelshape_conv::scan::first_non_ws;
use voxelshape_conv::scan::first_ws;
use voxelshape_conv::scan::java_classname_find;
use voxelshape_conv::scan::java_comment_ids;
use voxelshape_conv::scan::java_field_id;
use voxelshape_conv::scan::java_field_ids;
use voxelshape_conv::scan::java_package_find;
use voxelshape_conv::scan::package_into_vec;
use voxelshape_conv::scan::read_quoted_ids;

fn comps(parts: &[&str]) -> Vec<String> {
    parts.iter().map(|p| p.to_string()).collect()
}

#[test]
fn blacklist_holds_the_known_directories() {
    let bl = blacklist_dirs();
    assert_eq!(
        bl,
        vec![".git", ".hg", "build", "gradle", ".gradle", "out", "run", "bin", ".idea", "eclipse"]
    );
}

#[test]
fn blockmodels_filter_wants_models_block() {
    assert!(filter_blockmodels(&comps(&["assets", "models", "block", "x.json"])));
    assert!(filter_blockmodels(&comps(&["models", "block", "x.json"])));
    assert!(!filter_blockmodels(&comps(&["models", "item", "x.json"])));
    assert!(!filter_blockmodels(&comps(&["block", "x.json"])));
    assert!(!filter_blockmodels(&comps(&["x.json"])));
    assert!(!filter_blockmodels(&comps(&[])));
}

#[test]
fn blockstates_filter_wants_blockstates_dir() {
    assert!(filter_blockstates(&comps(&["assets", "blockstates", "y.json"])));
    assert!(filter_blockstates(&comps(&["blockstates", "y.json"])));
    assert!(!filter_blockstates(&comps(&["models", "y.json"])));
    assert!(!filter_blockstates(&comps(&["y.json"])));
}

#[test]
fn package_splits_at_dots() {
    assert_eq!(package_into_vec("com.example.mod"), vec!["com", "example", "mod"]);
    assert_eq!(package_into_vec("single"), vec!["single"]);
    assert_eq!(package_into_vec(""), vec![""]);
    assert_eq!(package_into_vec("a..b"), vec!["a", "", "b"]);
}

#[test]
fn package_find_reads_declaration() {
    let mut out = None;
    let r = java_package_find("package com.example.blocks;", &mut out);
    assert_eq!(r, Some(()));
    assert_eq!(out.as_deref(), Some("com.example.blocks"));
}

#[test]
fn package_find_leaves_out_alone_on_failure() {
    let mut out = Some("kept".to_string());
    let r = java_package_find("import com.example;", &mut out);
    assert!(r.is_none());
    assert_eq!(out.as_deref(), Some("kept"));
    let mut out2 = None;
    assert!(java_package_find("package com.example", &mut out2).is_none());
    assert!(out2.is_none());
}

#[test]
fn classname_find_reads_declaration() {
    let mut out = None;
    let r = java_classname_find("public class StoneBlock extends Block {", &mut out);
    assert_eq!(r, Some(()));
    assert_eq!(out.as_deref(), Some("StoneBlock"));
}

#[test]
fn classname_find_takes_token_to_end() {
    let mut out = None;
    java_classname_find("class Lone", &mut out);
    assert_eq!(out.as_deref(), Some("Lone"));
}

#[test]
fn whitespace_scanning() {
    assert_eq!(first_non_ws("  x"), Some(2));
    assert_eq!(first_non_ws("x"), Some(0));
    assert_eq!(first_non_ws("  \t"), None);
    assert_eq!(first_ws("ab c"), Some(2));
    assert_eq!(first_ws("abc"), Some(3));
    assert_eq!(first_ws(" a"), Some(0));
}

#[test]
fn dquots_finds_first_pair() {
    assert_eq!(find_dquots("a\"b\"c"), Some((1, 3)));
    assert_eq!(find_dquots("\"\""), Some((0, 1)));
    assert_eq!(find_dquots("none"), None);
    assert_eq!(find_dquots("half\""), None);
}

#[test]
fn quoted_ids_reads_each_nonempty_one() {
    assert_eq!(read_quoted_ids("\"a\" \"b\""), Some(vec!["a".to_string(), "b".to_string()]));
    assert_eq!(read_quoted_ids("\"\"\"x\""), Some(vec!["x".to_string()]));
    assert_eq!(read_quoted_ids("nothing"), Some(Vec::new()));
}

#[test]
fn comment_ids_need_their_marker() {
    assert_eq!(
        java_comment_ids("// VSC! BLOCK_ID \"mod:stone\""),
        Some(vec!["mod:stone".to_string()])
    );
    assert!(java_comment_ids("// just a comment").is_none());
}

#[test]
fn field_ids_read_braced_list() {
    assert_eq!(
        java_field_ids("static final String[] VSC_BLOCK_IDS = {\"a\", \"b\"};"),
        Some(vec!["a".to_string(), "b".to_string()])
    );
    assert!(java_field_ids("VSC_BLOCK_IDS = {};").is_none());
    assert!(java_field_ids("VSC_BLOCK_ID = \"a\";").is_none());
}

#[test]
fn field_id_reads_single_assignment() {
    assert_eq!(
        java_field_id("static final String VSC_BLOCK_ID = \"mod:ore\";"),
        Some(vec!["mod:ore".to_string()])
    );
    assert!(java_field_id("VSC_BLOCK_IDS = {\"a\"};").is_none());
    assert!(java_field_id("no marker here").is_none());
}

#[test]
fn blockshape_package_folds_reversed() {
    assert_eq!(blockshape_package("com.example.block"), "blockshape.example.com");
    assert_eq!(blockshape_package("com.example.item"), "blockshape.item.example.com");
}
