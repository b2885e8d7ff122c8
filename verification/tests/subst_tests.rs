use rust_cli_quickstart::driver::{
    bin_target_path, rewrite_scaffold, scaffold_path_bytes, ScaffoldRole,
};
use rust_cli_quickstart::names::derive_forms;
use rust_cli_quickstart::subst::replace_all;

#[test]
fn replaces_every_occurrence() {
    let out = replace_all(
        b"use rust_cli_quickstart::run; rust_cli_quickstart!",
        b"rust_cli_quickstart",
        b"my_cool_tool",
    );
    assert_eq!(out, b"use my_cool_tool::run; my_cool_tool!".to_vec());
}

#[test]
fn replaces_tokens_embedded_in_identifiers() {
    let out = replace_all(
        b"fn rust_cli_quickstart_helper()",
        b"rust_cli_quickstart",
        b"tool",
    );
    assert_eq!(out, b"fn tool_helper()".to_vec());
}

#[test]
fn token_free_content_is_unchanged() {
    let out = replace_all(b"nothing to see here", b"rust_cli_quickstart", b"tool");
    assert_eq!(out, b"nothing to see here".to_vec());
}

#[test]
fn substitution_is_confluent_on_substituted_content() {
    let forms = derive_forms(b"my-cool-tool");
    let content = b"use rust_cli_quickstart; struct RustCliQuickStart; x_rust_cli_quickstart_y";
    let once = rewrite_scaffold(content, ScaffoldRole::BinaryEntrypoint, &forms);
    let twice = rewrite_scaffold(&once, ScaffoldRole::BinaryEntrypoint, &forms);
    assert_eq!(twice, once);
    assert_eq!(
        once,
        b"use my_cool_tool; struct MyCoolTool; x_my_cool_tool_y".to_vec()
    );
}

#[test]
fn manifest_rewrites_all_three_tokens() {
    let forms = derive_forms(b"my-cool-tool");
    let content = b"name = \"rust-cli-quickstart\"\nlib = \"rust_cli_quickstart\"\ntype = \"RustCliQuickStart\"\n";
    let out = rewrite_scaffold(content, ScaffoldRole::Manifest, &forms);
    assert_eq!(
        out,
        b"name = \"my-cool-tool\"\nlib = \"my_cool_tool\"\ntype = \"MyCoolTool\"\n".to_vec()
    );
}

#[test]
fn library_root_rewrites_only_the_pascal_token() {
    let forms = derive_forms(b"my-cool-tool");
    let content = b"pub struct RustCliQuickStart; // rust_cli_quickstart stays";
    let out = rewrite_scaffold(content, ScaffoldRole::LibraryRoot, &forms);
    assert_eq!(
        out,
        b"pub struct MyCoolTool; // rust_cli_quickstart stays".to_vec()
    );
}

#[test]
fn readme_gets_no_token_substitution() {
    let forms = derive_forms(b"my-cool-tool");
    let content = b"# rust_cli_quickstart readme";
    let out = rewrite_scaffold(content, ScaffoldRole::Readme, &forms);
    assert_eq!(out, content.to_vec());
}

#[test]
fn binary_entrypoint_relocates_to_snake_named_path() {
    let forms = derive_forms(b"my-cool-tool");
    let target = bin_target_path(&forms.snake);
    assert_eq!(target, b"src/bin/my_cool_tool.rs".to_vec());
    let source = scaffold_path_bytes(ScaffoldRole::BinaryEntrypoint);
    assert_eq!(source, b"src/bin/rust_cli_quickstart.rs".to_vec());
}

#[test]
fn scaffold_paths_are_the_fixed_set() {
    assert_eq!(
        scaffold_path_bytes(ScaffoldRole::LibraryRoot),
        b"src/lib.rs".to_vec()
    );
    assert_eq!(
        scaffold_path_bytes(ScaffoldRole::BenchmarkEntrypoint),
        b"benches/benchmarks.rs".to_vec()
    );
    assert_eq!(
        scaffold_path_bytes(ScaffoldRole::Manifest),
        b"Cargo.toml".to_vec()
    );
    assert_eq!(
        scaffold_path_bytes(ScaffoldRole::EditorConfig),
        b".vscode/launch.json".to_vec()
    );
    assert_eq!(
        scaffold_path_bytes(ScaffoldRole::Readme),
        b"README.md".to_vec()
    );
}

#[test]
fn replacement_overlapping_the_token_can_recreate_it() {
    // A replacement whose text recombines with following bytes into the token
    // is the boundary where confluence stops holding: one pass can leave an
    // occurrence behind, and a second pass still rewrites it.
    let once = replace_all(b"abb", b"ab", b"xa");
    assert_eq!(once, b"xab".to_vec());
    let twice = replace_all(&once, b"ab", b"xa");
    assert_eq!(twice, b"xxa".to_vec());
}
