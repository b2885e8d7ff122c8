use rust_cli_quickstart::driver::{render_file, RunError};
use rust_cli_quickstart::render::{manifest_metadata, readme_metadata, render, Metadata};

fn ada_metadata() -> Metadata {
    manifest_metadata(b"A tool", b"Ada", b"Lovelace", b"ada@example.com", b"ada")
}

#[test]
fn renders_named_placeholders() {
    let m = ada_metadata();
    let out = render(b"by {{firstName}} {{lastName}} <{{email}}>", &m).unwrap();
    assert_eq!(out, b"by Ada Lovelace <ada@example.com>".to_vec());
}

#[test]
fn rendering_is_byte_identical_across_runs() {
    let m = ada_metadata();
    let t = b"{{alias}}: {{description}} ({{alias}})";
    let first = render(t, &m).unwrap();
    let second = render(t, &m).unwrap();
    assert_eq!(first, second);
    assert_eq!(first, b"ada: A tool (ada)".to_vec());
}

#[test]
fn missing_field_fails_rendering() {
    let mut m = Metadata::new();
    m.add_field(b"alias".to_vec(), b"ada".to_vec());
    assert!(render(b"{{alias}} wrote {{description}}", &m).is_none());
}

#[test]
fn unknown_placeholder_is_an_error_not_a_blank() {
    let m = ada_metadata();
    assert!(render(b"hello {{nonsuch}}!", &m).is_none());
}

#[test]
fn missing_field_maps_to_missing_template_field_error() {
    let m = Metadata::new();
    match render_file(b"{{description}}", &m) {
        Err(e) => assert_eq!(e, RunError::MissingTemplateField),
        Ok(_) => panic!("rendering with an empty mapping must fail"),
    }
}

#[test]
fn template_without_placeholders_is_unchanged() {
    let m = Metadata::new();
    let out = render(b"plain text { braces } }} alone", &m).unwrap();
    assert_eq!(out, b"plain text { braces } }} alone".to_vec());
}

#[test]
fn empty_template_renders_empty() {
    let m = ada_metadata();
    assert_eq!(render(b"", &m).unwrap(), Vec::<u8>::new());
}

#[test]
fn unterminated_placeholder_is_literal_text() {
    let m = ada_metadata();
    let out = render(b"start {{alias", &m).unwrap();
    assert_eq!(out, b"start {{alias".to_vec());
}

#[test]
fn first_entry_with_a_name_wins() {
    let mut m = Metadata::new();
    m.add_field(b"alias".to_vec(), b"first".to_vec());
    m.add_field(b"alias".to_vec(), b"second".to_vec());
    assert_eq!(render(b"{{alias}}", &m).unwrap(), b"first".to_vec());
}

#[test]
fn manifest_scenario_renders_exact_values() {
    let m = ada_metadata();
    let template = b"description = \"{{description}}\"\nauthors = [\"{{firstName}} {{lastName}} <{{email}}>\"]\nrepository = \"https://example.com/{{alias}}\"\n";
    let out = render(template, &m).unwrap();
    assert_eq!(
        out,
        b"description = \"A tool\"\nauthors = [\"Ada Lovelace <ada@example.com>\"]\nrepository = \"https://example.com/ada\"\n".to_vec()
    );
}

#[test]
fn readme_scenario_renders_title_and_project_name() {
    let m = readme_metadata(b"My Cool Tool", b"ada", b"my_cool_tool", b"A tool");
    let template = b"# {{title}}\n\n{{description}}, by {{alias}}.\nRun `{{projectName}}`.\n";
    let out = render(template, &m).unwrap();
    assert_eq!(
        out,
        b"# My Cool Tool\n\nA tool, by ada.\nRun `my_cool_tool`.\n".to_vec()
    );
}
