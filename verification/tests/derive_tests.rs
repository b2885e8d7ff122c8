use rust_cli_quickstart::names::derive_forms;

fn forms(name: &str) -> (String, String, String, String) {
    let f = derive_forms(name.as_bytes());
    (
        String::from_utf8(f.snake).unwrap(),
        String::from_utf8(f.pascal).unwrap(),
        String::from_utf8(f.title).unwrap(),
        String::from_utf8(f.kebab).unwrap(),
    )
}

#[test]
fn derives_all_four_forms_from_kebab_name() {
    let (snake, pascal, title, kebab) = forms("my-cool-tool");
    assert_eq!(snake, "my_cool_tool");
    assert_eq!(pascal, "MyCoolTool");
    assert_eq!(title, "My Cool Tool");
    assert_eq!(kebab, "my-cool-tool");
}

#[test]
fn derives_from_camel_case_name() {
    let (snake, pascal, title, kebab) = forms("RustCliQuickStart");
    assert_eq!(snake, "rust_cli_quick_start");
    assert_eq!(pascal, "RustCliQuickStart");
    assert_eq!(title, "Rust Cli Quick Start");
    assert_eq!(kebab, "rust-cli-quick-start");
}

#[test]
fn derives_from_spaced_name() {
    let (snake, pascal, title, kebab) = forms("hello brave world");
    assert_eq!(snake, "hello_brave_world");
    assert_eq!(pascal, "HelloBraveWorld");
    assert_eq!(title, "Hello Brave World");
    assert_eq!(kebab, "hello-brave-world");
}

#[test]
fn empty_name_yields_empty_forms() {
    let (snake, pascal, title, kebab) = forms("");
    assert_eq!(snake, "");
    assert_eq!(pascal, "");
    assert_eq!(title, "");
    assert_eq!(kebab, "");
}

#[test]
fn name_with_no_letters_yields_empty_forms() {
    let (snake, pascal, title, kebab) = forms("--- !!");
    assert_eq!(snake, "");
    assert_eq!(pascal, "");
    assert_eq!(title, "");
    assert_eq!(kebab, "");
}

#[test]
fn uppercase_run_splits_before_trailing_word() {
    let (snake, pascal, title, kebab) = forms("FOOBar");
    assert_eq!(snake, "foo_bar");
    assert_eq!(pascal, "FooBar");
    assert_eq!(title, "Foo Bar");
    assert_eq!(kebab, "foo-bar");
}

#[test]
fn digits_stay_inside_their_word() {
    let (snake, pascal, title, kebab) = forms("utf8 codec");
    assert_eq!(snake, "utf8_codec");
    assert_eq!(pascal, "Utf8Codec");
    assert_eq!(title, "Utf8 Codec");
    assert_eq!(kebab, "utf8-codec");
}

#[test]
fn word_content_is_identical_across_forms() {
    let f = derive_forms(b"my-cool-tool");
    let from_snake = derive_forms(&f.snake);
    let from_pascal = derive_forms(&f.pascal);
    let from_title = derive_forms(&f.title);
    let from_kebab = derive_forms(&f.kebab);
    for g in [from_snake, from_pascal, from_title, from_kebab] {
        assert_eq!(g.snake, f.snake);
        assert_eq!(g.pascal, f.pascal);
        assert_eq!(g.title, f.title);
        assert_eq!(g.kebab, f.kebab);
    }
}

#[test]
fn rederiving_from_each_separator_form_is_idempotent() {
    for name in ["SomeMixed name-With_everything", "a-b-c", "Xyz9 Q8w"] {
        let f = derive_forms(name.as_bytes());
        let again = derive_forms(&f.snake);
        assert_eq!(again.snake, f.snake);
        assert_eq!(again.pascal, f.pascal);
        assert_eq!(again.title, f.title);
        assert_eq!(again.kebab, f.kebab);
    }
}
