use varuna_gen::context::{
    compile_context, logical_name, manifest_text, resolve_with_picks, set_pre_compile_context,
    set_pre_compile_context_with, TemplateEntry,
};
use varuna_gen::error::GenError;
use varuna_gen::strmap::StrMap;

fn map_of(pairs: &[(&str, &str)]) -> StrMap {
    let mut m = StrMap::new();
    for (k, v) in pairs {
        m.insert(k.to_string(), v.to_string());
    }
    m
}

fn example_entries() -> Vec<TemplateEntry> {
    vec![
        TemplateEntry::File {
            path: "example-package/template/hello.txt".to_string(),
            name: Some("hello.txt".to_string()),
            content: "{{id}}:{{serial}}".to_string(),
        },
        TemplateEntry::ChoicePoint {
            path: "example-package/template/test".to_string(),
            name: Some("test".to_string()),
            candidates: vec![
                (
                    "example-package/template/test/testa.txt".to_string(),
                    "testa:{{id}}:{{serial}}".to_string(),
                ),
                (
                    "example-package/template/test/testb.txt".to_string(),
                    "testb:{{id}}:{{serial}}".to_string(),
                ),
            ],
        },
    ]
}

#[test]
fn test_pre_compile_context() {
    let mut context = map_of(&[("id", "114514"), ("serial", "1919810")]);
    let choice = set_pre_compile_context(&example_entries(), &mut context).unwrap();
    assert_eq!(context.get("id").unwrap(), "114514");
    assert_eq!(context.get("serial").unwrap(), "1919810");
    assert_eq!(context.get("hello").unwrap(), "114514:1919810");
    if choice.get("test").unwrap() == "example-package/template/test/testa.txt" {
        assert_eq!(context.get("test").unwrap(), "testa:114514:1919810");
    } else {
        assert_eq!(choice.get("test").unwrap(), "example-package/template/test/testb.txt");
        assert_eq!(context.get("test").unwrap(), "testb:114514:1919810");
    }
}

#[test]
fn fixed_file_renders_into_context() {
    let entries = vec![TemplateEntry::File {
        path: "t/hello.txt".to_string(),
        name: Some("hello.txt".to_string()),
        content: "{{id}}:{{serial}}".to_string(),
    }];
    let mut context = map_of(&[("id", "114514"), ("serial", "1919810")]);
    let choice = set_pre_compile_context(&entries, &mut context).unwrap();
    assert_eq!(context.get("hello").unwrap(), "114514:1919810");
    assert_eq!(choice.get("hello").unwrap(), "t/hello.txt");
    assert_eq!(choice.len(), 1);
}

#[test]
fn explicit_picks_select_each_candidate() {
    for (pick, path, text) in [
        (0usize, "example-package/template/test/testa.txt", "testa:114514:1919810"),
        (1usize, "example-package/template/test/testb.txt", "testb:114514:1919810"),
    ] {
        let mut context = map_of(&[("id", "114514"), ("serial", "1919810")]);
        let choice =
            set_pre_compile_context_with(&example_entries(), &vec![0, pick], &mut context).unwrap();
        assert_eq!(choice.get("test").unwrap(), path);
        assert_eq!(context.get("test").unwrap(), text);
        assert_eq!(choice.get("hello").unwrap(), "example-package/template/hello.txt");
    }
}

#[test]
fn random_choice_is_recorded_in_manifest() {
    for _ in 0..20 {
        let mut context = map_of(&[("id", "114514"), ("serial", "1919810")]);
        let choice = set_pre_compile_context(&example_entries(), &mut context).unwrap();
        let path = choice.get("test").unwrap().clone();
        let text = context.get("test").unwrap().clone();
        let a = path.ends_with("testa.txt") && text == "testa:114514:1919810";
        let b = path.ends_with("testb.txt") && text == "testb:114514:1919810";
        assert!(a != b);
    }
}

#[test]
fn empty_choice_point_is_an_error() {
    let entries = vec![TemplateEntry::ChoicePoint {
        path: "t/empty".to_string(),
        name: Some("empty".to_string()),
        candidates: vec![],
    }];
    let mut context = StrMap::new();
    let r = set_pre_compile_context(&entries, &mut context);
    assert_eq!(r.unwrap_err(), GenError::EmptyChoicePoint { path: "t/empty".to_string() });
    assert_eq!(context.len(), 0);
}

#[test]
fn entry_without_name_is_invalid() {
    let entries = vec![TemplateEntry::File {
        path: "t/bad".to_string(),
        name: None,
        content: String::new(),
    }];
    let r = resolve_with_picks(&entries, &vec![0]);
    assert_eq!(r.err().unwrap(), GenError::InvalidEntry { path: "t/bad".to_string() });
}

#[test]
fn special_entry_is_unsupported() {
    let mut entries = example_entries();
    entries.push(TemplateEntry::Other { path: "t/fifo".to_string() });
    let mut context = StrMap::new();
    let r = set_pre_compile_context(&entries, &mut context);
    assert_eq!(r.unwrap_err(), GenError::UnsupportedEntry { path: "t/fifo".to_string() });
}

#[test]
fn missing_variable_is_a_render_error() {
    let templates = map_of(&[("greeting", "hello {{nobody}}")]);
    let mut context = StrMap::new();
    let r = compile_context(&templates, &mut context);
    assert_eq!(r.unwrap_err(), GenError::TemplateRenderError { name: "greeting".to_string() });
}

#[test]
fn later_templates_see_earlier_results() {
    let templates = map_of(&[("b", "{{a}}-{{x}}"), ("a", "<{{x}}>")]);
    let mut context = map_of(&[("x", "1")]);
    compile_context(&templates, &mut context).unwrap();
    assert_eq!(context.get("a").unwrap(), "<1>");
    assert_eq!(context.get("b").unwrap(), "<1>-1");
    assert_eq!(context.len(), 3);
}

#[test]
fn manifest_round_trips_through_toml() {
    let manifest = map_of(&[
        ("test", "example-package/template/test/testa.txt"),
        ("hello", "example-package/template/hello.txt"),
    ]);
    let text = manifest_text(&manifest).unwrap();
    let parsed: std::collections::BTreeMap<String, String> = toml::from_str(&text).unwrap();
    assert_eq!(parsed.len(), manifest.len());
    for (k, v) in &parsed {
        assert_eq!(manifest.get(k).unwrap(), v);
    }
    let again = map_of(
        &parsed.iter().map(|(k, v)| (k.as_str(), v.as_str())).collect::<Vec<_>>(),
    );
    assert_eq!(manifest_text(&again).unwrap(), text);
}

#[test]
fn keys_are_kept_in_order() {
    let m = map_of(&[("b", "2"), ("a", "1"), ("c", "3"), ("a", "0")]);
    assert_eq!(m.len(), 3);
    assert_eq!(m.key_at(0), "a");
    assert_eq!(m.value_at(0), "0");
    assert_eq!(m.key_at(1), "b");
    assert_eq!(m.key_at(2), "c");
    assert!(m.get("d").is_none());
}

#[test]
fn logical_names_drop_the_extension() {
    assert_eq!(logical_name("hello.txt"), "hello");
    assert_eq!(logical_name("a.tar.gz"), "a");
    assert_eq!(logical_name(".env"), ".env");
    assert_eq!(logical_name(".env.local"), ".env");
    assert_eq!(logical_name("plain"), "plain");
    assert_eq!(logical_name("trailing."), "trailing");
    assert_eq!(logical_name("é.md"), "é");
    assert_eq!(logical_name(""), "");
}
