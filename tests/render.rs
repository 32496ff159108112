use varuna_gen::error::GenError;
use varuna_gen::render::{render, NodeKind, TreeNode};
use varuna_gen::strmap::StrMap;

fn node(path: &[&str], kind: NodeKind) -> TreeNode {
    TreeNode {
        rel_path: path.iter().map(|s| s.to_string()).collect(),
        display: path.join("/"),
        kind,
    }
}

fn file(path: &[&str], text: &str) -> TreeNode {
    node(path, NodeKind::File { content: text.to_string() })
}

fn context() -> StrMap {
    let mut ctx = StrMap::new();
    ctx.insert("id".to_string(), "114514".to_string());
    ctx.insert("hello".to_string(), "114514:1919810".to_string());
    ctx
}

#[test]
fn tree_structure_is_preserved() {
    let nodes = vec![
        file(&["README.md"], "id {{id}}"),
        node(&["src"], NodeKind::Dir),
        file(&["src", "main.c"], "/* {{hello}} */"),
        node(&["src", "inc"], NodeKind::Dir),
        file(&["src", "inc", "{{id}}.h"], "plain"),
    ];
    let out = render(&nodes, &context()).unwrap();
    assert_eq!(out.len(), nodes.len());
    for (a, b) in nodes.iter().zip(out.iter()) {
        assert_eq!(a.rel_path, b.rel_path);
        assert_eq!(a.display, b.display);
    }
    assert_eq!(out[0].kind, NodeKind::File { content: "id 114514".to_string() });
    assert_eq!(out[1].kind, NodeKind::Dir);
    assert_eq!(out[2].kind, NodeKind::File { content: "/* 114514:1919810 */".to_string() });
    assert_eq!(out[3].kind, NodeKind::Dir);
    assert_eq!(out[4].kind, NodeKind::File { content: "plain".to_string() });
}

#[test]
fn render_errors_name_the_file() {
    let nodes = vec![file(&["a.txt"], "ok"), file(&["sub", "b.txt"], "{{missing}}")];
    let r = render(&nodes, &context());
    assert_eq!(r.unwrap_err(), GenError::TemplateRenderError { name: "sub/b.txt".to_string() });
}

#[test]
fn special_files_are_unsupported() {
    let nodes = vec![node(&["dev"], NodeKind::Other)];
    let r = render(&nodes, &context());
    assert_eq!(r.unwrap_err(), GenError::UnsupportedEntry { path: "dev".to_string() });
}
