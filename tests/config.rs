use varuna_gen::config::{
    default_source, default_target, default_target_prefix, default_template, set_context,
    Argument, Config, Package,
};
use varuna_gen::error::GenError;
use varuna_gen::strmap::StrMap;

fn package() -> Package {
    Package {
        name: "example-lab".to_string(),
        version: "1.14.514".to_string(),
        description: "This is an example lab".to_string(),
        authors: vec![],
        source: default_source(),
        template: default_template(),
        target: default_target(),
        target_prefix: default_target_prefix(),
    }
}

fn arg(description: &str, default: Option<&str>) -> Argument {
    Argument { description: description.to_string(), default: default.map(|d| d.to_string()) }
}

#[test]
fn defaults_of_layout() {
    let p = package();
    assert_eq!(p.source, "source");
    assert_eq!(p.template, "template");
    assert_eq!(p.target, "target");
    assert_eq!(p.target_prefix, "target");
}

#[test]
fn all_defaults_need_no_arguments() {
    let config = Config {
        package: package(),
        args: vec![
            ("serial".to_string(), arg("serial number", Some("1919810"))),
            ("term".to_string(), arg("term", Some("spring"))),
        ],
    };
    let ctx = set_context(&config, StrMap::new()).unwrap();
    assert_eq!(ctx.len(), 2);
    assert_eq!(ctx.get("serial").unwrap(), "1919810");
    assert_eq!(ctx.get("term").unwrap(), "spring");
}

#[test]
fn missing_required_argument() {
    let config = Config {
        package: package(),
        args: vec![
            ("id".to_string(), arg("student id", None)),
            ("serial".to_string(), arg("serial number", Some("1919810"))),
        ],
    };
    let r = set_context(&config, StrMap::new());
    assert_eq!(r.err().unwrap(), GenError::MissingRequiredArgument { name: "id".to_string() });
}

#[test]
fn supplied_arguments_override_defaults() {
    let config = Config {
        package: package(),
        args: vec![
            ("id".to_string(), arg("student id", None)),
            ("serial".to_string(), arg("serial number", Some("1919810"))),
        ],
    };
    let mut supplied = StrMap::new();
    supplied.insert("id".to_string(), "114514".to_string());
    supplied.insert("serial".to_string(), "42".to_string());
    supplied.insert("extra".to_string(), "ignored".to_string());
    let ctx = set_context(&config, supplied).unwrap();
    assert_eq!(ctx.len(), 2);
    assert_eq!(ctx.get("id").unwrap(), "114514");
    assert_eq!(ctx.get("serial").unwrap(), "42");
    assert!(ctx.get("extra").is_none());
}
