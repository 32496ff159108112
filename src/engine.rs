use vstd::prelude::*;
use crate::strmap::StrMap;
use rand::Rng;

verus! {

/// What the template engine produces when the template `name`, among the
/// named template sources `templates`, is rendered against `ctx`; `None`
/// where a source is malformed, `name` is not among them, or a variable that
/// the template reads is missing from `ctx`.
pub uninterp spec fn rendered(
    templates: Map<Seq<char>, Seq<char>>,
    name: Seq<char>,
    ctx: Map<Seq<char>, Seq<char>>,
) -> Option<Seq<char>>;

/// Relies on minijinja's `Environment` (`add_template_owned`, `get_template`,
/// `Template::render`) in strict undefined mode: the output depends on the
/// sources, the name and the context alone, and an error becomes `None`.
#[verifier::external_body]
pub(crate) fn render_template(templates: &StrMap, name: &str, ctx: &StrMap) -> (r: Option<String>)
    ensures
        r is Some <==> rendered(templates@, name@, ctx@) is Some,
        r is Some ==> r.unwrap()@ == rendered(templates@, name@, ctx@).unwrap(),
{
    let mut env = minijinja::Environment::new();
    env.set_undefined_behavior(minijinja::UndefinedBehavior::Strict);
    for (k, v) in templates.pairs() {
        env.add_template_owned(k.clone(), v.clone()).ok()?;
    }
    let values: std::collections::BTreeMap<&str, &str> =
        ctx.pairs().iter().map(|(k, v)| (k.as_str(), v.as_str())).collect();
    env.get_template(name).and_then(|t| t.render(values)).ok()
}

/// The TOML text that the serializer writes for a table of string values;
/// `None` where it reports an error.
pub uninterp spec fn toml_text(table: Map<Seq<char>, Seq<char>>) -> Option<Seq<char>>;

/// Relies on toml's `to_string_pretty`, on a `BTreeMap` of the entries: the
/// text depends on the table alone, and an error becomes `None`.
#[verifier::external_body]
pub(crate) fn to_toml(table: &StrMap) -> (r: Option<String>)
    ensures
        r is Some <==> toml_text(table@) is Some,
        r is Some ==> r.unwrap()@ == toml_text(table@).unwrap(),
{
    let values: std::collections::BTreeMap<&str, &str> =
        table.pairs().iter().map(|(k, v)| (k.as_str(), v.as_str())).collect();
    toml::to_string_pretty(&values).ok()
}

/// Relies on rand's `thread_rng().gen_range(0..n)`: a value drawn from
/// `0..n`, which is not empty.
#[verifier::external_body]
pub(crate) fn random_index(n: usize) -> (r: usize)
    requires
        n > 0,
    ensures
        r < n,
{
    rand::thread_rng().gen_range(0..n)
}

} // verus!
