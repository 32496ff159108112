use vstd::prelude::*;
use crate::error::GenError;
use crate::strmap::StrMap;

verus! {

/// A package's metadata and the layout of its directories.
#[derive(Debug, Clone, PartialEq, Eq)]
pub struct Package {
    pub name: String,
    pub version: String,
    pub description: String,
    pub authors: Vec<String>,
    pub source: String,
    pub template: String,
    pub target: String,
    pub target_prefix: String,
}

/// The directory holding the files to render, when the package names none.
pub fn default_source() -> (r: String)
    ensures
        r@ == "source"@,
{
    "source".to_owned()
}

/// The directory holding the templates and choice points, when the package names none.
pub fn default_template() -> (r: String)
    ensures
        r@ == "template"@,
{
    "template".to_owned()
}

/// The directory that receives the generated instances, when the package names none.
pub fn default_target() -> (r: String)
    ensures
        r@ == "target"@,
{
    "target".to_owned()
}

/// The prefix of each generated instance's directory, when the package names none.
pub fn default_target_prefix() -> (r: String)
    ensures
        r@ == "target"@,
{
    "target".to_owned()
}

/// A declared argument: what it is for, and the value it takes when not supplied.
#[derive(Debug, Clone, PartialEq, Eq, Default)]
pub struct Argument {
    pub description: String,
    pub default: Option<String>,
}

/// The table form in which an argument is declared.
#[derive(Debug, Clone, PartialEq, Eq, Default)]
pub struct DeArgument {
    pub description: String,
    pub default: Option<String>,
}

/// A package's configuration: its metadata and its declared arguments.
#[derive(Debug, Clone, PartialEq, Eq)]
pub struct Config {
    pub package: Package,
    pub args: Vec<(String, Argument)>,
}

/// Whether the `i`-th declared argument gets a value: it has a default or was supplied.
pub open spec fn arg_resolvable(
    decl: Seq<(String, Argument)>,
    supplied: Map<Seq<char>, Seq<char>>,
    i: int,
) -> bool {
    decl[i].1.default is Some || supplied.contains_key(decl[i].0@)
}

/// The value of the `i`-th declared argument: the supplied one, else its default.
pub open spec fn arg_value(
    decl: Seq<(String, Argument)>,
    supplied: Map<Seq<char>, Seq<char>>,
    i: int,
) -> Seq<char> {
    if supplied.contains_key(decl[i].0@) {
        supplied[decl[i].0@]
    } else {
        decl[i].1.default.unwrap()@
    }
}

/// The context made of the first `n` declared arguments.
pub open spec fn resolved_args(
    decl: Seq<(String, Argument)>,
    supplied: Map<Seq<char>, Seq<char>>,
    n: int,
) -> Map<Seq<char>, Seq<char>>
    decreases n,
{
    if n <= 0 {
        Map::empty()
    } else {
        resolved_args(decl, supplied, n - 1).insert(decl[n - 1].0@, arg_value(decl, supplied, n - 1))
    }
}

/// Builds the initial context: each declared argument takes its supplied value,
/// else its default; one without a default that was not supplied is an error.
pub fn set_context(config: &Config, args: StrMap) -> (r: Result<StrMap, GenError>)
    requires
        args.wf(),
    ensures
        r is Ok <==> forall|i: int|
            0 <= i < config.args@.len() ==> arg_resolvable(config.args@, args@, i),
        (forall|i: int| 0 <= i < config.args@.len() ==> #[trigger] config.args@[i].1.default is Some)
            ==> r is Ok,
        (exists|i: int|
            0 <= i < config.args@.len() && #[trigger] config.args@[i].1.default is None
                && !args@.contains_key(config.args@[i].0@)) ==> r matches Err(
            GenError::MissingRequiredArgument { .. },
        ),
        r is Ok ==> r.unwrap().wf() && r.unwrap()@ == resolved_args(
            config.args@,
            args@,
            config.args@.len() as int,
        ),
        r is Err ==> exists|i: int|
            0 <= i < config.args@.len() && !arg_resolvable(config.args@, args@, i) && r
                == Err::<StrMap, GenError>(
                GenError::MissingRequiredArgument { name: config.args@[i].0 },
            ),
{
    let mut result = StrMap::new();
    let mut i: usize = 0;
    while i < config.args.len()
        invariant
            args.wf(),
            result.wf(),
            0 <= i <= config.args@.len(),
            result@ == resolved_args(config.args@, args@, i as int),
            forall|j: int| 0 <= j < i ==> arg_resolvable(config.args@, args@, j),
        decreases config.args@.len() - i,
    {
        let name = &config.args[i].0;
        let arg = &config.args[i].1;
        match args.get(name.as_str()) {
            Some(v) => {
                result.insert(name.clone(), v.clone());
            },
            None => match &arg.default {
                Some(d) => {
                    result.insert(name.clone(), d.clone());
                },
                None => {
                    assert(!arg_resolvable(config.args@, args@, i as int));
                    return Err(GenError::MissingRequiredArgument { name: name.clone() });
                },
            },
        }
        i = i + 1;
    }
    proof {
        assert forall|j: int|
            0 <= j < config.args@.len() && #[trigger] config.args@[j].1.default is None implies args@.contains_key(
            config.args@[j].0@) by {
            assert(arg_resolvable(config.args@, args@, j));
        }
    }
    Ok(result)
}

} // verus!
