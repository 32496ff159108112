use vstd::prelude::*;
use crate::engine::{render_template, rendered};
use crate::error::GenError;
use crate::strmap::StrMap;

verus! {

/// What an entry of a source tree is.
#[derive(Debug, Clone, PartialEq, Eq)]
pub enum NodeKind {
    /// A regular file and its text.
    File { content: String },
    /// A directory.
    Dir,
    /// Anything that is neither a regular file nor a directory.
    Other,
}

/// An entry of a source tree: its path relative to the tree's root, one name
/// per level, the path as it is shown in messages, and what it is.
#[derive(Debug, Clone, PartialEq, Eq)]
pub struct TreeNode {
    pub rel_path: Vec<String>,
    pub display: String,
    pub kind: NodeKind,
}

/// The names along a node's relative path.
pub open spec fn path_view(n: TreeNode) -> Seq<Seq<char>> {
    n.rel_path@.map_values(|s: String| s@)
}

/// A file's own name: the last name of its relative path.
pub open spec fn file_name(n: TreeNode) -> Seq<char> {
    n.rel_path@.last()@
}

/// A file's text rendered as a template named by the file's name.
pub open spec fn rendered_file(n: TreeNode, content: Seq<char>, ctx: Map<Seq<char>, Seq<char>>) -> Option<
    Seq<char>,
> {
    rendered(map![file_name(n) => content], file_name(n), ctx)
}

/// The error that rendering a single node raises, if any.
pub open spec fn node_error(n: TreeNode, ctx: Map<Seq<char>, Seq<char>>) -> Option<GenError> {
    match n.kind {
        NodeKind::File { content } => if n.rel_path@.len() == 0 {
            Some(GenError::InvalidEntry { path: n.display })
        } else if rendered_file(n, content@, ctx) is None {
            Some(GenError::TemplateRenderError { name: n.display })
        } else {
            None
        },
        NodeKind::Dir => None,
        NodeKind::Other => Some(GenError::UnsupportedEntry { path: n.display }),
    }
}

/// Whether `out` is `n` rendered: the same path; a directory stays a directory,
/// and a file holds its rendered text.
pub open spec fn node_rendered(n: TreeNode, out: TreeNode, ctx: Map<Seq<char>, Seq<char>>) -> bool {
    &&& path_view(out) == path_view(n)
    &&& out.display@ == n.display@
    &&& match n.kind {
        NodeKind::File { content } => out.kind matches NodeKind::File { content: c } && c@
            == rendered_file(n, content@, ctx).unwrap(),
        NodeKind::Dir => out.kind is Dir,
        NodeKind::Other => false,
    }
}

/// The first error raised among the first `k` nodes.
pub open spec fn first_node_error(nodes: Seq<TreeNode>, ctx: Map<Seq<char>, Seq<char>>, k: int) -> Option<
    GenError,
>
    decreases k,
{
    if k <= 0 {
        None
    } else if first_node_error(nodes, ctx, k - 1) is Some {
        first_node_error(nodes, ctx, k - 1)
    } else {
        node_error(nodes[k - 1], ctx)
    }
}

proof fn lemma_first_node_error_stays(nodes: Seq<TreeNode>, ctx: Map<Seq<char>, Seq<char>>, k: int)
    requires
        0 <= k <= nodes.len(),
        first_node_error(nodes, ctx, k) is Some,
    ensures
        first_node_error(nodes, ctx, nodes.len() as int) == first_node_error(nodes, ctx, k),
    decreases nodes.len() - k,
{
    if k < nodes.len() {
        lemma_first_node_error_stays(nodes, ctx, k + 1);
    }
}

fn copy_names(v: &Vec<String>) -> (r: Vec<String>)
    ensures
        r@.map_values(|s: String| s@) == v@.map_values(|s: String| s@),
{
    let mut r: Vec<String> = Vec::new();
    let mut i: usize = 0;
    while i < v.len()
        invariant
            0 <= i <= v@.len(),
            r@.len() == i,
            forall|j: int| 0 <= j < i ==> r@[j]@ == #[trigger] v@[j]@,
        decreases v@.len() - i,
    {
        r.push(v[i].clone());
        i = i + 1;
    }
    assert(r@.map_values(|s: String| s@) =~= v@.map_values(|s: String| s@));
    r
}

/// Renders a source tree against `ctx`: every file's text is rendered as a
/// template and kept at the same relative path under the same name, every
/// directory is kept, and anything else is an error. Fails on the first node
/// that cannot be rendered.
pub fn render(nodes: &Vec<TreeNode>, ctx: &StrMap) -> (r: Result<Vec<TreeNode>, GenError>)
    requires
        ctx.wf(),
    ensures
        r is Err <==> first_node_error(nodes@, ctx@, nodes@.len() as int) is Some,
        r is Err ==> r == Err::<Vec<TreeNode>, GenError>(
            first_node_error(nodes@, ctx@, nodes@.len() as int).unwrap(),
        ),
        r is Ok ==> r.unwrap()@.len() == nodes@.len() && forall|i: int|
            0 <= i < nodes@.len() ==> node_rendered(
                #[trigger] nodes@[i],
                r.unwrap()@[i],
                ctx@,
            ),
{
    let mut out: Vec<TreeNode> = Vec::new();
    let mut i: usize = 0;
    while i < nodes.len()
        invariant
            ctx.wf(),
            0 <= i <= nodes@.len(),
            out@.len() == i,
            first_node_error(nodes@, ctx@, i as int) is None,
            forall|j: int| 0 <= j < i ==> node_rendered(#[trigger] nodes@[j], out@[j], ctx@),
        decreases nodes@.len() - i,
    {
        let n = &nodes[i];
        let kind = match &n.kind {
            NodeKind::File { content } => {
                if n.rel_path.len() == 0 {
                    let e = GenError::InvalidEntry { path: n.display.clone() };
                    assert(node_error(nodes@[i as int], ctx@) == Some(e));
                    proof { lemma_first_node_error_stays(nodes@, ctx@, i as int + 1); }
                    return Err(e);
                }
                let name = &n.rel_path[n.rel_path.len() - 1];
                let mut single = StrMap::new();
                single.insert(name.clone(), content.clone());
                proof {
                    assert(single@ == map![file_name(*n) => content@]);
                }
                match render_template(&single, name.as_str(), ctx) {
                    Some(text) => NodeKind::File { content: text },
                    None => {
                        let e = GenError::TemplateRenderError { name: n.display.clone() };
                        assert(node_error(nodes@[i as int], ctx@) == Some(e));
                    proof { lemma_first_node_error_stays(nodes@, ctx@, i as int + 1); }
                        return Err(e);
                    },
                }
            },
            NodeKind::Dir => NodeKind::Dir,
            NodeKind::Other => {
                proof { lemma_first_node_error_stays(nodes@, ctx@, i as int + 1); }
                return Err(GenError::UnsupportedEntry { path: n.display.clone() });
            },
        };
        out.push(TreeNode { rel_path: copy_names(&n.rel_path), display: n.display.clone(), kind });
        i = i + 1;
    }
    Ok(out)
}

} // verus!
