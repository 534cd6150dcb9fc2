//! Rendering of the tracked-file tree as indented lines with box-drawing
//! connectors: the last entry of a directory gets an elbow connector, the
//! others a tee, and continuation lines stay visually connected.
use vstd::prelude::*;

use crate::tree::{children_of, Entry, TreeNode};

verus! {

/// One rendered line: the indentation-and-connector lead, the entry name
/// (kept apart so a caller may style directory names), and whether the entry
/// is a directory.
pub struct RenderLine {
    pub lead: String,
    pub name: String,
    pub is_dir: bool,
}

impl RenderLine {
    /// The full text of the line.
    pub fn text(&self) -> (t: String)
        ensures
            t@ == self.lead@ + self.name@,
    {
        let mut t = self.lead.clone();
        t.append(self.name.as_str());
        t
    }
}

/// The connector put before an entry's name: an elbow for the last sibling,
/// a tee otherwise.
pub open spec fn connector(last: bool) -> Seq<char> {
    if last {
        "└── "@
    } else {
        "├── "@
    }
}

/// What a directory entry adds to the prefix of its children: blanks after
/// the last sibling, a bar to connect the remaining siblings otherwise.
pub open spec fn extension(last: bool) -> Seq<char> {
    if last {
        "    "@
    } else {
        "│   "@
    }
}

/// The rendered lines of the entries of `n` from child `i` on, as
/// (lead, name, is-directory) triples, in depth-first order.
pub open spec fn render_from(n: TreeNode, i: int, pre: Seq<char>) -> Seq<(Seq<char>, Seq<char>, bool)>
    decreases n, children_of(n).len() - i,
{
    let es = children_of(n);
    if i < 0 || i >= es.len() {
        Seq::empty()
    } else {
        let last = i == es.len() - 1;
        let head = (pre + connector(last), es[i].name@, es[i].node is Dir);
        let sub = if es[i].node is Dir {
            render_from(es[i].node, 0, pre + extension(last))
        } else {
            Seq::empty()
        };
        seq![head] + sub + render_from(n, i + 1, pre)
    }
}

/// The full rendering of `n` under the prefix `pre`.
pub open spec fn render_lines(n: TreeNode, pre: Seq<char>) -> Seq<(Seq<char>, Seq<char>, bool)> {
    render_from(n, 0, pre)
}

/// The (lead, name, is-directory) views of rendered lines.
pub open spec fn line_views(ls: Seq<RenderLine>) -> Seq<(Seq<char>, Seq<char>, bool)> {
    ls.map_values(|l: RenderLine| (l.lead@, l.name@, l.is_dir))
}

/// Whether a node is a directory.
pub fn node_is_dir(n: &TreeNode) -> (r: bool)
    ensures
        r == (*n is Dir),
{
    match n {
        TreeNode::Dir(_) => true,
        TreeNode::File => false,
    }
}

/// Renders the tree below `root`, children in their stored (sorted) order,
/// one line per entry, connectors and indentation as a hosting service shows
/// a repository tree.
pub fn render_tree(root: &TreeNode, prefix: &str) -> (lines: Vec<RenderLine>)
    ensures
        line_views(lines@) == render_lines(*root, prefix@),
    decreases *root,
{
    let mut out: Vec<RenderLine> = Vec::new();
    proof {
        assert(line_views(out@) =~= Seq::<(Seq<char>, Seq<char>, bool)>::empty());
    }
    match root {
        TreeNode::File => {
            proof {
                assert(render_lines(*root, prefix@) =~= Seq::<(Seq<char>, Seq<char>, bool)>::empty());
            }
            out
        },
        TreeNode::Dir(es) => {
            let n_entries = es.len();
            let mut k: usize = 0;
            while k < n_entries
                invariant
                    k <= n_entries,
                    n_entries == es@.len(),
                    *root is Dir,
                    children_of(*root) == es@,
                    line_views(out@) + render_from(*root, k as int, prefix@) == render_lines(
                        *root,
                        prefix@,
                    ),
                decreases n_entries - k,
            {
                let is_last = k + 1 == n_entries;
                let conn: &str = if is_last {
                    "└── "
                } else {
                    "├── "
                };
                let mut lead = String::new();
                lead.append(prefix);
                lead.append(conn);
                proof {
                    assert(lead@ =~= prefix@ + connector(is_last));
                }
                let name_copy = es[k].name.clone();
                let is_dir = node_is_dir(&es[k].node);
                let ghost out_before = out@;
                out.push(RenderLine { lead, name: name_copy, is_dir });
                proof {
                    assert(line_views(out@) =~= line_views(out_before).push(
                        (prefix@ + connector(is_last), es@[k as int].name@, es@[k as int].node is Dir),
                    ));
                }
                if is_dir {
                    let ext: &str = if is_last {
                        "    "
                    } else {
                        "│   "
                    };
                    let mut child_prefix = String::new();
                    child_prefix.append(prefix);
                    child_prefix.append(ext);
                    proof {
                        assert(child_prefix@ =~= prefix@ + extension(is_last));
                    }
                    let mut sub = render_tree(&es[k].node, child_prefix.as_str());
                    let ghost out_mid = out@;
                    out.append(&mut sub);
                    proof {
                        assert(line_views(out@) =~= line_views(out_mid) + render_from(
                            es@[k as int].node,
                            0,
                            prefix@ + extension(is_last),
                        ));
                    }
                }
                proof {
                    let head = (
                        prefix@ + connector(k as int == es@.len() - 1),
                        es@[k as int].name@,
                        es@[k as int].node is Dir,
                    );
                    let sub_lines = if es@[k as int].node is Dir {
                        render_from(es@[k as int].node, 0, prefix@ + extension(is_last))
                    } else {
                        Seq::<(Seq<char>, Seq<char>, bool)>::empty()
                    };
                    assert(render_from(*root, k as int, prefix@) == seq![head] + sub_lines
                        + render_from(*root, k + 1, prefix@));
                    assert(line_views(out@) =~= (line_views(out_before).push(head)) + sub_lines);
                    assert(line_views(out_before).push(head) =~= line_views(out_before)
                        + seq![head]);
                    assert(line_views(out@) + render_from(*root, k + 1, prefix@)
                        =~= line_views(out_before) + (seq![head] + sub_lines + render_from(
                        *root,
                        k + 1,
                        prefix@,
                    )));
                }
                k = k + 1;
            }
            proof {
                assert(render_from(*root, n_entries as int, prefix@)
                    =~= Seq::<(Seq<char>, Seq<char>, bool)>::empty());
                assert(line_views(out@) =~= line_views(out@) + render_from(
                    *root,
                    n_entries as int,
                    prefix@,
                ));
            }
            out
        },
    }
}

/// Law: rendering is deterministic — any two renderings of the same tree
/// under the same prefix are identical, line for line.
pub proof fn lemma_render_idempotent(
    a: Seq<(Seq<char>, Seq<char>, bool)>,
    b: Seq<(Seq<char>, Seq<char>, bool)>,
    n: TreeNode,
    pre: Seq<char>,
)
    requires
        a == render_lines(n, pre),
        b == render_lines(n, pre),
    ensures
        a == b,
{
}

/// Law: connector selection — the entry `i` of a directory is rendered first
/// in its group, with the elbow connector exactly when it is the last
/// sibling, and marked as a directory exactly when it is one.
pub proof fn lemma_connector_selection(n: TreeNode, i: int, pre: Seq<char>)
    requires
        0 <= i < children_of(n).len(),
    ensures
        render_from(n, i, pre).len() > 0,
        render_from(n, i, pre)[0] == (
            pre + connector(i == children_of(n).len() - 1),
            children_of(n)[i].name@,
            children_of(n)[i].node is Dir,
        ),
{
}

} // verus!
