//! The tree of tracked files: a directory maps child names to nodes, children
//! are kept sorted by name, and a path is in the tree exactly when its
//! segment list leads from the root to a `File` leaf.
use vstd::prelude::*;

use crate::order::{lex_lt, lemma_lex_connex, lemma_lex_irrefl, lemma_lex_trans, str_lt};
use crate::paths::{join_path, joined, lemma_join_split, normalized_path, seg_views, split_nonempty, split_str};

verus! {

/// A node of the tracked-file tree: a leaf file, or a directory of children.
pub enum TreeNode {
    File,
    Dir(Vec<Entry>),
}

/// One named child of a directory node.
pub struct Entry {
    pub name: String,
    pub node: TreeNode,
}

/// The children of a node; a file has none.
pub open spec fn children_of(n: TreeNode) -> Seq<Entry> {
    match n {
        TreeNode::File => Seq::empty(),
        TreeNode::Dir(es) => es@,
    }
}

/// Sibling entries are strictly sorted by name.
pub open spec fn entries_sorted(es: Seq<Entry>) -> bool {
    forall|i: int, j: int| 0 <= i < j < es.len() ==> lex_lt(es[i].name@, es[j].name@)
}

/// Every directory's children are strictly sorted by name, recursively.
pub open spec fn node_wf(n: TreeNode) -> bool
    decreases n,
{
    match n {
        TreeNode::File => true,
        TreeNode::Dir(es) => entries_sorted(es@) && (forall|i: int|
            0 <= i < es@.len() ==> node_wf(#[trigger] es@[i].node)),
    }
}

/// Well-formedness of a sibling list: sorted, and each subtree well-formed.
pub open spec fn entries_wf(es: Seq<Entry>) -> bool {
    entries_sorted(es) && (forall|i: int| 0 <= i < es.len() ==> node_wf(#[trigger] es[i].node))
}

/// Every directory strictly below `n` has at least one child.
pub open spec fn subdirs_nonempty(n: TreeNode) -> bool
    decreases n,
{
    match n {
        TreeNode::File => true,
        TreeNode::Dir(es) => forall|i: int|
            0 <= i < es@.len() ==> ((#[trigger] es@[i].node) is File || children_of(
                es@[i].node,
            ).len() > 0) && subdirs_nonempty(es@[i].node),
    }
}

/// The same, for a sibling list.
pub open spec fn entries_subdirs_nonempty(es: Seq<Entry>) -> bool {
    forall|i: int|
        0 <= i < es.len() ==> ((#[trigger] es[i].node) is File || children_of(es[i].node).len()
            > 0) && subdirs_nonempty(es[i].node)
}

/// The segment list `p` leads from `n` to a `File` leaf.
pub open spec fn node_contains(n: TreeNode, p: Seq<Seq<char>>) -> bool
    decreases n,
{
    match n {
        TreeNode::File => p.len() == 0,
        TreeNode::Dir(es) => p.len() > 0 && exists|k: int|
            0 <= k < es@.len() && es@[k].name@ == p[0] && node_contains(
                #[trigger] es@[k].node,
                p.drop_first(),
            ),
    }
}

/// The segment list `p` leads from the sibling list `es` to a `File` leaf.
pub open spec fn entries_contain(es: Seq<Entry>, p: Seq<Seq<char>>) -> bool {
    p.len() > 0 && exists|k: int|
        0 <= k < es.len() && es[k].name@ == p[0] && node_contains(
            #[trigger] es[k].node,
            p.drop_first(),
        )
}

/// `a` is a proper leading portion of `b`.
pub open spec fn strict_prefix_of(a: Seq<Seq<char>>, b: Seq<Seq<char>>) -> bool {
    a.len() < b.len() && a == b.take(a.len() as int)
}

/// The segment lists, from position `i` on, of a list of segment strings.
pub open spec fn suffix_views(segs: Seq<String>, i: int) -> Seq<Seq<char>> {
    seg_views(segs).subrange(i, segs.len() as int)
}

/// In a sorted sibling list, the entry named `p[0]` is the only place where
/// a path starting with `p[0]` can continue.
pub proof fn lemma_contain_at(es: Seq<Entry>, k: int, p: Seq<Seq<char>>)
    requires
        entries_sorted(es),
        0 <= k < es.len(),
        p.len() > 0,
        es[k].name@ == p[0],
    ensures
        entries_contain(es, p) == node_contains(es[k].node, p.drop_first()),
{
    if entries_contain(es, p) {
        let k2 = choose|k2: int|
            0 <= k2 < es.len() && es[k2].name@ == p[0] && node_contains(
                #[trigger] es[k2].node,
                p.drop_first(),
            );
        if k2 != k {
            lemma_lex_irrefl(p[0]);
            if k2 < k {
                assert(lex_lt(es[k2].name@, es[k].name@));
            } else {
                assert(lex_lt(es[k].name@, es[k2].name@));
            }
            assert(false);
        }
    }
}

/// Two sibling lists that hold the same entries away from one name agree on
/// every path that does not start with that name.
pub proof fn lemma_contain_equiv_except(
    es1: Seq<Entry>,
    es2: Seq<Entry>,
    name: Seq<char>,
    p: Seq<Seq<char>>,
)
    requires
        p.len() > 0,
        p[0] != name,
        forall|k: int| 0 <= k < es1.len() && (#[trigger] es1[k]).name@ != name ==> es2.contains(es1[k]),
        forall|k: int| 0 <= k < es2.len() && (#[trigger] es2[k]).name@ != name ==> es1.contains(es2[k]),
    ensures
        entries_contain(es1, p) == entries_contain(es2, p),
{
    if entries_contain(es1, p) {
        let k = choose|k: int|
            0 <= k < es1.len() && es1[k].name@ == p[0] && node_contains(
                #[trigger] es1[k].node,
                p.drop_first(),
            );
        assert(es2.contains(es1[k]));
        let k2 = choose|k2: int| 0 <= k2 < es2.len() && es2[k2] == es1[k];
        assert(entries_contain(es2, p));
    }
    if entries_contain(es2, p) {
        let k = choose|k: int|
            0 <= k < es2.len() && es2[k].name@ == p[0] && node_contains(
                #[trigger] es2[k].node,
                p.drop_first(),
            );
        assert(es1.contains(es2[k]));
        let k2 = choose|k2: int| 0 <= k2 < es1.len() && es1[k2] == es2[k];
        assert(entries_contain(es1, p));
    }
}

/// A well-formed directory with at least one child holds at least one path.
pub proof fn lemma_nonempty_dir_has_path(n: TreeNode)
    requires
        node_wf(n),
        subdirs_nonempty(n),
        children_of(n).len() > 0,
    ensures
        exists|p: Seq<Seq<char>>| node_contains(n, p) && p.len() > 0,
    decreases n,
{
    match n {
        TreeNode::File => {
            assert(false);
        },
        TreeNode::Dir(es) => {
            let e = es@[0];
            match e.node {
                TreeNode::File => {
                    let p = seq![e.name@];
                    assert(p.drop_first() =~= Seq::<Seq<char>>::empty());
                    assert(node_contains(e.node, p.drop_first()));
                    assert(node_contains(n, p));
                },
                TreeNode::Dir(ch) => {
                    assert(children_of(e.node).len() > 0);
                    lemma_nonempty_dir_has_path(e.node);
                    let q = choose|q: Seq<Seq<char>>| node_contains(e.node, q) && q.len() > 0;
                    let p = seq![e.name@] + q;
                    assert(p.drop_first() =~= q);
                    assert(p[0] == e.name@);
                    assert(node_contains(n, p));
                },
            }
        },
    }
}

/// Position of the first entry whose name is not below `name`; the length of
/// the list when every name is below it.
fn find_slot(es: &Vec<Entry>, name: &String) -> (k: usize)
    ensures
        k <= es@.len(),
        forall|j: int| 0 <= j < k ==> lex_lt(es@[j].name@, name@),
        k < es@.len() ==> !lex_lt(es@[k as int].name@, name@),
{
    let mut k: usize = 0;
    while k < es.len()
        invariant
            k <= es@.len(),
            forall|j: int| 0 <= j < k ==> lex_lt(es@[j].name@, name@),
        decreases es@.len() - k,
    {
        if !str_lt(es[k].name.as_str(), name.as_str()) {
            return k;
        }
        k = k + 1;
    }
    k
}

/// Inserts the path `segs[i..]` into the sibling list `es`: every segment but
/// the last becomes a directory on the way down, the last a file. Inserting a
/// path that is already present changes nothing.
fn insert_entries(es: Vec<Entry>, segs: &Vec<String>, i: usize) -> (r: Vec<Entry>)
    requires
        entries_wf(es@),
        entries_subdirs_nonempty(es@),
        i < segs@.len(),
        forall|j: int|
            i as int <= j < segs@.len() ==> !entries_contain(
                es@,
                seg_views(segs@).subrange(i as int, j),
            ),
        forall|p: Seq<Seq<char>>|
            entries_contain(es@, p) ==> !strict_prefix_of(suffix_views(segs@, i as int), p),
    ensures
        entries_wf(r@),
        entries_subdirs_nonempty(r@),
        r@.len() > 0,
        forall|p: Seq<Seq<char>>|
            entries_contain(r@, p) <==> entries_contain(es@, p) || p == suffix_views(
                segs@,
                i as int,
            ),
    decreases segs@.len() - i,
{
    let ghost old_es = es@;
    let ghost p0 = segs@[i as int]@;
    let ghost sfx = suffix_views(segs@, i as int);
    proof {
        assert(sfx.len() == segs@.len() - i);
        assert(sfx[0] == p0);
    }
    let mut es = es;
    let k = find_slot(&es, &segs[i]);
    let n_segs = segs.len();
    let last_seg = i + 1 == n_segs;
    let mut found = false;
    if k < es.len() {
        if es[k].name == segs[i] {
            found = true;
        }
    }
    if found {
        proof {
            assert(old_es[k as int].name@ == p0);
        }
        if last_seg {
            proof {
                assert(sfx =~= seq![p0]);
                if old_es[k as int].node is Dir {
                    assert(node_wf(old_es[k as int].node));
                    assert(subdirs_nonempty(old_es[k as int].node));
                    assert(children_of(old_es[k as int].node).len() > 0);
                    lemma_nonempty_dir_has_path(old_es[k as int].node);
                    let q = choose|q: Seq<Seq<char>>|
                        node_contains(old_es[k as int].node, q) && q.len() > 0;
                    let pp = seq![p0] + q;
                    assert(pp.drop_first() =~= q);
                    lemma_contain_at(old_es, k as int, pp);
                    assert(entries_contain(old_es, pp));
                    assert(pp.take(1) =~= seq![p0]);
                    assert(strict_prefix_of(sfx, pp));
                    assert(false);
                }
                assert(sfx.drop_first() =~= Seq::<Seq<char>>::empty());
                assert(node_contains(old_es[k as int].node, sfx.drop_first()));
                lemma_contain_at(old_es, k as int, sfx);
                assert(entries_contain(old_es, sfx));
            }
            es
        } else {
            proof {
                let one = seg_views(segs@).subrange(i as int, i + 1);
                assert(one[0] == p0);
                assert(one.len() == 1);
                if old_es[k as int].node is File {
                    assert(one.drop_first() =~= Seq::<Seq<char>>::empty());
                    assert(node_contains(old_es[k as int].node, one.drop_first()));
                    lemma_contain_at(old_es, k as int, one);
                    assert(entries_contain(old_es, one));
                    assert(false);
                }
            }
            let e = es.remove(k);
            let ghost removed = es@;
            match e.node {
                TreeNode::Dir(ch) => {
                    proof {
                        assert(e == old_es[k as int]);
                        assert(node_wf(e.node));
                        assert(subdirs_nonempty(e.node));
                        assert(entries_wf(ch@));
                        assert(entries_subdirs_nonempty(ch@));
                        let ghost sfx1 = suffix_views(segs@, i + 1);
                        assert(sfx =~= seq![p0] + sfx1);
                        assert forall|j: int| i + 1 <= j < segs@.len() implies !entries_contain(
                            ch@,
                            #[trigger] seg_views(segs@).subrange(i + 1, j),
                        ) by {
                            if entries_contain(ch@, seg_views(segs@).subrange(i + 1, j)) {
                                let sub = seg_views(segs@).subrange(i as int, j);
                                assert(sub[0] == p0);
                                assert(sub.drop_first() =~= seg_views(segs@).subrange(i + 1, j));
                                assert(node_contains(e.node, sub.drop_first()));
                                lemma_contain_at(old_es, k as int, sub);
                                assert(entries_contain(old_es, sub));
                                assert(false);
                            }
                        }
                        assert forall|p: Seq<Seq<char>>| entries_contain(ch@, p)
                            implies !strict_prefix_of(sfx1, p) by {
                            if strict_prefix_of(sfx1, p) {
                                let pp = seq![p0] + p;
                                assert(pp.drop_first() =~= p);
                                assert(node_contains(e.node, pp.drop_first()));
                                lemma_contain_at(old_es, k as int, pp);
                                assert(entries_contain(old_es, pp));
                                assert(strict_prefix_of(sfx, pp)) by {
                                    assert(sfx.len() < pp.len());
                                    assert(pp.take(sfx.len() as int) =~= sfx) by {
                                        assert(p.take(sfx1.len() as int) == sfx1);
                                        assert forall|t: int| 0 <= t < sfx.len() implies pp.take(
                                            sfx.len() as int,
                                        )[t] == sfx[t] by {
                                            if t > 0 {
                                                assert(pp[t] == p[t - 1]);
                                                assert(p[t - 1] == sfx1[t - 1]);
                                            }
                                        }
                                    }
                                };
                                assert(false);
                            }
                        }
                    }
                    let ch2 = insert_entries(ch, segs, i + 1);
                    let e2 = Entry { name: e.name, node: TreeNode::Dir(ch2) };
                    es.insert(k, e2);
                    proof {
                        let ghost sfx1 = suffix_views(segs@, i + 1);
                        let es2 = es@;
                        assert(es2 =~= old_es.update(k as int, es2[k as int]));
                        assert(es2[k as int].name@ == p0);
                        assert(es2[k as int].node == TreeNode::Dir(ch2));
                        assert forall|a: int, b: int| 0 <= a < b < es2.len() implies lex_lt(
                            es2[a].name@,
                            es2[b].name@,
                        ) by {
                            assert(es2[a].name@ == old_es[a].name@);
                            assert(es2[b].name@ == old_es[b].name@);
                        }
                        assert forall|x: int| 0 <= x < es2.len() implies node_wf(
                            #[trigger] es2[x].node,
                        ) && ((es2[x].node is File || children_of(es2[x].node).len() > 0)
                            && subdirs_nonempty(es2[x].node)) by {
                            if x == k as int {
                                assert(entries_wf(ch2@));
                                assert(node_wf(TreeNode::Dir(ch2)));
                                assert(entries_subdirs_nonempty(ch2@));
                                assert(subdirs_nonempty(TreeNode::Dir(ch2)));
                                assert(children_of(es2[x].node).len() > 0);
                            } else {
                                assert(es2[x] == old_es[x]);
                            }
                        }
                        assert forall|x: int|
                            0 <= x < es2.len() && (#[trigger] es2[x]).name@ != p0 implies
                            old_es.contains(es2[x]) by {
                            assert(x != k as int);
                            assert(es2[x] == old_es[x]);
                            assert(old_es.contains(old_es[x]));
                        }
                        assert forall|x: int|
                            0 <= x < old_es.len() && (#[trigger] old_es[x]).name@ != p0 implies
                            es2.contains(old_es[x]) by {
                            assert(x != k as int);
                            assert(es2[x] == old_es[x]);
                            assert(es2.contains(es2[x]));
                        }
                        assert forall|p: Seq<Seq<char>>|
                            entries_contain(es2, p) <==> entries_contain(old_es, p) || p
                                == sfx by {
                            if p.len() == 0 {
                                assert(p != sfx);
                            } else if p[0] == p0 {
                                lemma_contain_at(es2, k as int, p);
                                lemma_contain_at(old_es, k as int, p);
                                assert(entries_contain(es2, p) == node_contains(
                                    TreeNode::Dir(ch2),
                                    p.drop_first(),
                                ));
                                assert(node_contains(TreeNode::Dir(ch2), p.drop_first())
                                    == entries_contain(ch2@, p.drop_first()));
                                assert(entries_contain(old_es, p) == entries_contain(
                                    ch@,
                                    p.drop_first(),
                                ));
                                if p.drop_first() == sfx1 {
                                    assert(p =~= sfx);
                                }
                                if p == sfx {
                                    assert(p.drop_first() =~= sfx1);
                                }
                            } else {
                                lemma_contain_equiv_except(es2, old_es, p0, p);
                                assert(p != sfx);
                            }
                        }
                    }
                    es
                },
                TreeNode::File => {
                    proof {
                        assert(false);
                    }
                    es
                },
            }
        }
    } else {
        proof {
            lemma_lex_irrefl(p0);
            if k < old_es.len() {
                assert(old_es[k as int].name@ != p0);
                lemma_lex_connex(old_es[k as int].name@, p0);
                assert(lex_lt(p0, old_es[k as int].name@));
            }
            assert forall|j: int| k as int <= j < old_es.len() implies lex_lt(
                p0,
                #[trigger] old_es[j].name@,
            ) by {
                if j > k as int {
                    lemma_lex_trans(p0, old_es[k as int].name@, old_es[j].name@);
                }
            }
            assert forall|j: int| 0 <= j < old_es.len() implies (#[trigger] old_es[j].name@)
                != p0 by {
                if j < k as int {
                    assert(lex_lt(old_es[j].name@, p0));
                }
            }
        }
        let new_node: TreeNode;
        if last_seg {
            new_node = TreeNode::File;
        } else {
            let sub_init: Vec<Entry> = Vec::new();
            proof {
                assert(sub_init@ =~= Seq::<Entry>::empty());
            }
            let sub = insert_entries(sub_init, segs, i + 1);
            new_node = TreeNode::Dir(sub);
            proof {
                assert(children_of(new_node) == sub@);
                assert(forall|p: Seq<Seq<char>>|
                    !entries_contain(sub_init@, p));
                assert(forall|p: Seq<Seq<char>>|
                    #[trigger] entries_contain(children_of(new_node), p) <==> p == suffix_views(
                        segs@,
                        i + 1,
                    ));
                assert(entries_wf(children_of(new_node)));
                assert(node_wf(new_node));
                assert(entries_subdirs_nonempty(children_of(new_node)));
                assert(subdirs_nonempty(new_node));
                assert(children_of(new_node).len() > 0);
            }
        }
        let ghost new_node_g = new_node;
        let e2 = Entry { name: segs[i].clone(), node: new_node };
        proof {
            assert(e2.name@ == p0);
        }
        es.insert(k, e2);
        proof {
            let ghost sfx1 = suffix_views(segs@, i + 1);
            assert(sfx =~= seq![p0] + sfx1);
            let es2 = es@;
            assert(es2 == old_es.insert(k as int, e2));
            assert(es2.len() == old_es.len() + 1);
            assert(es2[k as int] == e2);
            assert forall|x: int| 0 <= x < es2.len() && x != k as int implies #[trigger] es2[x]
                == (if x < k as int {
                old_es[x]
            } else {
                old_es[x - 1]
            }) by {}
            assert forall|a: int, b: int| 0 <= a < b < es2.len() implies lex_lt(
                es2[a].name@,
                es2[b].name@,
            ) by {
                if a == k as int {
                    assert(lex_lt(p0, old_es[b - 1].name@));
                } else if b == k as int {
                    assert(lex_lt(old_es[a].name@, p0));
                } else if a < k as int && b > k as int {
                    assert(lex_lt(old_es[a].name@, old_es[b - 1].name@));
                }
            }
            if !last_seg {
                let sub_entries = children_of(new_node_g);
                assert(entries_wf(sub_entries));
                assert(node_wf(new_node_g));
                assert(entries_subdirs_nonempty(sub_entries));
                assert(subdirs_nonempty(new_node_g));
                assert(children_of(new_node_g).len() > 0);
            }
            assert forall|x: int| 0 <= x < es2.len() implies node_wf(#[trigger] es2[x].node) && ((
            es2[x].node is File || children_of(es2[x].node).len() > 0) && subdirs_nonempty(
                es2[x].node,
            )) by {
                if x != k as int {
                    if x < k as int {
                        assert(es2[x] == old_es[x]);
                    } else {
                        assert(es2[x] == old_es[x - 1]);
                    }
                }
            }
            assert forall|x: int| 0 <= x < es2.len() && (#[trigger] es2[x]).name@ != p0 implies
                old_es.contains(es2[x]) by {
                if x < k as int {
                    assert(old_es[x] == es2[x]);
                    assert(old_es.contains(old_es[x]));
                } else {
                    assert(x != k as int);
                    assert(old_es[x - 1] == es2[x]);
                    assert(old_es.contains(old_es[x - 1]));
                }
            }
            assert forall|x: int| 0 <= x < old_es.len() && (#[trigger] old_es[x]).name@ != p0
                implies es2.contains(old_es[x]) by {
                if x < k as int {
                    assert(es2[x] == old_es[x]);
                    assert(es2.contains(es2[x]));
                } else {
                    assert(es2[x + 1] == old_es[x]);
                    assert(es2.contains(es2[x + 1]));
                }
            }
            assert forall|p: Seq<Seq<char>>|
                entries_contain(es2, p) <==> entries_contain(old_es, p) || p == sfx by {
                if p.len() == 0 {
                    assert(p != sfx);
                } else if p[0] == p0 {
                    lemma_contain_at(es2, k as int, p);
                    if entries_contain(old_es, p) {
                        let w = choose|w: int|
                            0 <= w < old_es.len() && old_es[w].name@ == p[0] && node_contains(
                                #[trigger] old_es[w].node,
                                p.drop_first(),
                            );
                        assert(false);
                    }
                    if last_seg {
                        assert(entries_contain(es2, p) == node_contains(
                            TreeNode::File,
                            p.drop_first(),
                        ));
                        assert(sfx =~= seq![p0]);
                        if p.drop_first().len() == 0 {
                            assert(p =~= seq![p0]);
                        }
                        if p == sfx {
                            assert(p.drop_first().len() == 0);
                        }
                    } else {
                        assert(entries_contain(es2, p) == node_contains(
                            new_node_g,
                            p.drop_first(),
                        ));
                        assert(node_contains(new_node_g, p.drop_first()) == entries_contain(
                            children_of(new_node_g),
                            p.drop_first(),
                        ));
                        assert(entries_contain(children_of(new_node_g), p.drop_first())
                            <==> p.drop_first() == sfx1);
                        if p.drop_first() == sfx1 {
                            assert(p =~= seq![p0] + p.drop_first());
                            assert(p =~= sfx);
                        }
                        if p == sfx {
                            assert(p.drop_first() =~= sfx1);
                        }
                    }
                } else {
                    lemma_contain_equiv_except(es2, old_es, p0, p);
                    assert(p != sfx);
                }
            }
        }
        es
    }
}

/// Law: sibling names in a well-formed sibling list are pairwise distinct,
/// so inserting a path already in the tree cannot duplicate an entry.
pub proof fn lemma_sibling_names_unique(es: Seq<Entry>, i: int, j: int)
    requires
        entries_sorted(es),
        0 <= i < es.len(),
        0 <= j < es.len(),
        i != j,
    ensures
        es[i].name@ != es[j].name@,
{
    lemma_lex_irrefl(es[i].name@);
}

/// The segment list `p` is the segment list of one of `files`, and non-empty.
pub open spec fn path_in_input(files: Seq<String>, p: Seq<Seq<char>>) -> bool {
    exists|t: int|
        0 <= t < files.len() && p == split_nonempty(#[trigger] files[t]@, '/') && p.len() > 0
}

/// No path may name a file where another path needs a directory: no path's
/// segment list is a proper leading portion of another's.
pub open spec fn paths_compatible(files: Seq<String>) -> bool {
    forall|a: int, b: int|
        0 <= a < files.len() && 0 <= b < files.len() ==> !strict_prefix_of(
            #[trigger] split_nonempty(files[a]@, '/'),
            #[trigger] split_nonempty(files[b]@, '/'),
        ) || split_nonempty(files[a]@, '/').len() == 0
}

/// Builds the tree of tracked files from their repository-relative paths.
/// Every segment of a path but the last becomes a directory, the last a file;
/// duplicate paths are inserted once; paths with no segments are skipped.
pub fn build_tree(files: &Vec<String>) -> (root: TreeNode)
    requires
        paths_compatible(files@),
    ensures
        root is Dir,
        node_wf(root),
        subdirs_nonempty(root),
        forall|p: Seq<Seq<char>>| node_contains(root, p) <==> path_in_input(files@, p),
{
    let mut entries: Vec<Entry> = Vec::new();
    proof {
        assert(entries@ =~= Seq::<Entry>::empty());
    }
    let n = files.len();
    let mut idx: usize = 0;
    while idx < n
        invariant
            idx <= n,
            n == files@.len(),
            paths_compatible(files@),
            entries_wf(entries@),
            entries_subdirs_nonempty(entries@),
            forall|p: Seq<Seq<char>>|
                entries_contain(entries@, p) <==> (exists|t: int|
                    0 <= t < idx && p == split_nonempty(#[trigger] files@[t]@, '/') && p.len()
                        > 0),
        decreases n - idx,
    {
        let segs = split_str(files[idx].as_str(), '/');
        let ghost cur = split_nonempty(files@[idx as int]@, '/');
        proof {
            assert(seg_views(segs@) == cur);
            assert(cur.len() == segs@.len());
        }
        if segs.len() > 0 {
            proof {
                assert(suffix_views(segs@, 0) =~= seg_views(segs@));
                assert forall|j: int| 0 <= j < segs@.len() implies !entries_contain(
                    entries@,
                    #[trigger] seg_views(segs@).subrange(0, j),
                ) by {
                    if entries_contain(entries@, seg_views(segs@).subrange(0, j)) {
                        let q = seg_views(segs@).subrange(0, j);
                        let t = choose|t: int|
                            0 <= t < idx && q == split_nonempty(#[trigger] files@[t]@, '/')
                                && q.len() > 0;
                        assert(strict_prefix_of(q, cur)) by {
                            assert(q.len() == j);
                            assert(cur.take(j) =~= q);
                        };
                        assert(false);
                    }
                }
                assert forall|p: Seq<Seq<char>>| entries_contain(entries@, p)
                    implies !strict_prefix_of(suffix_views(segs@, 0), p) by {
                    if strict_prefix_of(suffix_views(segs@, 0), p) {
                        let t = choose|t: int|
                            0 <= t < idx && p == split_nonempty(#[trigger] files@[t]@, '/')
                                && p.len() > 0;
                        assert(strict_prefix_of(cur, split_nonempty(files@[t]@, '/')));
                        assert(cur.len() > 0);
                        assert(false);
                    }
                }
            }
            let ghost before = entries@;
            entries = insert_entries(entries, &segs, 0);
            proof {
                assert forall|p: Seq<Seq<char>>|
                    entries_contain(entries@, p) <==> (exists|t: int|
                        0 <= t < idx + 1 && p == split_nonempty(#[trigger] files@[t]@, '/')
                            && p.len() > 0) by {
                    if entries_contain(entries@, p) {
                        if entries_contain(before, p) {
                            let t = choose|t: int|
                                0 <= t < idx && p == split_nonempty(#[trigger] files@[t]@, '/')
                                    && p.len() > 0;
                            assert(0 <= t < idx + 1 && p == split_nonempty(files@[t]@, '/')
                                && p.len() > 0);
                        } else {
                            assert(p == cur);
                            assert(p == split_nonempty(files@[idx as int]@, '/') && p.len()
                                > 0);
                        }
                    }
                    if (exists|t: int|
                        0 <= t < idx + 1 && p == split_nonempty(#[trigger] files@[t]@, '/')
                            && p.len() > 0) {
                        let t = choose|t: int|
                            0 <= t < idx + 1 && p == split_nonempty(#[trigger] files@[t]@, '/')
                                && p.len() > 0;
                        if t < idx {
                            assert(entries_contain(before, p));
                        } else {
                            assert(p == cur);
                        }
                        assert(entries_contain(entries@, p));
                    }
                }
            }
        } else {
            proof {
                assert(cur.len() == 0);
                assert forall|p: Seq<Seq<char>>|
                    entries_contain(entries@, p) <==> (exists|t: int|
                        0 <= t < idx + 1 && p == split_nonempty(#[trigger] files@[t]@, '/')
                            && p.len() > 0) by {
                    if (exists|t: int|
                        0 <= t < idx + 1 && p == split_nonempty(#[trigger] files@[t]@, '/')
                            && p.len() > 0) {
                        let t = choose|t: int|
                            0 <= t < idx + 1 && p == split_nonempty(#[trigger] files@[t]@, '/')
                                && p.len() > 0;
                        assert(t < idx);
                        assert(entries_contain(entries@, p));
                    }
                }
            }
        }
        idx += 1;
    }
    let root = TreeNode::Dir(entries);
    proof {
        assert(children_of(root) == entries@);
        assert(node_wf(root));
        assert(subdirs_nonempty(root));
        assert forall|p: Seq<Seq<char>>|
            node_contains(root, p) <==> path_in_input(files@, p) by {
            assert(node_contains(root, p) == entries_contain(entries@, p));
        }
    }
    root
}

/// The segment lists of the files below `n`, from child `i` on, depth-first.
pub open spec fn flat_segs(n: TreeNode, i: int) -> Seq<Seq<Seq<char>>>
    decreases n, children_of(n).len() - i,
{
    let es = children_of(n);
    if i < 0 || i >= es.len() {
        Seq::empty()
    } else {
        let sub = match es[i].node {
            TreeNode::File => seq![seq![es[i].name@]],
            TreeNode::Dir(_) => flat_segs(es[i].node, 0).map_values(
                |q: Seq<Seq<char>>| seq![es[i].name@] + q,
            ),
        };
        sub + flat_segs(n, i + 1)
    }
}

proof fn lemma_flat_segs_contain(n: TreeNode, i: int, p: Seq<Seq<char>>)
    requires
        0 <= i,
    ensures
        flat_segs(n, i).contains(p) <==> (p.len() > 0 && exists|k: int|
            i <= k < children_of(n).len() && (#[trigger] children_of(n)[k]).name@ == p[0]
                && node_contains(children_of(n)[k].node, p.drop_first())),
    decreases n, children_of(n).len() - i,
{
    let es = children_of(n);
    if i >= es.len() {
        assert(!flat_segs(n, i).contains(p)) by {
            assert(flat_segs(n, i).len() == 0);
        }
    } else {
        lemma_flat_segs_contain(n, i + 1, p);
        let sub = match es[i].node {
            TreeNode::File => seq![seq![es[i].name@]],
            TreeNode::Dir(_) => flat_segs(es[i].node, 0).map_values(
                |q: Seq<Seq<char>>| seq![es[i].name@] + q,
            ),
        };
        let rest = flat_segs(n, i + 1);
        assert(flat_segs(n, i) == sub + rest);
        assert(flat_segs(n, i).contains(p) <==> sub.contains(p) || rest.contains(p)) by {
            if (sub + rest).contains(p) {
                let t = choose|t: int| 0 <= t < (sub + rest).len() && (sub + rest)[t] == p;
                if t < sub.len() {
                    assert(sub[t] == p);
                    assert(sub.contains(p));
                } else {
                    assert(rest[t - sub.len()] == p);
                    assert(rest.contains(p));
                }
            }
            if sub.contains(p) {
                let t = choose|t: int| 0 <= t < sub.len() && sub[t] == p;
                assert((sub + rest)[t] == p);
            }
            if rest.contains(p) {
                let t = choose|t: int| 0 <= t < rest.len() && rest[t] == p;
                assert((sub + rest)[sub.len() + t] == p);
            }
        }
        match es[i].node {
            TreeNode::File => {
                assert(sub.contains(p) <==> (p.len() > 0 && es[i].name@ == p[0]
                    && node_contains(es[i].node, p.drop_first()))) by {
                    if sub.contains(p) {
                        let t = choose|t: int| 0 <= t < sub.len() && sub[t] == p;
                        assert(p == seq![es[i].name@]);
                        assert(p.drop_first() =~= Seq::<Seq<char>>::empty());
                    }
                    if p.len() > 0 && es[i].name@ == p[0] && node_contains(
                        es[i].node,
                        p.drop_first(),
                    ) {
                        assert(p.drop_first().len() == 0);
                        assert(p =~= seq![es[i].name@]);
                        assert(sub[0] == p);
                    }
                }
            },
            TreeNode::Dir(_) => {
                lemma_flat_segs_contain(es[i].node, 0, p.drop_first());
                let base = flat_segs(es[i].node, 0);
                assert(sub.contains(p) <==> (p.len() > 0 && p[0] == es[i].name@ && base.contains(
                    p.drop_first(),
                ))) by {
                    if sub.contains(p) {
                        let t = choose|t: int| 0 <= t < sub.len() && sub[t] == p;
                        let q = base[t];
                        assert(sub[t] == seq![es[i].name@] + q);
                        assert(p[0] == es[i].name@);
                        assert(p.drop_first() =~= q);
                        assert(base.contains(q));
                    }
                    if p.len() > 0 && p[0] == es[i].name@ && base.contains(p.drop_first()) {
                        let t = choose|t: int| 0 <= t < base.len() && base[t] == p.drop_first();
                        assert(sub[t] == seq![es[i].name@] + p.drop_first());
                        assert(seq![es[i].name@] + p.drop_first() =~= p);
                        assert(sub.contains(p));
                    }
                }
                assert(base.contains(p.drop_first()) == node_contains(
                    es[i].node,
                    p.drop_first(),
                ));
            },
        }
        assert forall|k: int|
            i <= k < es.len() && (#[trigger] es[k]).name@ == p[0] && node_contains(
                es[k].node,
                p.drop_first(),
            ) && p.len() > 0 implies flat_segs(n, i).contains(p) by {
            if k == i {
                assert(sub.contains(p));
            } else {
                assert(rest.contains(p));
            }
        }
    }
}

/// In a directory tree, the flattened segment lists are exactly the paths
/// the tree holds.
pub proof fn lemma_flat_matches_contains(n: TreeNode, p: Seq<Seq<char>>)
    requires
        n is Dir,
    ensures
        flat_segs(n, 0).contains(p) == node_contains(n, p),
{
    lemma_flat_segs_contain(n, 0, p);
}

proof fn lemma_flat_segs_no_dup(n: TreeNode, i: int)
    requires
        node_wf(n),
        0 <= i,
    ensures
        flat_segs(n, i).no_duplicates(),
        forall|t: int|
            0 <= t < flat_segs(n, i).len() ==> (#[trigger] flat_segs(n, i)[t]).len() > 0
                && exists|k: int|
                i <= k < children_of(n).len() && flat_segs(n, i)[t][0] == (
                #[trigger] children_of(n)[k]).name@,
    decreases n, children_of(n).len() - i,
{
    let es = children_of(n);
    let whole = flat_segs(n, i);
    if i >= es.len() {
    } else {
        lemma_flat_segs_no_dup(n, i + 1);
        let sub = match es[i].node {
            TreeNode::File => seq![seq![es[i].name@]],
            TreeNode::Dir(_) => flat_segs(es[i].node, 0).map_values(
                |q: Seq<Seq<char>>| seq![es[i].name@] + q,
            ),
        };
        let rest = flat_segs(n, i + 1);
        assert(whole == sub + rest);
        assert forall|t: int| 0 <= t < sub.len() implies (#[trigger] sub[t]).len() > 0
            && sub[t][0] == es[i].name@ by {
            match es[i].node {
                TreeNode::File => {
                    assert(sub[t] == seq![es[i].name@]);
                },
                TreeNode::Dir(_) => {
                    let base = flat_segs(es[i].node, 0);
                    assert(sub[t] == seq![es[i].name@] + base[t]);
                },
            }
        }
        assert(sub.no_duplicates()) by {
            match es[i].node {
                TreeNode::File => {},
                TreeNode::Dir(_) => {
                    assert(node_wf(es[i].node));
                    lemma_flat_segs_no_dup(es[i].node, 0);
                    let base = flat_segs(es[i].node, 0);
                    assert forall|t1: int, t2: int|
                        0 <= t1 < sub.len() && 0 <= t2 < sub.len() && t1 != t2 implies sub[t1]
                        != sub[t2] by {
                        assert(sub[t1] == seq![es[i].name@] + base[t1]);
                        assert(sub[t2] == seq![es[i].name@] + base[t2]);
                        if sub[t1] == sub[t2] {
                            assert((seq![es[i].name@] + base[t1]).drop_first() =~= base[t1]);
                            assert((seq![es[i].name@] + base[t2]).drop_first() =~= base[t2]);
                            assert(base[t1] == base[t2]);
                            assert(false);
                        }
                    }
                },
            }
        }
        assert forall|t1: int, t2: int|
            0 <= t1 < whole.len() && 0 <= t2 < whole.len() && t1 != t2 implies whole[t1]
            != whole[t2] by {
            lemma_lex_irrefl(es[i].name@);
            if t1 < sub.len() && t2 < sub.len() {
                assert(whole[t1] == sub[t1]);
                assert(whole[t2] == sub[t2]);
            } else if t1 >= sub.len() && t2 >= sub.len() {
                assert(whole[t1] == rest[t1 - sub.len()]);
                assert(whole[t2] == rest[t2 - sub.len()]);
            } else {
                let ts = if t1 < sub.len() {
                    t1
                } else {
                    t2
                };
                let tr = if t1 < sub.len() {
                    t2
                } else {
                    t1
                };
                assert(whole[ts] == sub[ts]);
                assert(whole[tr] == rest[tr - sub.len()]);
                let b = rest[tr - sub.len()];
                let k = choose|k: int|
                    i + 1 <= k < es.len() && b[0] == (#[trigger] es[k]).name@;
                assert(lex_lt(es[i].name@, es[k].name@));
                assert(sub[ts][0] == es[i].name@);
                assert(sub[ts][0] != b[0]);
            }
        }
        assert(whole.no_duplicates());
    }
}

/// The files below `root` as segment lists, depth-first.
pub fn flatten_tree(root: &TreeNode) -> (out: Vec<Vec<String>>)
    ensures
        out@.map_values(|v: Vec<String>| seg_views(v@)) == flat_segs(*root, 0),
    decreases *root,
{
    let ghost dv = |v: Vec<String>| seg_views(v@);
    let mut out: Vec<Vec<String>> = Vec::new();
    proof {
        assert(out@.map_values(dv) =~= Seq::<Seq<Seq<char>>>::empty());
    }
    match root {
        TreeNode::File => {
            proof {
                assert(flat_segs(*root, 0) =~= Seq::<Seq<Seq<char>>>::empty());
            }
            out
        },
        TreeNode::Dir(es) => {
            let n_entries = es.len();
            let mut k: usize = 0;
            while k < n_entries
                invariant
                    k <= n_entries,
                    n_entries == es@.len(),
                    *root is Dir,
                    children_of(*root) == es@,
                    dv == (|v: Vec<String>| seg_views(v@)),
                    out@.map_values(dv) + flat_segs(*root, k as int) == flat_segs(*root, 0),
                decreases n_entries - k,
            {
                let ghost out_start = out@;
                let ghost sub_spec = match es@[k as int].node {
                    TreeNode::File => seq![seq![es@[k as int].name@]],
                    TreeNode::Dir(_) => flat_segs(es@[k as int].node, 0).map_values(
                        |q: Seq<Seq<char>>| seq![es@[k as int].name@] + q,
                    ),
                };
                proof {
                    assert(flat_segs(*root, k as int) == sub_spec + flat_segs(*root, k + 1));
                }
                let dir_here = match &es[k].node {
                    TreeNode::Dir(_) => true,
                    TreeNode::File => false,
                };
                if !dir_here {
                    let mut single: Vec<String> = Vec::new();
                    single.push(es[k].name.clone());
                    proof {
                        assert(seg_views(single@) =~= seq![es@[k as int].name@]);
                    }
                    out.push(single);
                    proof {
                        assert(out@.map_values(dv) =~= out_start.map_values(dv) + sub_spec);
                    }
                } else {
                    let subs = flatten_tree(&es[k].node);
                    let ghost base = flat_segs(es@[k as int].node, 0);
                    let n_subs = subs.len();
                    let mut j: usize = 0;
                    while j < n_subs
                        invariant
                            j <= n_subs,
                            n_subs == subs@.len(),
                            k < es@.len(),
                            dv == (|v: Vec<String>| seg_views(v@)),
                            subs@.map_values(dv) == base,
                            base == flat_segs(es@[k as int].node, 0),
                            sub_spec == base.map_values(
                                |q: Seq<Seq<char>>| seq![es@[k as int].name@] + q,
                            ),
                            out@.map_values(dv) == out_start.map_values(dv)
                                + sub_spec.subrange(0, j as int),
                        decreases n_subs - j,
                    {
                        let mut one: Vec<String> = Vec::new();
                        one.push(es[k].name.clone());
                        let m = subs[j].len();
                        let mut x: usize = 0;
                        while x < m
                            invariant
                                x <= m,
                                j < subs@.len(),
                                k < es@.len(),
                                m == subs@[j as int]@.len(),
                                seg_views(one@) == seq![es@[k as int].name@] + seg_views(
                                    subs@[j as int]@,
                                ).subrange(0, x as int),
                            decreases m - x,
                        {
                            let ghost one_before = one@;
                            one.push(subs[j][x].clone());
                            proof {
                                assert(seg_views(one@) =~= seg_views(one_before).push(
                                    subs@[j as int]@[x as int]@,
                                ));
                                assert(seg_views(subs@[j as int]@).subrange(0, x + 1)
                                    =~= seg_views(subs@[j as int]@).subrange(0, x as int).push(
                                    subs@[j as int]@[x as int]@,
                                ));
                                assert(seg_views(one@) =~= seq![es@[k as int].name@] + seg_views(
                                    subs@[j as int]@,
                                ).subrange(0, x + 1));
                            }
                            x = x + 1;
                        }
                        let ghost out_mid = out@;
                        out.push(one);
                        proof {
                            assert(seg_views(subs@[j as int]@).subrange(
                                0,
                                subs@[j as int]@.len() as int,
                            ) =~= seg_views(subs@[j as int]@));
                            assert(seg_views(subs@[j as int]@) == base[j as int]);
                            assert(sub_spec[j as int] == seq![es@[k as int].name@]
                                + base[j as int]);
                            assert(out@.map_values(dv) =~= out_mid.map_values(dv).push(
                                sub_spec[j as int],
                            ));
                            assert(sub_spec.subrange(0, j + 1) =~= sub_spec.subrange(
                                0,
                                j as int,
                            ).push(sub_spec[j as int]));
                            assert(out@.map_values(dv) =~= out_start.map_values(dv)
                                + sub_spec.subrange(0, j + 1));
                        }
                        j = j + 1;
                    }
                    proof {
                        assert(sub_spec.subrange(0, sub_spec.len() as int) =~= sub_spec);
                        assert(out@.map_values(dv) =~= out_start.map_values(dv) + sub_spec);
                    }
                }
                k = k + 1;
            }
            proof {
                assert(flat_segs(*root, n_entries as int)
                    =~= Seq::<Seq<Seq<char>>>::empty());
                assert(out@.map_values(dv) =~= out@.map_values(dv) + flat_segs(
                    *root,
                    n_entries as int,
                ));
            }
            out
        },
    }
}

/// The `/`-joined paths of the files below `n`, depth-first.
pub open spec fn flat_paths_of(n: TreeNode) -> Seq<Seq<char>> {
    flat_segs(n, 0).map_values(|q: Seq<Seq<char>>| joined(q))
}

/// The files below `root` as `/`-joined paths, depth-first: the tree
/// flattened back to a path list.
pub fn flatten_paths(root: &TreeNode) -> (out: Vec<String>)
    ensures
        out@.map_values(|s: String| s@) == flat_paths_of(*root),
{
    let seg_paths = flatten_tree(root);
    let ghost jn = |q: Seq<Seq<char>>| joined(q);
    let ghost sv = |s: String| s@;
    let mut out: Vec<String> = Vec::new();
    let n = seg_paths.len();
    let mut j: usize = 0;
    proof {
        assert(out@.map_values(sv) =~= flat_paths_of(*root).subrange(0, 0));
    }
    while j < n
        invariant
            j <= n,
            n == seg_paths@.len(),
            jn == (|q: Seq<Seq<char>>| joined(q)),
            sv == (|s: String| s@),
            seg_paths@.map_values(|v: Vec<String>| seg_views(v@)) == flat_segs(*root, 0),
            out@.map_values(sv) == flat_paths_of(*root).subrange(0, j as int),
        decreases n - j,
    {
        let ghost before = out@;
        out.push(join_path(&seg_paths[j]));
        proof {
            assert(seg_views(seg_paths@[j as int]@) == flat_segs(*root, 0)[j as int]);
            assert(flat_paths_of(*root)[j as int] == joined(flat_segs(*root, 0)[j as int]));
            assert(out@.map_values(sv) =~= before.map_values(sv).push(
                flat_paths_of(*root)[j as int],
            ));
            assert(flat_paths_of(*root).subrange(0, j + 1) =~= flat_paths_of(
                *root,
            ).subrange(0, j as int).push(flat_paths_of(*root)[j as int]));
        }
        j = j + 1;
    }
    proof {
        assert(flat_paths_of(*root).subrange(0, n as int) =~= flat_paths_of(*root));
    }
    out
}

/// Law: for any list of normalized, compatible paths, building the tree and
/// flattening it back yields exactly the original set of paths: nothing
/// omitted, nothing added, and no path listed twice, whatever the input
/// order or repetition.
pub proof fn lemma_build_flatten_round_trip(files: Seq<String>, root: TreeNode)
    requires
        forall|t: int| 0 <= t < files.len() ==> normalized_path((#[trigger] files[t])@),
        root is Dir,
        node_wf(root),
        forall|p: Seq<Seq<char>>| node_contains(root, p) <==> path_in_input(files, p),
    ensures
        forall|s: Seq<char>|
            #[trigger] flat_paths_of(root).contains(s) <==> (exists|t: int|
                0 <= t < files.len() && s == (#[trigger] files[t])@),
        flat_paths_of(root).no_duplicates(),
{
    let flat = flat_segs(root, 0);
    let strs = flat_paths_of(root);
    lemma_flat_segs_no_dup(root, 0);
    assert forall|s: Seq<char>|
        strs.contains(s) <==> (exists|t: int| 0 <= t < files.len() && s == (
        #[trigger] files[t])@) by {
        if strs.contains(s) {
            let x = choose|x: int| 0 <= x < strs.len() && strs[x] == s;
            let q = flat[x];
            assert(flat.contains(q));
            lemma_flat_matches_contains(root, q);
            assert(node_contains(root, q));
            let t = choose|t: int|
                0 <= t < files.len() && q == split_nonempty((#[trigger] files[t])@, '/')
                    && q.len() > 0;
            lemma_join_split(files[t]@);
            assert(s == files[t]@);
        }
        if (exists|t: int| 0 <= t < files.len() && s == (#[trigger] files[t])@) {
            let t = choose|t: int| 0 <= t < files.len() && s == (#[trigger] files[t])@;
            lemma_join_split(files[t]@);
            let q = split_nonempty(files[t]@, '/');
            assert(path_in_input(files, q));
            assert(node_contains(root, q));
            lemma_flat_matches_contains(root, q);
            let x = choose|x: int| 0 <= x < flat.len() && flat[x] == q;
            assert(strs[x] == joined(q));
            assert(strs.contains(s));
        }
    }
    assert forall|x1: int, x2: int|
        0 <= x1 < strs.len() && 0 <= x2 < strs.len() && x1 != x2 implies strs[x1] != strs[x2] by {
        if strs[x1] == strs[x2] {
            let q1 = flat[x1];
            let q2 = flat[x2];
            assert(q1 != q2);
            assert(flat.contains(q1));
            assert(flat.contains(q2));
            lemma_flat_matches_contains(root, q1);
            lemma_flat_matches_contains(root, q2);
            let t1 = choose|t: int|
                0 <= t < files.len() && q1 == split_nonempty((#[trigger] files[t])@, '/')
                    && q1.len() > 0;
            let t2 = choose|t: int|
                0 <= t < files.len() && q2 == split_nonempty((#[trigger] files[t])@, '/')
                    && q2.len() > 0;
            lemma_join_split(files[t1]@);
            lemma_join_split(files[t2]@);
            assert(files[t1]@ == strs[x1]);
            assert(files[t2]@ == strs[x2]);
            assert(q1 == q2);
            assert(false);
        }
    }
    assert(strs.no_duplicates());
}

} // verus!
