//! The library folder tree: nodes keyed and named, children kept in key
//! order, and the flattening of the expanded part of the tree into a display
//! list.

use vstd::prelude::*;

use crate::devices::{
    chars_lt, lemma_chars_lt_trans, lemma_chars_not_le, str_le,
};

verus! {

/// A folder node: its key, display name, and child folders in display order.
#[derive(Debug)]
pub struct LibraryNode {
    pub id: String,
    pub name: String,
    pub children: Vec<LibraryNode>,
}

/// One row of the flattened tree display.
#[derive(Debug, Clone)]
pub struct TreeItem {
    pub id: String,
    pub name: String,
    pub depth: usize,
    pub has_children: bool,
    pub is_expanded: bool,
}

/// Mathematical model of a display row.
#[verifier::ext_equal]
pub struct TreeItemModel {
    pub id: Seq<char>,
    pub name: Seq<char>,
    pub depth: nat,
    pub has_children: bool,
    pub is_expanded: bool,
}

impl View for TreeItem {
    type V = TreeItemModel;

    open spec fn view(&self) -> TreeItemModel {
        TreeItemModel {
            id: self.id@,
            name: self.name@,
            depth: self.depth as nat,
            has_children: self.has_children,
            is_expanded: self.is_expanded,
        }
    }
}

/// Whether `id` is among the expanded keys.
pub open spec fn spec_expanded(expanded: Seq<Seq<char>>, id: Seq<char>) -> bool {
    expanded.contains(id)
}

/// The display row of one node at one depth.
pub open spec fn spec_row(node: LibraryNode, depth: nat, expanded: Seq<Seq<char>>) -> TreeItemModel {
    TreeItemModel {
        id: node.id@,
        name: node.name@,
        depth,
        has_children: node.children@.len() > 0,
        is_expanded: spec_expanded(expanded, node.id@),
    }
}

/// The rows of one node: itself, then — when it has children and is
/// expanded — the rows of its children one level deeper, in order.
pub open spec fn spec_rows(node: LibraryNode, depth: nat, expanded: Seq<Seq<char>>) -> Seq<
    TreeItemModel,
>
    decreases node, 1int,
{
    seq![spec_row(node, depth, expanded)] + if node.children@.len() > 0 && spec_expanded(
        expanded,
        node.id@,
    ) {
        spec_rows_list(node.children@, depth + 1, expanded)
    } else {
        Seq::empty()
    }
}

/// The rows of a list of sibling nodes, in order.
pub open spec fn spec_rows_list(nodes: Seq<LibraryNode>, depth: nat, expanded: Seq<Seq<char>>) -> Seq<
    TreeItemModel,
>
    decreases nodes, 0int,
{
    if nodes.len() == 0 {
        Seq::empty()
    } else {
        spec_rows(nodes[0], depth, expanded) + spec_rows_list(nodes.drop_first(), depth, expanded)
    }
}

/// The height of a node: one more than its tallest child.
pub open spec fn spec_height(node: LibraryNode) -> nat
    decreases node, 1int,
{
    1 + spec_height_list(node.children@)
}

/// The height of the tallest node of a list; zero for none.
pub open spec fn spec_height_list(nodes: Seq<LibraryNode>) -> nat
    decreases nodes, 0int,
{
    if nodes.len() == 0 {
        0
    } else if spec_height(nodes[0]) >= spec_height_list(nodes.drop_first()) {
        spec_height(nodes[0])
    } else {
        spec_height_list(nodes.drop_first())
    }
}

proof fn lemma_height_list_bound(nodes: Seq<LibraryNode>, i: int)
    requires
        0 <= i < nodes.len(),
    ensures
        spec_height(nodes[i]) <= spec_height_list(nodes),
    decreases nodes.len(),
{
    if i > 0 {
        lemma_height_list_bound(nodes.drop_first(), i - 1);
        assert(nodes.drop_first()[i - 1] == nodes[i]);
    }
}

/// Row lists concatenate across sibling lists.
proof fn lemma_rows_list_concat(a: Seq<LibraryNode>, b: Seq<LibraryNode>, depth: nat, expanded: Seq<Seq<char>>)
    ensures
        spec_rows_list(a + b, depth, expanded) == spec_rows_list(a, depth, expanded)
            + spec_rows_list(b, depth, expanded),
    decreases a.len(),
{
    if a.len() == 0 {
        assert(a + b =~= b);
        assert(spec_rows_list(a, depth, expanded) + spec_rows_list(b, depth, expanded)
            =~= spec_rows_list(b, depth, expanded));
    } else {
        assert((a + b)[0] == a[0]);
        assert((a + b).drop_first() =~= a.drop_first() + b);
        lemma_rows_list_concat(a.drop_first(), b, depth, expanded);
        assert(spec_rows(a[0], depth, expanded) + (spec_rows_list(a.drop_first(), depth, expanded)
            + spec_rows_list(b, depth, expanded)) =~= (spec_rows(a[0], depth, expanded)
            + spec_rows_list(a.drop_first(), depth, expanded)) + spec_rows_list(b, depth, expanded));
    }
}

/// Whether `id` is among the expanded keys, checked key by key.
fn contains_key(expanded: &Vec<String>, id: &String) -> (r: bool)
    ensures
        r == spec_expanded(expanded@.map_values(|s: String| s@), id@),
{
    let ghost keys = expanded@.map_values(|s: String| s@);
    let mut i: usize = 0;
    while i < expanded.len()
        invariant
            i <= expanded@.len(),
            keys == expanded@.map_values(|s: String| s@),
            forall|j: int| 0 <= j < i ==> keys[j] != id@,
        decreases expanded@.len() - i,
    {
        if expanded[i] == *id {
            proof {
                assert(keys[i as int] == id@);
            }
            return true;
        }
        proof {
            assert(keys[i as int] == expanded@[i as int]@);
        }
        i = i + 1;
    }
    false
}

/// Sibling keys strictly increase: children stand in key order, each key
/// once — what a key-ordered map of children keeps by construction.
pub open spec fn children_sorted(nodes: Seq<LibraryNode>) -> bool {
    forall|i: int, j: int|
        0 <= i < j < nodes.len() ==> chars_lt((#[trigger] nodes[i]).id@, (#[trigger] nodes[j]).id@)
}

/// Every node of a list is well formed.
pub open spec fn wf_list(nodes: Seq<LibraryNode>) -> bool
    decreases nodes, 0int,
{
    if nodes.len() == 0 {
        true
    } else {
        nodes[0].wf() && wf_list(nodes.drop_first())
    }
}

proof fn lemma_wf_list_iff(nodes: Seq<LibraryNode>)
    ensures
        wf_list(nodes) <==> (forall|i: int| 0 <= i < nodes.len() ==> (#[trigger] nodes[i]).wf()),
    decreases nodes.len(),
{
    if nodes.len() > 0 {
        lemma_wf_list_iff(nodes.drop_first());
        if wf_list(nodes) {
            assert forall|i: int| 0 <= i < nodes.len() implies (#[trigger] nodes[i]).wf() by {
                if i > 0 {
                    assert(nodes.drop_first()[i - 1] == nodes[i]);
                }
            }
        }
        if forall|i: int| 0 <= i < nodes.len() ==> (#[trigger] nodes[i]).wf() {
            assert forall|i: int|
                0 <= i < nodes.drop_first().len() implies (#[trigger] nodes.drop_first()[i]).wf() by {
                assert(nodes.drop_first()[i] == nodes[i + 1]);
            }
        }
    }
}

impl LibraryNode {
    /// A well-formed tree: at every node the children stand in strictly
    /// increasing key order. Constructors establish it and [`Self::ensure_child`]
    /// preserves it.
    pub open spec fn wf(&self) -> bool
        decreases *self, 1int,
    {
        children_sorted(self.children@) && wf_list(self.children@)
    }

    /// A leaf node with the given key and display name.
    pub fn new(id: String, name: String) -> (n: LibraryNode)
        ensures
            n.id@ == id@,
            n.name@ == name@,
            n.children@.len() == 0,
            n.wf(),
    {
        LibraryNode { id, name, children: Vec::new() }
    }

    /// The child with the given key, created as a fresh leaf at its
    /// key-sorted position when absent; returns its position among the
    /// children (so siblings always display in key order).
    pub fn ensure_child(&mut self, id: String, name: String) -> (idx: usize)
        requires
            old(self).wf(),
        ensures
            final(self).wf(),
            idx < final(self).children@.len(),
            final(self).children@[idx as int].id@ == id@,
            final(self).id == old(self).id,
            final(self).name == old(self).name,
            (exists|j: int|
                0 <= j < old(self).children@.len() && (#[trigger] old(self).children@[j]).id@
                    == id@) ==> *final(self) == *old(self),
            !(exists|j: int|
                0 <= j < old(self).children@.len() && (#[trigger] old(self).children@[j]).id@
                    == id@) ==> final(self).children@.len() == old(self).children@.len() + 1 && (
            forall|k: int|
                0 <= k < idx ==> #[trigger] final(self).children@[k] == old(self).children@[k]) && (
            forall|k: int|
                idx < k < final(self).children@.len() ==> #[trigger] final(self).children@[k]
                    == old(self).children@[k - 1]) && final(self).children@[idx as int].name@
                == name@ && final(self).children@[idx as int].children@.len() == 0,
    {
        let ghost old_children = self.children@;
        let mut i: usize = 0;
        while i < self.children.len() && str_le(self.children[i].id.as_str(), id.as_str())
            invariant
                *self == *old(self),
                old_children == old(self).children@,
                old(self).wf(),
                i <= self.children@.len(),
                forall|k: int| 0 <= k < i ==> chars_lt((#[trigger] old_children[k]).id@, id@),
            decreases self.children@.len() - i,
        {
            if self.children[i].id == id {
                return i;
            }
            i = i + 1;
        }
        proof {
            // everything from the stop position on lies strictly above the key
            if i < old_children.len() {
                lemma_chars_not_le(old_children[i as int].id@, id@);
            }
            assert forall|j: int|
                0 <= j < old_children.len() implies (#[trigger] old_children[j]).id@ != id@ by {
                if j >= i {
                    assert(chars_lt(id@, old_children[i as int].id@));
                    if j > i {
                        assert(chars_lt(old_children[i as int].id@, old_children[j].id@));
                        lemma_chars_lt_trans(
                            id@,
                            old_children[i as int].id@,
                            old_children[j].id@,
                        );
                    }
                }
            }
        }
        self.children.insert(i, LibraryNode { id, name, children: Vec::new() });
        proof {
            let newc = self.children@;
            let leaf = newc[i as int];
            old_children.insert_ensures(i as int, leaf);
            assert(newc == old_children.insert(i as int, leaf));
            assert(leaf.id@ == id@ && leaf.name@ == name@ && leaf.children@.len() == 0);
            assert(leaf.wf()) by {
                assert(leaf.children@.len() == 0);
            }
            assert(children_sorted(newc)) by {
                assert forall|a: int, b: int| 0 <= a < b < newc.len() implies chars_lt(
                    (#[trigger] newc[a]).id@,
                    (#[trigger] newc[b]).id@,
                ) by {
                    if a < i && b < i {
                        assert(newc[a] == old_children[a] && newc[b] == old_children[b]);
                    } else if a < i && b == i {
                        assert(newc[a] == old_children[a]);
                    } else if a < i && b > i {
                        assert(newc[a] == old_children[a] && newc[b] == old_children[b - 1]);
                        assert(a < b - 1);
                        assert(chars_lt(old_children[a].id@, old_children[b - 1].id@));
                    } else if a == i {
                        assert(newc[b] == old_children[b - 1]);
                        assert(chars_lt(id@, old_children[i as int].id@));
                        if b - 1 > i {
                            assert(chars_lt(
                                old_children[i as int].id@,
                                old_children[b - 1].id@,
                            ));
                            lemma_chars_lt_trans(
                                id@,
                                old_children[i as int].id@,
                                old_children[b - 1].id@,
                            );
                        }
                    } else {
                        assert(newc[a] == old_children[a - 1] && newc[b] == old_children[b - 1]);
                    }
                }
            }
            assert(wf_list(newc)) by {
                lemma_wf_list_iff(old_children);
                lemma_wf_list_iff(newc);
                assert forall|m: int| 0 <= m < newc.len() implies (#[trigger] newc[m]).wf() by {
                    if m < i {
                        assert(newc[m] == old_children[m]);
                    } else if m > i {
                        assert(newc[m] == old_children[m - 1]);
                    }
                }
            }
        }
        i
    }
}

/// Flatten the expanded part of a tree below `node` into display rows: each
/// child of `node`, at the given depth, with its own children one level
/// deeper where it is expanded. `node` itself gets no row.
pub fn collect_tree_items(
    node: &LibraryNode,
    depth: usize,
    expanded: &Vec<String>,
    items: &mut Vec<TreeItem>,
)
    requires
        depth + spec_height_list(node.children@) <= usize::MAX,
    ensures
        final(items)@.map_values(|t: TreeItem| t@) == old(items)@.map_values(|t: TreeItem| t@)
            + spec_rows_list(
            node.children@,
            depth as nat,
            expanded@.map_values(|s: String| s@),
        ),
    decreases *node, 1int,
{
    let ghost keys = expanded@.map_values(|s: String| s@);
    let ghost base = items@.map_values(|t: TreeItem| t@);
    let mut ci: usize = 0;
    proof {
        assert(node.children@.take(0) =~= Seq::<LibraryNode>::empty());
        assert(base + spec_rows_list(node.children@.take(0), depth as nat, keys) =~= base);
    }
    while ci < node.children.len()
        invariant
            ci <= node.children@.len(),
            depth + spec_height_list(node.children@) <= usize::MAX,
            keys == expanded@.map_values(|s: String| s@),
            items@.map_values(|t: TreeItem| t@) == base + spec_rows_list(
                node.children@.take(ci as int),
                depth as nat,
                keys,
            ),
        decreases *node, 0int, node.children@.len() - ci,
    {
        proof {
            lemma_height_list_bound(node.children@, ci as int);
        }
        collect_tree_items_inner(&node.children[ci], depth, expanded, items);
        proof {
            assert(node.children@.take(ci + 1) =~= node.children@.take(ci as int) + seq![
                node.children@[ci as int],
            ]);
            lemma_rows_list_concat(
                node.children@.take(ci as int),
                seq![node.children@[ci as int]],
                depth as nat,
                keys,
            );
            let c = node.children@[ci as int];
            assert(seq![c].drop_first() =~= Seq::<LibraryNode>::empty());
            assert(seq![c][0] == c);
            assert(spec_rows_list(seq![c], depth as nat, keys) == spec_rows(c, depth as nat, keys)
                + spec_rows_list(seq![c].drop_first(), depth as nat, keys));
            assert(spec_rows_list(Seq::<LibraryNode>::empty(), depth as nat, keys) =~= Seq::<
                TreeItemModel,
            >::empty());
            assert(spec_rows_list(seq![c], depth as nat, keys) =~= spec_rows(
                c,
                depth as nat,
                keys,
            ));
            assert(base + (spec_rows_list(node.children@.take(ci as int), depth as nat, keys)
                + spec_rows(c, depth as nat, keys)) =~= base + spec_rows_list(
                node.children@.take(ci + 1),
                depth as nat,
                keys,
            ));
        }
        ci = ci + 1;
    }
    proof {
        assert(node.children@.take(node.children@.len() as int) =~= node.children@);
    }
}

/// Flatten one node into display rows: the node itself at the given depth,
/// then — when it has children and is expanded — its children one level
/// deeper.
pub fn collect_tree_items_inner(
    node: &LibraryNode,
    depth: usize,
    expanded: &Vec<String>,
    items: &mut Vec<TreeItem>,
)
    requires
        depth + spec_height(*node) <= usize::MAX,
    ensures
        final(items)@.map_values(|t: TreeItem| t@) == old(items)@.map_values(|t: TreeItem| t@)
            + spec_rows(*node, depth as nat, expanded@.map_values(|s: String| s@)),
    decreases *node, 2int,
{
    let ghost keys = expanded@.map_values(|s: String| s@);
    let ghost base = items@.map_values(|t: TreeItem| t@);
    let has_children = node.children.len() > 0;
    let is_expanded = contains_key(expanded, &node.id);
    let row = TreeItem {
        id: crate::devices::clone_string(&node.id),
        name: crate::devices::clone_string(&node.name),
        depth,
        has_children,
        is_expanded,
    };
    proof {
        assert(row@ == spec_row(*node, depth as nat, keys));
    }
    items.push(row);
    proof {
        assert(items@.map_values(|t: TreeItem| t@) =~= base.push(
            spec_row(*node, depth as nat, keys),
        ));
    }
    if has_children && is_expanded {
        collect_tree_items(node, depth + 1, expanded, items);
        proof {
            assert(items@.map_values(|t: TreeItem| t@) =~= base + spec_rows(
                *node,
                depth as nat,
                keys,
            ));
        }
    } else {
        proof {
            assert(spec_rows(*node, depth as nat, keys) =~= seq![
                spec_row(*node, depth as nat, keys),
            ]);
            assert(items@.map_values(|t: TreeItem| t@) =~= base + spec_rows(
                *node,
                depth as nat,
                keys,
            ));
        }
    }
}

} // verus!
