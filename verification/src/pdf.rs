//! The parts of a PDF that the library plans: the pages to assemble and
//! the outline tree.

use vstd::prelude::*;
use crate::types::{
    outline_views, CajError, DecodedImage, DecodedImageView, OutlineEntry, OutlineEntryView,
};
use crate::bindings::{
    pdf_loaded, pdf_serialized, max_object_id, pdf_catalog, pdf_max_id, pdf_dict_entries, pdf_objects, pdf_streams, pdf_trailer, catalog_mut, compress_stream, io_error_text, load_pdf, new_object_id,
    page_ids, pdf_error_text, save_pdf, set_destination, set_integer, set_integers, set_name,
    set_object, set_reference, set_references, set_text, stream_compressed,
};
use crate::text::{decimal, push_numeral, push_str, string_of};
use crate::bytes::occurs_at;
use crate::caj::{eof_marker, pdf_magic};

verus! {

/// A single page ready to be assembled into a PDF, with the image to embed
/// and any extracted text.
#[derive(Debug)]
pub struct PageInput {
    pub image: DecodedImage,
    /// Optional plain text overlay (HN-format files only).
    pub text_overlay: Option<String>,
}

/// The mathematical content of a page input.
pub struct PageInputView {
    pub image: DecodedImageView,
    pub text_overlay: Option<Seq<char>>,
}

impl View for PageInput {
    type V = PageInputView;

    open spec fn view(&self) -> PageInputView {
        PageInputView {
            image: self.image@,
            text_overlay: match self.text_overlay {
                Some(t) => Some(t@),
                None => None,
            },
        }
    }
}

impl PageInput {
    /// A page of the image, without a text overlay.
    pub fn new(image: DecodedImage) -> (r: Self)
        ensures
            r@ == (PageInputView { image: image@, text_overlay: None }),
    {
        PageInput { image, text_overlay: None }
    }
}

impl Clone for PageInput {
    fn clone(&self) -> (r: Self)
        ensures
            r@ == self@,
    {
        PageInput {
            image: self.image.clone(),
            text_overlay: match &self.text_overlay {
                Some(t) => Some(t.clone()),
                None => None,
            },
        }
    }
}

// ---------------------------------------------------------------------
// The outline tree
// ---------------------------------------------------------------------

/// One node in the outline tree built from the flat outline list: every
/// entry is hung under the node where its level places it, as the first
/// child (`lchild`) of a node one level up or as the next sibling
/// (`rchild`).
#[derive(Debug)]
pub struct OutlineNode {
    /// 0-based page number (1-based page from the outline, minus one).
    pub page: u32,
    /// Nesting level (1 = top-level). The synthetic root is level 0.
    pub level: u8,
    /// 1-based index in the flat outline list (root is 0).
    pub index: u32,
    /// Title.
    pub title: String,
    /// Index of the parent node. `None` for the synthetic root.
    pub parent: Option<usize>,
    /// Index of the left-child node (first sub-outline).
    pub lchild: Option<usize>,
    /// Index of the right-sibling node.
    pub rchild: Option<usize>,
}

/// The mathematical content of an outline node.
pub struct OutlineNodeView {
    pub page: u32,
    pub level: u8,
    pub index: u32,
    pub title: Seq<char>,
    pub parent: Option<int>,
    pub lchild: Option<int>,
    pub rchild: Option<int>,
}

/// An index link as an integer.
pub open spec fn link(l: Option<usize>) -> Option<int> {
    match l {
        Some(i) => Some(i as int),
        None => None,
    }
}

impl View for OutlineNode {
    type V = OutlineNodeView;

    open spec fn view(&self) -> OutlineNodeView {
        OutlineNodeView {
            page: self.page,
            level: self.level,
            index: self.index,
            title: self.title@,
            parent: link(self.parent),
            lchild: link(self.lchild),
            rchild: link(self.rchild),
        }
    }
}

/// The views of a sequence of nodes.
pub open spec fn node_views(s: Seq<OutlineNode>) -> Seq<OutlineNodeView> {
    s.map_values(|n: OutlineNode| n@)
}

/// The synthetic root.
pub open spec fn root_node() -> OutlineNodeView {
    OutlineNodeView {
        page: 0,
        level: 0,
        index: 0,
        title: Seq::empty(),
        parent: None,
        lchild: None,
        rchild: None,
    }
}

impl OutlineNode {
    /// The synthetic root: level 0, no title, no links.
    pub fn root() -> (r: Self)
        ensures
            r@ == root_node(),
    {
        OutlineNode {
            page: 0,
            level: 0,
            index: 0,
            title: String::new(),
            parent: None,
            lchild: None,
            rchild: None,
        }
    }
}

/// Links point inside the list: parents to earlier nodes, children to
/// later ones.
pub open spec fn tree_wf(nodes: Seq<OutlineNodeView>) -> bool {
    forall|k: int|
        0 <= k < nodes.len() ==> {
            &&& (#[trigger] nodes[k]).parent matches Some(p) ==> 0 <= p < k
            &&& nodes[k].lchild matches Some(c) ==> k < c < nodes.len()
            &&& nodes[k].rchild matches Some(c) ==> k < c < nodes.len()
        }
}

/// The closest ancestor of `cur`, starting the walk at `p`, that has the
/// node on the way up as its first child; the root if there is none.
pub open spec fn real_parent_from(nodes: Seq<OutlineNodeView>, cur: int, p: int) -> int
    decreases p,
{
    if p < 0 || p >= nodes.len() {
        0
    } else if nodes[p].lchild == Some(cur) {
        p
    } else {
        match nodes[p].parent {
            Some(gp) => if 0 <= gp < p {
                real_parent_from(nodes, p, gp)
            } else {
                0
            },
            None => 0,
        }
    }
}

/// The "real parent" of node `c`: the closest ancestor that has the node
/// on the way up as its first child; the root if there is none.
pub open spec fn real_parent(nodes: Seq<OutlineNodeView>, c: int) -> int {
    match nodes[c].parent {
        None => 0,
        Some(p) => real_parent_from(nodes, c, p),
    }
}

/// Walking up the real parents from `p`: the first at level `target`,
/// the root when the walk reaches it first.
pub open spec fn level_ancestor_from(nodes: Seq<OutlineNodeView>, p: int, target: u8) -> int
    decreases p,
{
    if p <= 0 || p >= nodes.len() || nodes[p].level == target {
        if 0 <= p < nodes.len() && nodes[p].level == target {
            p
        } else {
            0
        }
    } else if 0 <= real_parent(nodes, p) < p {
        level_ancestor_from(nodes, real_parent(nodes, p), target)
    } else {
        0
    }
}

/// The node at the end of the sibling chain that starts at `c`.
pub open spec fn rightmost(nodes: Seq<OutlineNodeView>, c: int) -> int
    decreases nodes.len() - c,
{
    if c < 0 || c >= nodes.len() {
        c
    } else {
        match nodes[c].rchild {
            Some(n) => if c < n < nodes.len() {
                rightmost(nodes, n)
            } else {
                c
            },
            None => c,
        }
    }
}

/// The last item, in depth-first order, of the sub-outline of node `i`
/// (`i` itself when it has none).
pub open spec fn last_desc(nodes: Seq<OutlineNodeView>, i: int) -> int
    decreases nodes.len() - i,
{
    if i < 0 || i >= nodes.len() {
        i
    } else {
        match nodes[i].lchild {
            None => i,
            Some(c) => {
                let r = rightmost(nodes, c);
                if i < r < nodes.len() {
                    last_desc(nodes, r)
                } else {
                    i
                }
            },
        }
    }
}

/// The node of outline entry `e`, number `idx` (from 1), before it is
/// linked.
pub open spec fn entry_node(e: OutlineEntryView, idx: int) -> OutlineNodeView {
    OutlineNodeView {
        page: if e.page == 0 {
            0
        } else {
            (e.page - 1) as u32
        },
        level: e.level,
        index: idx as u32,
        title: e.title,
        parent: None,
        lchild: None,
        rchild: None,
    }
}

/// Insert the next entry after the last node (the cursor): deeper than the
/// cursor it becomes its first child; at the same level its next sibling;
/// shallower, it becomes the next sibling of the last item under the
/// closest real ancestor at its level (or the root), and a child of that
/// ancestor.
pub open spec fn insert_entry(nodes: Seq<OutlineNodeView>, e: OutlineEntryView) -> Seq<
    OutlineNodeView,
> {
    let cursor = nodes.len() - 1;
    let new_idx = nodes.len() as int;
    let n = entry_node(e, new_idx);
    let with_new = nodes.push(n);
    if e.level > nodes[cursor].level {
        with_new.update(cursor, OutlineNodeView { lchild: Some(new_idx), ..nodes[cursor] }).update(
            new_idx,
            OutlineNodeView { parent: Some(cursor), ..n },
        )
    } else if e.level == nodes[cursor].level {
        with_new.update(cursor, OutlineNodeView { rchild: Some(new_idx), ..nodes[cursor] }).update(
            new_idx,
            OutlineNodeView { parent: Some(cursor), ..n },
        )
    } else {
        let anc = level_ancestor_from(with_new, real_parent(with_new, cursor), e.level);
        let endpoint = last_desc(with_new, anc);
        with_new.update(endpoint, OutlineNodeView { rchild: Some(new_idx), ..with_new[endpoint] }).update(
            new_idx,
            OutlineNodeView { parent: Some(anc), ..n },
        )
    }
}

/// The outline tree of a flat outline list: the root, then one node per
/// entry in order.
pub open spec fn btree_spec(entries: Seq<OutlineEntryView>) -> Seq<OutlineNodeView>
    decreases entries.len(),
{
    if entries.len() == 0 {
        seq![root_node()]
    } else {
        insert_entry(btree_spec(entries.drop_last()), entries.last())
    }
}

/// Find the "real parent" of the node at `cursor_idx`: the closest
/// ancestor that has the node on the way up as its left child. Returns 0
/// (the synthetic root) if no such ancestor exists.
fn find_real_parent(nodes: &Vec<OutlineNode>, cursor_idx: usize) -> (r: usize)
    requires
        tree_wf(node_views(nodes@)),
        cursor_idx < nodes@.len(),
    ensures
        r == real_parent(node_views(nodes@), cursor_idx as int),
{
    let ghost v = node_views(nodes@);
    proof {
        assert(v[cursor_idx as int] == nodes@[cursor_idx as int]@);
    }
    let mut cur = cursor_idx;
    let mut p_idx = match nodes[cur].parent {
        Some(p) => p,
        None => {
            return 0;
        },
    };
    loop
        invariant
            v == node_views(nodes@),
            tree_wf(v),
            p_idx < cur < nodes@.len(),
            real_parent(v, cursor_idx as int) == real_parent_from(v, cur as int, p_idx as int),
        decreases p_idx,
    {
        proof {
            assert(v[p_idx as int] == nodes@[p_idx as int]@);
        }
        let is_left = match nodes[p_idx].lchild {
            Some(c) => c == cur,
            None => false,
        };
        if is_left {
            return p_idx;
        }
        match nodes[p_idx].parent {
            Some(gp) => {
                cur = p_idx;
                p_idx = gp;
            },
            None => {
                return 0;
            },
        }
    }
}

/// The last item, in depth-first order, of the sub-outline of node `i`:
/// the end of the sibling chain of its first child, recursively; `i`
/// itself when it has no children.
fn last_descendant(nodes: &Vec<OutlineNode>, i: usize) -> (r: usize)
    requires
        tree_wf(node_views(nodes@)),
        i < nodes@.len(),
    ensures
        r == last_desc(node_views(nodes@), i as int),
    decreases nodes@.len() - i,
{
    let ghost v = node_views(nodes@);
    proof {
        assert(v[i as int] == nodes@[i as int]@);
    }
    match nodes[i].lchild {
        Some(child) => {
            let mut cur = child;
            loop
                invariant
                    v == node_views(nodes@),
                    tree_wf(v),
                    i < child <= cur < nodes@.len(),
                    rightmost(v, child as int) == rightmost(v, cur as int),
                ensures
                    i < cur < nodes@.len(),
                    rightmost(v, child as int) == cur,
                decreases nodes@.len() - cur,
            {
                proof {
                    assert(v[cur as int] == nodes@[cur as int]@);
                }
                match nodes[cur].rchild {
                    Some(next) => {
                        cur = next;
                    },
                    None => {
                        break;
                    },
                }
            }
            proof {
                assert(v[cur as int] == nodes@[cur as int]@);
            }
            last_descendant(nodes, cur)
        },
        None => i,
    }
}

/// A real parent lies inside the list, and above the node when the node
/// is not the root.
pub proof fn lemma_real_parent(nodes: Seq<OutlineNodeView>, c: int)
    requires
        0 <= c < nodes.len(),
        tree_wf(nodes),
    ensures
        0 <= real_parent(nodes, c) < nodes.len(),
        real_parent(nodes, c) <= c,
        c > 0 ==> real_parent(nodes, c) < c,
{
    match nodes[c].parent {
        None => {},
        Some(p) => {
            lemma_real_parent_from(nodes, c, p);
        },
    }
}

proof fn lemma_real_parent_from(nodes: Seq<OutlineNodeView>, cur: int, p: int)
    requires
        0 <= p < nodes.len(),
        tree_wf(nodes),
    ensures
        0 <= real_parent_from(nodes, cur, p) <= p,
    decreases p,
{
    if nodes[p].lchild != Some(cur) {
        match nodes[p].parent {
            Some(gp) => {
                if 0 <= gp < p {
                    lemma_real_parent_from(nodes, p, gp);
                }
            },
            None => {},
        }
    }
}

proof fn lemma_level_ancestor(nodes: Seq<OutlineNodeView>, p: int, target: u8)
    requires
        0 <= p < nodes.len(),
        tree_wf(nodes),
    ensures
        0 <= level_ancestor_from(nodes, p, target) <= p,
    decreases p,
{
    if !(p <= 0 || nodes[p].level == target) {
        lemma_real_parent(nodes, p);
        lemma_level_ancestor(nodes, real_parent(nodes, p), target);
    }
}

proof fn lemma_rightmost(nodes: Seq<OutlineNodeView>, c: int)
    requires
        0 <= c < nodes.len(),
        tree_wf(nodes),
    ensures
        c <= rightmost(nodes, c) < nodes.len(),
    decreases nodes.len() - c,
{
    match nodes[c].rchild {
        Some(n) => {
            lemma_rightmost(nodes, n);
        },
        None => {},
    }
}

proof fn lemma_rightmost_below(nodes: Seq<OutlineNodeView>, c: int, b: int)
    requires
        0 <= c < b <= nodes.len(),
        tree_wf(nodes),
        forall|k: int|
            0 <= k < b ==> ((#[trigger] nodes[k]).rchild matches Some(x) ==> x < b),
    ensures
        c <= rightmost(nodes, c) < b,
    decreases nodes.len() - c,
{
    match nodes[c].rchild {
        Some(n) => {
            lemma_rightmost_below(nodes, n, b);
        },
        None => {},
    }
}

proof fn lemma_last_desc_below(nodes: Seq<OutlineNodeView>, i: int, b: int)
    requires
        0 <= i < b <= nodes.len(),
        tree_wf(nodes),
        forall|k: int|
            0 <= k < b ==> ((#[trigger] nodes[k]).rchild matches Some(x) ==> x < b)
                && (nodes[k].lchild matches Some(x) ==> x < b),
    ensures
        i <= last_desc(nodes, i) < b,
    decreases nodes.len() - i,
{
    match nodes[i].lchild {
        None => {},
        Some(c) => {
            lemma_rightmost_below(nodes, c, b);
            let r = rightmost(nodes, c);
            lemma_last_desc_below(nodes, r, b);
        },
    }
}

proof fn lemma_last_desc(nodes: Seq<OutlineNodeView>, i: int)
    requires
        0 <= i < nodes.len(),
        tree_wf(nodes),
    ensures
        i <= last_desc(nodes, i) < nodes.len(),
    decreases nodes.len() - i,
{
    match nodes[i].lchild {
        None => {},
        Some(c) => {
            lemma_rightmost(nodes, c);
            let r = rightmost(nodes, c);
            lemma_last_desc(nodes, r);
        },
    }
}

/// The tree of an outline has one node more than the outline, and its
/// links point inside it (parents earlier, children later).
pub proof fn lemma_btree_wf(entries: Seq<OutlineEntryView>)
    ensures
        btree_spec(entries).len() == entries.len() + 1,
        tree_wf(btree_spec(entries)),
        forall|k: int|
            0 <= k < btree_spec(entries).len() ==> (#[trigger] btree_spec(entries)[k]).page
                < u32::MAX,
    decreases entries.len(),
{
    if entries.len() > 0 {
        let nodes = btree_spec(entries.drop_last());
        lemma_btree_wf(entries.drop_last());
        let e = entries.last();
        let cursor = nodes.len() - 1;
        let new_idx = nodes.len() as int;
        let n = entry_node(e, new_idx);
        let with_new = nodes.push(n);
        assert(tree_wf(with_new)) by {
            assert forall|k: int| 0 <= k < with_new.len() implies {
                &&& (#[trigger] with_new[k]).parent matches Some(p) ==> 0 <= p < k
                &&& with_new[k].lchild matches Some(c) ==> k < c < with_new.len()
                &&& with_new[k].rchild matches Some(c) ==> k < c < with_new.len()
            } by {
                if k < nodes.len() {
                    assert(with_new[k] == nodes[k]);
                }
            }
        }
        let result = btree_spec(entries);
        let x: int;
        let par: int;
        if e.level > nodes[cursor].level || e.level == nodes[cursor].level {
            x = cursor;
            par = cursor;
        } else {
            lemma_real_parent(with_new, cursor);
            lemma_level_ancestor(with_new, real_parent(with_new, cursor), e.level);
            let anc = level_ancestor_from(with_new, real_parent(with_new, cursor), e.level);
            let b = new_idx;
            assert forall|k: int| 0 <= k < b implies ((#[trigger] with_new[k]).rchild matches Some(
                y,
            ) ==> y < b) && (with_new[k].lchild matches Some(y) ==> y < b) by {
                assert(with_new[k] == nodes[k]);
            }
            lemma_last_desc_below(with_new, anc, b);
            x = last_desc(with_new, anc);
            par = anc;
        }
        assert(0 <= x < nodes.len());
        assert(0 <= par < nodes.len());
        assert(result.len() == with_new.len());
        assert forall|k: int| 0 <= k < result.len() implies {
            &&& (#[trigger] result[k]).parent matches Some(p) ==> 0 <= p < k
            &&& result[k].lchild matches Some(c) ==> k < c < result.len()
            &&& result[k].rchild matches Some(c) ==> k < c < result.len()
        } by {
            if k == new_idx {
                assert(result[k].parent == Some(par));
                assert(result[k].lchild is None && result[k].rchild is None);
            } else if k == x {
                assert(result[k].parent == with_new[k].parent);
                assert(result[k].page == with_new[k].page);
                assert(with_new[k].lchild matches Some(c) ==> k < c < with_new.len());
                assert(with_new[k].rchild matches Some(c) ==> k < c < with_new.len());
            } else {
                assert(result[k] == with_new[k]);
            }
        }
        assert forall|k: int| 0 <= k < result.len() implies (#[trigger] result[k]).page
            < u32::MAX by {
            if k == new_idx {
            } else if k == x {
                assert(result[k].page == with_new[k].page);
                assert(with_new[k] == nodes[k]);
            } else {
                assert(result[k] == with_new[k]);
                assert(with_new[k] == nodes[k]);
            }
        }
    }
}

/// A real parent is the root or a node with a first child.
proof fn lemma_real_parent_from_lchild_some(nodes: Seq<OutlineNodeView>, cur: int, p: int)
    requires
        0 <= p < nodes.len(),
        tree_wf(nodes),
    ensures
        ({
            let r = real_parent_from(nodes, cur, p);
            r == 0 || nodes[r].lchild is Some
        }),
    decreases p,
{
    if nodes[p].lchild != Some(cur) {
        match nodes[p].parent {
            Some(gp) => {
                if 0 <= gp < p {
                    lemma_real_parent_from_lchild_some(nodes, p, gp);
                }
            },
            None => {},
        }
    }
}

/// Walking up real parents from the root or a node with a first child
/// ends at the root or at a node with a first child.
proof fn lemma_level_ancestor_lchild_some(nodes: Seq<OutlineNodeView>, p: int, target: u8)
    requires
        0 <= p < nodes.len(),
        tree_wf(nodes),
        p == 0 || nodes[p].lchild is Some,
    ensures
        ({
            let a = level_ancestor_from(nodes, p, target);
            a == 0 || nodes[a].lchild is Some
        }),
    decreases p,
{
    if !(p <= 0 || nodes[p].level == target) {
        lemma_real_parent(nodes, p);
        match nodes[p].parent {
            Some(pp) => {
                lemma_real_parent_from_lchild_some(nodes, p, pp);
            },
            None => {},
        }
        if 0 <= real_parent(nodes, p) < p {
            lemma_level_ancestor_lchild_some(nodes, real_parent(nodes, p), target);
        }
    }
}

/// The end of a sibling chain has no next sibling.
proof fn lemma_rightmost_end(nodes: Seq<OutlineNodeView>, c: int)
    requires
        0 <= c < nodes.len(),
        tree_wf(nodes),
    ensures
        nodes[rightmost(nodes, c)].rchild is None,
    decreases nodes.len() - c,
{
    match nodes[c].rchild {
        Some(n) => {
            lemma_rightmost_end(nodes, n);
        },
        None => {},
    }
}

/// The last item of a sub-outline whose node has a first child or no
/// next sibling has neither.
proof fn lemma_last_desc_leaf(nodes: Seq<OutlineNodeView>, i: int)
    requires
        0 <= i < nodes.len(),
        tree_wf(nodes),
        nodes[i].lchild is Some || nodes[i].rchild is None,
    ensures
        nodes[last_desc(nodes, i)].lchild is None,
        nodes[last_desc(nodes, i)].rchild is None,
    decreases nodes.len() - i,
{
    match nodes[i].lchild {
        None => {},
        Some(c) => {
            lemma_rightmost(nodes, c);
            lemma_rightmost_end(nodes, c);
            let r = rightmost(nodes, c);
            lemma_last_desc_leaf(nodes, r);
        },
    }
}

/// Node `k + 1` of the tree is that of entry `k`: its title, its level,
/// its page counted from 0 (page 0 stays 0), its index `k + 1`, and a
/// parent that comes before it.
pub open spec fn node_of_entry(node: OutlineNodeView, e: OutlineEntryView, k: int) -> bool {
    &&& node.title == e.title
    &&& node.level == e.level
    &&& node.page == (if e.page == 0 {
        0
    } else {
        (e.page - 1) as u32
    })
    &&& node.index == (k + 1) as u32
    &&& node.parent matches Some(p) && 0 <= p <= k
}

/// No node of the tree has both a first child and a next sibling.
pub open spec fn one_link_each(nodes: Seq<OutlineNodeView>) -> bool {
    forall|i: int|
        0 <= i < nodes.len() ==> !((#[trigger] nodes[i]).lchild is Some && nodes[i].rchild is Some)
}

/// What the tree of an outline is, with what the next insertion relies
/// on: the last node has no links, and the root has a first child once
/// there is an entry.
proof fn lemma_btree_shape_step(entries: Seq<OutlineEntryView>)
    requires
        forall|k: int| 0 <= k < entries.len() ==> (#[trigger] entries[k]).level >= 1,
    ensures
        btree_spec(entries).len() == entries.len() + 1,
        btree_spec(entries)[0].level == 0,
        btree_spec(entries)[0].index == 0,
        btree_spec(entries)[0].parent is None,
        forall|k: int|
            0 <= k < entries.len() ==> node_of_entry(btree_spec(entries)[k + 1], #[trigger] entries[k], k),
        one_link_each(btree_spec(entries)),
        btree_spec(entries)[entries.len() as int].lchild is None,
        btree_spec(entries)[entries.len() as int].rchild is None,
        entries.len() > 0 ==> btree_spec(entries)[0].lchild is Some,
    decreases entries.len(),
{
    lemma_btree_wf(entries);
    if entries.len() > 0 {
        let prev = entries.drop_last();
        assert forall|k: int| 0 <= k < prev.len() implies (#[trigger] prev[k]).level >= 1 by {
            assert(prev[k] == entries[k]);
        }
        lemma_btree_shape_step(prev);
        lemma_btree_wf(prev);
        let nodes = btree_spec(prev);
        let e = entries.last();
        let cursor = nodes.len() - 1;
        let new_idx = nodes.len() as int;
        let n = entry_node(e, new_idx);
        let with_new = nodes.push(n);
        let result = btree_spec(entries);
        assert(result == insert_entry(nodes, e));
        assert(tree_wf(with_new)) by {
            assert forall|k: int| 0 <= k < with_new.len() implies {
                &&& (#[trigger] with_new[k]).parent matches Some(p) ==> 0 <= p < k
                &&& with_new[k].lchild matches Some(c) ==> k < c < with_new.len()
                &&& with_new[k].rchild matches Some(c) ==> k < c < with_new.len()
            } by {
                if k < nodes.len() {
                    assert(with_new[k] == nodes[k]);
                }
            }
        }
        let x: int;
        if e.level > nodes[cursor].level || e.level == nodes[cursor].level {
            x = cursor;
            if e.level == nodes[cursor].level {
                assert(cursor != 0);
            }
        } else {
            lemma_real_parent(with_new, cursor);
            let rp = real_parent(with_new, cursor);
            match with_new[cursor].parent {
                Some(pp) => {
                    lemma_real_parent_from_lchild_some(with_new, cursor, pp);
                },
                None => {},
            }
            assert(cursor != 0);
            assert(with_new[0] == nodes[0]);
            lemma_level_ancestor(with_new, rp, e.level);
            lemma_level_ancestor_lchild_some(with_new, rp, e.level);
            let anc = level_ancestor_from(with_new, rp, e.level);
            lemma_last_desc(with_new, anc);
            lemma_last_desc_leaf(with_new, anc);
            x = last_desc(with_new, anc);
            assert(x < new_idx) by {
                let b = new_idx;
                assert forall|k: int| 0 <= k < b implies ((#[trigger] with_new[k]).rchild matches Some(
                    y,
                ) ==> y < b) && (with_new[k].lchild matches Some(y) ==> y < b) by {
                    assert(with_new[k] == nodes[k]);
                }
                lemma_last_desc_below(with_new, anc, b);
            }
            assert(with_new[x] == nodes[x]);
        }
        assert forall|k: int| 0 <= k < entries.len() implies node_of_entry(
            result[k + 1],
            #[trigger] entries[k],
            k,
        ) by {
            if k < prev.len() {
                assert(prev[k] == entries[k]);
                assert(node_of_entry(nodes[k + 1], prev[k], k));
                if k + 1 == x {
                    assert(result[k + 1].title == nodes[k + 1].title);
                    assert(result[k + 1].level == nodes[k + 1].level);
                    assert(result[k + 1].page == nodes[k + 1].page);
                    assert(result[k + 1].index == nodes[k + 1].index);
                    assert(result[k + 1].parent == nodes[k + 1].parent);
                } else {
                    assert(result[k + 1] == nodes[k + 1]);
                }
            } else {
                assert(k + 1 == new_idx);
                assert(e == entries[k]);
                assert(result[k + 1].title == n.title);
            }
        }
        assert forall|i: int| 0 <= i < result.len() implies !((#[trigger] result[i]).lchild is Some
            && result[i].rchild is Some) by {
            if i < nodes.len() && i != x {
                assert(result[i] == nodes[i]);
                assert(!(nodes[i].lchild is Some && nodes[i].rchild is Some));
            }
        }
        assert(result[0].level == 0 && result[0].index == 0 && result[0].parent is None);
        if prev.len() > 0 {
            assert(result[0].lchild is Some);
        }
    }
}

/// The tree of an outline whose levels are all at least 1 (the root is
/// level 0): the root, level 0 and index 0 with no parent, then node
/// `k + 1` for entry `k` ([`node_of_entry`]); and no node has both a first
/// child and a next sibling.
pub proof fn lemma_btree_shape(entries: Seq<OutlineEntryView>)
    requires
        forall|k: int| 0 <= k < entries.len() ==> (#[trigger] entries[k]).level >= 1,
    ensures
        btree_spec(entries).len() == entries.len() + 1,
        btree_spec(entries)[0].level == 0,
        btree_spec(entries)[0].index == 0,
        btree_spec(entries)[0].parent is None,
        forall|k: int|
            0 <= k < entries.len() ==> node_of_entry(btree_spec(entries)[k + 1], #[trigger] entries[k], k),
        one_link_each(btree_spec(entries)),
{
    lemma_btree_shape_step(entries);
}

/// Build the outline tree from a flat outline list: the synthetic root at
/// index 0, then one node per entry, linked by [`btree_spec`].
pub fn build_btree(outlines: &[OutlineEntry]) -> (r: Vec<OutlineNode>)
    ensures
        node_views(r@) == btree_spec(outline_views(outlines@)),
{
    let ghost entries = outline_views(outlines@);
    let mut nodes: Vec<OutlineNode> = Vec::new();
    nodes.push(OutlineNode::root());
    let mut cursor_idx: usize = 0;
    let mut i: usize = 0;
    proof {
        assert(entries.subrange(0, 0) =~= Seq::<OutlineEntryView>::empty());
        assert(node_views(nodes@) =~= seq![root_node()]);
    }
    while i < outlines.len()
        invariant
            i <= outlines@.len(),
            entries == outline_views(outlines@),
            node_views(nodes@) == btree_spec(entries.subrange(0, i as int)),
            nodes@.len() == i + 1,
            cursor_idx == i,
            tree_wf(node_views(nodes@)),
        decreases outlines@.len() - i,
    {
        let ghost before = node_views(nodes@);
        proof {
            assert(entries.subrange(0, i + 1).drop_last() =~= entries.subrange(0, i as int));
            assert(entries.subrange(0, i + 1).last() == entries[i as int]);
            assert(entries[i as int] == outlines@[i as int]@);
            lemma_btree_wf(entries.subrange(0, i + 1));
            assert(before[cursor_idx as int] == nodes@[cursor_idx as int]@);
        }
        let entry = &outlines[i];
        let node = OutlineNode {
            page: entry.page.saturating_sub(1),
            level: entry.level,
            index: #[verifier::truncate] ((i + 1) as u32),
            title: entry.title.clone(),
            parent: None,
            lchild: None,
            rchild: None,
        };
        let new_idx = nodes.len();
        let cursor_level = nodes[cursor_idx].level;
        nodes.push(node);
        let ghost with_new = node_views(nodes@);
        proof {
            assert(with_new =~= before.push(entry_node(entries[i as int], (i + 1) as int)));
            assert(tree_wf(with_new)) by {
                assert forall|k: int| 0 <= k < with_new.len() implies {
                    &&& (#[trigger] with_new[k]).parent matches Some(p) ==> 0 <= p < k
                    &&& with_new[k].lchild matches Some(c) ==> k < c < with_new.len()
                    &&& with_new[k].rchild matches Some(c) ==> k < c < with_new.len()
                } by {
                    if k < before.len() {
                        assert(with_new[k] == before[k]);
                    }
                }
            }
        }
        if entry.level > cursor_level {
            nodes[cursor_idx].lchild = Some(new_idx);
            nodes[new_idx].parent = Some(cursor_idx);
            proof {
                let ins = insert_entry(before, entries[i as int]);
                assert(ins.len() == node_views(nodes@).len());
                assert(ins[cursor_idx as int] == node_views(nodes@)[cursor_idx as int]);
                assert(ins[new_idx as int] == node_views(nodes@)[new_idx as int]);
            }
        } else if entry.level == cursor_level {
            nodes[cursor_idx].rchild = Some(new_idx);
            nodes[new_idx].parent = Some(cursor_idx);
            proof {
                let ins = insert_entry(before, entries[i as int]);
                assert(ins.len() == node_views(nodes@).len());
                assert(ins[cursor_idx as int] == node_views(nodes@)[cursor_idx as int]);
                assert(ins[new_idx as int] == node_views(nodes@)[new_idx as int]);
            }
        } else {
            let target_level = entry.level;
            let mut cur = cursor_idx;
            let mut p_idx = find_real_parent(&nodes, cur);
            proof {
                lemma_real_parent(with_new, cursor_idx as int);
            }
            let mut ancestor_idx: usize = 0;
            loop
                invariant
                    with_new == node_views(nodes@),
                    tree_wf(with_new),
                    p_idx < nodes@.len(),
                    level_ancestor_from(with_new, real_parent(with_new, cursor_idx as int), target_level)
                        == level_ancestor_from(with_new, p_idx as int, target_level),
                ensures
                    ancestor_idx < nodes@.len(),
                    ancestor_idx == level_ancestor_from(
                        with_new,
                        real_parent(with_new, cursor_idx as int),
                        target_level,
                    ),
                decreases p_idx,
            {
                proof {
                    assert(with_new[p_idx as int] == nodes@[p_idx as int]@);
                }
                if nodes[p_idx].level == target_level {
                    ancestor_idx = p_idx;
                    break;
                }
                if p_idx == 0 {
                    ancestor_idx = 0;
                    break;
                }
                cur = p_idx;
                proof {
                    lemma_real_parent(with_new, cur as int);
                }
                p_idx = find_real_parent(&nodes, cur);
            }
            proof {
                lemma_last_desc(with_new, ancestor_idx as int);
                lemma_level_ancestor(
                    with_new,
                    real_parent(with_new, cursor_idx as int),
                    target_level,
                );
                let b = new_idx as int;
                assert forall|k: int| 0 <= k < b implies ((#[trigger] with_new[k]).rchild matches Some(
                    y,
                ) ==> y < b) && (with_new[k].lchild matches Some(y) ==> y < b) by {
                    assert(with_new[k] == before[k]);
                }
                lemma_last_desc_below(with_new, ancestor_idx as int, b);
            }
            let endpoint = last_descendant(&nodes, ancestor_idx);
            nodes[endpoint].rchild = Some(new_idx);
            nodes[new_idx].parent = Some(ancestor_idx);
            proof {
                let ins = insert_entry(before, entries[i as int]);
                assert(ins.len() == node_views(nodes@).len());
                assert(ins[endpoint as int] == node_views(nodes@)[endpoint as int]);
                assert(ins[new_idx as int] == node_views(nodes@)[new_idx as int]);
            }
        }
        proof {
            assert(btree_spec(entries.subrange(0, i + 1)) == insert_entry(
                btree_spec(entries.subrange(0, i as int)),
                entries[i as int],
            ));
            assert(node_views(nodes@) =~= insert_entry(before, entries[i as int]));
        }
        cursor_idx = new_idx;
        i += 1;
    }
    proof {
        assert(entries.subrange(0, entries.len() as int) =~= entries);
    }
    nodes
}

/// The depth-first order of the items from node `i` on: the node, then
/// its sub-outline, then its next siblings.
pub open spec fn dfs(nodes: Seq<OutlineNodeView>, i: int) -> Seq<int>
    decreases nodes.len() - i,
{
    if i < 0 || i >= nodes.len() {
        Seq::empty()
    } else {
        let down = match nodes[i].lchild {
            Some(c) => if i < c < nodes.len() {
                dfs(nodes, c)
            } else {
                Seq::empty()
            },
            None => Seq::empty(),
        };
        let across = match nodes[i].rchild {
            Some(n) => if i < n < nodes.len() {
                dfs(nodes, n)
            } else {
                Seq::empty()
            },
            None => Seq::empty(),
        };
        seq![i] + down + across
    }
}

/// The flat, depth-first order of the outline items, starting at the
/// root's first child: the order in which PDF readers walk the outline.
pub open spec fn flat_order(nodes: Seq<OutlineNodeView>) -> Seq<int> {
    match nodes[0].lchild {
        Some(s) => if 0 < s < nodes.len() {
            dfs(nodes, s)
        } else {
            Seq::empty()
        },
        None => Seq::empty(),
    }
}

/// The indices of a list as integers.
pub open spec fn index_ints(s: Seq<usize>) -> Seq<int> {
    s.map_values(|x: usize| x as int)
}

fn flat_visit(nodes: &Vec<OutlineNode>, idx: usize, order: &mut Vec<usize>)
    requires
        tree_wf(node_views(nodes@)),
        idx < nodes@.len(),
    ensures
        index_ints(final(order)@) == index_ints(old(order)@) + dfs(node_views(nodes@), idx as int),
    decreases nodes@.len() - idx,
{
    let ghost v = node_views(nodes@);
    proof {
        assert(v[idx as int] == nodes@[idx as int]@);
    }
    order.push(idx);
    proof {
        assert(index_ints(order@) =~= index_ints(old(order)@) + seq![idx as int]);
    }
    let ghost mid = index_ints(order@);
    match nodes[idx].lchild {
        Some(child) => {
            flat_visit(nodes, child, order);
        },
        None => {},
    }
    let ghost mid2 = index_ints(order@);
    match nodes[idx].rchild {
        Some(next) => {
            flat_visit(nodes, next, order);
        },
        None => {},
    }
    proof {
        assert(index_ints(order@) =~= index_ints(old(order)@) + dfs(v, idx as int));
    }
}

/// Compute the flat, depth-first order of outline items starting at the
/// root's first child: the order in which /Prev and /Next chain.
pub fn flat_outline_order(nodes: &Vec<OutlineNode>) -> (r: Vec<usize>)
    requires
        nodes@.len() > 0,
        tree_wf(node_views(nodes@)),
    ensures
        index_ints(r@) == flat_order(node_views(nodes@)),
{
    let ghost v = node_views(nodes@);
    proof {
        assert(v[0] == nodes@[0]@);
    }
    let mut order: Vec<usize> = Vec::new();
    proof {
        assert(index_ints(order@) =~= Seq::<int>::empty());
    }
    match nodes[0].lchild {
        Some(start) => {
            flat_visit(nodes, start, &mut order);
            proof {
                assert(index_ints(order@) =~= dfs(v, start as int));
            }
        },
        None => {},
    }
    order
}

/// Nodes `0..=m` form a single path: every node before `m` has exactly
/// one link, to the next node, and node `m` has none.
pub open spec fn is_chain(t: Seq<OutlineNodeView>, m: int) -> bool {
    &&& 0 <= m < t.len()
    &&& forall|k: int|
        0 <= k < m ==> ((#[trigger] t[k]).lchild == Some(k + 1) && t[k].rchild is None) || (
        t[k].lchild is None && t[k].rchild == Some(k + 1))
    &&& t[m].lchild is None
    &&& t[m].rchild is None
}

proof fn lemma_chain_rightmost(t: Seq<OutlineNodeView>, m: int, c: int)
    requires
        is_chain(t, m),
        0 <= c <= m,
    ensures
        c <= rightmost(t, c) <= m,
        rightmost(t, c) == m || t[rightmost(t, c)].lchild == Some(rightmost(t, c) + 1),
    decreases m - c,
{
    if c < m {
        assert(t[c].lchild == Some(c + 1) || t[c].rchild == Some(c + 1));
        if t[c].rchild == Some(c + 1) {
            lemma_chain_rightmost(t, m, c + 1);
        }
    }
}

proof fn lemma_chain_last_desc(t: Seq<OutlineNodeView>, m: int, i: int)
    requires
        is_chain(t, m),
        0 <= i <= m,
        t[i].lchild is Some,
    ensures
        last_desc(t, i) == m,
    decreases m - i,
{
    assert(t[i].lchild == Some(i + 1));
    lemma_chain_rightmost(t, m, i + 1);
    let r = rightmost(t, i + 1);
    if r < m {
        lemma_chain_last_desc(t, m, r);
    } else {
        assert(last_desc(t, m) == m);
    }
    assert(last_desc(t, i) == last_desc(t, r));
}

proof fn lemma_real_parent_from_lchild(t: Seq<OutlineNodeView>, cur: int, p: int)
    requires
        t.len() > 0,
        t[0].lchild is Some,
        0 <= p < t.len(),
    ensures
        0 <= real_parent_from(t, cur, p) < t.len(),
        t[real_parent_from(t, cur, p)].lchild is Some,
    decreases p,
{
    if t[p].lchild != Some(cur) {
        match t[p].parent {
            Some(gp) => {
                if 0 <= gp < p {
                    lemma_real_parent_from_lchild(t, p, gp);
                }
            },
            None => {},
        }
    }
}

proof fn lemma_level_ancestor_lchild(t: Seq<OutlineNodeView>, p: int, lvl: u8)
    requires
        tree_wf(t),
        t[0].lchild is Some,
        0 <= p < t.len(),
        t[p].lchild is Some,
    ensures
        t[level_ancestor_from(t, p, lvl)].lchild is Some,
    decreases p,
{
    if !(p <= 0 || t[p].level == lvl) {
        let rp = real_parent(t, p);
        match t[p].parent {
            None => {},
            Some(q) => {
                lemma_real_parent_from_lchild(t, p, q);
            },
        }
        lemma_real_parent(t, p);
        lemma_level_ancestor_lchild(t, rp, lvl);
    }
}

/// When the first entry is not at level 0, the tree of an outline is a
/// single path from the root through the entries in order, each linked
/// to the next as its first child or its next sibling, and the root
/// keeps level 0.
pub proof fn lemma_btree_chain(entries: Seq<OutlineEntryView>)
    requires
        entries.len() == 0 || entries[0].level != 0,
    ensures
        is_chain(btree_spec(entries), entries.len() as int),
        entries.len() > 0 ==> btree_spec(entries)[0].lchild == Some(1int),
        btree_spec(entries)[0].level == 0,
    decreases entries.len(),
{
    lemma_btree_wf(entries);
    if entries.len() > 0 {
        let prev = entries.drop_last();
        assert(prev.len() == 0 || prev[0] == entries[0]);
        lemma_btree_chain(prev);
        lemma_btree_wf(prev);
        let nodes = btree_spec(prev);
        let e = entries.last();
        let m = nodes.len() - 1;
        let new_idx = nodes.len() as int;
        let n = entry_node(e, new_idx);
        let with_new = nodes.push(n);
        let result = btree_spec(entries);
        assert(with_new[m] == nodes[m]);
        if e.level > nodes[m].level {
        } else if e.level == nodes[m].level {
            assert(m > 0);
        } else {
            assert(m > 0);
            assert(tree_wf(with_new)) by {
                assert forall|k: int| 0 <= k < with_new.len() implies {
                    &&& (#[trigger] with_new[k]).parent matches Some(p) ==> 0 <= p < k
                    &&& with_new[k].lchild matches Some(c) ==> k < c < with_new.len()
                    &&& with_new[k].rchild matches Some(c) ==> k < c < with_new.len()
                } by {
                    if k < nodes.len() {
                        assert(with_new[k] == nodes[k]);
                    }
                }
            }
            assert(is_chain(with_new, m)) by {
                assert forall|k: int| 0 <= k < m implies ((#[trigger] with_new[k]).lchild == Some(
                    k + 1,
                ) && with_new[k].rchild is None) || (with_new[k].lchild is None
                    && with_new[k].rchild == Some(k + 1)) by {
                    assert(with_new[k] == nodes[k]);
                }
            }
            assert(with_new[0] == nodes[0]);
            let rp = real_parent(with_new, m);
            match with_new[m].parent {
                None => {},
                Some(q) => {
                    lemma_real_parent_from_lchild(with_new, m, q);
                },
            }
            lemma_real_parent(with_new, m);
            lemma_level_ancestor_lchild(with_new, rp, e.level);
            lemma_level_ancestor(with_new, rp, e.level);
            let anc = level_ancestor_from(with_new, rp, e.level);
            lemma_chain_last_desc(with_new, m, anc);
        }
        assert forall|k: int| 0 <= k < new_idx implies ((#[trigger] result[k]).lchild == Some(
            k + 1,
        ) && result[k].rchild is None) || (result[k].lchild is None && result[k].rchild == Some(
            k + 1,
        )) by {
            if k < m {
                assert(result[k] == nodes[k]);
            }
        }
        assert(result[0].level == 0);
    }
}

/// The depth-first walk from node `j` of a path `0..=m` visits `j..=m`
/// in order.
proof fn lemma_chain_dfs(t: Seq<OutlineNodeView>, m: int, j: int)
    requires
        is_chain(t, m),
        0 <= j <= m,
    ensures
        dfs(t, j) == Seq::new((m - j + 1) as nat, |k: int| j + k),
    decreases m - j,
{
    if j < m {
        lemma_chain_dfs(t, m, j + 1);
        assert(dfs(t, j) =~= Seq::new((m - j + 1) as nat, |k: int| j + k));
    } else {
        assert(dfs(t, j) =~= Seq::new((m - j + 1) as nat, |k: int| j + k));
    }
}

/// When the first entry is at level 0, the root never gets a first child.
proof fn lemma_btree_root_level0(entries: Seq<OutlineEntryView>)
    requires
        entries.len() > 0,
        entries[0].level == 0,
    ensures
        btree_spec(entries)[0].lchild is None,
        btree_spec(entries)[0].level == 0,
    decreases entries.len(),
{
    lemma_btree_wf(entries);
    let prev = entries.drop_last();
    let nodes = btree_spec(prev);
    lemma_btree_wf(prev);
    let e = entries.last();
    let m = nodes.len() - 1;
    let new_idx = nodes.len() as int;
    let n = entry_node(e, new_idx);
    let with_new = nodes.push(n);
    if prev.len() > 0 {
        assert(prev[0] == entries[0]);
        lemma_btree_root_level0(prev);
        assert(m > 0);
    } else {
        assert(nodes == seq![root_node()]);
        assert(e == entries[0]);
    }
    assert(with_new[0] == nodes[0]);
    let result = btree_spec(entries);
    assert(result == insert_entry(nodes, e));
    if e.level > nodes[m].level {
        assert(m > 0);
        assert(result[0] == with_new[0]);
    } else if e.level == nodes[m].level {
        assert(result[0].lchild == with_new[0].lchild);
    } else {
        assert(tree_wf(with_new)) by {
            assert forall|k: int| 0 <= k < with_new.len() implies {
                &&& (#[trigger] with_new[k]).parent matches Some(p) ==> 0 <= p < k
                &&& with_new[k].lchild matches Some(c) ==> k < c < with_new.len()
                &&& with_new[k].rchild matches Some(c) ==> k < c < with_new.len()
            } by {
                if k < nodes.len() {
                    assert(with_new[k] == nodes[k]);
                }
            }
        }
        lemma_real_parent(with_new, m);
        lemma_level_ancestor(with_new, real_parent(with_new, m), e.level);
        let anc = level_ancestor_from(with_new, real_parent(with_new, m), e.level);
        lemma_last_desc(with_new, anc);
        let endpoint = last_desc(with_new, anc);
        assert(result[0].lchild == with_new[0].lchild);
    }
    assert(result[0].level == 0);
}

/// The depth-first order of the outline tree lists the entries in their
/// order in the outline (entry `k` is node `k + 1`); when the first entry
/// is at level 0 it lists none of them.
pub proof fn lemma_flat_order_is_outline_order(entries: Seq<OutlineEntryView>)
    ensures
        flat_order(btree_spec(entries)) == if entries.len() > 0 && entries[0].level == 0 {
            Seq::<int>::empty()
        } else {
            Seq::new(entries.len(), |k: int| k + 1)
        },
{
    lemma_btree_wf(entries);
    if entries.len() > 0 && entries[0].level == 0 {
        lemma_btree_root_level0(entries);
    } else {
        lemma_btree_chain(entries);
        let t = btree_spec(entries);
        let m = entries.len() as int;
        if m > 0 {
            lemma_chain_dfs(t, m, 1);
            assert(Seq::new((m - 1 + 1) as nat, |k: int| 1 + k) =~= Seq::new(entries.len(), |k: int| k + 1));
        } else {
            assert(Seq::<int>::empty() =~= Seq::new(entries.len(), |k: int| k + 1));
        }
    }
}

/// The first position of `i` in `order` from position `k` on.
pub open spec fn position_from(order: Seq<int>, i: int, k: int) -> Option<int>
    decreases order.len() - k,
{
    if k < 0 || k >= order.len() {
        None
    } else if order[k] == i {
        Some(k)
    } else {
        position_from(order, i, k + 1)
    }
}

/// A position found is inside the order and holds the node.
proof fn lemma_position_from(order: Seq<int>, i: int, k: int)
    requires
        0 <= k,
    ensures
        position_from(order, i, k) matches Some(p) ==> k <= p < order.len() && order[p] == i,
    decreases order.len() - k,
{
    if k < order.len() && order[k] != i {
        lemma_position_from(order, i, k + 1);
    }
}

/// One outline item of the PDF, its links given as node indices (0 is
/// the `/Outlines` dictionary itself).
#[derive(Debug)]
pub struct OutlineItem {
    /// The node of the item.
    pub node: usize,
    pub title: String,
    /// The 1-based page the item jumps to.
    pub page: u32,
    /// `/Parent`: the parent node in the tree.
    pub parent: Option<usize>,
    /// `/Prev` and `/Next`: the neighbours in the depth-first order.
    pub prev: Option<usize>,
    pub next: Option<usize>,
    /// `/First`: the first child.
    pub first: Option<usize>,
    /// `/Last`: the last item of the sub-outline.
    pub last: usize,
}

/// The mathematical content of an outline item.
pub struct OutlineItemView {
    pub node: int,
    pub title: Seq<char>,
    pub page: u32,
    pub parent: Option<int>,
    pub prev: Option<int>,
    pub next: Option<int>,
    pub first: Option<int>,
    pub last: int,
}

impl View for OutlineItem {
    type V = OutlineItemView;

    open spec fn view(&self) -> OutlineItemView {
        OutlineItemView {
            node: self.node as int,
            title: self.title@,
            page: self.page,
            parent: link(self.parent),
            prev: link(self.prev),
            next: link(self.next),
            first: link(self.first),
            last: self.last as int,
        }
    }
}

/// The `/Outlines` dictionary and its items.
#[derive(Debug)]
pub struct OutlinePlan {
    /// The items, node 1 first.
    pub items: Vec<OutlineItem>,
    /// `/First` of the dictionary: the root's first child.
    pub first: Option<usize>,
    /// `/Last` of the dictionary.
    pub last: usize,
    /// `/Count`: the number of items.
    pub count: usize,
}

/// The item of node `i` of the tree `nodes` whose depth-first order is
/// `order`.
pub open spec fn item_of(nodes: Seq<OutlineNodeView>, order: Seq<int>, i: int) -> OutlineItemView {
    let pos = position_from(order, i, 0);
    OutlineItemView {
        node: i,
        title: nodes[i].title,
        page: (nodes[i].page + 1) as u32,
        parent: nodes[i].parent,
        prev: match pos {
            Some(p) => if p > 0 {
                Some(order[p - 1])
            } else {
                None
            },
            None => None,
        },
        next: match pos {
            Some(p) => if p + 1 < order.len() {
                Some(order[p + 1])
            } else {
                None
            },
            None => None,
        },
        first: nodes[i].lchild,
        last: last_desc(nodes, i),
    }
}

/// The items of every node but the root.
pub open spec fn items_of(nodes: Seq<OutlineNodeView>) -> Seq<OutlineItemView> {
    Seq::new((nodes.len() - 1) as nat, |k: int| item_of(nodes, flat_order(nodes), k + 1))
}

/// The views of a sequence of items.
pub open spec fn item_views(s: Seq<OutlineItem>) -> Seq<OutlineItemView> {
    s.map_values(|x: OutlineItem| x@)
}

/// The first position of node `i` in the order.
fn position_of(order: &Vec<usize>, i: usize) -> (r: Option<usize>)
    ensures
        match position_from(index_ints(order@), i as int, 0) {
            Some(p) => r == Some(p as usize),
            None => r is None,
        },
{
    let ghost o = index_ints(order@);
    let mut k: usize = 0;
    while k < order.len()
        invariant
            k <= order@.len(),
            o == index_ints(order@),
            position_from(o, i as int, 0) == position_from(o, i as int, k as int),
        decreases order@.len() - k,
    {
        if order[k] == i {
            return Some(k);
        }
        k += 1;
    }
    None
}

/// The outline dictionary planned for a flat outline list: `None` when
/// there is nothing to add. For each node but the root an item with its
/// title, target page, `/Parent`, `/First` and `/Last` from the tree, and
/// `/Prev` / `/Next` from the depth-first order; for the dictionary the
/// root's `/First`, `/Last` and the `/Count` of items.
pub fn plan_outline(outlines: &[OutlineEntry]) -> (r: Option<OutlinePlan>)
    ensures
        outlines@.len() == 0 ==> r is None,
        outlines@.len() > 0 ==> {
            let nodes = btree_spec(outline_views(outlines@));
            r matches Some(plan) && item_views(plan.items@) == items_of(nodes) && link(plan.first)
                == nodes[0].lchild && plan.last == last_desc(nodes, 0) && plan.count
                == nodes.len() - 1
        },
{
    if outlines.len() == 0 {
        return None;
    }
    let nodes = build_btree(outlines);
    let ghost v = node_views(nodes@);
    proof {
        lemma_btree_wf(outline_views(outlines@));
        assert(v[0] == nodes@[0]@);
    }
    let flat_order_v = flat_outline_order(&nodes);
    let ghost o = index_ints(flat_order_v@);
    let mut items: Vec<OutlineItem> = Vec::new();
    let mut i: usize = 1;
    while i < nodes.len()
        invariant
            1 <= i <= nodes@.len(),
            v == node_views(nodes@),
            v == btree_spec(outline_views(outlines@)),
            tree_wf(v),
            o == index_ints(flat_order_v@),
            o == flat_order(v),
            items@.len() == i - 1,
            forall|k: int| 0 <= k < i - 1 ==> (#[trigger] items@[k])@ == item_of(v, o, k + 1),
        decreases nodes@.len() - i,
    {
        proof {
            assert(v[i as int] == nodes@[i as int]@);
            lemma_last_desc(v, i as int);
            lemma_btree_wf(outline_views(outlines@));
            assert(v[i as int].page < u32::MAX);
        }
        let node = &nodes[i];
        proof {
            lemma_position_from(o, i as int, 0);
        }
        let pos = position_of(&flat_order_v, i);
        let n_order = flat_order_v.len();
        let prev = match pos {
            Some(p) => if p > 0 {
                Some(flat_order_v[p - 1])
            } else {
                None
            },
            None => None,
        };
        let next = match pos {
            Some(p) => if p < n_order - 1 {
                Some(flat_order_v[p + 1])
            } else {
                None
            },
            None => None,
        };
        proof {
            if pos is Some {
                let p = pos->Some_0;
                assert(position_from(o, i as int, 0) == Some(p as int));
            }
        }
        let item = OutlineItem {
            node: i,
            title: node.title.clone(),
            page: node.page + 1,
            parent: node.parent,
            prev,
            next,
            first: node.lchild,
            last: last_descendant(&nodes, i),
        };
        items.push(item);
        i += 1;
    }
    proof {
        assert(item_views(items@) =~= items_of(v));
    }
    proof {
        lemma_last_desc(v, 0);
    }
    let last = last_descendant(&nodes, 0);
    Some(OutlinePlan { items, first: nodes[0].lchild, last, count: nodes.len() - 1 })
}

proof fn lemma_position_in_range(n: int, i: int, k: int)
    requires
        0 <= k <= i - 1,
        i <= n,
    ensures
        position_from(Seq::new(n as nat, |j: int| j + 1), i, k) == Some(i - 1),
    decreases i - 1 - k,
{
    if k < i - 1 {
        lemma_position_in_range(n, i, k + 1);
    }
}

/// When the first entry is not at level 0, the items chain through the
/// entries in their order: item `k` (node `k + 1`) has `/Prev` node `k`
/// (none for the first) and `/Next` node `k + 2` (none for the last); the
/// dictionary's `/First` is node 1 and its `/Last` the last entry.
pub proof fn lemma_outline_links(entries: Seq<OutlineEntryView>)
    requires
        entries.len() > 0,
        entries[0].level != 0,
    ensures
        ({
            let nodes = btree_spec(entries);
            let items = items_of(nodes);
            let n = entries.len() as int;
            &&& items.len() == n
            &&& nodes[0].lchild == Some(1int)
            &&& last_desc(nodes, 0) == n
            &&& forall|k: int|
                0 <= k < n ==> (#[trigger] items[k]).prev == (if k == 0 {
                    None
                } else {
                    Some(k)
                }) && items[k].next == (if k + 1 < n {
                    Some(k + 2)
                } else {
                    None
                })
        }),
{
    let nodes = btree_spec(entries);
    let n = entries.len() as int;
    lemma_btree_wf(entries);
    lemma_btree_chain(entries);
    lemma_flat_order_is_outline_order(entries);
    lemma_chain_last_desc(nodes, n, 0);
    let o = flat_order(nodes);
    assert(o == Seq::new(n as nat, |j: int| j + 1));
    let items = items_of(nodes);
    assert forall|k: int| 0 <= k < n implies (#[trigger] items[k]).prev == (if k == 0 {
        None
    } else {
        Some(k)
    }) && items[k].next == (if k + 1 < n {
        Some(k + 2)
    } else {
        None
    }) by {
        lemma_position_in_range(n, k + 1, 0);
        assert(items[k] == item_of(nodes, o, k + 1));
    }
}

/// A value that the outline puts into a PDF dictionary.
#[derive(Debug)]
pub enum PdfValue {
    /// A reference to an object.
    Reference((u32, u16)),
    /// A name (`/Outlines`).
    Name(String),
    Integer(i64),
    /// A literal string.
    Text(String),
    /// An array of integers.
    Integers(Vec<i64>),
    /// An array of references.
    References(Vec<(u32, u16)>),
    /// An explicit destination: the top of the page that the object
    /// holds (`[page /XYZ null null null]`).
    Destination((u32, u16)),
}

/// The mathematical content of a dictionary value: one of the values
/// above, a dictionary held inside a dictionary (its entries in order), or
/// any other PDF object, which this model does not describe.
pub enum PdfValueView {
    Reference((u32, u16)),
    Name(Seq<char>),
    Integer(i64),
    Text(Seq<char>),
    Integers(Seq<i64>),
    References(Seq<(u32, u16)>),
    Destination((u32, u16)),
    Dict(Seq<(Seq<char>, PdfValueView)>),
    Other,
}

impl View for PdfValue {
    type V = PdfValueView;

    open spec fn view(&self) -> PdfValueView {
        match self {
            PdfValue::Reference(id) => PdfValueView::Reference(*id),
            PdfValue::Name(n) => PdfValueView::Name(n@),
            PdfValue::Integer(v) => PdfValueView::Integer(*v),
            PdfValue::Text(t) => PdfValueView::Text(t@),
            PdfValue::Integers(v) => PdfValueView::Integers(v@),
            PdfValue::References(v) => PdfValueView::References(v@),
            PdfValue::Destination(id) => PdfValueView::Destination(*id),
        }
    }
}

/// The position of the first entry with key `k` at or after `i`.
pub open spec fn key_position(s: Seq<(Seq<char>, PdfValueView)>, k: Seq<char>, i: int) -> Option<
    int,
>
    decreases s.len() - i,
{
    if i < 0 || i >= s.len() {
        None
    } else if s[i].0 == k {
        Some(i)
    } else {
        key_position(s, k, i + 1)
    }
}

/// The entries of a dictionary after `k` is set to `v`: the value is
/// replaced in place when the key is there, the entry appended otherwise.
pub open spec fn put_entry(s: Seq<(Seq<char>, PdfValueView)>, k: Seq<char>, v: PdfValueView) -> Seq<
    (Seq<char>, PdfValueView),
> {
    match key_position(s, k, 0) {
        Some(i) => s.update(i, (k, v)),
        None => s.push((k, v)),
    }
}

/// The value of the entry `k`, when there is one.
pub open spec fn entry_value(s: Seq<(Seq<char>, PdfValueView)>, k: Seq<char>) -> Option<PdfValueView> {
    match key_position(s, k, 0) {
        Some(i) => Some(s[i].1),
        None => None,
    }
}

/// The first entry with key `k` at or after `i` lies there and has that key.
proof fn lemma_key_position(s: Seq<(Seq<char>, PdfValueView)>, k: Seq<char>, i: int)
    requires
        0 <= i,
    ensures
        key_position(s, k, i) matches Some(j) ==> i <= j < s.len() && s[j].0 == k && forall|l: int|
            i <= l < j ==> s[l].0 != k,
        key_position(s, k, i) is None ==> forall|j: int| i <= j < s.len() ==> s[j].0 != k,
    decreases s.len() - i,
{
    if i < s.len() && s[i].0 != k {
        lemma_key_position(s, k, i + 1);
    }
}

/// Once `k` is set to `v`, the entry `k` has the value `v`.
pub proof fn lemma_put_entry_value(s: Seq<(Seq<char>, PdfValueView)>, k: Seq<char>, v: PdfValueView)
    ensures
        entry_value(put_entry(s, k, v), k) == Some(v),
{
    lemma_key_position(s, k, 0);
    let t = put_entry(s, k, v);
    match key_position(s, k, 0) {
        Some(i) => {
            lemma_key_position(t, k, 0);
            assert forall|j: int| 0 <= j < i implies t[j].0 != k by {
                assert(t[j] == s[j]);
            }
            if key_position(t, k, 0) != Some(i) {
                assert(t[i].0 == k);
            }
        },
        None => {
            lemma_key_position(t, k, 0);
            assert forall|j: int| 0 <= j < s.len() implies t[j].0 != k by {
                assert(t[j] == s[j]);
            }
            assert(t[s.len() as int].0 == k);
        },
    }
}

/// Setting one key leaves the value of any other key as it was.
pub proof fn lemma_put_entry_other(
    s: Seq<(Seq<char>, PdfValueView)>,
    k: Seq<char>,
    v: PdfValueView,
    k2: Seq<char>,
)
    requires
        k != k2,
    ensures
        entry_value(put_entry(s, k, v), k2) == entry_value(s, k2),
{
    let t = put_entry(s, k, v);
    lemma_key_position(s, k, 0);
    lemma_key_position(s, k2, 0);
    lemma_key_position(t, k2, 0);
    assert(t.len() >= s.len());
    assert forall|l: int| 0 <= l < s.len() implies (#[trigger] t[l]).0 == s[l].0 && (s[l].0 != k
        ==> t[l] == s[l]) by {}
    assert forall|l: int| s.len() <= l < t.len() implies (#[trigger] t[l]).0 == k by {}
    match key_position(s, k2, 0) {
        Some(j) => {
            assert(t[j] == s[j]);
            match key_position(t, k2, 0) {
                Some(j2) => {
                    if j2 < j {
                        assert(t[j2].0 == s[j2].0);
                    } else if j2 > j {
                        assert(t[j].0 == k2);
                    }
                },
                None => {
                    assert(t[j].0 == k2);
                },
            }
        },
        None => {
            match key_position(t, k2, 0) {
                Some(j2) => {
                    if j2 < s.len() {
                        assert(t[j2].0 == s[j2].0);
                    }
                },
                None => {},
            }
        },
    }
}

/// A key that none of the entries has has no value once they are set.
pub proof fn lemma_dict_after_absent(es: Seq<(Seq<char>, PdfValueView)>, k: Seq<char>)
    requires
        forall|a: int| 0 <= a < es.len() ==> es[a].0 != k,
    ensures
        entry_value(dict_after(es), k) is None,
    decreases es.len(),
{
    if es.len() > 0 {
        let p = es.drop_last();
        assert forall|a: int| 0 <= a < p.len() implies p[a].0 != k by {
            assert(p[a] == es[a]);
        }
        lemma_dict_after_absent(p, k);
        lemma_put_entry_other(dict_after(p), es.last().0, stored_value(es.last().1), k);
    }
}

/// Entries with distinct keys set one after another: each key holds the
/// value set for it.
pub proof fn lemma_dict_after_distinct(es: Seq<(Seq<char>, PdfValueView)>, i: int)
    requires
        0 <= i < es.len(),
        forall|a: int, b: int| 0 <= a < b < es.len() ==> es[a].0 != es[b].0,
    ensures
        entry_value(dict_after(es), es[i].0) == Some(stored_value(es[i].1)),
    decreases es.len(),
{
    let last = es.len() - 1;
    if i == last {
        lemma_put_entry_value(dict_after(es.drop_last()), es[i].0, stored_value(es[i].1));
    } else {
        let p = es.drop_last();
        assert(p[i] == es[i]);
        assert forall|a: int, b: int| 0 <= a < b < p.len() implies p[a].0 != p[b].0 by {
            assert(p[a] == es[a] && p[b] == es[b]);
        }
        lemma_dict_after_distinct(p, i);
        lemma_put_entry_other(dict_after(p), es.last().0, stored_value(es.last().1), es[i].0);
    }
}

/// The value a dictionary holds once `v` is set in it: `v` itself, but
/// an empty array of references reads as an empty array of integers.
pub open spec fn stored_value(v: PdfValueView) -> PdfValueView {
    match v {
        PdfValueView::References(r) => if r.len() == 0 {
            PdfValueView::Integers(Seq::empty())
        } else {
            v
        },
        _ => v,
    }
}

/// The entries of an empty dictionary after each of `es` is set in it,
/// in order.
pub open spec fn dict_after(es: Seq<(Seq<char>, PdfValueView)>) -> Seq<(Seq<char>, PdfValueView)>
    decreases es.len(),
{
    if es.len() == 0 {
        Seq::empty()
    } else {
        put_entry(dict_after(es.drop_last()), es.last().0, stored_value(es.last().1))
    }
}

/// The objects of a document after each of `os` is stored in it, in
/// order, each as a dictionary holding its entries.
pub open spec fn write_objects(
    m: Map<(u32, u16), Option<Seq<(Seq<char>, PdfValueView)>>>,
    os: Seq<OutlineObjectView>,
) -> Map<(u32, u16), Option<Seq<(Seq<char>, PdfValueView)>>>
    decreases os.len(),
{
    if os.len() == 0 {
        m
    } else {
        write_objects(m, os.drop_last()).insert(os.last().id, Some(dict_after(os.last().entries)))
    }
}

/// `after` is `w` with `/Outlines` referencing object `root` set in the
/// catalog: either there was no catalog and nothing changed, or the
/// catalog is some object `t` of `w`, only `t` changed, and when `w`
/// describes `t` it gains that entry.
pub open spec fn catalog_linked(
    w: Map<(u32, u16), Option<Seq<(Seq<char>, PdfValueView)>>>,
    after: Map<(u32, u16), Option<Seq<(Seq<char>, PdfValueView)>>>,
    root: (u32, u16),
) -> bool {
    ||| after == w
    ||| exists|t: (u32, u16)|
        #[trigger] w.dom().contains(t) && after == w.insert(t, after[t]) && (w[t] matches Some(e)
            ==> after[t] == Some(put_entry(e, "Outlines"@, PdfValueView::Reference(root))))
}

/// Sets `key` of the dictionary to the PDF object that `value` stands for.
pub(crate) fn dict_set(d: &mut lopdf::Dictionary, key: &str, value: PdfValue)
    ensures
        pdf_dict_entries(*old(d)) matches Some(e) ==> pdf_dict_entries(*final(d)) == Some(
            put_entry(e, key@, stored_value(value@)),
        ),
{
    match value {
        PdfValue::Reference(id) => set_reference(d, key, id),
        PdfValue::Name(n) => set_name(d, key, n),
        PdfValue::Integer(v) => set_integer(d, key, v),
        PdfValue::Text(t) => set_text(d, key, t),
        PdfValue::Integers(v) => set_integers(d, key, v),
        PdfValue::References(v) => set_references(d, key, v),
        PdfValue::Destination(id) => set_destination(d, key, id),
    }
}

/// A copy of a list of object ids.
fn copy_ids(v: &Vec<(u32, u16)>) -> (r: Vec<(u32, u16)>)
    ensures
        r@ == v@,
{
    let mut r: Vec<(u32, u16)> = Vec::new();
    let mut i: usize = 0;
    while i < v.len()
        invariant
            i <= v@.len(),
            r@ == v@.subrange(0, i as int),
        decreases v@.len() - i,
    {
        r.push(v[i]);
        i += 1;
        proof {
            assert(r@ =~= v@.subrange(0, i as int));
        }
    }
    proof {
        assert(v@.subrange(0, v@.len() as int) =~= v@);
    }
    r
}

impl Clone for PdfValue {
    fn clone(&self) -> (r: Self)
        ensures
            r@ == self@,
    {
        match self {
            PdfValue::Reference(id) => PdfValue::Reference(*id),
            PdfValue::Name(n) => PdfValue::Name(n.clone()),
            PdfValue::Integer(v) => PdfValue::Integer(*v),
            PdfValue::Text(t) => PdfValue::Text(t.clone()),
            PdfValue::Integers(v) => {
                let c = v.clone();
                proof {
                    assert(c@ =~= v@);
                }
                PdfValue::Integers(c)
            },
            PdfValue::References(v) => PdfValue::References(copy_ids(v)),
            PdfValue::Destination(id) => PdfValue::Destination(*id),
        }
    }
}

/// Errors that may occur while assembling a PDF.
#[derive(Debug)]
pub enum PdfError {
    Lopdf(lopdf::Error),
    Assembly(String),
    Core(CajError),
    Io(std::io::Error),
}

impl PdfError {
    /// The text of the error, as it is shown to users.
    pub fn message(&self) -> (r: String)
        ensures
            self matches PdfError::Assembly(m) ==> r@ == "page assembly error: "@ + m@,
            self matches PdfError::Core(e) ==> !(e is Io) ==> r@ == "core error: "@
                + crate::types::caj_error_text(*e),
            self is Lopdf ==> r@.subrange(0, 25) == "PDF construction failed: "@,
            self is Io ==> r@.subrange(0, 11) == "I/O error: "@,
    {
        match self {
            PdfError::Lopdf(e) => {
                let mut m = string_of("PDF construction failed: ");
                let t = pdf_error_text(e);
                m.append(t.as_str());
                proof {
                    reveal_strlit("PDF construction failed: ");
                    assert(m@.subrange(0, 25) =~= "PDF construction failed: "@);
                }
                m
            },
            PdfError::Assembly(s) => {
                let mut m = string_of("page assembly error: ");
                m.append(s.as_str());
                m
            },
            PdfError::Core(e) => {
                let mut m = string_of("core error: ");
                let t = e.message();
                m.append(t.as_str());
                proof {
                    reveal_strlit("core error: ");
                    assert(m@.subrange(12, m@.len() as int) =~= t@);
                    assert(m@ =~= "core error: "@ + t@);
                }
                m
            },
            PdfError::Io(e) => {
                let mut m = string_of("I/O error: ");
                let t = io_error_text(e);
                m.append(t.as_str());
                proof {
                    reveal_strlit("I/O error: ");
                    assert(m@.subrange(0, 11) =~= "I/O error: "@);
                }
                m
            },
        }
    }
}

/// Every node that the depth-first walk from `i` visits lies in
/// `i..nodes.len()`.
proof fn lemma_dfs_range(nodes: Seq<OutlineNodeView>, i: int)
    requires
        0 <= i < nodes.len(),
    ensures
        forall|k: int| 0 <= k < dfs(nodes, i).len() ==> i <= #[trigger] dfs(nodes, i)[k] < nodes.len(),
    decreases nodes.len() - i,
{
    let down = match nodes[i].lchild {
        Some(c) => if i < c < nodes.len() {
            dfs(nodes, c)
        } else {
            Seq::empty()
        },
        None => Seq::empty(),
    };
    let across = match nodes[i].rchild {
        Some(n) => if i < n < nodes.len() {
            dfs(nodes, n)
        } else {
            Seq::empty()
        },
        None => Seq::empty(),
    };
    match nodes[i].lchild {
        Some(c) => if i < c < nodes.len() {
            lemma_dfs_range(nodes, c);
        },
        None => {},
    }
    match nodes[i].rchild {
        Some(n) => if i < n < nodes.len() {
            lemma_dfs_range(nodes, n);
        },
        None => {},
    }
    assert(dfs(nodes, i) == seq![i] + down + across);
    assert forall|k: int| 0 <= k < dfs(nodes, i).len() implies i <= #[trigger] dfs(nodes, i)[k]
        < nodes.len() by {
        if k == 0 {
        } else if k < 1 + down.len() {
            assert(dfs(nodes, i)[k] == down[k - 1]);
        } else {
            assert(dfs(nodes, i)[k] == across[k - 1 - down.len()]);
        }
    }
}

/// The links of every item name nodes of the tree.
proof fn lemma_items_in_range(nodes: Seq<OutlineNodeView>)
    requires
        nodes.len() > 0,
        tree_wf(nodes),
    ensures
        forall|k: int|
            0 <= k < items_of(nodes).len() ==> {
                let it = #[trigger] items_of(nodes)[k];
                &&& it.node == k + 1
                &&& it.parent matches Some(p) ==> 0 <= p < nodes.len()
                &&& it.prev matches Some(p) ==> 0 <= p < nodes.len()
                &&& it.next matches Some(p) ==> 0 <= p < nodes.len()
                &&& it.first matches Some(p) ==> 0 <= p < nodes.len()
                &&& 0 <= it.last < nodes.len()
            },
{
    let o = flat_order(nodes);
    assert forall|j: int| 0 <= j < o.len() implies 0 <= #[trigger] o[j] < nodes.len() by {
        match nodes[0].lchild {
            Some(st) => if 0 < st < nodes.len() {
                lemma_dfs_range(nodes, st);
            },
            None => {},
        }
    }
    assert forall|k: int| 0 <= k < items_of(nodes).len() implies {
        let it = #[trigger] items_of(nodes)[k];
        &&& it.node == k + 1
        &&& it.parent matches Some(p) ==> 0 <= p < nodes.len()
        &&& it.prev matches Some(p) ==> 0 <= p < nodes.len()
        &&& it.next matches Some(p) ==> 0 <= p < nodes.len()
        &&& it.first matches Some(p) ==> 0 <= p < nodes.len()
        &&& 0 <= it.last < nodes.len()
    } by {
        lemma_last_desc(nodes, k + 1);
        lemma_position_from(o, k + 1, 0);
    }
}

/// The first id paired with page number `page`.
pub open spec fn page_lookup(pages: Seq<(u32, (u32, u16))>, page: u32) -> Option<(u32, u16)>
    decreases pages.len(),
{
    if pages.len() == 0 {
        None
    } else if pages[0].0 == page {
        Some(pages[0].1)
    } else {
        page_lookup(pages.drop_first(), page)
    }
}

/// The object id of page `page`, looked up in the page list.
fn find_page(pages: &Vec<(u32, (u32, u16))>, page: u32) -> (r: Option<(u32, u16)>)
    ensures
        r == page_lookup(pages@, page),
{
    let mut i: usize = 0;
    proof {
        assert(pages@.subrange(0, pages@.len() as int) =~= pages@);
    }
    while i < pages.len()
        invariant
            i <= pages@.len(),
            page_lookup(pages@, page) == page_lookup(pages@.subrange(i as int, pages@.len() as int), page),
        decreases pages@.len() - i,
    {
        proof {
            let rest = pages@.subrange(i as int, pages@.len() as int);
            assert(rest[0] == pages@[i as int]);
            assert(rest.drop_first() =~= pages@.subrange(i + 1, pages@.len() as int));
        }
        if pages[i].0 == page {
            return Some(pages[i].1);
        }
        i += 1;
    }
    proof {
        assert(pages@.subrange(i as int, pages@.len() as int) =~= Seq::<(u32, (u32, u16))>::empty());
    }
    None
}

/// The objects of a PDF document by id, as [`crate::bindings::pdf_objects`]
/// describes them.
pub type PdfObjects = Map<(u32, u16), Option<Seq<(Seq<char>, PdfValueView)>>>;

/// The streams of a PDF document by id, as [`crate::bindings::pdf_streams`]
/// describes them.
pub type PdfStreams = Map<(u32, u16), (Option<Seq<(Seq<char>, PdfValueView)>>, Seq<u8>)>;

/// The entries of a dictionary, in order, as key text and value.
pub open spec fn entry_views(s: Seq<(&str, PdfValue)>) -> Seq<(Seq<char>, PdfValueView)> {
    s.map_values(|e: (&str, PdfValue)| (e.0@, e.1@))
}

/// One object of the outline: the id it is stored under and the entries
/// of its dictionary, in order.
#[derive(Debug)]
pub struct OutlineObject {
    pub id: (u32, u16),
    pub entries: Vec<(&'static str, PdfValue)>,
}

/// The mathematical content of an outline object.
pub struct OutlineObjectView {
    pub id: (u32, u16),
    pub entries: Seq<(Seq<char>, PdfValueView)>,
}

impl View for OutlineObject {
    type V = OutlineObjectView;

    open spec fn view(&self) -> OutlineObjectView {
        OutlineObjectView { id: self.id, entries: entry_views(self.entries@) }
    }
}

/// The views of a sequence of outline objects.
pub open spec fn object_views(s: Seq<OutlineObject>) -> Seq<OutlineObjectView> {
    s.map_values(|o: OutlineObject| o@)
}

/// The entry `key` when there is a value, none otherwise.
pub open spec fn opt_entry(key: Seq<char>, v: Option<PdfValueView>) -> Seq<(Seq<char>, PdfValueView)> {
    match v {
        Some(x) => seq![(key, x)],
        None => Seq::empty(),
    }
}

/// A reference to the object of node `l`, when there is a node.
pub open spec fn ref_to(ids: Seq<(u32, u16)>, l: Option<int>) -> Option<PdfValueView> {
    match l {
        Some(i) => Some(PdfValueView::Reference(ids[i])),
        None => None,
    }
}

/// The dictionary of an outline item, the nodes stored under `ids`:
/// `/Title`; `/Dest` when `pages` has the item's page; `/Parent`,
/// `/Prev`, `/Next` and `/First` when the item has them; `/Last`.
pub open spec fn item_entries(
    it: OutlineItemView,
    ids: Seq<(u32, u16)>,
    pages: Seq<(u32, (u32, u16))>,
) -> Seq<(Seq<char>, PdfValueView)> {
    seq![("Title"@, PdfValueView::Text(it.title))] + opt_entry(
        "Dest"@,
        match page_lookup(pages, it.page) {
            Some(p) => Some(PdfValueView::Destination(p)),
            None => None,
        },
    ) + opt_entry("Parent"@, ref_to(ids, it.parent)) + opt_entry("Prev"@, ref_to(ids, it.prev))
        + opt_entry("Next"@, ref_to(ids, it.next)) + opt_entry("First"@, ref_to(ids, it.first))
        + seq![("Last"@, PdfValueView::Reference(ids[it.last]))]
}

/// The `/Outlines` dictionary of the tree `nodes`: `/Type /Outlines`,
/// `/First` when the root has a first child, `/Last` and `/Count`.
pub open spec fn outlines_entries(nodes: Seq<OutlineNodeView>, ids: Seq<(u32, u16)>) -> Seq<
    (Seq<char>, PdfValueView),
> {
    seq![("Type"@, PdfValueView::Name("Outlines"@))] + opt_entry("First"@, ref_to(ids, nodes[0].lchild))
        + seq![("Last"@, PdfValueView::Reference(ids[last_desc(nodes, 0)]))] + seq![
        ("Count"@, PdfValueView::Integer((nodes.len() - 1) as i64)),
    ]
}

/// The objects of the outline of `entries`, node `k` stored under
/// `ids[k]`: one per item in the order of the nodes, then the `/Outlines`
/// dictionary under `ids[0]`; none for an empty outline.
pub open spec fn outline_objects_spec(
    entries: Seq<OutlineEntryView>,
    ids: Seq<(u32, u16)>,
    pages: Seq<(u32, (u32, u16))>,
) -> Seq<OutlineObjectView> {
    if entries.len() == 0 {
        Seq::empty()
    } else {
        let nodes = btree_spec(entries);
        let items = items_of(nodes);
        Seq::new(
            items.len(),
            |k: int| OutlineObjectView { id: ids[items[k].node], entries: item_entries(items[k], ids, pages) },
        ).push(OutlineObjectView { id: ids[0], entries: outlines_entries(nodes, ids) })
    }
}

/// Append the entry `key` referencing node `l`, when there is one.
fn push_link(
    entries: &mut Vec<(&'static str, PdfValue)>,
    key: &'static str,
    l: Option<usize>,
    ids: &Vec<(u32, u16)>,
)
    requires
        l matches Some(p) ==> p < ids@.len(),
    ensures
        entry_views(final(entries)@) == entry_views(old(entries)@) + opt_entry(key@, ref_to(ids@, link(l))),
{
    match l {
        Some(p) => {
            let v = PdfValue::Reference(ids[p]);
            entries.push((key, v));
            proof {
                assert(entry_views(entries@) =~= entry_views(old(entries)@) + opt_entry(
                    key@,
                    ref_to(ids@, link(l)),
                ));
            }
        },
        None => {
            proof {
                assert(entry_views(entries@) =~= entry_views(old(entries)@) + opt_entry(
                    key@,
                    ref_to(ids@, link(l)),
                ));
            }
        },
    }
}

/// Append one entry.
fn push_entry(entries: &mut Vec<(&'static str, PdfValue)>, key: &'static str, v: PdfValue)
    ensures
        entry_views(final(entries)@) == entry_views(old(entries)@) + seq![(key@, v@)],
{
    entries.push((key, v));
    proof {
        assert(entry_views(entries@) =~= entry_views(old(entries)@) + seq![(key@, v@)]);
    }
}

/// The object of one outline item.
fn item_object(it: &OutlineItem, ids: &Vec<(u32, u16)>, pages: &Vec<(u32, (u32, u16))>) -> (r:
    OutlineObject)
    requires
        it.node < ids@.len(),
        it.last < ids@.len(),
        it.parent matches Some(p) ==> p < ids@.len(),
        it.prev matches Some(p) ==> p < ids@.len(),
        it.next matches Some(p) ==> p < ids@.len(),
        it.first matches Some(p) ==> p < ids@.len(),
    ensures
        r@ == (OutlineObjectView {
            id: ids@[it.node as int],
            entries: item_entries(it@, ids@, pages@),
        }),
{
    let mut entries: Vec<(&'static str, PdfValue)> = Vec::new();
    proof {
        assert(entry_views(entries@) =~= Seq::<(Seq<char>, PdfValueView)>::empty());
    }
    push_entry(&mut entries, "Title", PdfValue::Text(it.title.clone()));
    let ghost dest = match page_lookup(pages@, it.page) {
        Some(p) => Some(PdfValueView::Destination(p)),
        None => None,
    };
    let ghost before = entry_views(entries@);
    match find_page(pages, it.page) {
        Some(page_id) => {
            push_entry(&mut entries, "Dest", PdfValue::Destination(page_id));
        },
        None => {},
    }
    proof {
        assert(entry_views(entries@) =~= before + opt_entry("Dest"@, dest));
    }
    push_link(&mut entries, "Parent", it.parent, ids);
    push_link(&mut entries, "Prev", it.prev, ids);
    push_link(&mut entries, "Next", it.next, ids);
    push_link(&mut entries, "First", it.first, ids);
    push_entry(&mut entries, "Last", PdfValue::Reference(ids[it.last]));
    proof {
        assert(entry_views(entries@) =~= item_entries(it@, ids@, pages@));
    }
    OutlineObject { id: ids[it.node], entries }
}

/// The objects that make up the outline of `outlines`, node `k` stored
/// under `ids[k]` and page numbers resolved through `pages` (1-based page
/// numbers paired with the ids of the pages): see
/// [`outline_objects_spec`].
pub fn outline_objects(
    outlines: &[OutlineEntry],
    ids: &Vec<(u32, u16)>,
    pages: &Vec<(u32, (u32, u16))>,
) -> (r: Vec<OutlineObject>)
    requires
        ids@.len() == outlines@.len() + 1,
    ensures
        object_views(r@) == outline_objects_spec(outline_views(outlines@), ids@, pages@),
{
    let plan = match plan_outline(outlines) {
        None => {
            let r: Vec<OutlineObject> = Vec::new();
            proof {
                assert(object_views(r@) =~= Seq::<OutlineObjectView>::empty());
            }
            return r;
        },
        Some(p) => p,
    };
    let ghost nodes = btree_spec(outline_views(outlines@));
    let ghost items = items_of(nodes);
    proof {
        lemma_btree_wf(outline_views(outlines@));
        lemma_items_in_range(nodes);
        lemma_last_desc(nodes, 0);
    }
    let mut objects: Vec<OutlineObject> = Vec::new();
    let mut j: usize = 0;
    while j < plan.items.len()
        invariant
            j <= plan.items@.len(),
            ids@.len() == nodes.len(),
            item_views(plan.items@) == items,
            items == items_of(nodes),
            forall|q: int|
                0 <= q < items.len() ==> {
                    let it = #[trigger] items[q];
                    &&& it.node == q + 1
                    &&& it.parent matches Some(p) ==> 0 <= p < nodes.len()
                    &&& it.prev matches Some(p) ==> 0 <= p < nodes.len()
                    &&& it.next matches Some(p) ==> 0 <= p < nodes.len()
                    &&& it.first matches Some(p) ==> 0 <= p < nodes.len()
                    &&& 0 <= it.last < nodes.len()
                },
            items.len() == nodes.len() - 1,
            objects@.len() == j,
            forall|q: int|
                0 <= q < j ==> (#[trigger] objects@[q])@ == (OutlineObjectView {
                    id: ids@[items[q].node],
                    entries: item_entries(items[q], ids@, pages@),
                }),
        decreases plan.items@.len() - j,
    {
        let item = &plan.items[j];
        proof {
            assert(item@ == items[j as int]);
        }
        let obj = item_object(item, ids, pages);
        objects.push(obj);
        j += 1;
    }
    let mut entries: Vec<(&'static str, PdfValue)> = Vec::new();
    proof {
        assert(entry_views(entries@) =~= Seq::<(Seq<char>, PdfValueView)>::empty());
        reveal_strlit("Outlines");
    }
    push_entry(&mut entries, "Type", PdfValue::Name(string_of("Outlines")));
    proof {
        assert(link(plan.first) == nodes[0].lchild);
    }
    push_link(&mut entries, "First", plan.first, ids);
    push_entry(&mut entries, "Last", PdfValue::Reference(ids[plan.last]));
    push_entry(&mut entries, "Count", PdfValue::Integer(plan.count as i64));
    proof {
        assert(entry_views(entries@) =~= outlines_entries(nodes, ids@));
    }
    let root = OutlineObject { id: ids[0], entries };
    let ghost before = object_views(objects@);
    objects.push(root);
    proof {
        assert(object_views(objects@) =~= outline_objects_spec(
            outline_views(outlines@),
            ids@,
            pages@,
        ));
    }
    objects
}

/// The ids that the nodes of an outline of `n` entries get in a document
/// whose counter of ids is `m`: node `k` gets `m + 1 + k`.
pub open spec fn fresh_ids(m: u32, n: nat) -> Seq<(u32, u16)> {
    Seq::new(n + 1, |k: int| ((m + 1 + k) as u32, 0u16))
}

/// None of `ids` is an object of `objs`.
pub open spec fn all_fresh(
    objs: Map<(u32, u16), Option<Seq<(Seq<char>, PdfValueView)>>>,
    ids: Seq<(u32, u16)>,
) -> bool {
    forall|k: int| 0 <= k < ids.len() ==> !objs.dom().contains(#[trigger] ids[k])
}

/// The outline's ids are new to the document, and its catalog is one of
/// its objects.
pub open spec fn fresh_setting(
    before: PdfObjects,
    ids: Seq<(u32, u16)>,
    cat: Option<(u32, u16)>,
) -> bool {
    &&& all_fresh(before, ids)
    &&& cat is Some
    &&& before.dom().contains(cat->Some_0)
}

/// Both maps of streams have the same stream, or none, under `t`.
pub open spec fn same_stream_at(
    a: PdfStreams,
    b: PdfStreams,
    t: (u32, u16),
) -> bool {
    &&& a.dom().contains(t) == b.dom().contains(t)
    &&& a.dom().contains(t) ==> a[t] == b[t]
}

/// The message of the error about a document whose ids would run out.
pub open spec fn too_many_objects() -> Seq<char> {
    "the document has too many objects to add the outline"@
}

/// Writing objects changes only the objects written.
pub(crate) proof fn lemma_write_objects_frame(
    m: Map<(u32, u16), Option<Seq<(Seq<char>, PdfValueView)>>>,
    os: Seq<OutlineObjectView>,
    x: (u32, u16),
)
    requires
        forall|i: int| 0 <= i < os.len() ==> (#[trigger] os[i]).id != x,
    ensures
        write_objects(m, os).dom().contains(x) == m.dom().contains(x),
        m.dom().contains(x) ==> write_objects(m, os)[x] == m[x],
    decreases os.len(),
{
    if os.len() > 0 {
        let p = os.drop_last();
        assert forall|i: int| 0 <= i < p.len() implies (#[trigger] p[i]).id != x by {
            assert(p[i] == os[i]);
        }
        lemma_write_objects_frame(m, p, x);
    }
}

/// An object written and not written over later holds what was written.
pub(crate) proof fn lemma_write_objects_at(
    m: Map<(u32, u16), Option<Seq<(Seq<char>, PdfValueView)>>>,
    os: Seq<OutlineObjectView>,
    q: int,
)
    requires
        0 <= q < os.len(),
        forall|i: int| q < i < os.len() ==> (#[trigger] os[i]).id != os[q].id,
    ensures
        write_objects(m, os).dom().contains(os[q].id),
        write_objects(m, os)[os[q].id] == Some(dict_after(os[q].entries)),
    decreases os.len(),
{
    if q < os.len() - 1 {
        let p = os.drop_last();
        assert forall|i: int| q < i < p.len() implies (#[trigger] p[i]).id != p[q].id by {
            assert(p[i] == os[i]);
        }
        lemma_write_objects_at(m, p, q);
        assert(os.last() == os[os.len() - 1]);
    }
}

/// The objects of the outline of `entries` with the ids `fresh_ids(m, n)`:
/// item `k` under id `k + 1`, the `/Outlines` dictionary under id 0.
pub(crate) proof fn lemma_outline_object_ids(
    entries: Seq<OutlineEntryView>,
    ids: Seq<(u32, u16)>,
    pages: Seq<(u32, (u32, u16))>,
)
    requires
        entries.len() > 0,
        ids.len() == entries.len() + 1,
    ensures
        outline_objects_spec(entries, ids, pages).len() == entries.len() + 1,
        forall|q: int|
            0 <= q < entries.len() ==> (#[trigger] outline_objects_spec(entries, ids, pages)[q]).id
                == ids[q + 1],
        outline_objects_spec(entries, ids, pages)[entries.len() as int].id == ids[0],
{
    let nodes = btree_spec(entries);
    lemma_btree_wf(entries);
    lemma_items_in_range(nodes);
    let os = outline_objects_spec(entries, ids, pages);
    assert forall|q: int| 0 <= q < entries.len() implies (#[trigger] os[q]).id == ids[q + 1] by {
        assert(items_of(nodes)[q].node == q + 1);
    }
}

/// The objects of a document after the outline of `entries` (non-empty)
/// was built in it, when before they were `before` with counter `m` and
/// catalog `cat`: the counter moved past the outline's ids
/// ([`fresh_ids`]); the outline's objects were written in order
/// ([`outline_objects_spec`], `/Dest` through `pages`); then the catalog,
/// if any, gained `/Outlines` referencing node 0 ([`catalog_linked`]).
/// When the ids were fresh and the catalog an object of the document, it
/// is that catalog which gained the entry and nothing else changed.
pub open spec fn outline_built(
    before: PdfObjects,
    m: u32,
    cat: Option<(u32, u16)>,
    after: PdfObjects,
    m_after: u32,
    entries: Seq<OutlineEntryView>,
    pages: Seq<(u32, (u32, u16))>,
) -> bool {
    let ids = fresh_ids(m, entries.len());
    let w = write_objects(before, outline_objects_spec(entries, ids, pages));
    &&& m_after == m + entries.len() + 1
    &&& catalog_linked(w, after, ids[0])
    &&& fresh_setting(before, ids, cat) ==> ({
        let t = cat->Some_0;
        &&& after == w.insert(t, after[t])
        &&& before[t] matches Some(e) ==> after[t] == Some(
            put_entry(e, "Outlines"@, PdfValueView::Reference(ids[0])),
        )
    })
}

/// Build the outline dictionary inside a document: one object per node
/// of the outline tree (the root becomes the `/Outlines` dictionary),
/// under the next ids of the document, with the entries that
/// [`outline_objects`] gives, and `/Outlines` set in the catalog when the
/// document has one. `pages` pairs 1-based page numbers with the object
/// ids of the pages.
///
/// # Errors
/// [`PdfError::Assembly`], with the document untouched, when its counter
/// of object ids has no room for the outline's objects.
pub fn build_outline_dict(
    doc: &mut lopdf::Document,
    outlines: &[OutlineEntry],
    pages: &Vec<(u32, (u32, u16))>,
) -> (r: Result<(), PdfError>)
    ensures
        outlines@.len() == 0 ==> r is Ok && *final(doc) == *old(doc),
        outlines@.len() > 0 ==> (r is Ok <==> pdf_max_id(*old(doc)) + outlines@.len() + 1
            <= u32::MAX),
        r is Err ==> *final(doc) == *old(doc) && (r matches Err(PdfError::Assembly(m)) && m@
            == too_many_objects()),
        r is Ok && outlines@.len() > 0 ==> outline_built(
            pdf_objects(*old(doc)),
            pdf_max_id(*old(doc)),
            pdf_catalog(*old(doc)),
            pdf_objects(*final(doc)),
            pdf_max_id(*final(doc)),
            outline_views(outlines@),
            pages@,
        ),
        pdf_trailer(*final(doc)) == pdf_trailer(*old(doc)),
        forall|t: (u32, u16)|
            t.0 <= pdf_max_id(*old(doc)) ==> #[trigger] same_stream_at(
                pdf_streams(*old(doc)),
                pdf_streams(*final(doc)),
                t,
            ),
{
    if outlines.len() == 0 {
        return Ok(());
    }
    let m = max_object_id(doc);
    if (outlines.len() as u64) >= ((u32::MAX - m) as u64) {
        return Err(PdfError::Assembly(string_of("the document has too many objects to add the outline")));
    }
    let ghost objs0 = pdf_objects(*doc);
    let ghost cat0 = pdf_catalog(*doc);
    let ghost streams0 = pdf_streams(*doc);
    let ghost trailer0 = pdf_trailer(*doc);
    let ghost n = outlines@.len();
    let ghost ids_spec = fresh_ids(m, n);
    let mut ids: Vec<(u32, u16)> = Vec::new();
    ids.push(new_object_id(doc));
    let mut k: usize = 0;
    while k < outlines.len()
        invariant
            k <= outlines@.len(),
            n == outlines@.len(),
            m + n + 1 <= u32::MAX,
            ids@.len() == k + 1,
            ids_spec == fresh_ids(m, n),
            forall|q: int| 0 <= q <= k ==> ids@[q] == #[trigger] ids_spec[q],
            pdf_max_id(*doc) == m + k + 1,
            pdf_objects(*doc) == objs0,
            pdf_streams(*doc) == streams0,
            pdf_trailer(*doc) == trailer0,
            pdf_catalog(*doc) == cat0,
        decreases outlines@.len() - k,
    {
        ids.push(new_object_id(doc));
        k += 1;
    }
    proof {
        assert(ids@ =~= ids_spec);
    }
    let objects = outline_objects(outlines, &ids, pages);
    let ghost os = object_views(objects@);
    proof {
        lemma_outline_object_ids(outline_views(outlines@), ids@, pages@);
    }
    let ghost fresh = fresh_setting(objs0, ids@, cat0);
    let mut j: usize = 0;
    while j < objects.len()
        invariant
            j <= objects@.len(),
            n == outlines@.len(),
            n > 0,
            m + n + 1 <= u32::MAX,
            os == object_views(objects@),
            ids@ == fresh_ids(m, n),
            os == outline_objects_spec(outline_views(outlines@), ids@, pages@),
            os.len() == n + 1,
            forall|q: int| 0 <= q < n ==> (#[trigger] os[q]).id == ids@[q + 1],
            os[n as int].id == ids@[0],
            fresh == fresh_setting(objs0, ids@, cat0),
            pdf_objects(*doc) == write_objects(objs0, os.subrange(0, j as int)),
            pdf_max_id(*doc) == m + n + 1,
            fresh ==> pdf_catalog(*doc) == cat0,
            forall|t: (u32, u16)| t.0 <= m ==> #[trigger] same_stream_at(streams0, pdf_streams(*doc), t),
            pdf_trailer(*doc) == trailer0,
        decreases objects@.len() - j,
    {
        let obj = &objects[j];
        let d = crate::builder::dictionary_of(&obj.entries);
        proof {
            if fresh {
                let x = os[j as int].id;
                let idx = if j < n { j + 1 } else { 0int };
                assert(x == ids@[idx]);
                assert(!objs0.dom().contains(ids@[idx]));
                let pre = os.subrange(0, j as int);
                assert forall|i: int| 0 <= i < pre.len() implies (#[trigger] pre[i]).id != x by {
                    let ii = if i < n { i + 1 } else { 0int };
                    assert(pre[i] == os[i]);
                    assert(os[i].id == ids@[ii]);
                }
                lemma_write_objects_frame(objs0, pre, x);
            }
        }
        proof {
            let idx = if j < n { j + 1 } else { 0int };
            assert(os[j as int] == obj@);
            assert(obj.id == ids@[idx]);
            assert(obj.id.0 > m);
        }
        let ghost streams_before = pdf_streams(*doc);
        set_object(doc, obj.id, d);
        proof {
            assert forall|t: (u32, u16)| t.0 <= m implies #[trigger] same_stream_at(
                streams0,
                pdf_streams(*doc),
                t,
            ) by {
                assert(same_stream_at(streams0, streams_before, t));
                assert(t != obj.id);
            }
        }
        proof {
            let sub = os.subrange(0, j + 1);
            assert(sub.drop_last() =~= os.subrange(0, j as int));
            assert(sub.last() == obj@);
        }
        j += 1;
    }
    proof {
        assert(os.subrange(0, os.len() as int) =~= os);
    }
    let ghost w = pdf_objects(*doc);
    proof {
        if fresh {
            let t = cat0->Some_0;
            assert forall|i: int| 0 <= i < os.len() implies (#[trigger] os[i]).id != t by {
                let ii = if i < n { i + 1 } else { 0int };
                assert(os[i].id == ids@[ii]);
                assert(!objs0.dom().contains(ids@[ii]));
            }
        }
    }
    let root = ids[0];
    match catalog_mut(doc) {
        Some(catalog) => {
            dict_set(catalog, "Outlines", PdfValue::Reference(root));
        },
        None => {},
    }
    proof {
        if fresh {
            let t = cat0->Some_0;
            lemma_write_objects_frame(objs0, os, t);
        }
    }
    Ok(())
}

/// The number of bytes of a monochrome bitmap of `width` x `height`
/// pixels, rows padded to whole bytes.
pub open spec fn mono_raster_len(width: u32, height: u32) -> int {
    ((width + 7) / 8) * height
}

/// The content of the image stream of an image, and whether it is
/// flate-compressed (the image dictionary then needs `/Filter
/// /FlateDecode`): for a monochrome bitmap, its rows (the bits beyond them
/// are dropped) compressed as lopdf compresses a stream, after a check
/// that the bitmap holds them all; for a JPEG, the JPEG bytes as they are.
pub fn image_content_for(image: &DecodedImage) -> (r: Result<(Vec<u8>, bool), PdfError>)
    ensures
        match image@ {
            DecodedImageView::Mono { width_px, height_px, bits } => {
                let needed = mono_raster_len(width_px, height_px);
                if bits.len() < needed {
                    r matches Err(PdfError::Assembly(m)) && m@ == "mono bitmap is too small: got "@
                        + decimal(bits.len()) + " bytes, expected at least "@ + decimal(
                        needed as nat,
                    )
                } else {
                    r matches Ok(c) && c.0@ == stream_compressed(bits.subrange(0, needed)) && c.1
                        == (c.0@ != bits.subrange(0, needed))
                }
            },
            DecodedImageView::Jpeg { jpeg_bytes, .. } => r matches Ok(c) && c.0@ == jpeg_bytes
                && !c.1,
        },
{
    match image {
        DecodedImage::Mono { width_px, height_px, bits } => {
            let stride = ((*width_px as u64) + 7) / 8;
            proof {
                assert(stride * (*height_px as u64) <= 0x2000_0000 * 0xFFFF_FFFFu64) by (nonlinear_arith)
                    requires
                        stride <= 0x2000_0000,
                ;
            }
            let needed = stride * (*height_px as u64);
            if (bits.len() as u64) < needed {
                let mut m = string_of("mono bitmap is too small: got ");
                push_numeral(&mut m, bits.len() as u64, 10, false);
                push_str(&mut m, " bytes, expected at least ");
                push_numeral(&mut m, needed, 10, false);
                return Err(PdfError::Assembly(m));
            }
            let raw = vstd::slice::slice_to_vec(
                vstd::slice::slice_subrange(bits.as_slice(), 0, needed as usize),
            );
            let ghost raw_view = raw@;
            match compress_stream(raw) {
                Ok(v) => {
                    let compressed = v.len() != needed as usize;
                    proof {
                        if v@ == raw_view {
                            assert(!compressed);
                        } else {
                            assert(compressed);
                        }
                    }
                    Ok((v, compressed))
                },
                Err(e) => Err(PdfError::Lopdf(e)),
            }
        },
        DecodedImage::Jpeg { jpeg_bytes, .. } => Ok((jpeg_bytes.clone(), false)),
    }
}

/// How many objects injecting an outline of `n` entries adds: one per
/// node of its tree, none for an empty outline.
pub open spec fn outline_object_count(n: nat) -> nat {
    if n == 0 {
        0
    } else {
        n + 1
    }
}

/// Page `k + 1` paired with the `k`-th page of a page tree.
pub open spec fn numbered_pages(p: Seq<(u32, u16)>) -> Seq<(u32, (u32, u16))> {
    Seq::new(p.len(), |k: int| ((k + 1) as u32, p[k]))
}

/// Whether the counter of ids of the PDF read from `input` leaves room for
/// the objects of an outline of `n` entries and for saving the document.
pub open spec fn injection_fits(input: Seq<u8>, n: nat) -> bool {
    match pdf_loaded(input) {
        Some(l) => l.1 + outline_object_count(n) + 1 <= u32::MAX,
        None => true,
    }
}

/// `out` is what injecting the outline `entries` into the PDF `input`
/// gives: `input` is read by lopdf, and `out` is what lopdf writes for a
/// document whose objects are those read, with the outline built in them
/// as [`outline_built`] says (`/Dest` through the pages of the page tree,
/// numbered from 1) when the outline is not empty, and the streams it
/// read (page contents, images) kept.
pub open spec fn injected_pdf(input: Seq<u8>, entries: Seq<OutlineEntryView>, out: Seq<u8>) -> bool {
    match pdf_loaded(input) {
        None => false,
        Some(l) => exists|d: lopdf::Document|
            #[trigger] pdf_serialized(d) == out && injected_objects(
                l.0,
                l.1,
                l.2,
                l.3,
                entries,
                pdf_objects(d),
                pdf_max_id(d),
            ) && streams_kept(l.4, l.1, pdf_streams(d)),
    }
}

/// The streams `after` has what `before` had under every id up to `m`.
pub open spec fn streams_kept(before: PdfStreams, m: u32, after: PdfStreams) -> bool {
    forall|t: (u32, u16)| t.0 <= m ==> #[trigger] same_stream_at(before, after, t)
}

/// The objects and counter of a document after the outline `entries` was
/// injected into one with objects `objs`, counter `m`, catalog `cat` and
/// pages `pages`: unchanged for an empty outline, else as
/// [`outline_built`] says, `/Dest` through the pages numbered from 1 (when
/// there are fewer than `u32::MAX` of them).
pub open spec fn injected_objects(
    objs: PdfObjects,
    m: u32,
    cat: Option<(u32, u16)>,
    pages: Seq<(u32, u16)>,
    entries: Seq<OutlineEntryView>,
    after: PdfObjects,
    m_after: u32,
) -> bool {
    if entries.len() == 0 {
        after == objs && m_after == m
    } else if pages.len() < u32::MAX {
        outline_built(objs, m, cat, after, m_after, entries, numbered_pages(pages))
    } else {
        exists|p: Seq<(u32, (u32, u16))>| #[trigger] outline_built(objs, m, cat, after, m_after, entries, p)
    }
}

/// Inject an outline tree into an existing PDF: the PDF is parsed, the
/// outline tree is added as a top-level `/Outlines` dictionary hanging
/// off `/Catalog`, and the document is re-serialised (which also rebuilds
/// its cross-reference table). Existing pages and resources are
/// untouched.
///
/// # Errors
/// [`PdfError::Lopdf`] when lopdf cannot read the PDF;
/// [`PdfError::Assembly`] when its counter of object ids has no room for
/// the outline and the save.
pub fn inject_outlines(existing_pdf: &[u8], outlines: &[OutlineEntry]) -> (r: Result<
    Vec<u8>,
    PdfError,
>)
    ensures
        r matches Err(e) ==> (e is Lopdf || e is Assembly),
        (r matches Err(PdfError::Lopdf(_))) <==> pdf_loaded(existing_pdf@) is None,
        (r matches Err(PdfError::Assembly(m))) <==> (pdf_loaded(existing_pdf@) is Some
            && !injection_fits(existing_pdf@, outlines@.len())),
        r matches Err(PdfError::Assembly(m)) ==> m@ == too_many_objects(),
        r matches Ok(b) ==> injected_pdf(existing_pdf@, outline_views(outlines@), b@),
        r matches Ok(b) ==> occurs_at(b@, pdf_magic(), 0) && occurs_at(b@, eof_marker(), b@.len() - 5),
{
    let mut doc = match load_pdf(existing_pdf) {
        Ok(d) => d,
        Err(e) => {
            return Err(PdfError::Lopdf(e));
        },
    };
    let ghost loaded = pdf_loaded(existing_pdf@)->Some_0;
    let n = outlines.len();
    let m = max_object_id(&doc);
    if (n as u64) >= (u32::MAX as u64) {
        return Err(PdfError::Assembly(string_of("the document has too many objects to add the outline")));
    }
    let extra: u64 = if n == 0 {
        0
    } else {
        n as u64 + 1
    };
    if (m as u64) + extra + 1 > (u32::MAX as u64) {
        return Err(PdfError::Assembly(string_of("the document has too many objects to add the outline")));
    }
    if n > 0 {
        let pages = page_ids(&doc);
        let ghost before = doc;
        match build_outline_dict(&mut doc, outlines, &pages) {
            Ok(()) => {},
            Err(e) => {
                return Err(e);
            },
        }
        proof {
            if loaded.3.len() < u32::MAX {
                assert(pages@ =~= numbered_pages(loaded.3));
            } else {
                assert(outline_built(
                    loaded.0,
                    loaded.1,
                    loaded.2,
                    pdf_objects(doc),
                    pdf_max_id(doc),
                    outline_views(outlines@),
                    pages@,
                ));
            }
        }
    }
    let ghost before_save = doc;
    match save_pdf(&mut doc) {
        Ok(buf) => {
            proof {
                assert(pdf_serialized(before_save) == buf@);
            }
            Ok(buf)
        },
        Err(e) => Err(PdfError::Io(e)),
    }
}

} // verus!
