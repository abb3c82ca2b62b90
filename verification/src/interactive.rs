//! The tree of files shown by interactive packing: which files are selected,
//! which directories are open, where the cursor is, and how lines are cut to
//! the terminal's width.
use crate::package::FileKind;
use crate::pack::is_ignored_directory;
use crate::path::{path_file_name, path_starts_with};
use crate::text::{cat, chars_of, io_error_text, string_of, to_string};
use vstd::prelude::*;

verus! {

/// How much of a node is selected.
#[derive(Debug, Clone, Copy, PartialEq, Eq, Structural)]
pub enum SelectionState {
    Nothing,
    Partial,
    All,
}

/// A file or directory of the tree.
#[derive(Debug)]
pub struct TreeNode {
    pub path: String,
    pub depth: usize,
    pub parent: Option<usize>,
    pub children: Vec<usize>,
    pub is_directory: bool,
    pub expanded: bool,
    pub selected: bool,
}

/// The tree below a directory: node 0 is the directory; every other node
/// comes after its parent.
#[derive(Debug)]
pub struct TreeSelection {
    nodes: Vec<TreeNode>,
    cursor: usize,
    excluded_root: Option<String>,
}

/// The shape of a tree: a directory at its root, each node's parent before
/// it and its children after it.
pub open spec fn well_formed(nodes: Seq<TreeNode>, cursor: int) -> bool {
    &&& nodes.len() > 0
    &&& 0 <= cursor < nodes.len()
    &&& nodes[0].is_directory
    &&& nodes[0].parent is None
    &&& forall|i: int| 0 <= i < nodes.len() ==> #[trigger] nodes[i].depth <= i
    &&& forall|i: int|
        0 <= i < nodes.len() ==> (#[trigger] nodes[i].parent matches Some(p) ==> p < i)
    &&& forall|i: int, k: int|
        0 <= i < nodes.len() && 0 <= k < nodes[i].children@.len() ==> i < #[trigger] nodes[i].children@[k]
            < nodes.len()
}

/// The files below node `i`, in tree order (node `i` itself when it is a
/// file).
pub open spec fn leaves(nodes: Seq<TreeNode>, i: int) -> Seq<usize>
    decreases nodes.len() - i, nodes[i].children@.len() + 1,
{
    if i < 0 || i >= nodes.len() {
        Seq::empty()
    } else if !nodes[i].is_directory {
        seq![i as usize]
    } else {
        leaves_of_children(nodes, i, 0)
    }
}

/// The files below the children of node `i` from the `k`th.
pub open spec fn leaves_of_children(nodes: Seq<TreeNode>, i: int, k: int) -> Seq<usize>
    decreases nodes.len() - i, nodes[i].children@.len() - k,
{
    if i < 0 || i >= nodes.len() || k < 0 || k >= nodes[i].children@.len() {
        Seq::empty()
    } else {
        let c = nodes[i].children@[k] as int;
        if c <= i || c >= nodes.len() {
            leaves_of_children(nodes, i, k + 1)
        } else {
            leaves(nodes, c) + leaves_of_children(nodes, i, k + 1)
        }
    }
}

/// The nodes shown below node `i`: when it is open, each child followed by
/// what is shown below it.
pub open spec fn visible_below(nodes: Seq<TreeNode>, i: int) -> Seq<usize>
    decreases nodes.len() - i, nodes[i].children@.len() + 1,
{
    if i < 0 || i >= nodes.len() || !nodes[i].expanded {
        Seq::empty()
    } else {
        visible_children(nodes, i, 0)
    }
}

pub open spec fn visible_children(nodes: Seq<TreeNode>, i: int, k: int) -> Seq<usize>
    decreases nodes.len() - i, nodes[i].children@.len() - k,
{
    if i < 0 || i >= nodes.len() || k < 0 || k >= nodes[i].children@.len() {
        Seq::empty()
    } else {
        let c = nodes[i].children@[k] as int;
        if c <= i || c >= nodes.len() {
            visible_children(nodes, i, k + 1)
        } else {
            seq![c as usize] + visible_below(nodes, c) + visible_children(nodes, i, k + 1)
        }
    }
}

/// The nodes shown: the root, then what is shown below it.
pub open spec fn visible_spec(nodes: Seq<TreeNode>) -> Seq<usize> {
    seq![0usize] + visible_below(nodes, 0)
}

/// How much of node `i` is selected: a file is selected or not; a directory
/// is not when none of its files is (or it has none), fully when all are,
/// partly otherwise.
pub open spec fn state_spec(nodes: Seq<TreeNode>, i: int) -> SelectionState {
    let ls = leaves(nodes, i);
    if !nodes[i].is_directory {
        if nodes[i].selected {
            SelectionState::All
        } else {
            SelectionState::Nothing
        }
    } else if ls.len() == 0 || (forall|j: int| 0 <= j < ls.len() ==> !nodes[ls[j] as int].selected) {
        SelectionState::Nothing
    } else if forall|j: int| 0 <= j < ls.len() ==> nodes[ls[j] as int].selected {
        SelectionState::All
    } else {
        SelectionState::Partial
    }
}

/// Two trees with the same shape: selection aside, the nodes are the same.
pub open spec fn same_shape(a: Seq<TreeNode>, b: Seq<TreeNode>) -> bool {
    &&& a.len() == b.len()
    &&& forall|i: int|
        #![trigger a[i], b[i]]
        0 <= i < a.len() ==> a[i].path == b[i].path && a[i].depth == b[i].depth && a[i].parent
            == b[i].parent && a[i].children@ == b[i].children@ && a[i].is_directory
            == b[i].is_directory && a[i].expanded == b[i].expanded
}

pub open spec fn opt_str(o: Option<&str>) -> Option<Seq<char>> {
    match o {
        Some(s) => Some(s@),
        None => None,
    }
}

/// `path` lies under the excluded directory.
pub open spec fn covered(path: Seq<char>, excluded: Option<Seq<char>>) -> bool {
    match excluded {
        Some(x) => path_starts_with(path, x),
        None => false,
    }
}

impl TreeSelection {
    pub closed spec fn nodes_view(&self) -> Seq<TreeNode> {
        self.nodes@
    }

    pub closed spec fn cursor_view(&self) -> int {
        self.cursor as int
    }

    #[verifier::type_invariant]
    pub closed spec fn inv(&self) -> bool {
        well_formed(self.nodes@, self.cursor as int)
    }

    pub closed spec fn excluded_view(&self) -> Option<Seq<char>> {
        match self.excluded_root {
            Some(e) => Some(e@),
            None => None,
        }
    }

    /// The tree of the directory `root` (of kind `root_kind`), without what
    /// lies under `excluded_root`; only the root so far.
    pub fn new(root: &str, root_kind: FileKind, excluded_root: Option<&str>) -> (res: Result<Self, InteractiveError>)
        ensures
            if root_kind != FileKind::Directory {
                res matches Err(e) && e.view() == ErrView::NotDirectory(root@)
            } else if covered(root@, opt_str(excluded_root)) {
                res matches Err(e) && e.view() == ErrView::ExcludedRoot(root@)
            } else {
                res matches Ok(t) && t.nodes_view().len() == 1 && t.nodes_view()[0].path@ == root@
                    && t.nodes_view()[0].is_directory && t.nodes_view()[0].expanded
                    && !t.nodes_view()[0].selected && t.cursor_view() == 0 && t.excluded_view()
                    == opt_str(excluded_root)
            },
    {
        if root_kind != FileKind::Directory {
            return Err(InteractiveError::NotDirectory(crate::text::to_string(root)));
        }
        if let Some(x) = excluded_root {
            if crate::path::path_starts_with_exec(root, x) {
                return Err(InteractiveError::ExcludedRoot(crate::text::to_string(root)));
            }
        }
        let node = TreeNode {
            path: crate::text::to_string(root),
            depth: 0,
            parent: None,
            children: Vec::new(),
            is_directory: true,
            expanded: true,
            selected: false,
        };
        let excluded = match excluded_root {
            Some(x) => Some(crate::text::to_string(x)),
            None => None,
        };
        Ok(TreeSelection { nodes: vec![node], cursor: 0, excluded_root: excluded })
    }

    /// A tree of one directory with an empty path; it stands in while a tree
    /// is rebuilt.
    fn placeholder() -> (res: Self)
        ensures
            res.nodes_view().len() == 1,
            res.nodes_view()[0].path@ == Seq::<char>::empty(),
            res.nodes_view()[0].depth == 0,
            res.nodes_view()[0].parent is None,
            res.nodes_view()[0].children@.len() == 0,
            res.nodes_view()[0].is_directory,
            res.nodes_view()[0].expanded,
            !res.nodes_view()[0].selected,
            res.cursor_view() == 0,
            res.excluded_view() is None,
    {
        let node = TreeNode {
            path: String::new(),
            depth: 0,
            parent: None,
            children: Vec::new(),
            is_directory: true,
            expanded: true,
            selected: false,
        };
        TreeSelection { nodes: vec![node], cursor: 0, excluded_root: None }
    }

    /// The number of nodes.
    pub fn node_count(&self) -> (res: usize)
        ensures
            res == self.nodes_view().len(),
    {
        self.nodes.len()
    }

    /// The node at `index`.
    pub fn node(&self, index: usize) -> (res: &TreeNode)
        requires
            index < self.nodes_view().len(),
        ensures
            *res == self.nodes_view()[index as int],
    {
        &self.nodes[index]
    }

    /// The node under the cursor.
    pub fn cursor(&self) -> (res: usize)
        ensures
            res == self.cursor_view(),
    {
        self.cursor
    }

    /// Whether the scan keeps the entry `path` of kind `kind`: not under the
    /// excluded directory, not a link, not an ignored directory, and a file or
    /// a directory.
    pub fn keeps(&self, path: &str, kind: FileKind) -> (res: bool)
        ensures
            res == (!covered(path@, self.excluded_view())
                && (kind == FileKind::File || (kind == FileKind::Directory
                && !crate::pack::is_ignored_spec(path@)))),
    {
        if let Some(x) = &self.excluded_root {
            if crate::path::path_starts_with_exec(path, x.as_str()) {
                return false;
            }
        }
        match kind {
            FileKind::File => true,
            FileKind::Directory => !is_ignored_directory(path),
            _ => false,
        }
    }

    /// Adds the entry `path` below the directory `parent`, closed and not
    /// selected; its index is returned.
    pub fn add_node(&mut self, parent: usize, path: String, is_directory: bool) -> (res: usize)
        requires
            parent < old(self).nodes_view().len(),
        ensures
            res == old(self).nodes_view().len(),
            final(self).nodes_view().len() == res + 1,
            final(self).cursor_view() == old(self).cursor_view(),
            final(self).excluded_view() == old(self).excluded_view(),
            final(self).nodes_view()[res as int].path == path,
            final(self).nodes_view()[res as int].parent == Some(parent),
            final(self).nodes_view()[res as int].depth == old(self).nodes_view()[parent as int].depth + 1,
            final(self).nodes_view()[res as int].is_directory == is_directory,
            !final(self).nodes_view()[res as int].expanded,
            !final(self).nodes_view()[res as int].selected,
            final(self).nodes_view()[res as int].children@.len() == 0,
            final(self).nodes_view()[parent as int].children@ == old(self).nodes_view()[parent as int].children@.push(
                res,
            ),
            forall|i: int|
                0 <= i < old(self).nodes_view().len() && i != parent ==> #[trigger] final(self).nodes_view()[i]
                    == old(self).nodes_view()[i],
    {
        proof {
            use_type_invariant(&*self);
        }
        let index = self.nodes.len();
        let depth = self.nodes[parent].depth + 1;
        let node = TreeNode {
            path,
            depth,
            parent: Some(parent),
            children: Vec::new(),
            is_directory,
            expanded: false,
            selected: false,
        };
        let mut current = TreeSelection::placeholder();
        std::mem::swap(self, &mut current);
        proof {
            use_type_invariant(&current);
        }
        let TreeSelection { mut nodes, cursor, excluded_root } = current;
        let ghost before = nodes@;
        nodes.push(node);
        let mut entry = nodes.remove(parent);
        entry.children.push(index);
        nodes.insert(parent, entry);
        proof {
            assert forall|i: int| 0 <= i < nodes@.len() && i != parent implies nodes@[i] == before.push(
                nodes@[index as int],
            )[i] by {}
            assert forall|i: int, k: int|
                0 <= i < nodes@.len() && 0 <= k < nodes@[i].children@.len() implies i
                    < #[trigger] nodes@[i].children@[k] < nodes@.len() by {
                if i == parent {
                    if k < before[i].children@.len() {
                        assert(nodes@[i].children@[k] == before[i].children@[k]);
                    }
                } else if i < before.len() {
                    assert(nodes@[i] == before[i]);
                }
            }
            assert(forall|i: int| 0 <= i < nodes@.len() ==> #[trigger] nodes@[i].depth <= i);
        }
        *self = TreeSelection { nodes, cursor, excluded_root };
        index
    }
}

impl TreeSelection {
    fn append_leaves(&self, index: usize, out: &mut Vec<usize>)
        requires
            index < self.nodes@.len(),
        ensures
            final(out)@ == old(out)@ + leaves(self.nodes@, index as int),
        decreases self.nodes@.len() - index,
    {
        proof {
            use_type_invariant(self);
        }
        let node = &self.nodes[index];
        if !node.is_directory {
            out.push(index);
            return ;
        }
        let ghost start = out@;
        let mut k: usize = 0;
        while k < node.children.len()
            invariant
                k <= node.children@.len(),
                *node == self.nodes@[index as int],
                index < self.nodes@.len(),
                node.is_directory,
                well_formed(self.nodes@, self.cursor as int),
                start + leaves(self.nodes@, index as int) == out@ + leaves_of_children(
                    self.nodes@,
                    index as int,
                    k as int,
                ),
            decreases node.children@.len() - k,
        {
            let c = node.children[k];
            assert(index < c < self.nodes@.len());
            let ghost before = out@;
            self.append_leaves(c, out);
            assert(before + (leaves(self.nodes@, c as int) + leaves_of_children(
                self.nodes@,
                index as int,
                k + 1,
            )) =~= out@ + leaves_of_children(self.nodes@, index as int, k + 1));
            k += 1;
        }
        assert(out@ + leaves_of_children(self.nodes@, index as int, k as int) =~= out@);
    }

    /// The files below node `index`, in tree order.
    pub fn leaves(&self, index: usize) -> (res: Vec<usize>)
        requires
            index < self.nodes_view().len(),
        ensures
            res@ == leaves(self.nodes_view(), index as int),
    {
        let mut out: Vec<usize> = Vec::new();
        self.append_leaves(index, &mut out);
        assert(out@ =~= leaves(self.nodes@, index as int));
        out
    }

    fn append_visible(&self, index: usize, out: &mut Vec<usize>)
        requires
            index < self.nodes@.len(),
            forall|j: int| 0 <= j < old(out)@.len() ==> old(out)@[j] < self.nodes@.len(),
        ensures
            final(out)@ == old(out)@ + visible_below(self.nodes@, index as int),
            forall|j: int| 0 <= j < final(out)@.len() ==> final(out)@[j] < self.nodes@.len(),
        decreases self.nodes@.len() - index,
    {
        proof {
            use_type_invariant(self);
        }
        let node = &self.nodes[index];
        if !node.expanded {
            assert(out@ + visible_below(self.nodes@, index as int) =~= out@);
            return ;
        }
        let ghost start = out@;
        let mut k: usize = 0;
        while k < node.children.len()
            invariant
                k <= node.children@.len(),
                *node == self.nodes@[index as int],
                index < self.nodes@.len(),
                node.expanded,
                well_formed(self.nodes@, self.cursor as int),
                start + visible_below(self.nodes@, index as int) == out@ + visible_children(
                    self.nodes@,
                    index as int,
                    k as int,
                ),
                forall|j: int| 0 <= j < out@.len() ==> out@[j] < self.nodes@.len(),
            decreases node.children@.len() - k,
        {
            let c = node.children[k];
            assert(index < c < self.nodes@.len());
            let ghost before = out@;
            out.push(c);
            self.append_visible(c, out);
            assert(before + (seq![c] + visible_below(self.nodes@, c as int) + visible_children(
                self.nodes@,
                index as int,
                k + 1,
            )) =~= out@ + visible_children(self.nodes@, index as int, k + 1));
            k += 1;
        }
        assert(out@ + visible_children(self.nodes@, index as int, k as int) =~= out@);
    }

    /// The nodes shown, in order.
    pub fn visible(&self) -> (res: Vec<usize>)
        ensures
            res@ == visible_spec(self.nodes_view()),
            forall|j: int| 0 <= j < res@.len() ==> res@[j] < self.nodes_view().len(),
    {
        proof {
            use_type_invariant(self);
        }
        let mut out: Vec<usize> = vec![0];
        self.append_visible(0, &mut out);
        assert(out@ =~= visible_spec(self.nodes@));
        out
    }

    /// How much of node `index` is selected.
    pub fn selection_state(&self, index: usize) -> (res: SelectionState)
        requires
            index < self.nodes_view().len(),
        ensures
            res == state_spec(self.nodes_view(), index as int),
    {
        proof {
            use_type_invariant(self);
        }
        let node = &self.nodes[index];
        if !node.is_directory {
            return if node.selected {
                SelectionState::All
            } else {
                SelectionState::Nothing
            };
        }
        let ls = self.leaves(index);
        let ghost lv = leaves(self.nodes@, index as int);
        proof {
            lemma_leaves_in_range(self.nodes@, index as int);
        }
        let mut any = false;
        let mut all = true;
        let mut j: usize = 0;
        while j < ls.len()
            invariant
                j <= ls@.len(),
                ls@ == lv,
                forall|q: int| 0 <= q < lv.len() ==> (lv[q] as int) < self.nodes@.len(),
                any == exists|q: int| 0 <= q < j && self.nodes@[lv[q] as int].selected,
                all == forall|q: int| 0 <= q < j ==> self.nodes@[lv[q] as int].selected,
            decreases ls@.len() - j,
        {
            let sel = self.nodes[ls[j]].selected;
            proof {
                if !any && !sel {
                    assert forall|q: int| 0 <= q < j + 1 implies !self.nodes@[lv[q] as int].selected by {
                        if q < j {
                            assert(!(exists|r: int| 0 <= r < j && self.nodes@[lv[r] as int].selected));
                        }
                    }
                }
                if sel {
                    assert(self.nodes@[lv[j as int] as int].selected);
                }
            }
            if sel {
                any = true;
            } else {
                all = false;
            }
            j += 1;
        }
        if ls.len() == 0 || !any {
            SelectionState::Nothing
        } else if all {
            SelectionState::All
        } else {
            SelectionState::Partial
        }
    }

    /// Selects every file below node `index`, or unselects them all when
    /// they all are selected.
    pub fn toggle(&mut self, index: usize)
        requires
            index < old(self).nodes_view().len(),
        ensures
            toggled(old(self).nodes_view(), final(self).nodes_view(), index as int),
            final(self).cursor_view() == old(self).cursor_view(),
            final(self).excluded_view() == old(self).excluded_view(),
    {
        proof {
            use_type_invariant(&*self);
            lemma_leaves_in_range(self.nodes@, index as int);
        }
        let selected = self.selection_state(index) != SelectionState::All;
        let ls = self.leaves(index);
        let mut current = TreeSelection::placeholder();
        std::mem::swap(self, &mut current);
        proof {
            use_type_invariant(&current);
        }
        let TreeSelection { mut nodes, cursor, excluded_root } = current;
        let ghost before = nodes@;
        let mut k: usize = 0;
        while k < ls.len()
            invariant
                k <= ls@.len(),
                forall|q: int| 0 <= q < ls@.len() ==> (ls@[q] as int) < before.len(),
                same_shape(before, nodes@),
                forall|j: int|
                    0 <= j < nodes@.len() ==> #[trigger] nodes@[j].selected == if holds_index(ls@.take(k as int), j) {
                        selected
                    } else {
                        before[j].selected
                    },
            decreases ls@.len() - k,
        {
            let l = ls[k];
            let mut n = nodes.remove(l);
            n.selected = selected;
            nodes.insert(l, n);
            proof {
                assert(ls@.take(k + 1) =~= ls@.take(k as int).push(l));
                assert forall|j: int| 0 <= j < nodes@.len() implies #[trigger] nodes@[j].selected == if holds_index(ls@.take(
                    k + 1,
                ), j) {
                    selected
                } else {
                    before[j].selected
                } by {
                    if j == l {
                        assert(ls@.take(k + 1)[k as int] == l);
                        assert(holds_index(ls@.take(k + 1), j));
                    } else {
                        if holds_index(ls@.take(k + 1), j) {
                            let q = choose|q: int| 0 <= q < ls@.take(k + 1).len() && #[trigger] ls@.take(k + 1)[q] as int == j;
                            assert(q < k);
                            assert(ls@.take(k as int)[q] as int == j);
                        }
                        if holds_index(ls@.take(k as int), j) {
                            let q = choose|q: int| 0 <= q < ls@.take(k as int).len() && #[trigger] ls@.take(k as int)[q] as int == j;
                            assert(ls@.take(k + 1)[q] as int == j);
                        }
                    }
                }
            }
            k += 1;
        }
        assert(ls@.take(k as int) =~= ls@);
        proof {
            assert forall|i: int, k2: int|
                0 <= i < nodes@.len() && 0 <= k2 < nodes@[i].children@.len() implies i
                    < #[trigger] nodes@[i].children@[k2] < nodes@.len() by {
                assert(nodes@[i].children@ == before[i].children@);
            }
            assert(forall|i: int| 0 <= i < nodes@.len() ==> #[trigger] nodes@[i].depth <= i) by {
                assert forall|i: int| 0 <= i < nodes@.len() implies #[trigger] nodes@[i].depth <= i by {
                    assert(nodes@[i].depth == before[i].depth);
                }
            }
            assert forall|i: int| 0 <= i < nodes@.len() implies (#[trigger] nodes@[i].parent matches Some(p) ==> p < i) by {
                assert(nodes@[i].parent == before[i].parent);
            }
            assert(nodes@[0].is_directory == before[0].is_directory);
            assert(nodes@[0].parent == before[0].parent);
        }
        *self = TreeSelection { nodes, cursor, excluded_root };
    }

    /// `toggle` on the root.
    pub fn toggle_all(&mut self)
        ensures
            toggled(old(self).nodes_view(), final(self).nodes_view(), 0),
            final(self).cursor_view() == old(self).cursor_view(),
            final(self).excluded_view() == old(self).excluded_view(),
    {
        proof {
            use_type_invariant(&*self);
        }
        self.toggle(0);
    }

    /// The paths of the selected files, in tree order.
    pub fn selected_paths(&self) -> (res: Vec<String>)
        ensures
            crate::package::strings_view(res@) == selected_spec(self.nodes_view()),
    {
        let mut out: Vec<String> = Vec::new();
        let mut i: usize = 0;
        let ghost ns = self.nodes@;
        assert(ns.take(0) =~= Seq::<TreeNode>::empty());
        assert(crate::package::strings_view(out@) =~= Seq::<Seq<char>>::empty());
        while i < self.nodes.len()
            invariant
                i <= ns.len(),
                ns == self.nodes@,
                crate::package::strings_view(out@) == selected_spec(ns.take(i as int)),
            decreases ns.len() - i,
        {
            let node = &self.nodes[i];
            let ghost before = crate::package::strings_view(out@);
            proof {
                assert(ns.take(i + 1).drop_last() =~= ns.take(i as int));
                assert(ns.take(i + 1).last() == ns[i as int]);
            }
            if !node.is_directory && node.selected {
                out.push(node.path.clone());
                assert(crate::package::strings_view(out@) =~= before.push(node.path@));
            }
            i += 1;
        }
        assert(ns.take(i as int) =~= ns);
        out
    }
}

/// The first position of `x` in `v` at or after `i`, or 0 when it is not
/// there.
pub open spec fn position_from(v: Seq<usize>, x: int, i: int) -> int
    decreases v.len() - i,
{
    if i < 0 || i >= v.len() {
        0
    } else if v[i] as int == x {
        i
    } else {
        position_from(v, x, i + 1)
    }
}

/// `p` moved by `delta`, kept within `0..len`.
pub open spec fn moved(p: int, delta: int, len: int) -> int {
    if p + delta < 0 {
        0
    } else if p + delta > len - 1 {
        len - 1
    } else {
        p + delta
    }
}

/// A key of the interactive tree.
#[derive(Debug, Clone, Copy, PartialEq, Eq, Structural)]
pub enum Key {
    Up,
    Down,
    Left,
    Right,
    Toggle,
    ToggleAll,
    Confirm,
    Cancel,
    Other,
}

/// A key press as the terminal reports it: a character (with `control` when
/// Control is the only modifier held), or another key.
#[derive(Debug, Clone, Copy, PartialEq, Eq, Structural)]
pub enum KeyPress {
    Char { c: char, control: bool },
    Esc,
    Enter,
    Up,
    Down,
    Left,
    Right,
    Other,
}

/// The keys of the tree: Escape, `q` or Control-C cancel, Enter confirms,
/// the arrows or `k`, `j`, `h`, `l` move, the space bar selects and `a`
/// selects everything.
pub open spec fn key_spec(press: KeyPress) -> Key {
    match press {
        KeyPress::Esc => Key::Cancel,
        KeyPress::Enter => Key::Confirm,
        KeyPress::Up => Key::Up,
        KeyPress::Down => Key::Down,
        KeyPress::Left => Key::Left,
        KeyPress::Right => Key::Right,
        KeyPress::Char { c, control } => if (c == 'c' && control) || c == 'q' {
            Key::Cancel
        } else if c == 'k' {
            Key::Up
        } else if c == 'j' {
            Key::Down
        } else if c == 'h' {
            Key::Left
        } else if c == 'l' {
            Key::Right
        } else if c == ' ' {
            Key::Toggle
        } else if c == 'a' {
            Key::ToggleAll
        } else {
            Key::Other
        },
        KeyPress::Other => Key::Other,
    }
}

/// The key of the tree that a key press stands for.
pub fn key_of(press: KeyPress) -> (res: Key)
    ensures
        res == key_spec(press),
{
    match press {
        KeyPress::Esc => Key::Cancel,
        KeyPress::Enter => Key::Confirm,
        KeyPress::Up => Key::Up,
        KeyPress::Down => Key::Down,
        KeyPress::Left => Key::Left,
        KeyPress::Right => Key::Right,
        KeyPress::Char { c, control } => {
            if (c == 'c' && control) || c == 'q' {
                Key::Cancel
            } else if c == 'k' {
                Key::Up
            } else if c == 'j' {
                Key::Down
            } else if c == 'h' {
                Key::Left
            } else if c == 'l' {
                Key::Right
            } else if c == ' ' {
                Key::Toggle
            } else if c == 'a' {
                Key::ToggleAll
            } else {
                Key::Other
            }
        },
        KeyPress::Other => Key::Other,
    }
}

/// What a key press leads to.
#[derive(Debug, PartialEq, Eq)]
pub enum KeyOutcome {
    Continue,
    Confirm(Vec<String>),
    Cancel,
}

impl TreeSelection {
    fn position_of(v: &Vec<usize>, x: usize) -> (res: usize)
        ensures
            res as int == position_from(v@, x as int, 0),
            v@.len() > 0 ==> res < v@.len(),
    {
        let mut i: usize = 0;
        while i < v.len()
            invariant
                i <= v@.len(),
                position_from(v@, x as int, 0) == position_from(v@, x as int, i as int),
            decreases v@.len() - i,
        {
            if v[i] == x {
                return i;
            }
            i += 1;
        }
        0
    }

    /// Moves the cursor `delta` shown nodes down (up when negative), staying
    /// on the shown nodes.
    pub fn move_cursor(&mut self, delta: isize)
        ensures
            final(self).nodes_view() == old(self).nodes_view(),
            final(self).excluded_view() == old(self).excluded_view(),
            final(self).cursor_view() == moved_cursor(old(self).nodes_view(), old(self).cursor_view(), delta as int),
    {
        let visible = self.visible();
        let position = Self::position_of(&visible, self.cursor);
        let last = visible.len() - 1;
        let next: usize = if delta >= 0 {
            let step = delta as usize;
            if step > last - position {
                last
            } else {
                position + step
            }
        } else {
            let step: usize = ((-(delta + 1)) as usize) + 1;
            if step > position {
                0
            } else {
                position - step
            }
        };
        let target = visible[next];
        let mut current = TreeSelection::placeholder();
        std::mem::swap(self, &mut current);
        proof {
            use_type_invariant(&current);
        }
        let TreeSelection { nodes, cursor: _, excluded_root } = current;
        *self = TreeSelection { nodes, cursor: target, excluded_root };
    }

    /// `nodes` with node `index` opened or closed.
    fn set_expanded(&mut self, index: usize, value: bool)
        requires
            index < old(self).nodes_view().len(),
        ensures
            final(self).nodes_view().len() == old(self).nodes_view().len(),
            final(self).cursor_view() == old(self).cursor_view(),
            final(self).excluded_view() == old(self).excluded_view(),
            final(self).nodes_view()[index as int].expanded == value,
            forall|i: int| 0 <= i < old(self).nodes_view().len() && i != index ==> #[trigger] final(self).nodes_view()[i]
                == old(self).nodes_view()[i],
            ({
                let a = old(self).nodes_view()[index as int];
                let b = final(self).nodes_view()[index as int];
                a.path == b.path && a.depth == b.depth && a.parent == b.parent && a.children@ == b.children@
                    && a.is_directory == b.is_directory && a.selected == b.selected
            }),
    {
        let mut current = TreeSelection::placeholder();
        std::mem::swap(self, &mut current);
        proof {
            use_type_invariant(&current);
        }
        let TreeSelection { mut nodes, cursor, excluded_root } = current;
        let ghost before = nodes@;
        let mut n = nodes.remove(index);
        n.expanded = value;
        nodes.insert(index, n);
        proof {
            assert forall|i: int| 0 <= i < nodes@.len() && i != index implies nodes@[i] == before[i] by {}
            assert forall|i: int, k: int|
                0 <= i < nodes@.len() && 0 <= k < nodes@[i].children@.len() implies i
                    < #[trigger] nodes@[i].children@[k] < nodes@.len() by {
                assert(nodes@[i].children@ == before[i].children@);
            }
            assert forall|i: int| 0 <= i < nodes@.len() implies #[trigger] nodes@[i].depth <= i by {
                assert(nodes@[i].depth == before[i].depth);
            }
            assert forall|i: int| 0 <= i < nodes@.len() implies (#[trigger] nodes@[i].parent matches Some(p) ==> p < i) by {
                assert(nodes@[i].parent == before[i].parent);
            }
        }
        *self = TreeSelection { nodes, cursor, excluded_root };
    }

    /// Closes the open directory under the cursor, or moves the cursor to the
    /// parent.
    pub fn collapse_or_parent(&mut self)
        ensures
            final(self).excluded_view() == old(self).excluded_view(),
            collapsed(old(self).nodes_view(), old(self).cursor_view(), final(self).nodes_view(), final(self).cursor_view()),
    {
        proof {
            use_type_invariant(&*self);
        }
        let c = self.cursor;
        if self.nodes[c].is_directory && self.nodes[c].expanded {
            self.set_expanded(c, false);
        } else if let Some(p) = self.nodes[c].parent {
            let mut current = TreeSelection::placeholder();
            std::mem::swap(self, &mut current);
            proof {
                use_type_invariant(&current);
            }
            let TreeSelection { nodes, cursor: _, excluded_root } = current;
            *self = TreeSelection { nodes, cursor: p, excluded_root };
        }
    }

    /// Opens the directory under the cursor.
    pub fn expand(&mut self)
        ensures
            final(self).excluded_view() == old(self).excluded_view(),
            final(self).cursor_view() == old(self).cursor_view(),
            opened(old(self).nodes_view(), old(self).cursor_view(), final(self).nodes_view()),
    {
        proof {
            use_type_invariant(&*self);
        }
        let c = self.cursor;
        if self.nodes[c].is_directory {
            self.set_expanded(c, true);
        }
    }

    /// Where the shown rows start so that the cursor is on one of `rows`
    /// rows.
    pub fn first_row(&self, rows: usize) -> (res: usize)
        ensures
            ({
                let p = position_from(visible_spec(self.nodes_view()), self.cursor_view(), 0);
                let keep = if rows == 0 { 0 } else { rows - 1 };
                res == if p > keep { p - keep } else { 0 }
            }),
    {
        let visible = self.visible();
        let position = Self::position_of(&visible, self.cursor);
        let keep = if rows == 0 { 0 } else { rows - 1 };
        if position > keep {
            position - keep
        } else {
            0
        }
    }

    /// What the key `key` does: confirming gives the selected files,
    /// cancelling gives up; the other keys move the cursor, open or close a
    /// directory, or select files.
    pub fn handle_key(&mut self, key: Key) -> (res: KeyOutcome)
        ensures
            key == Key::Confirm ==> (res matches KeyOutcome::Confirm(p) && crate::package::strings_view(p@)
                == selected_spec(old(self).nodes_view())),
            key == Key::Cancel ==> res == KeyOutcome::Cancel,
            key != Key::Confirm && key != Key::Cancel ==> res == KeyOutcome::Continue,
            key == Key::Other || key == Key::Confirm || key == Key::Cancel ==> final(self).nodes_view()
                == old(self).nodes_view() && final(self).cursor_view() == old(self).cursor_view(),
            key == Key::Up ==> final(self).nodes_view() == old(self).nodes_view() && final(self).cursor_view()
                == moved_cursor(old(self).nodes_view(), old(self).cursor_view(), -1),
            key == Key::Down ==> final(self).nodes_view() == old(self).nodes_view() && final(self).cursor_view()
                == moved_cursor(old(self).nodes_view(), old(self).cursor_view(), 1),
            key == Key::Left ==> collapsed(
                old(self).nodes_view(),
                old(self).cursor_view(),
                final(self).nodes_view(),
                final(self).cursor_view(),
            ),
            key == Key::Right ==> opened(old(self).nodes_view(), old(self).cursor_view(), final(self).nodes_view())
                && final(self).cursor_view() == old(self).cursor_view(),
            key == Key::Toggle ==> toggled(old(self).nodes_view(), final(self).nodes_view(), old(self).cursor_view())
                && final(self).cursor_view() == old(self).cursor_view(),
            key == Key::ToggleAll ==> toggled(old(self).nodes_view(), final(self).nodes_view(), 0)
                && final(self).cursor_view() == old(self).cursor_view(),
            final(self).excluded_view() == old(self).excluded_view(),
    {
        match key {
            Key::Confirm => KeyOutcome::Confirm(self.selected_paths()),
            Key::Cancel => KeyOutcome::Cancel,
            Key::Up => {
                self.move_cursor(-1);
                KeyOutcome::Continue
            },
            Key::Down => {
                self.move_cursor(1);
                KeyOutcome::Continue
            },
            Key::Left => {
                self.collapse_or_parent();
                KeyOutcome::Continue
            },
            Key::Right => {
                self.expand();
                KeyOutcome::Continue
            },
            Key::Toggle => {
                proof {
                    use_type_invariant(&*self);
                }
                let c = self.cursor;
                self.toggle(c);
                KeyOutcome::Continue
            },
            Key::ToggleAll => {
                self.toggle_all();
                KeyOutcome::Continue
            },
            Key::Other => KeyOutcome::Continue,
        }
    }
}

/// `after` is `before` with every file below node `index` selected, or with
/// them all unselected when they all were selected.
pub open spec fn toggled(before: Seq<TreeNode>, after: Seq<TreeNode>, index: int) -> bool {
    &&& same_shape(before, after)
    &&& forall|j: int|
        0 <= j < after.len() ==> #[trigger] after[j].selected == if holds_index(leaves(before, index), j) {
            state_spec(before, index) != SelectionState::All
        } else {
            before[j].selected
        }
}

/// The node `delta` shown nodes from the cursor `cursor`, staying on the
/// shown nodes.
pub open spec fn moved_cursor(nodes: Seq<TreeNode>, cursor: int, delta: int) -> int {
    let v = visible_spec(nodes);
    v[moved(position_from(v, cursor, 0), delta, v.len() as int)] as int
}

/// From `before` with the cursor at `c` to `after` with the cursor at `ac`:
/// the open directory at `c` is closed, or else the cursor moves to the
/// parent.
pub open spec fn collapsed(before: Seq<TreeNode>, c: int, after: Seq<TreeNode>, ac: int) -> bool {
    let n = before[c];
    if n.is_directory && n.expanded {
        ac == c && !after[c].expanded && same_shape_except_expanded(before, after, c)
    } else {
        after == before && ac == match n.parent {
            Some(p) => p as int,
            None => c,
        }
    }
}

/// `after` is `before` with the directory at `c` opened; a file is left.
pub open spec fn opened(before: Seq<TreeNode>, c: int, after: Seq<TreeNode>) -> bool {
    if before[c].is_directory {
        after[c].expanded && same_shape_except_expanded(before, after, c)
    } else {
        after == before
    }
}

/// The trees differ at most in whether node `c` is open.
pub open spec fn same_shape_except_expanded(a: Seq<TreeNode>, b: Seq<TreeNode>, c: int) -> bool {
    &&& a.len() == b.len()
    &&& forall|i: int| 0 <= i < a.len() && i != c ==> #[trigger] b[i] == a[i]
    &&& a[c].path == b[c].path && a[c].depth == b[c].depth && a[c].parent == b[c].parent
        && a[c].children@ == b[c].children@ && a[c].is_directory == b[c].is_directory && a[c].selected
        == b[c].selected
}

/// Some element of `s` is the index `j`.
pub open spec fn holds_index(s: Seq<usize>, j: int) -> bool {
    exists|q: int| 0 <= q < s.len() && #[trigger] s[q] as int == j
}

/// The paths of the selected files, in node order.
pub open spec fn selected_spec(nodes: Seq<TreeNode>) -> Seq<Seq<char>>
    decreases nodes.len(),
{
    if nodes.len() == 0 {
        Seq::empty()
    } else {
        let prev = selected_spec(nodes.drop_last());
        if !nodes.last().is_directory && nodes.last().selected {
            prev.push(nodes.last().path@)
        } else {
            prev
        }
    }
}

/// The files below a node are nodes of the tree.
pub proof fn lemma_leaves_in_range(nodes: Seq<TreeNode>, i: int)
    requires
        0 <= i < nodes.len(),
        i <= usize::MAX,
    ensures
        forall|q: int| 0 <= q < leaves(nodes, i).len() ==> (leaves(nodes, i)[q] as int) < nodes.len(),
    decreases nodes.len() - i, nodes[i].children@.len() + 1,
{
    if nodes[i].is_directory {
        lemma_leaves_of_children_in_range(nodes, i, 0);
        assert(leaves(nodes, i) == leaves_of_children(nodes, i, 0));
    } else {
        assert(leaves(nodes, i) == seq![i as usize]);
        assert((i as usize) as int == i);
    }
}

proof fn lemma_leaves_of_children_in_range(nodes: Seq<TreeNode>, i: int, k: int)
    requires
        0 <= i < nodes.len(),
        0 <= k,
    ensures
        forall|q: int|
            0 <= q < leaves_of_children(nodes, i, k).len() ==> (leaves_of_children(nodes, i, k)[q] as int)
                < nodes.len(),
    decreases nodes.len() - i, nodes[i].children@.len() - k,
{
    if k < nodes[i].children@.len() {
        let c = nodes[i].children@[k] as int;
        lemma_leaves_of_children_in_range(nodes, i, k + 1);
        let b = leaves_of_children(nodes, i, k + 1);
        if i < c < nodes.len() {
            lemma_leaves_in_range(nodes, c);
            let a = leaves(nodes, c);
            assert(leaves_of_children(nodes, i, k) == a + b);
            assert forall|q: int| 0 <= q < (a + b).len() implies ((a + b)[q] as int) < nodes.len() by {
                if q < a.len() {
                    assert((a + b)[q] == a[q]);
                } else {
                    assert((a + b)[q] == b[q - a.len()]);
                }
            }
        } else {
            assert(leaves_of_children(nodes, i, k) == b);
        }
    }
}

/// An interactive packing failure.
#[derive(Debug)]
pub enum InteractiveError {
    NotTerminal,
    NotDirectory(String),
    ExcludedRoot(String),
    ReadDirectory { path: String, source: std::io::Error },
    Terminal(std::io::Error),
    Cancelled,
}

pub enum ErrView {
    NotTerminal,
    NotDirectory(Seq<char>),
    ExcludedRoot(Seq<char>),
    ReadDirectory(Seq<char>),
    Terminal,
    Cancelled,
}

impl InteractiveError {
    pub open spec fn view(&self) -> ErrView {
        match self {
            InteractiveError::NotTerminal => ErrView::NotTerminal,
            InteractiveError::NotDirectory(p) => ErrView::NotDirectory(p@),
            InteractiveError::ExcludedRoot(p) => ErrView::ExcludedRoot(p@),
            InteractiveError::ReadDirectory { path, source: _ } => ErrView::ReadDirectory(path@),
            InteractiveError::Terminal(_) => ErrView::Terminal,
            InteractiveError::Cancelled => ErrView::Cancelled,
        }
    }
}

/// The text that reports an interactive packing failure; a failed
/// directory scan or terminal call adds the system's wording after it.
pub open spec fn interactive_message_spec(e: ErrView) -> Seq<char> {
    match e {
        ErrView::NotTerminal => "interactive pack requires a terminal"@,
        ErrView::NotDirectory(p) => "interactive pack root is not a directory: "@ + p,
        ErrView::ExcludedRoot(p) => "interactive pack root is inside the package directory: "@ + p,
        ErrView::ReadDirectory(p) => "could not scan "@ + p + ": "@,
        ErrView::Terminal => "interactive terminal error: "@,
        ErrView::Cancelled => "interactive pack cancelled"@,
    }
}

impl InteractiveError {
    /// The text that reports the failure.
    pub fn message(&self) -> (res: String)
        ensures
            interactive_message_spec(self.view()).is_prefix_of(res@),
            !(self.view() is ReadDirectory || self.view() is Terminal) ==> res@ == interactive_message_spec(self.view()),
    {
        let res = match self {
            InteractiveError::NotTerminal => to_string("interactive pack requires a terminal"),
            InteractiveError::NotDirectory(p) => cat(to_string("interactive pack root is not a directory: "), p.as_str()),
            InteractiveError::ExcludedRoot(p) => cat(to_string("interactive pack root is inside the package directory: "), p.as_str()),
            InteractiveError::ReadDirectory { path, source } => cat(cat(cat(to_string("could not scan "), path.as_str()), ": "), io_error_text(source).as_str()),
            InteractiveError::Terminal(e) => cat(to_string("interactive terminal error: "), io_error_text(e).as_str()),
            InteractiveError::Cancelled => to_string("interactive pack cancelled"),
        };
        proof {
            let head = interactive_message_spec(self.view());
            assert(head =~= res@.take(head.len() as int));
        }
        res
    }
}

// ---------------------------------------------------------------------------
// Lines.
// ---------------------------------------------------------------------------
/// The columns that `unicode_width::UnicodeWidthStr::width` gives the text
/// `s`.
pub uninterp spec fn text_width(s: Seq<char>) -> usize;

/// The columns that `unicode_width::UnicodeWidthChar::width` gives `c`, or
/// `None` for a control character.
pub uninterp spec fn char_width(c: char) -> Option<usize>;

/// Calls `UnicodeWidthStr::width`. Claimed: the result is the named
/// `text_width` of the text, a function of the text alone; nothing is
/// claimed of its value.
#[verifier::external_body]
fn str_display_width(s: &str) -> (res: usize)
    ensures
        res == text_width(s@),
{
    unicode_width::UnicodeWidthStr::width(s)
}

/// Calls `UnicodeWidthChar::width`. Claimed: the result is the named
/// `char_width` of the character; nothing is claimed of its value.
#[verifier::external_body]
fn char_display_width(c: char) -> (res: Option<usize>)
    ensures
        res == char_width(c),
{
    unicode_width::UnicodeWidthChar::width(c)
}

/// The columns of a character, a control character counting none.
pub open spec fn char_columns(c: char) -> int {
    match char_width(c) {
        Some(w) => w as int,
        None => 0,
    }
}

/// How many characters of `s` from `i` fit in `limit` columns with `used`
/// already taken, stopping at the first one that does not fit.
pub open spec fn fitting(s: Seq<char>, limit: int, used: int, i: int) -> int
    decreases s.len() - i,
{
    if i < 0 || i >= s.len() {
        i
    } else if used + char_columns(s[i]) > limit {
        i
    } else {
        fitting(s, limit, used + char_columns(s[i]), i + 1)
    }
}

/// `line` cut to `width` columns: a line that fits is kept; in fewer than
/// four columns, the characters that fit; otherwise the characters that fit
/// in three columns less, then `...`.
pub open spec fn truncate_spec(line: Seq<char>, width: int) -> Seq<char> {
    if text_width(line) <= width {
        line
    } else if width <= 3 {
        line.take(fitting(line, width, 0, 0))
    } else {
        line.take(fitting(line, width - 3, 0, 0)) + seq!['.', '.', '.']
    }
}

/// The characters of `s` that fit in `limit` columns.
fn fitting_prefix(s: &[char], limit: usize) -> (res: usize)
    ensures
        res as int == fitting(s@, limit as int, 0, 0),
        res <= s@.len(),
{
    let mut used: usize = 0;
    let mut i: usize = 0;
    while i < s.len()
        invariant
            i <= s@.len(),
            used <= limit,
            fitting(s@, limit as int, 0, 0) == fitting(s@, limit as int, used as int, i as int),
        decreases s@.len() - i,
    {
        let w: usize = match char_display_width(s[i]) {
            Some(w) => w,
            None => 0,
        };
        if w > limit - used {
            return i;
        }
        used = used + w;
        i += 1;
    }
    i
}

/// Cuts `line` to `width` columns.
pub fn truncate_line(line: &str, width: usize) -> (res: String)
    ensures
        res@ == truncate_spec(line@, width as int),
{
    if str_display_width(line) <= width {
        return crate::text::to_string(line);
    }
    let chars = chars_of(line);
    if width <= 3 {
        let n = fitting_prefix(chars.as_slice(), width);
        let kept = crate::text::chars_range(chars.as_slice(), 0, n);
        assert(kept@ =~= line@.take(n as int));
        return string_of(kept.as_slice());
    }
    let n = fitting_prefix(chars.as_slice(), width - 3);
    let mut kept = crate::text::chars_range(chars.as_slice(), 0, n);
    kept.push('.');
    kept.push('.');
    kept.push('.');
    assert(kept@ =~= line@.take(n as int) + seq!['.', '.', '.']);
    string_of(kept.as_slice())
}

/// Two spaces for each level of depth.
pub open spec fn indent(depth: nat) -> Seq<char> {
    Seq::new(2 * depth, |i: int| ' ')
}

/// The text of node `i` in its row: `>` at the cursor, its selection
/// (`[ ]`, `[-]`, `[x]`), its indent, `v` or `>` for an open or closed
/// directory, and its name (the root's whole path).
pub open spec fn row_spec(nodes: Seq<TreeNode>, cursor: int, i: int) -> Seq<char> {
    let n = nodes[i];
    let pointer = if i == cursor { seq!['>'] } else { seq![' '] };
    let state = match state_spec(nodes, i) {
        SelectionState::Nothing => seq!['[', ' ', ']'],
        SelectionState::Partial => seq!['[', '-', ']'],
        SelectionState::All => seq!['[', 'x', ']'],
    };
    let marker = if n.is_directory {
        if n.expanded { seq!['v'] } else { seq!['>'] }
    } else {
        seq![' ']
    };
    let name = if n.depth == 0 {
        n.path@
    } else {
        match crate::path::file_name(n.path@) {
            Some(f) => f,
            None => n.path@,
        }
    };
    pointer + seq![' '] + state + seq![' '] + indent(n.depth as nat) + marker + seq![' '] + name
}

impl TreeSelection {
    /// The text of node `index` in its row.
    pub fn row(&self, index: usize) -> (res: String)
        requires
            index < self.nodes_view().len(),
        ensures
            res@ == row_spec(self.nodes_view(), self.cursor_view(), index as int),
    {
        let node = &self.nodes[index];
        let mut out: Vec<char> = Vec::new();
        out.push(if index == self.cursor { '>' } else { ' ' });
        out.push(' ');
        match self.selection_state(index) {
            SelectionState::Nothing => {
                out.push('[');
                out.push(' ');
                out.push(']');
            },
            SelectionState::Partial => {
                out.push('[');
                out.push('-');
                out.push(']');
            },
            SelectionState::All => {
                out.push('[');
                out.push('x');
                out.push(']');
            },
        }
        out.push(' ');
        let ghost head = out@;
        let mut d: usize = 0;
        while d < node.depth
            invariant
                d <= node.depth,
                out@ == head + indent(d as nat),
            decreases node.depth - d,
        {
            out.push(' ');
            out.push(' ');
            assert(indent((d + 1) as nat) =~= indent(d as nat) + seq![' ', ' ']);
            d += 1;
        }
        out.push(if node.is_directory {
            if node.expanded { 'v' } else { '>' }
        } else {
            ' '
        });
        out.push(' ');
        let name: String = if node.depth == 0 {
            node.path.clone()
        } else {
            match path_file_name(node.path.as_str()) {
                Some(f) => f,
                None => node.path.clone(),
            }
        };
        let name_chars = chars_of(name.as_str());
        let ghost before = out@;
        let mut k: usize = 0;
        while k < name_chars.len()
            invariant
                k <= name_chars@.len(),
                out@ == before + name_chars@.take(k as int),
            decreases name_chars@.len() - k,
        {
            out.push(name_chars[k]);
            assert(name_chars@.take(k + 1) =~= name_chars@.take(k as int).push(name_chars@[k as int]));
            k += 1;
        }
        assert(name_chars@.take(k as int) =~= name_chars@);
        assert(out@ =~= row_spec(self.nodes@, self.cursor as int, index as int));
        string_of(out.as_slice())
    }
}

// ---------------------------------------------------------------------------
// Laws.
// ---------------------------------------------------------------------------
/// Trees of the same shape have the same files below each node.
pub proof fn lemma_same_shape_leaves(a: Seq<TreeNode>, b: Seq<TreeNode>, i: int)
    requires
        same_shape(a, b),
    ensures
        leaves(a, i) == leaves(b, i),
    decreases a.len() - i, a[i].children@.len() + 1,
{
    if 0 <= i < a.len() {
        assert(a[i].children@ == b[i].children@);
        assert(a[i].is_directory == b[i].is_directory);
        if a[i].is_directory {
            lemma_same_shape_leaves_of_children(a, b, i, 0);
        }
    }
}

proof fn lemma_same_shape_leaves_of_children(a: Seq<TreeNode>, b: Seq<TreeNode>, i: int, k: int)
    requires
        same_shape(a, b),
        0 <= i < a.len(),
    ensures
        leaves_of_children(a, i, k) == leaves_of_children(b, i, k),
    decreases a.len() - i, a[i].children@.len() - k,
{
    assert(a[i].children@ == b[i].children@);
    if 0 <= k < a[i].children@.len() {
        let c = a[i].children@[k] as int;
        lemma_same_shape_leaves_of_children(a, b, i, k + 1);
        if i < c < a.len() {
            lemma_same_shape_leaves(a, b, c);
        }
    }
}

/// Toggling a directory that holds files selects them all, unless they all
/// were selected: then none is.
pub proof fn lemma_toggle_state(before: Seq<TreeNode>, after: Seq<TreeNode>, i: int)
    requires
        same_shape(before, after),
        0 <= i < before.len(),
        before.len() <= usize::MAX,
        before[i].is_directory,
        leaves(before, i).len() > 0,
        forall|j: int|
            0 <= j < after.len() ==> #[trigger] after[j].selected == if holds_index(leaves(before, i), j) {
                state_spec(before, i) != SelectionState::All
            } else {
                before[j].selected
            },
    ensures
        state_spec(after, i) == if state_spec(before, i) == SelectionState::All {
            SelectionState::Nothing
        } else {
            SelectionState::All
        },
{
    lemma_same_shape_leaves(before, after, i);
    let ls = leaves(before, i);
    let sel = state_spec(before, i) != SelectionState::All;
    assert(after[i].is_directory);
    lemma_leaves_in_range(before, i);
    assert forall|q: int| 0 <= q < ls.len() implies after[ls[q] as int].selected == sel by {
        assert(holds_index(ls, ls[q] as int));
    }
    assert(leaves(after, i) == ls);
    assert(after[ls[0] as int].selected == sel);
    if sel {
        assert(forall|j: int| 0 <= j < ls.len() ==> after[ls[j] as int].selected);
        assert(state_spec(after, i) == SelectionState::All);
    } else {
        assert(forall|j: int| 0 <= j < ls.len() ==> !after[ls[j] as int].selected);
        assert(state_spec(after, i) == SelectionState::Nothing);
    }
}

} // verus!
