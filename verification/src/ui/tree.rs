//! The retained widget tree's structure: nodes by stable id, linked to their
//! parent, children and siblings, and the widgets that hold focus, hover,
//! a pressed button or the pointer capture. Removing a subtree unlinks it and
//! lets go of everything it held.
use vstd::prelude::*;

verus! {

/// One widget slot. A removed widget's slot stays, no longer live, so ids
/// are never reused.
#[derive(Debug)]
pub struct TreeNode {
    pub parent: Option<usize>,
    pub children: Vec<usize>,
    pub previous_sibling: Option<usize>,
    pub next_sibling: Option<usize>,
    pub live: bool,
}

/// The widget tree's structure and the widgets that hold interaction state.
#[derive(Debug)]
pub struct WidgetTree {
    pub nodes: Vec<TreeNode>,
    pub root: Option<usize>,
    pub focused: Option<usize>,
    /// The innermost hovered widget; its ancestors are hovered with it.
    pub hovered: Option<usize>,
    /// The widget the primary button went down on.
    pub pressed: Option<usize>,
    /// The widget that captured the pointer.
    pub capture: Option<usize>,
    /// Styles must be recomputed.
    pub css_dirty: bool,
    /// Layout matches the tree.
    pub layout_ready: bool,
}

/// Whether widget `i` is `anc` or lies below it, following parent links.
/// Parents come before their children, so the walk ends.
pub open spec fn in_subtree(nodes: Seq<TreeNode>, i: int, anc: int) -> bool
    decreases i,
{
    if i == anc {
        true
    } else if 0 <= i < nodes.len() {
        match nodes[i].parent {
            Some(p) => p < i && in_subtree(nodes, p as int, anc),
            None => false,
        }
    } else {
        false
    }
}

/// Whether `id` names a live widget.
pub open spec fn live_in(nodes: Seq<TreeNode>, id: int) -> bool {
    0 <= id < nodes.len() && nodes[id].live
}

/// A held widget, if any, is live.
pub open spec fn holds_live(nodes: Seq<TreeNode>, h: Option<usize>) -> bool {
    h matches Some(x) ==> live_in(nodes, x as int)
}

/// `s` without the occurrences of `v`, in order.
pub open spec fn without(s: Seq<usize>, v: usize) -> Seq<usize>
    decreases s.len(),
{
    if s.len() == 0 {
        s
    } else if s.last() == v {
        without(s.drop_last(), v)
    } else {
        without(s.drop_last(), v).push(s.last())
    }
}

/// What a held widget becomes when the subtree of `id` goes: nothing where it
/// lay in that subtree, itself otherwise.
pub open spec fn released(nodes: Seq<TreeNode>, h: Option<usize>, id: int) -> Option<usize> {
    match h {
        Some(x) => if in_subtree(nodes, x as int, id) {
            None
        } else {
            h
        },
        None => None,
    }
}

impl WidgetTree {
    /// Parents come first and are live where their children are; the root
    /// is a live widget without a parent; held widgets are live.
    pub open spec fn wf(&self) -> bool {
        &&& forall|i: int|
            0 <= i < self.nodes@.len() ==> ((#[trigger] self.nodes@[i]).parent matches Some(p) ==> p < i)
        &&& forall|i: int|
            0 <= i < self.nodes@.len() && (#[trigger] self.nodes@[i]).live ==> (self.nodes@[i].parent matches Some(p)
                ==> self.nodes@[p as int].live)
        &&& (self.root matches Some(r) ==> live_in(self.nodes@, r as int) && self.nodes@[r as int].parent is None)
        &&& holds_live(self.nodes@, self.focused)
        &&& holds_live(self.nodes@, self.hovered)
        &&& holds_live(self.nodes@, self.pressed)
        &&& holds_live(self.nodes@, self.capture)
    }

    /// An empty tree.
    pub fn new() -> (t: Self)
        ensures
            t.wf(),
            t.nodes@.len() == 0,
            t.root is None,
            t.focused is None && t.hovered is None && t.pressed is None && t.capture is None,
    {
        WidgetTree {
            nodes: Vec::new(),
            root: None,
            focused: None,
            hovered: None,
            pressed: None,
            capture: None,
            css_dirty: true,
            layout_ready: false,
        }
    }

    /// Whether `id` names a live widget.
    pub fn live(&self, id: usize) -> (r: bool)
        ensures
            r == live_in(self.nodes@, id as int),
    {
        id < self.nodes.len() && self.nodes[id].live
    }

    /// Whether `id` is `ancestor` or lies below it.
    pub fn is_descendant_or_self(&self, id: usize, ancestor: usize) -> (r: bool)
        ensures
            r == in_subtree(self.nodes@, id as int, ancestor as int),
        decreases id,
    {
        if id == ancestor {
            return true;
        }
        if id >= self.nodes.len() {
            return false;
        }
        match self.nodes[id].parent {
            Some(p) => p < id && self.is_descendant_or_self(p, ancestor),
            None => false,
        }
    }

    /// Make a new widget the root, replacing any root there was. Its id is
    /// the next free one.
    pub fn build_root(&mut self) -> (id: usize)
        requires
            old(self).wf(),
            old(self).nodes@.len() < usize::MAX,
        ensures
            final(self).wf(),
            id == old(self).nodes@.len(),
            final(self).nodes@.len() == id + 1,
            final(self).nodes@[id as int] == (TreeNode {
                parent: None,
                children: final(self).nodes@[id as int].children,
                previous_sibling: None,
                next_sibling: None,
                live: true,
            }),
            final(self).nodes@[id as int].children@.len() == 0,
            forall|i: int| 0 <= i < id ==> #[trigger] final(self).nodes@[i] == old(self).nodes@[i],
            final(self).root == Some(id),
            final(self).focused == old(self).focused,
            final(self).hovered == old(self).hovered,
            final(self).pressed == old(self).pressed,
            final(self).capture == old(self).capture,
    {
        let id = self.nodes.len();
        self.nodes.push(TreeNode { parent: None, children: Vec::new(), previous_sibling: None, next_sibling: None, live: true });
        self.root = Some(id);
        self.css_dirty = true;
        self.layout_ready = false;
        proof {
            assert forall|i: int| 0 <= i < id implies #[trigger] self.nodes@[i] == old(self).nodes@[i] by {}
        }
        id
    }

    /// Append a new widget as the last child of `parent`; `None` where the
    /// parent is not live.
    pub fn append_child(&mut self, parent: usize) -> (r: Option<usize>)
        requires
            old(self).wf(),
            old(self).nodes@.len() < usize::MAX,
        ensures
            final(self).wf(),
            r is None <==> !live_in(old(self).nodes@, parent as int),
            r is None ==> *final(self) == *old(self),
            r matches Some(id) ==> {
                &&& id == old(self).nodes@.len()
                &&& final(self).nodes@.len() == id + 1
                &&& final(self).nodes@[id as int].parent == Some(parent)
                &&& final(self).nodes@[id as int].live
                &&& final(self).nodes@[id as int].children@.len() == 0
                &&& final(self).nodes@[id as int].next_sibling is None
                &&& final(self).nodes@[id as int].previous_sibling == if old(self).nodes@[parent as int].children@.len() > 0 {
                    Some(old(self).nodes@[parent as int].children@.last())
                } else {
                    None
                }
                &&& final(self).nodes@[parent as int].children@ == old(self).nodes@[parent as int].children@.push(id)
                &&& final(self).root == old(self).root
                &&& final(self).focused == old(self).focused
                &&& final(self).hovered == old(self).hovered
                &&& final(self).pressed == old(self).pressed
                &&& final(self).capture == old(self).capture
            },
    {
        if !self.live(parent) {
            return None;
        }
        let id = self.nodes.len();
        let n = self.nodes[parent].children.len();
        let previous = if n > 0 { Some(self.nodes[parent].children[n - 1]) } else { None };
        let ghost before = self.nodes@;
        self.nodes.push(TreeNode { parent: Some(parent), children: Vec::new(), previous_sibling: previous, next_sibling: None, live: true });
        let mut last = None;
        if let Some(p) = previous {
            if p < id {
                last = Some(p);
            }
        }
        let mut node = TreeNode { parent: None, children: Vec::new(), previous_sibling: None, next_sibling: None, live: false };
        std::mem::swap(&mut node, &mut self.nodes[parent]);
        node.children.push(id);
        std::mem::swap(&mut node, &mut self.nodes[parent]);
        if let Some(p) = last {
            let mut sib = TreeNode { parent: None, children: Vec::new(), previous_sibling: None, next_sibling: None, live: false };
            std::mem::swap(&mut sib, &mut self.nodes[p]);
            sib.next_sibling = Some(id);
            std::mem::swap(&mut sib, &mut self.nodes[p]);
        }
        self.css_dirty = true;
        self.layout_ready = false;
        Some(id)
    }
}

/// `s` without `v`, built in order.
fn remove_value(s: &Vec<usize>, v: usize) -> (r: Vec<usize>)
    ensures
        r@ == without(s@, v),
{
    let mut out: Vec<usize> = Vec::new();
    let mut k: usize = 0;
    proof {
        assert(s@.take(0) =~= Seq::<usize>::empty());
    }
    while k < s.len()
        invariant
            0 <= k <= s@.len(),
            out@ == without(s@.take(k as int), v),
        decreases s@.len() - k,
    {
        proof {
            assert(s@.take(k + 1).drop_last() =~= s@.take(k as int));
            assert(s@.take(k + 1).last() == s@[k as int]);
        }
        if s[k] != v {
            out.push(s[k]);
        }
        k += 1;
    }
    proof {
        assert(s@.take(s@.len() as int) =~= s@);
    }
    out
}

/// A widget in the subtree of `anc` lies at or after it.
proof fn lemma_subtree_after(nodes: Seq<TreeNode>, i: int, anc: int)
    requires
        in_subtree(nodes, i, anc),
    ensures
        anc <= i,
    decreases i,
{
    if i != anc {
        match nodes[i].parent {
            Some(p) => lemma_subtree_after(nodes, p as int, anc),
            None => {},
        }
    }
}

/// Subtree membership reads only the parent links.
proof fn lemma_subtree_parents(a: Seq<TreeNode>, b: Seq<TreeNode>, i: int, anc: int)
    requires
        a.len() == b.len(),
        forall|k: int| 0 <= k < a.len() ==> (#[trigger] a[k]).parent == b[k].parent,
    ensures
        in_subtree(a, i, anc) == in_subtree(b, i, anc),
    decreases i,
{
    if i != anc && 0 <= i < a.len() {
        match a[i].parent {
            Some(p) => if p < i {
                lemma_subtree_parents(a, b, p as int, anc);
            },
            None => {},
        }
    }
}

impl WidgetTree {
    /// Remove widget `id` and everything below it: it is unlinked from its
    /// parent's children and from its siblings, every widget of the subtree
    /// stops being live, and focus, hover, the pressed widget and the pointer
    /// capture are let go where they lay in the subtree. Removing the root
    /// leaves the tree without one. False, with nothing changed, when `id` is
    /// not a live widget.
    pub fn remove_subtree(&mut self, id: usize) -> (removed: bool)
        requires
            old(self).wf(),
        ensures
            final(self).wf(),
            removed == live_in(old(self).nodes@, id as int),
            !removed ==> *final(self) == *old(self),
            removed ==> {
                let n0 = old(self).nodes@;
                let gone = n0[id as int];
                &&& final(self).nodes@.len() == n0.len()
                &&& forall|i: int|
                    0 <= i < n0.len() ==> (#[trigger] final(self).nodes@[i]).live == (n0[i].live && !in_subtree(n0, i, id as int))
                        && final(self).nodes@[i].parent == n0[i].parent
                &&& forall|i: int|
                    0 <= i < n0.len() && !in_subtree(n0, i, id as int) ==> {
                        &&& (#[trigger] final(self).nodes@[i]).children@ == if gone.parent == Some(i as usize) {
                            without(n0[i].children@, id)
                        } else {
                            n0[i].children@
                        }
                        &&& final(self).nodes@[i].next_sibling == if gone.previous_sibling == Some(i as usize) {
                            gone.next_sibling
                        } else {
                            n0[i].next_sibling
                        }
                        &&& final(self).nodes@[i].previous_sibling == if gone.next_sibling == Some(i as usize) {
                            gone.previous_sibling
                        } else {
                            n0[i].previous_sibling
                        }
                    }
                &&& final(self).focused == released(n0, old(self).focused, id as int)
                &&& final(self).hovered == released(n0, old(self).hovered, id as int)
                &&& final(self).pressed == released(n0, old(self).pressed, id as int)
                &&& final(self).capture == released(n0, old(self).capture, id as int)
                &&& final(self).root == if old(self).root == Some(id) {
                    None
                } else {
                    old(self).root
                }
                &&& final(self).css_dirty
                &&& !final(self).layout_ready
            },
    {
        if !self.live(id) {
            return false;
        }
        let ghost n0 = self.nodes@;
        let len = self.nodes.len();
        let mut gone: Vec<bool> = Vec::new();
        let mut i: usize = 0;
        while i < len
            invariant
                len == self.nodes@.len(),
                self.nodes@ == n0,
                0 <= i <= len,
                gone@.len() == i,
                forall|k: int| 0 <= k < i ==> #[trigger] gone@[k] == in_subtree(n0, k, id as int),
            decreases len - i,
        {
            let g = self.is_descendant_or_self(i, id);
            gone.push(g);
            i += 1;
        }
        let parent = self.nodes[id].parent;
        let prev = self.nodes[id].previous_sibling;
        let next = self.nodes[id].next_sibling;
        if let Some(pv) = prev {
            if pv < len {
                self.nodes[pv].next_sibling = next;
            }
        }
        if let Some(nx) = next {
            if nx < len {
                self.nodes[nx].previous_sibling = prev;
            }
        }
        if let Some(p) = parent {
            let kept = remove_value(&self.nodes[p].children, id);
            self.nodes[p].children = kept;
        }
        let ghost n1 = self.nodes@;
        proof {
            assert forall|k: int| 0 <= k < len implies {
                &&& (#[trigger] n1[k]).parent == n0[k].parent
                &&& n1[k].live == n0[k].live
                &&& n1[k].next_sibling == if prev == Some(k as usize) { next } else { n0[k].next_sibling }
                &&& n1[k].previous_sibling == if next == Some(k as usize) { prev } else { n0[k].previous_sibling }
                &&& n1[k].children@ == if parent == Some(k as usize) { without(n0[k].children@, id) } else { n0[k].children@ }
            } by {}
        }
        let mut j: usize = 0;
        while j < len
            invariant
                len == self.nodes@.len(),
                n1.len() == len,
                0 <= j <= len,
                gone@.len() == len,
                forall|k: int| 0 <= k < len ==> #[trigger] gone@[k] == in_subtree(n0, k, id as int),
                forall|k: int| 0 <= k < len ==> (#[trigger] self.nodes@[k]).parent == n1[k].parent
                    && self.nodes@[k].children == n1[k].children && self.nodes@[k].next_sibling == n1[k].next_sibling
                    && self.nodes@[k].previous_sibling == n1[k].previous_sibling,
                self.focused == old(self).focused,
                self.hovered == old(self).hovered,
                self.pressed == old(self).pressed,
                self.capture == old(self).capture,
                self.root == old(self).root,
                forall|k: int| 0 <= k < len ==> (#[trigger] self.nodes@[k]).live == if k < j {
                    n1[k].live && !gone@[k]
                } else {
                    n1[k].live
                },
            decreases len - j,
        {
            if gone[j] {
                self.nodes[j].live = false;
            }
            j += 1;
        }
        let f = self.focused;
        self.focused = match f {
            Some(x) => if self.is_descendant_or_self(x, id) { None } else { f },
            None => None,
        };
        let h = self.hovered;
        self.hovered = match h {
            Some(x) => if self.is_descendant_or_self(x, id) { None } else { h },
            None => None,
        };
        let pr = self.pressed;
        self.pressed = match pr {
            Some(x) => if self.is_descendant_or_self(x, id) { None } else { pr },
            None => None,
        };
        let c = self.capture;
        self.capture = match c {
            Some(x) => if self.is_descendant_or_self(x, id) { None } else { c },
            None => None,
        };
        if self.root == Some(id) {
            self.root = None;
        }
        self.css_dirty = true;
        self.layout_ready = false;
        proof {
            let nf = self.nodes@;
            assert forall|k: int| 0 <= k < len implies (#[trigger] nf[k]).parent == n0[k].parent by {}
            assert forall|x: int| #[trigger] in_subtree(nf, x, id as int) == in_subtree(n0, x, id as int) by {
                lemma_subtree_parents(nf, n0, x, id as int);
            }
            assert forall|k: int|
                0 <= k < len && (#[trigger] nf[k]).live implies (nf[k].parent matches Some(p) ==> nf[p as int].live) by {
                if let Some(p) = nf[k].parent {
                    assert(n0[k].live);
                    assert(n0[p as int].live);
                    if in_subtree(n0, p as int, id as int) {
                        assert(k != id);
                        assert(in_subtree(n0, k, id as int));
                    }
                }
            }
            if let Some(r) = old(self).root {
                if r != id {
                    assert(!in_subtree(n0, r as int, id as int));
                }
            }
            assert(nf.len() == n0.len());
            assert forall|k: int| 0 <= k < len implies (#[trigger] nf[k]).live == (n0[k].live && !in_subtree(n0, k, id as int)) by {
                assert(gone@[k] == in_subtree(n0, k, id as int));
            }
            assert(holds_live(nf, self.focused));
            assert(holds_live(nf, self.hovered));
            assert(holds_live(nf, self.pressed));
            assert(holds_live(nf, self.capture));
            assert(self.root matches Some(r) ==> live_in(nf, r as int) && nf[r as int].parent is None);
            assert(self.focused == released(n0, old(self).focused, id as int));
        }
        true
    }
}

} // verus!
