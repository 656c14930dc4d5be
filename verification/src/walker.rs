use vstd::prelude::*;
use crate::tree::{
    after_path, count, entry_of, lemma_preorder_len, lemma_remaining_at_root,
    lemma_remaining_first, lemma_step_descend, lemma_step_leaf, lemma_step_pop,
    lemma_step_sibling, node_at, preorder, remaining, valid_path, Cursor, Entry, EntryModel, Node,
};

verus! {

/// Depth-annotated pre-order tree walker.
///
/// Wraps a cursor positioned at the tree root and hands out one
/// `(node data, depth)` record per call of `next`, in pre-order: a node
/// before any of its descendants, siblings left to right, the root first at
/// depth zero. `entries()` is the sequence of records still to come; a fresh
/// walker's `entries()` is the whole pre-order sequence of the tree.
pub struct TreeCursorWalker<'a> {
    cursor: Cursor<'a>,
    depth: usize,
    first: bool,
    done: bool,
}

impl<'a> TreeCursorWalker<'a> {
    /// The tree being walked.
    pub closed spec fn root_spec(&self) -> Node {
        self.cursor.root_spec()
    }

    /// Internal consistency: the cursor stands on a real position, the
    /// reported depth is the length of the cursor's path, and a walker that
    /// has not yielded yet stands at the root.
    pub closed spec fn wf(&self) -> bool {
        &&& self.cursor.wf()
        &&& self.depth == self.cursor.path_model().len()
        &&& (self.first ==> self.cursor.path_model().len() == 0 && !self.done)
    }

    /// The visit records the walker has still to yield.
    pub closed spec fn entries(&self) -> Seq<EntryModel> {
        if self.done {
            Seq::empty()
        } else if self.first {
            remaining(self.root_spec(), Seq::empty())
        } else {
            remaining(self.root_spec(), self.cursor.path_model()).drop_first()
        }
    }

    /// A fresh walker over the cursor's tree. The cursor must stand at the
    /// root; everything is still to be yielded.
    pub fn new(cursor: Cursor<'a>) -> (r: TreeCursorWalker<'a>)
        requires
            cursor.wf(),
            cursor.path_model() == Seq::<int>::empty(),
        ensures
            r.wf(),
            r.root_spec() == cursor.root_spec(),
            r.entries() == preorder(cursor.root_spec(), 0),
    {
        let r = TreeCursorWalker { cursor, depth: 0, first: true, done: false };
        proof {
            lemma_remaining_at_root(r.root_spec());
        }
        r
    }

    /// The visit record of the node the cursor stands on.
    fn make_entry(&self) -> (e: Entry)
        requires
            self.cursor.wf(),
            self.depth == self.cursor.path_model().len(),
        ensures
            e@ == entry_of(
                node_at(self.root_spec(), self.cursor.path_model()),
                self.cursor.path_model().len() as nat,
            ),
    {
        let n = self.cursor.node();
        Entry { kind: n.kind.clone(), is_named: n.is_named, text: n.text.clone(), depth: self.depth }
    }

    /// Yield the next visit record, or signal that the traversal is over.
    ///
    /// Each yielded record is the front of `entries()`, and the yielded
    /// `depth` is the true ancestor distance of the visited node from the
    /// root, the depth its record carries in the pre-order sequence.
    pub fn next(&mut self) -> (r: Option<Entry>)
        requires
            old(self).wf(),
        ensures
            final(self).wf(),
            final(self).root_spec() == old(self).root_spec(),
            match r {
                Option::Some(e) => old(self).entries().len() > 0 && e@ == old(self).entries()[0]
                    && final(self).entries() == old(self).entries().drop_first() && (exists|
                    p: Seq<int>,
                |
                    valid_path(old(self).root_spec(), p) && e@ == entry_of(
                        node_at(old(self).root_spec(), p),
                        p.len() as nat,
                    )),
                Option::None => old(self).entries().len() == 0 && final(self).entries()
                    == Seq::<EntryModel>::empty(),
            },
    {
        let ghost root = self.root_spec();
        if self.done {
            return None;
        }
        if self.first {
            self.first = false;
            let e = self.make_entry();
            proof {
                lemma_remaining_first(root, Seq::<int>::empty());
                assert(old(self).entries() == remaining(root, Seq::<int>::empty()));
            }
            proof {
                let pw = self.cursor.path_model();
                assert(valid_path(root, pw) && e@ == entry_of(
                    node_at(root, pw),
                    pw.len() as nat,
                ));
            }
            return Some(e);
        }
        let ghost p0 = self.cursor.path_model();
        proof {
            lemma_remaining_first(root, p0);
        }
        if self.cursor.goto_first_child() {
            proof {
                lemma_step_descend(root, p0);
                lemma_remaining_first(root, self.cursor.path_model());
            }
            self.depth = self.cursor.depth();
            let e = self.make_entry();
            proof {
                let pw = self.cursor.path_model();
                assert(valid_path(root, pw) && e@ == entry_of(
                    node_at(root, pw),
                    pw.len() as nat,
                ));
            }
            return Some(e);
        }
        proof {
            lemma_step_leaf(root, p0);
        }
        loop
            invariant
                !self.first,
                !self.done,
                self.cursor.wf(),
                self.cursor.root_spec() == root,
                root == old(self).root_spec(),
                self.depth == self.cursor.path_model().len(),
                old(self).entries() == remaining(root, p0).drop_first(),
                after_path(root, self.cursor.path_model()) == old(self).entries(),
            decreases self.cursor.path_model().len(),
        {
            let ghost p = self.cursor.path_model();
            if self.cursor.goto_next_sibling() {
                proof {
                    lemma_step_sibling(root, p);
                    lemma_remaining_first(root, self.cursor.path_model());
                }
                self.depth = self.cursor.depth();
                let e = self.make_entry();
                proof {
                    let pw = self.cursor.path_model();
                    assert(valid_path(root, pw) && e@ == entry_of(
                        node_at(root, pw),
                        pw.len() as nat,
                    ));
                }
                return Some(e);
            }
            if !self.cursor.goto_parent() {
                self.done = true;
                return None;
            }
            proof {
                lemma_step_pop(root, p);
            }
            self.depth = self.cursor.depth();
        }
    }
}

/// Walk the whole tree and collect every visit record, in pre-order.
///
/// A tree of N nodes gives exactly N records, each node once, the root first
/// at depth zero, every node before its descendants.
pub fn walk_tree(root: &Node) -> (out: Vec<Entry>)
    ensures
        out@.map_values(|e: Entry| e@) == preorder(*root, 0),
        out@.len() == count(*root),
{
    let cursor = Cursor::new(root);
    let mut walker = TreeCursorWalker::new(cursor);
    let mut out: Vec<Entry> = Vec::new();
    proof {
        assert(out@.map_values(|e: Entry| e@) + walker.entries() =~= preorder(*root, 0));
    }
    loop
        invariant
            walker.wf(),
            walker.root_spec() == *root,
            out@.map_values(|e: Entry| e@) + walker.entries() == preorder(*root, 0),
        decreases walker.entries().len(),
    {
        let ghost seen = out@.map_values(|e: Entry| e@);
        let ghost pending = walker.entries();
        match walker.next() {
            Some(e) => {
                out.push(e);
                proof {
                    assert(out@.map_values(|x: Entry| x@) =~= seen.push(e@));
                    assert(seen.push(e@) + walker.entries() =~= seen + pending);
                }
            },
            None => {
                proof {
                    assert(seen + pending =~= seen);
                    lemma_preorder_len(*root, 0);
                }
                return out;
            },
        }
    }
}

} // verus!
