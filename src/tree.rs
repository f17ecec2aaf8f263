//! The path tree: built by inserting paths, rendered to lines.
use vstd::prelude::*;
use crate::model::{
    Node, name_lt, name_lt_from, scan_pos, children_of, insert_path, render_forest, render_tree,
    well_formed, lemma_insert_well_formed,
};
use crate::prefix::line_prefix;

verus! {

/// A node of the tree: a directory whose children are kept in name order,
/// or a file holding its own name.
pub enum Tree {
    Dir(Vec<(String, Tree)>),
    File(String),
}

/// The model of a tree.
pub open spec fn tree_view(t: Tree) -> Node
    decreases t,
{
    match t {
        Tree::Dir(v) => Node::Dir(
            Seq::new(
                v@.len(),
                |i: int|
                    if 0 <= i < v@.len() {
                        proof {
                            broadcast use vstd::std_specs::vec::axiom_vec_decreases_to_view;
                            broadcast use vstd::seq::axiom_seq_index_decreases;
                        }
                        (v@[i].0@, tree_view(v@[i].1))
                    } else {
                        (Seq::empty(), Node::File(Seq::empty()))
                    },
            ),
        ),
        Tree::File(s) => Node::File(s@),
    }
}

/// The model of a run of children.
pub open spec fn children_view(v: Seq<(String, Tree)>) -> Seq<(Seq<char>, Node)> {
    Seq::new(v.len(), |i: int| (v[i].0@, tree_view(v[i].1)))
}

/// The model of a directory is the model of its children.
pub proof fn lemma_dir_view(v: Vec<(String, Tree)>)
    ensures
        tree_view(Tree::Dir(v)) == Node::Dir(children_view(v@)),
{
    if let Node::Dir(cs) = tree_view(Tree::Dir(v)) {
        assert(cs =~= children_view(v@));
    }
}

impl View for Tree {
    type V = Node;

    open spec fn view(&self) -> Node {
        tree_view(*self)
    }
}

/// The model of a list of names.
pub open spec fn names_view(v: Seq<String>) -> Seq<Seq<char>> {
    v.map_values(|s: String| s@)
}

/// Whether name `a` sorts strictly before name `b`.
pub fn name_less(a: &String, b: &String) -> (r: bool)
    ensures
        r == name_lt(a@, b@),
{
    let a_len = a.as_str().unicode_len();
    let b_len = b.as_str().unicode_len();
    let mut i: usize = 0;
    while i < a_len && i < b_len
        invariant
            a_len == a@.len(),
            b_len == b@.len(),
            i <= a_len,
            i <= b_len,
            name_lt_from(a@, b@, i as int) == name_lt_from(a@, b@, 0),
        decreases a_len - i,
    {
        let ca = a.as_str().get_char(i);
        let cb = b.as_str().get_char(i);
        if ca != cb {
            return (ca as u32) < (cb as u32);
        }
        i = i + 1;
    }
    i < b_len
}

impl Tree {
    /// Whether every directory of the tree keeps its children sorted by
    /// unique names and every file is keyed by its own name.
    pub open spec fn wf(&self) -> bool {
        well_formed(self@)
    }

    /// An empty directory, the root of a fresh tree.
    pub fn new() -> (t: Tree)
        ensures
            t@ == Node::Dir(Seq::empty()),
            t.wf(),
    {
        let v: Vec<(String, Tree)> = Vec::new();
        proof {
            lemma_dir_view(v);
            assert(children_view(v@) =~= Seq::empty());
        }
        Tree::Dir(v)
    }

    /// Inserts the path `segments`, root-most segment first. `is_directory`
    /// classifies the last segment only: the others have children and are
    /// directories. An existing node is reused, so a path is never entered
    /// twice; a file that gains a child becomes a directory. An empty path
    /// changes nothing.
    pub fn insert(&mut self, segments: &[String], is_directory: bool)
        ensures
            final(self)@ == insert_path(old(self)@, names_view(segments@), is_directory),
            old(self).wf() ==> final(self).wf(),
    {
        proof {
            if old(self).wf() {
                lemma_insert_well_formed(old(self)@, names_view(segments@), is_directory);
            }
        }
        self.insert_from(segments, 0, is_directory);
        assert(names_view(segments@).subrange(0, segments@.len() as int) =~= names_view(
            segments@,
        ));
    }

    /// Inserts the path `segments[start..]`.
    fn insert_from(&mut self, segments: &[String], start: usize, is_directory: bool)
        requires
            start <= segments@.len(),
        ensures
            final(self)@ == insert_path(
                old(self)@,
                names_view(segments@).subrange(start as int, segments@.len() as int),
                is_directory,
            ),
        decreases segments@.len() - start,
    {
        let ghost segs = names_view(segments@).subrange(start as int, segments@.len() as int);
        if start >= segments.len() {
            return;
        }
        let mut node = Tree::new();
        std::mem::swap(self, &mut node);
        let ghost old_node = node;
        let mut children = match node {
            Tree::Dir(c) => c,
            // A file that is descended through becomes a directory.
            Tree::File(_) => Vec::new(),
        };
        let ghost cv = children_view(children@);
        proof {
            if let Tree::Dir(c) = old_node {
                lemma_dir_view(c);
            } else {
                assert(cv =~= Seq::empty());
            }
            assert(cv == children_of(tree_view(old_node)));
            assert(segs[0] == segments@[start as int]@);
            assert(segs.drop_first() =~= names_view(segments@).subrange(
                start + 1,
                segments@.len() as int,
            ));
        }
        let name = &segments[start];
        let mut i: usize = 0;
        while i < children.len() && name_less(&children[i].0, name)
            invariant
                i <= children@.len(),
                cv == children_view(children@),
                scan_pos(cv, name@, i as int) == scan_pos(cv, name@, 0),
            decreases children@.len() - i,
        {
            i = i + 1;
        }
        if i < children.len() && children[i].0 == *name {
            let mut entry = children.remove(i);
            entry.1.insert_from(segments, start + 1, is_directory);
            children.insert(i, entry);
        } else if start + 1 == segments.len() && !is_directory {
            children.insert(i, (name.clone(), Tree::File(name.clone())));
        } else {
            let mut sub = Tree::new();
            sub.insert_from(segments, start + 1, is_directory);
            children.insert(i, (name.clone(), sub));
        }
        proof {
            lemma_dir_view(children);
            assert(children_view(children@) =~= children_of(insert_path(tree_view(old_node), segs, is_directory)));
        }
        *self = Tree::Dir(children);
    }

    /// The rendered lines of the tree: one per node below the root, in
    /// pre-order, siblings in name order, each its glyph prefix followed by
    /// its name. The root itself gives no line.
    pub fn render(&self) -> (lines: Vec<String>)
        ensures
            names_view(lines@) == render_tree(self@),
    {
        let mut out: Vec<String> = Vec::new();
        let mut is_last: Vec<bool> = Vec::new();
        match self {
            Tree::Dir(children) => {
                proof {
                    lemma_dir_view(*children);
                }
                render_children(children, &mut is_last, &mut out);
                assert(names_view(out@) =~= render_tree(self@));
            },
            Tree::File(_) => {
                assert(names_view(out@) =~= render_tree(self@));
            },
        }
        out
    }
}

/// Appends to `out` the lines of the siblings `children`, whose ancestors'
/// last-sibling flags are `is_last`; leaves `is_last` as it found it.
fn render_children(children: &Vec<(String, Tree)>, is_last: &mut Vec<bool>, out: &mut Vec<String>)
    ensures
        final(is_last)@ == old(is_last)@,
        names_view(final(out)@) == names_view(old(out)@) + render_forest(
            children_view(children@),
            old(is_last)@,
        ),
    decreases children,
{
    let ghost flags = is_last@;
    let ghost start = names_view(out@);
    let ghost cv = children_view(children@);
    let n = children.len();
    let mut i: usize = 0;
    assert(cv.subrange(0, n as int) =~= cv);
    while i < n
        invariant
            n == children@.len(),
            cv == children_view(children@),
            i <= n,
            is_last@ == flags,
            names_view(out@) + render_forest(cv.subrange(i as int, n as int), flags) == start
                + render_forest(cv, flags),
        decreases n - i,
    {
        let ghost before = names_view(out@);
        let ghost rest = cv.subrange(i as int, n as int);
        assert(rest.drop_first() =~= cv.subrange(i + 1, n as int));
        assert(rest[0] == cv[i as int]);
        is_last.push(i + 1 == n);
        let mut line = line_prefix(is_last.as_slice());
        line.append(children[i].0.as_str());
        let ghost own = line@;
        out.push(line);
        assert(names_view(out@) =~= before.push(own));
        match &children[i].1 {
            Tree::Dir(sub) => {
                proof {
                    lemma_dir_view(*sub);
                    broadcast use vstd::std_specs::vec::axiom_vec_decreases_to_view;
                    broadcast use vstd::seq::axiom_seq_index_decreases;
                    assert(decreases_to!(children@ => children@[i as int]));
                }
                render_children(sub, is_last, out);
            },
            Tree::File(_) => {},
        }
        let ghost below = names_view(out@).subrange(before.len() + 1int, names_view(out@).len() as int);
        assert(names_view(out@) =~= before + seq![own] + below);
        assert(below =~= match cv[i as int].1 {
            Node::Dir(sub) => render_forest(sub, flags.push(i + 1 == n)),
            Node::File(_) => Seq::empty(),
        });
        is_last.pop();
        assert(is_last@ =~= flags);
        i = i + 1;
        assert(names_view(out@) + render_forest(cv.subrange(i as int, n as int), flags)
            =~= before + render_forest(rest, flags));
    }
    assert(cv.subrange(n as int, n as int) =~= Seq::<(Seq<char>, Node)>::empty());
    assert(names_view(out@) + render_forest(Seq::<(Seq<char>, Node)>::empty(), flags) =~= names_view(out@));
}

} // verus!
