//! The mathematical model of a path tree: what inserting a path does and
//! which lines a tree renders to.
use vstd::prelude::*;
use crate::prefix::prefix_of;

verus! {

/// A node of the model: a directory with its children in name order, or a
/// file with its own name.
pub enum Node {
    Dir(Seq<(Seq<char>, Node)>),
    File(Seq<char>),
}

/// Whether `a[i..]` comes strictly before `b[i..]` in lexicographic order of
/// code points (which is also the byte order of their UTF-8 encodings).
pub open spec fn name_lt_from(a: Seq<char>, b: Seq<char>, i: int) -> bool
    decreases a.len() - i,
{
    if i < 0 || i >= b.len() {
        false
    } else if i >= a.len() {
        true
    } else if a[i] != b[i] {
        (a[i] as int) < (b[i] as int)
    } else {
        name_lt_from(a, b, i + 1)
    }
}

/// Whether name `a` sorts strictly before name `b`.
pub open spec fn name_lt(a: Seq<char>, b: Seq<char>) -> bool {
    name_lt_from(a, b, 0)
}

/// Index of the first entry of `cs`, from `i` on, whose name does not sort
/// before `name`: where `name` is found or goes.
pub open spec fn scan_pos(cs: Seq<(Seq<char>, Node)>, name: Seq<char>, i: int) -> int
    decreases cs.len() - i,
{
    if i < 0 || i >= cs.len() || !name_lt(cs[i].0, name) {
        i
    } else {
        scan_pos(cs, name, i + 1)
    }
}

/// The children of a node; a file has none.
pub open spec fn children_of(n: Node) -> Seq<(Seq<char>, Node)> {
    match n {
        Node::Dir(cs) => cs,
        Node::File(_) => Seq::empty(),
    }
}

/// The node after inserting the path `segs` below it. An existing child is
/// descended into; a missing one is created, as a file when it is the leaf
/// and `is_dir` is false, else as a directory. A node that gains a child is a
/// directory from then on.
pub open spec fn insert_path(n: Node, segs: Seq<Seq<char>>, is_dir: bool) -> Node
    decreases segs.len(),
{
    if segs.len() == 0 {
        n
    } else {
        let cs = children_of(n);
        let name = segs[0];
        let rest = segs.drop_first();
        let p = scan_pos(cs, name, 0);
        if 0 <= p < cs.len() && cs[p].0 == name {
            Node::Dir(cs.update(p, (name, insert_path(cs[p].1, rest, is_dir))))
        } else if rest.len() == 0 && !is_dir {
            Node::Dir(cs.insert(p, (name, Node::File(name))))
        } else {
            Node::Dir(cs.insert(p, (name, insert_path(Node::Dir(Seq::empty()), rest, is_dir))))
        }
    }
}

/// The lines of a run of siblings `cs`, all at depth `is_last.len() + 1`:
/// each sibling's own line, followed, for a directory, by the lines of its
/// children, in pre-order.
pub open spec fn render_forest(cs: Seq<(Seq<char>, Node)>, is_last: Seq<bool>) -> Seq<Seq<char>>
    decreases cs,
{
    if cs.len() == 0 {
        Seq::empty()
    } else {
        let flags = is_last.push(cs.len() == 1);
        let below = match cs[0].1 {
            Node::Dir(sub) => render_forest(sub, flags),
            Node::File(_) => Seq::empty(),
        };
        seq![prefix_of(flags) + cs[0].0] + below + render_forest(cs.drop_first(), is_last)
    }
}

/// The lines of a whole tree. The root itself gives no line.
pub open spec fn render_tree(n: Node) -> Seq<Seq<char>> {
    render_forest(children_of(n), Seq::empty())
}

/// Whether the names of `cs` strictly increase, so that each is unique.
pub open spec fn sorted_names(cs: Seq<(Seq<char>, Node)>) -> bool {
    forall|i: int, j: int| 0 <= i < j < cs.len() ==> name_lt(#[trigger] cs[i].0, #[trigger] cs[j].0)
}

/// Whether a child entry is consistent: a file holds the name it is keyed by.
pub open spec fn entry_ok(e: (Seq<char>, Node)) -> bool {
    match e.1 {
        Node::File(f) => f == e.0,
        Node::Dir(_) => true,
    }
}

/// Whether every directory in `n` keeps its children sorted by unique names
/// and every file entry is keyed by its own name.
pub open spec fn well_formed(n: Node) -> bool
    decreases n,
{
    match n {
        Node::File(_) => true,
        Node::Dir(cs) => {
            &&& sorted_names(cs)
            &&& forall|i: int| 0 <= i < cs.len() ==> entry_ok(#[trigger] cs[i])
            &&& forall|i: int| 0 <= i < cs.len() ==> well_formed(#[trigger] cs[i].1)
        },
    }
}

/// No name sorts before itself.
pub proof fn lemma_name_lt_irreflexive(a: Seq<char>, i: int)
    requires
        0 <= i,
    ensures
        !name_lt_from(a, a, i),
    decreases a.len() - i,
{
    if i < a.len() {
        lemma_name_lt_irreflexive(a, i + 1);
    }
}

/// Of two distinct names, one sorts before the other.
pub proof fn lemma_name_lt_total(a: Seq<char>, b: Seq<char>, i: int)
    requires
        0 <= i <= a.len(),
        i <= b.len(),
        a.subrange(i, a.len() as int) != b.subrange(i, b.len() as int),
    ensures
        name_lt_from(a, b, i) || name_lt_from(b, a, i),
    decreases a.len() - i,
{
    if i < a.len() && i < b.len() && a[i] == b[i] {
        if a.subrange(i + 1, a.len() as int) == b.subrange(i + 1, b.len() as int) {
            assert(a.subrange(i, a.len() as int) =~= seq![a[i]] + a.subrange(i + 1, a.len() as int));
            assert(b.subrange(i, b.len() as int) =~= seq![b[i]] + b.subrange(i + 1, b.len() as int));
        }
        lemma_name_lt_total(a, b, i + 1);
    } else if i < a.len() && i < b.len() {
        assert((a[i] as int) != (b[i] as int));
    } else if i >= a.len() && i >= b.len() {
        assert(a.subrange(i, a.len() as int) =~= b.subrange(i, b.len() as int));
    }
}

/// The order on names is transitive.
pub proof fn lemma_name_lt_transitive(a: Seq<char>, b: Seq<char>, c: Seq<char>, i: int)
    requires
        0 <= i,
        name_lt_from(a, b, i),
        name_lt_from(b, c, i),
    ensures
        name_lt_from(a, c, i),
    decreases a.len() - i,
{
    if i < a.len() && a[i] == b[i] && b[i] == c[i] {
        lemma_name_lt_transitive(a, b, c, i + 1);
    }
}

/// What the scan for `name` from `i` finds: every entry it passes sorts
/// before `name`, and the entry it stops at, if any, does not.
pub proof fn lemma_scan_pos(cs: Seq<(Seq<char>, Node)>, name: Seq<char>, i: int)
    requires
        0 <= i <= cs.len(),
    ensures
        i <= scan_pos(cs, name, i) <= cs.len(),
        forall|j: int| i <= j < scan_pos(cs, name, i) ==> name_lt(#[trigger] cs[j].0, name),
        scan_pos(cs, name, i) < cs.len() ==> !name_lt(cs[scan_pos(cs, name, i)].0, name),
    decreases cs.len() - i,
{
    if i < cs.len() && name_lt(cs[i].0, name) {
        lemma_scan_pos(cs, name, i + 1);
    }
}

/// A node that is given a nonempty path is a directory afterwards.
pub proof fn lemma_insert_is_dir(n: Node, segs: Seq<Seq<char>>, is_dir: bool)
    requires
        segs.len() > 0,
    ensures
        insert_path(n, segs, is_dir) is Dir,
{
}

/// Inserting a path keeps a tree well formed.
pub proof fn lemma_insert_well_formed(n: Node, segs: Seq<Seq<char>>, is_dir: bool)
    requires
        well_formed(n),
    ensures
        well_formed(insert_path(n, segs, is_dir)),
    decreases segs.len(),
{
    if segs.len() > 0 {
        let cs = children_of(n);
        let name = segs[0];
        let rest = segs.drop_first();
        lemma_scan_pos(cs, name, 0);
        let p = scan_pos(cs, name, 0);
        assert(well_formed(Node::Dir(cs)));
        if 0 <= p < cs.len() && cs[p].0 == name {
            lemma_insert_well_formed(cs[p].1, rest, is_dir);
            let ch = insert_path(cs[p].1, rest, is_dir);
            if rest.len() > 0 {
                lemma_insert_is_dir(cs[p].1, rest, is_dir);
            }
            let ncs = cs.update(p, (name, ch));
            assert(entry_ok(ncs[p]));
            assert(forall|i: int| 0 <= i < ncs.len() ==> well_formed(#[trigger] ncs[i].1));
            assert(forall|i: int| 0 <= i < ncs.len() ==> entry_ok(#[trigger] ncs[i]));
            assert(sorted_names(ncs));
        } else {
            let ch = if rest.len() == 0 && !is_dir {
                Node::File(name)
            } else {
                assert(well_formed(Node::Dir(Seq::empty())));
                lemma_insert_well_formed(Node::Dir(Seq::empty()), rest, is_dir);
                insert_path(Node::Dir(Seq::empty()), rest, is_dir)
            };
            if rest.len() > 0 {
                lemma_insert_is_dir(Node::Dir(Seq::empty()), rest, is_dir);
            }
            let ncs = cs.insert(p, (name, ch));
            if p < cs.len() {
                assert(cs[p].0.subrange(0, cs[p].0.len() as int) =~= cs[p].0);
                assert(name.subrange(0, name.len() as int) =~= name);
                lemma_name_lt_total(cs[p].0, name, 0);
                assert(name_lt(name, cs[p].0));
                assert forall|j: int| p < j < cs.len() implies name_lt(name, #[trigger] cs[j].0) by {
                    lemma_name_lt_transitive(name, cs[p].0, cs[j].0, 0);
                }
            }
            assert forall|i: int, j: int| 0 <= i < j < ncs.len() implies name_lt(
                #[trigger] ncs[i].0,
                #[trigger] ncs[j].0,
            ) by {
                if j == p {
                    assert(name_lt(cs[i].0, name));
                } else if i == p {
                    assert(name_lt(name, cs[j - 1].0));
                } else if i > p {
                    assert(name_lt(cs[i - 1].0, cs[j - 1].0));
                } else if j > p {
                    assert(name_lt(cs[i].0, cs[j - 1].0));
                } else {
                    assert(name_lt(cs[i].0, cs[j].0));
                }
            }
            assert(forall|i: int| 0 <= i < ncs.len() ==> well_formed(#[trigger] ncs[i].1));
            assert(forall|i: int| 0 <= i < ncs.len() ==> entry_ok(#[trigger] ncs[i]));
        }
    }
}

} // verus!
