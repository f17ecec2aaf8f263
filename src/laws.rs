//! Laws that relate several insertions and renderings.
use vstd::prelude::*;
use crate::model::{
    Node, name_lt, scan_pos, children_of, insert_path, render_tree, render_forest, well_formed,
    sorted_names, lemma_name_lt_irreflexive, lemma_name_lt_transitive, lemma_scan_pos,
    lemma_insert_well_formed,
};

verus! {

/// The scan for `name` from `i` stops at `q` when every entry before `q`
/// sorts before `name` and the entry at `q`, if any, does not.
pub proof fn lemma_scan_pos_at(cs: Seq<(Seq<char>, Node)>, name: Seq<char>, i: int, q: int)
    requires
        0 <= i <= q <= cs.len(),
        forall|j: int| i <= j < q ==> name_lt(#[trigger] cs[j].0, name),
        q < cs.len() ==> !name_lt(cs[q].0, name),
    ensures
        scan_pos(cs, name, i) == q,
    decreases q - i,
{
    if i < q {
        lemma_scan_pos_at(cs, name, i + 1, q);
    }
}

/// Inserting a path a second time, with the same flag, changes nothing: the
/// tree, and so its rendering, is the one that the first insertion gave.
pub proof fn lemma_insert_idempotent(n: Node, segs: Seq<Seq<char>>, is_dir: bool)
    ensures
        insert_path(insert_path(n, segs, is_dir), segs, is_dir) == insert_path(n, segs, is_dir),
        render_tree(insert_path(insert_path(n, segs, is_dir), segs, is_dir)) == render_tree(
            insert_path(n, segs, is_dir),
        ),
    decreases segs.len(),
{
    if segs.len() > 0 {
        let cs = children_of(n);
        let name = segs[0];
        let rest = segs.drop_first();
        lemma_scan_pos(cs, name, 0);
        let p = scan_pos(cs, name, 0);
        let once = insert_path(n, segs, is_dir);
        let ncs = children_of(once);
        assert(ncs.len() > p);
        assert(ncs[p].0 == name);
        assert forall|j: int| 0 <= j < p implies name_lt(#[trigger] ncs[j].0, name) by {
            assert(ncs[j].0 == cs[j].0);
        }
        lemma_name_lt_irreflexive(name, 0);
        lemma_scan_pos_at(ncs, name, 0, p);
        if 0 <= p < cs.len() && cs[p].0 == name {
            lemma_insert_idempotent(cs[p].1, rest, is_dir);
            assert(ncs.update(p, (name, insert_path(ncs[p].1, rest, is_dir))) =~= ncs);
        } else if rest.len() == 0 && !is_dir {
            assert(ncs =~= cs.insert(p, (name, Node::File(name))));
            assert(ncs[p].1 == Node::File(name));
            assert(insert_path(ncs[p].1, rest, is_dir) == ncs[p].1);
            assert(ncs.update(p, (name, insert_path(ncs[p].1, rest, is_dir))) =~= ncs);
        } else {
            lemma_insert_idempotent(Node::Dir(Seq::empty()), rest, is_dir);
            assert(ncs.update(p, (name, insert_path(ncs[p].1, rest, is_dir))) =~= ncs);
        }
    }
}

/// A tree into which nothing was inserted renders to no line at all.
pub proof fn lemma_empty_renders_nothing()
    ensures
        render_tree(Node::Dir(Seq::empty())).len() == 0,
{
}

/// Whether the run of siblings `cs` holds the nonempty path `p`: some
/// sibling is named `p[0]` and, below it, holds the rest of `p`.
pub open spec fn forest_has(cs: Seq<(Seq<char>, Node)>, p: Seq<Seq<char>>) -> bool
    decreases p.len(),
{
    p.len() > 0 && exists|j: int|
        0 <= j < cs.len() && #[trigger] cs[j].0 == p[0] && (p.len() == 1 || forest_has(
            children_of(cs[j].1),
            p.drop_first(),
        ))
}

/// Whether `p` is a nonempty leading part of `segs`.
pub open spec fn is_path_prefix(p: Seq<Seq<char>>, segs: Seq<Seq<char>>) -> bool {
    0 < p.len() <= segs.len() && p == segs.subrange(0, p.len() as int)
}

/// After inserting `segs`, a tree holds exactly the paths it held before and
/// the nonempty leading parts of `segs`.
pub proof fn lemma_insert_paths(n: Node, segs: Seq<Seq<char>>, is_dir: bool, p: Seq<Seq<char>>)
    ensures
        forest_has(children_of(insert_path(n, segs, is_dir)), p) == (forest_has(children_of(n), p)
            || is_path_prefix(p, segs)),
    decreases segs.len(),
{
    if segs.len() == 0 || p.len() == 0 {
        return;
    }
    let cs = children_of(n);
    let name = segs[0];
    let rest = segs.drop_first();
    lemma_scan_pos(cs, name, 0);
    let pos = scan_pos(cs, name, 0);
    let found = 0 <= pos < cs.len() && cs[pos].0 == name;
    let ncs = children_of(insert_path(n, segs, is_dir));
    let q = p.drop_first();
    let c_old = if found {
        cs[pos].1
    } else {
        Node::Dir(Seq::empty())
    };
    if found || !(rest.len() == 0 && !is_dir) {
        lemma_insert_paths(c_old, rest, is_dir, q);
    }
    // The entry for `name` now holds what it held and the rest of `segs`.
    assert(ncs[pos].0 == name);
    assert(forest_has(children_of(ncs[pos].1), q) == (forest_has(children_of(c_old), q)
        || is_path_prefix(q, rest)));
    // A leading part of `segs` is `name` followed by a leading part of `rest`.
    assert(is_path_prefix(p, segs) == (p[0] == name && (p.len() == 1 || is_path_prefix(q, rest))))
        by {
        if p.len() > 1 && p.len() <= segs.len() {
            if p == segs.subrange(0, p.len() as int) {
                assert(q =~= rest.subrange(0, q.len() as int));
            }
            if p[0] == name && q == rest.subrange(0, q.len() as int) {
                assert forall|k: int| 0 <= k < p.len() implies p[k] == segs[k] by {
                    if k > 0 {
                        assert(p[k] == q[k - 1]);
                        assert(q[k - 1] == rest[k - 1]);
                    }
                }
                assert(p =~= segs.subrange(0, p.len() as int));
            }
        }
        if p.len() == 1 && p[0] == name {
            assert(p =~= segs.subrange(0, 1));
        }
    }
    // Every other entry is carried over unchanged, only moved along.
    let other = |j: int|
        if found || j < pos {
            j
        } else {
            j - 1
        };
    assert forall|j: int| 0 <= j < ncs.len() && j != pos implies 0 <= #[trigger] other(j) < cs.len()
        && ncs[j] == cs[other(j)] && (!found || other(j) != pos) by {}
    if forest_has(ncs, p) {
        let j = choose|j: int|
            0 <= j < ncs.len() && #[trigger] ncs[j].0 == p[0] && (p.len() == 1 || forest_has(
                children_of(ncs[j].1),
                q,
            ));
        if j != pos {
            assert(cs[other(j)].0 == p[0]);
        } else if found {
            assert(cs[pos].0 == p[0]);
        }
    }
    if forest_has(cs, p) {
        let i = choose|i: int|
            0 <= i < cs.len() && #[trigger] cs[i].0 == p[0] && (p.len() == 1 || forest_has(
                children_of(cs[i].1),
                q,
            ));
        if found && i == pos {
            assert(ncs[pos].0 == p[0]);
        } else {
            let j = if found || i < pos {
                i
            } else {
                i + 1
            };
            assert(ncs[j] == cs[i]);
            assert(ncs[j].0 == p[0]);
        }
    }
    if is_path_prefix(p, segs) {
        assert(ncs[pos].0 == p[0]);
    }
}

/// A run of siblings holds the one-segment path of each sibling's name.
pub proof fn lemma_forest_has_name(cs: Seq<(Seq<char>, Node)>, j: int)
    requires
        0 <= j < cs.len(),
    ensures
        forest_has(cs, seq![cs[j].0]),
{
    assert(seq![cs[j].0][0] == cs[j].0);
}

/// In sorted siblings no name after the first equals the first.
pub proof fn lemma_first_name_unique(cs: Seq<(Seq<char>, Node)>)
    requires
        sorted_names(cs),
        cs.len() > 0,
    ensures
        forall|j: int| 0 < j < cs.len() ==> #[trigger] cs[j].0 != cs[0].0,
{
    lemma_name_lt_irreflexive(cs[0].0, 0);
}

/// The paths of a run of siblings are those through its first sibling and
/// those of the others.
pub proof fn lemma_forest_has_split(cs: Seq<(Seq<char>, Node)>, p: Seq<Seq<char>>)
    requires
        sorted_names(cs),
        cs.len() > 0,
        p.len() > 0,
    ensures
        p[0] == cs[0].0 ==> forest_has(cs, p) == (p.len() == 1 || forest_has(
            children_of(cs[0].1),
            p.drop_first(),
        )),
        p[0] == cs[0].0 ==> !forest_has(cs.drop_first(), p),
        p[0] != cs[0].0 ==> forest_has(cs, p) == forest_has(cs.drop_first(), p),
{
    lemma_first_name_unique(cs);
    let d = cs.drop_first();
    let q = p.drop_first();
    if forest_has(cs, p) {
        let j = choose|j: int|
            0 <= j < cs.len() && #[trigger] cs[j].0 == p[0] && (p.len() == 1 || forest_has(
                children_of(cs[j].1),
                q,
            ));
        if j > 0 {
            assert(d[j - 1].0 == p[0]);
        }
    }
    if forest_has(d, p) {
        let j = choose|j: int|
            0 <= j < d.len() && #[trigger] d[j].0 == p[0] && (p.len() == 1 || forest_has(
                children_of(d[j].1),
                q,
            ));
        assert(cs[j + 1].0 == p[0]);
    }
    if p[0] == cs[0].0 && (p.len() == 1 || forest_has(children_of(cs[0].1), q)) {
        assert(cs[0].0 == p[0]);
    }
}

/// A well-formed run of siblings that holds no path is empty.
pub proof fn lemma_no_paths_empty(cs: Seq<(Seq<char>, Node)>)
    requires
        forall|p: Seq<Seq<char>>| !forest_has(cs, p),
    ensures
        cs.len() == 0,
{
    if cs.len() > 0 {
        lemma_forest_has_name(cs, 0);
    }
}

/// Two well-formed runs of siblings that hold the same paths render to the
/// same lines.
pub proof fn lemma_same_paths_same_lines(
    cs1: Seq<(Seq<char>, Node)>,
    cs2: Seq<(Seq<char>, Node)>,
    flags: Seq<bool>,
)
    requires
        well_formed(Node::Dir(cs1)),
        well_formed(Node::Dir(cs2)),
        forall|p: Seq<Seq<char>>| forest_has(cs1, p) == forest_has(cs2, p),
    ensures
        render_forest(cs1, flags) == render_forest(cs2, flags),
    decreases cs1,
{
    if cs1.len() == 0 || cs2.len() == 0 {
        lemma_no_paths_empty(cs1);
        lemma_no_paths_empty(cs2);
        return;
    }
    let k1 = cs1[0].0;
    let k2 = cs2[0].0;
    lemma_forest_has_name(cs1, 0);
    lemma_forest_has_name(cs2, 0);
    if k1 != k2 {
        let p1 = seq![k1];
        let p2 = seq![k2];
        let j2 = choose|j: int| 0 <= j < cs2.len() && #[trigger] cs2[j].0 == p1[0] && (p1.len() == 1
            || forest_has(children_of(cs2[j].1), p1.drop_first()));
        let j1 = choose|j: int| 0 <= j < cs1.len() && #[trigger] cs1[j].0 == p2[0] && (p2.len() == 1
            || forest_has(children_of(cs1[j].1), p2.drop_first()));
        assert(name_lt(k2, k1));
        assert(name_lt(k1, k2));
        lemma_name_lt_transitive(k1, k2, k1, 0);
        lemma_name_lt_irreflexive(k1, 0);
    }
    let c1 = children_of(cs1[0].1);
    let c2 = children_of(cs2[0].1);
    let d1 = cs1.drop_first();
    let d2 = cs2.drop_first();
    assert forall|q: Seq<Seq<char>>| forest_has(c1, q) == forest_has(c2, q) by {
        if q.len() > 0 {
            let p = seq![k1] + q;
            assert(p.drop_first() =~= q);
            lemma_forest_has_split(cs1, p);
            lemma_forest_has_split(cs2, p);
        }
    }
    assert forall|p: Seq<Seq<char>>| forest_has(d1, p) == forest_has(d2, p) by {
        if p.len() > 0 {
            lemma_forest_has_split(cs1, p);
            lemma_forest_has_split(cs2, p);
        }
    }
    assert(well_formed(cs1[0].1));
    assert(well_formed(cs2[0].1));
    assert(well_formed(Node::Dir(d1))) by {
        assert forall|i: int| 0 <= i < d1.len() implies well_formed(#[trigger] d1[i].1) by {
            assert(d1[i] == cs1[i + 1]);
        }
        assert forall|i: int| 0 <= i < d1.len() implies crate::model::entry_ok(#[trigger] d1[i]) by {
            assert(d1[i] == cs1[i + 1]);
        }
    }
    assert(well_formed(Node::Dir(d2))) by {
        assert forall|i: int| 0 <= i < d2.len() implies well_formed(#[trigger] d2[i].1) by {
            assert(d2[i] == cs2[i + 1]);
        }
        assert forall|i: int| 0 <= i < d2.len() implies crate::model::entry_ok(#[trigger] d2[i]) by {
            assert(d2[i] == cs2[i + 1]);
        }
    }
    lemma_same_paths_same_lines(d1, d2, flags);
    if d1.len() == 0 || d2.len() == 0 {
        lemma_no_paths_empty(d1);
        lemma_no_paths_empty(d2);
    }
    let fl = flags.push(cs1.len() == 1);
    match cs1[0].1 {
        Node::Dir(sub1) => {
            assert(well_formed(Node::Dir(c2)));
            lemma_same_paths_same_lines(sub1, c2, fl);
        },
        Node::File(_) => {
            lemma_no_paths_empty(c2);
        },
    }
    assert(fl == flags.push(cs2.len() == 1));
    assert(render_forest(c1, fl) == match cs1[0].1 {
        Node::Dir(sub) => render_forest(sub, fl),
        Node::File(_) => Seq::empty(),
    });
    assert(render_forest(c2, fl) == match cs2[0].1 {
        Node::Dir(sub) => render_forest(sub, fl),
        Node::File(_) => Seq::empty(),
    });
}

/// The tree that inserting `records` (path, is-directory flag), in order,
/// into an empty tree gives.
pub open spec fn build(records: Seq<(Seq<Seq<char>>, bool)>) -> Node
    decreases records.len(),
{
    if records.len() == 0 {
        Node::Dir(Seq::empty())
    } else {
        insert_path(build(records.drop_last()), records.last().0, records.last().1)
    }
}

/// A tree built from records holds exactly the nonempty leading parts of
/// their paths.
pub proof fn lemma_build_paths(records: Seq<(Seq<Seq<char>>, bool)>, p: Seq<Seq<char>>)
    ensures
        forest_has(children_of(build(records)), p) == exists|i: int|
            0 <= i < records.len() && is_path_prefix(p, #[trigger] records[i].0),
    decreases records.len(),
{
    if records.len() > 0 {
        let init = records.drop_last();
        let last = records.len() - 1;
        lemma_build_paths(init, p);
        lemma_insert_paths(build(init), records[last].0, records[last].1, p);
        if exists|i: int| 0 <= i < records.len() && is_path_prefix(p, #[trigger] records[i].0) {
            let i = choose|i: int| 0 <= i < records.len() && is_path_prefix(p, #[trigger] records[i].0);
            if i < last {
                assert(init[i] == records[i]);
            }
        }
        if exists|i: int| 0 <= i < init.len() && is_path_prefix(p, #[trigger] init[i].0) {
            let i = choose|i: int| 0 <= i < init.len() && is_path_prefix(p, #[trigger] init[i].0);
            assert(init[i] == records[i]);
        }
    }
}

/// A tree built from records is well formed.
pub proof fn lemma_build_well_formed(records: Seq<(Seq<Seq<char>>, bool)>)
    ensures
        well_formed(build(records)),
    decreases records.len(),
{
    if records.len() > 0 {
        lemma_build_well_formed(records.drop_last());
        lemma_insert_well_formed(build(records.drop_last()), records.last().0, records.last().1);
    }
}

/// Inserting a batch of records in any order renders to the same lines:
/// siblings are ordered by name, never by when they were inserted.
pub proof fn lemma_order_independent(
    records1: Seq<(Seq<Seq<char>>, bool)>,
    records2: Seq<(Seq<Seq<char>>, bool)>,
)
    requires
        records1.to_multiset() == records2.to_multiset(),
    ensures
        render_tree(build(records1)) == render_tree(build(records2)),
{
    records1.to_multiset_ensures();
    records2.to_multiset_ensures();
    let cs1 = children_of(build(records1));
    let cs2 = children_of(build(records2));
    assert forall|p: Seq<Seq<char>>| forest_has(cs1, p) == forest_has(cs2, p) by {
        lemma_build_paths(records1, p);
        lemma_build_paths(records2, p);
        if exists|i: int| 0 <= i < records1.len() && is_path_prefix(p, #[trigger] records1[i].0) {
            let i = choose|i: int|
                0 <= i < records1.len() && is_path_prefix(p, #[trigger] records1[i].0);
            assert(records1.contains(records1[i]));
            assert(records1.to_multiset().count(records1[i]) > 0);
            assert(records2.to_multiset().count(records1[i]) > 0);
            assert(records2.contains(records1[i]));
            let j = choose|j: int| 0 <= j < records2.len() && records2[j] == records1[i];
            assert(is_path_prefix(p, records2[j].0));
        }
        if exists|i: int| 0 <= i < records2.len() && is_path_prefix(p, #[trigger] records2[i].0) {
            let i = choose|i: int|
                0 <= i < records2.len() && is_path_prefix(p, #[trigger] records2[i].0);
            assert(records2.contains(records2[i]));
            assert(records2.to_multiset().count(records2[i]) > 0);
            assert(records1.to_multiset().count(records2[i]) > 0);
            assert(records1.contains(records2[i]));
            let j = choose|j: int| 0 <= j < records1.len() && records1[j] == records2[i];
            assert(is_path_prefix(p, records1[j].0));
        }
    }
    lemma_build_well_formed(records1);
    lemma_build_well_formed(records2);
    assert(well_formed(Node::Dir(cs1)));
    assert(well_formed(Node::Dir(cs2)));
    lemma_same_paths_same_lines(cs1, cs2, Seq::empty());
}

} // verus!
