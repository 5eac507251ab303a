//! Laws of the tree: where no two entries share a path, every entry is
//! shown exactly once.

use vstd::prelude::*;
use crate::file_entry::{parent_of, paths, EntryView, PartView};
use crate::output::{
    children_lines, first_position, has_later_child, has_later_root, indent, is_child_at,
    is_first_position, is_root_at, lemma_longest_path, longest_path, node_line, roots_lines,
    subtree_lines, tree_lines, TreeLineView,
};

verus! {

/// Whether no two positions hold the same path.
pub open spec fn distinct_paths(ps: Seq<Seq<PartView>>) -> bool {
    forall|i: int, j: int| 0 <= i < j < ps.len() ==> ps[i] != ps[j]
}

/// Whether some entry stands at `path`.
pub open spec fn occurs(ps: Seq<Seq<PartView>>, path: Seq<PartView>) -> bool {
    exists|j: int| 0 <= j < ps.len() && #[trigger] ps[j] == path
}

/// Whether `path` lies under `node`: it is `node`, or its parent path is
/// some entry's and lies under `node`.
pub open spec fn under(ps: Seq<Seq<PartView>>, path: Seq<PartView>, node: Seq<PartView>) -> bool
    decreases path.len(),
{
    path == node || match parent_of(path) {
        Some(q) => occurs(ps, q) && under(ps, q, node),
        None => false,
    }
}

/// Whether `path` lies under a child of `node` that stands at position
/// `from` or behind it.
pub open spec fn under_child(
    ps: Seq<Seq<PartView>>,
    node: Seq<PartView>,
    from: int,
    path: Seq<PartView>,
) -> bool {
    exists|c: int| from <= c && #[trigger] is_child_at(ps, node, c) && under(ps, path, ps[c])
}

/// Whether `path` lies under a root that stands at position `from` or
/// behind it.
pub open spec fn under_root(ps: Seq<Seq<PartView>>, from: int, path: Seq<PartView>) -> bool {
    exists|r: int| from <= r && #[trigger] is_root_at(ps, r) && under(ps, path, ps[r])
}

/// How many of `lines` name the entry at position `i`.
pub open spec fn times_named(lines: Seq<TreeLineView>, i: int) -> nat
    decreases lines.len(),
{
    if lines.len() == 0 {
        0
    } else {
        times_named(lines.drop_last(), i) + if lines.last().index == i {
            1nat
        } else {
            0nat
        }
    }
}

/// 1 where `b` holds, else 0.
pub open spec fn one_if(b: bool) -> nat {
    if b {
        1
    } else {
        0
    }
}

/// The lines of two sequences together name an entry as often as the two do.
pub proof fn lemma_times_named_add(a: Seq<TreeLineView>, b: Seq<TreeLineView>, i: int)
    ensures
        times_named(a + b, i) == times_named(a, i) + times_named(b, i),
    decreases b.len(),
{
    if b.len() == 0 {
        assert(a + b =~= a);
    } else {
        lemma_times_named_add(a, b.drop_last(), i);
        assert((a + b).drop_last() =~= a + b.drop_last());
        assert((a + b).last() == b.last());
    }
}

/// What lies under a path is no shorter, and as short only if it is the
/// path itself.
pub proof fn lemma_under_length(ps: Seq<Seq<PartView>>, path: Seq<PartView>, node: Seq<PartView>)
    requires
        under(ps, path, node),
    ensures
        node.len() <= path.len(),
        node.len() == path.len() ==> node == path,
    decreases path.len(),
{
    if path != node {
        lemma_under_length(ps, parent_of(path)->0, node);
    }
}

/// Lying under is transitive.
pub proof fn lemma_under_transitive(
    ps: Seq<Seq<PartView>>,
    path: Seq<PartView>,
    mid: Seq<PartView>,
    node: Seq<PartView>,
)
    requires
        under(ps, path, mid),
        under(ps, mid, node),
    ensures
        under(ps, path, node),
    decreases path.len(),
{
    if path != mid {
        lemma_under_transitive(ps, parent_of(path)->0, mid, node);
    }
}

/// Of two paths that a path lies under, the longer lies under the shorter.
pub proof fn lemma_under_chain(
    ps: Seq<Seq<PartView>>,
    path: Seq<PartView>,
    a: Seq<PartView>,
    b: Seq<PartView>,
)
    requires
        under(ps, path, a),
        under(ps, path, b),
        a.len() <= b.len(),
    ensures
        under(ps, b, a),
    decreases path.len(),
{
    if path != b {
        lemma_under_length(ps, path, b);
        lemma_under_chain(ps, parent_of(path)->0, a, b);
    }
}

/// What lies under a path, and is not the path itself, lies under one of
/// its children.
pub proof fn lemma_under_some_child(
    ps: Seq<Seq<PartView>>,
    path: Seq<PartView>,
    node: Seq<PartView>,
)
    requires
        under(ps, path, node),
        path != node,
        occurs(ps, path),
    ensures
        under_child(ps, node, 0, path),
    decreases path.len(),
{
    let q = parent_of(path)->0;
    if q == node {
        let c = choose|c: int| 0 <= c < ps.len() && #[trigger] ps[c] == path;
        assert(is_child_at(ps, node, c));
        assert(under(ps, path, ps[c]));
    } else {
        lemma_under_some_child(ps, q, node);
        let c = choose|c: int|
            0 <= c && #[trigger] is_child_at(ps, node, c) && under(ps, q, ps[c]);
        assert(under(ps, path, ps[c]));
    }
}

/// Every entry lies under a root.
pub proof fn lemma_under_some_root(ps: Seq<Seq<PartView>>, i: int)
    requires
        0 <= i < ps.len(),
    ensures
        under_root(ps, 0, ps[i]),
    decreases ps[i].len(),
{
    if is_root_at(ps, i) {
        assert(under(ps, ps[i], ps[i]));
    } else {
        let j = choose|j: int| 0 <= j < ps.len() && is_child_at(ps, #[trigger] ps[j], i);
        assert(occurs(ps, ps[j]));
        lemma_under_some_root(ps, j);
        let r = choose|r: int| 0 <= r && #[trigger] is_root_at(ps, r) && under(ps, ps[j], ps[r]);
        assert(under(ps, ps[i], ps[r]));
    }
}

/// Where paths are distinct, an entry is the first at its path.
pub proof fn lemma_first_position_is_own(ps: Seq<Seq<PartView>>, v: int)
    requires
        distinct_paths(ps),
        0 <= v < ps.len(),
    ensures
        first_position(ps, ps[v]) == v,
{
    assert(is_first_position(ps, ps[v], v)) by {
        assert forall|j: int| 0 <= j < v implies ps[j] != ps[v] by {}
    }
    let k = first_position(ps, ps[v]);
    assert(is_first_position(ps, ps[v], k));
    if k < v {
        assert(ps[k] != ps[v]);
    }
    if v < k {
        assert(ps[v] != ps[k]);
    }
}

/// Where paths are distinct, the lines of an entry and of all below it name
/// exactly the entries that lie under it, each once.
pub proof fn lemma_subtree_names(
    es: Seq<EntryView>,
    v: int,
    prefix: Seq<char>,
    is_last: bool,
    human_readable: bool,
    i: int,
)
    requires
        distinct_paths(paths(es)),
        0 <= v < es.len(),
        0 <= i < es.len(),
    ensures
        times_named(subtree_lines(es, paths(es)[v], prefix, is_last, human_readable), i) == one_if(
            under(paths(es), paths(es)[i], paths(es)[v]),
        ),
    decreases longest_path(paths(es)) - paths(es)[v].len(), 1nat, 0nat,
{
    let ps = paths(es);
    let node = ps[v];
    let own = seq![node_line(es, node, prefix, is_last, human_readable)];
    let below = children_lines(es, node, 0, prefix + indent(is_last), human_readable);
    lemma_first_position_is_own(ps, v);
    lemma_times_named_add(own, below, i);
    assert(own.drop_last() =~= Seq::<TreeLineView>::empty());
    assert(times_named(own.drop_last(), i) == 0);
    assert(own.last().index == v);
    assert(times_named(own, i) == one_if(i == v));
    lemma_children_names(es, v, 0, prefix + indent(is_last), human_readable, i);
    if i == v {
        if under_child(ps, node, 0, ps[i]) {
            let c = choose|c: int|
                0 <= c && #[trigger] is_child_at(ps, node, c) && under(ps, ps[i], ps[c]);
            lemma_under_length(ps, ps[i], ps[c]);
        }
    } else if under(ps, ps[i], node) {
        assert(ps[i] != node);
        assert(occurs(ps, ps[i]));
        lemma_under_some_child(ps, ps[i], node);
    } else if under_child(ps, node, 0, ps[i]) {
        let c = choose|c: int|
            0 <= c && #[trigger] is_child_at(ps, node, c) && under(ps, ps[i], ps[c]);
        assert(occurs(ps, node));
        assert(under(ps, node, node));
        assert(under(ps, ps[c], node));
        lemma_under_transitive(ps, ps[i], ps[c], node);
    }
}

/// Where paths are distinct, the lines of the children of an entry from a
/// position on name exactly the entries that lie under one of them, each
/// once.
pub proof fn lemma_children_names(
    es: Seq<EntryView>,
    v: int,
    from: int,
    prefix: Seq<char>,
    human_readable: bool,
    i: int,
)
    requires
        distinct_paths(paths(es)),
        0 <= v < es.len(),
        0 <= i < es.len(),
        0 <= from,
    ensures
        times_named(children_lines(es, paths(es)[v], from, prefix, human_readable), i) == one_if(
            under_child(paths(es), paths(es)[v], from, paths(es)[i]),
        ),
    decreases longest_path(paths(es)) - paths(es)[v].len(), 0nat, es.len() - from,
{
    let ps = paths(es);
    let node = ps[v];
    if from >= es.len() {
        if under_child(ps, node, from, ps[i]) {
            let c = choose|c: int|
                from <= c && #[trigger] is_child_at(ps, node, c) && under(ps, ps[i], ps[c]);
        }
    } else {
        lemma_children_names(es, v, from + 1, prefix, human_readable, i);
        let later = under_child(ps, node, from + 1, ps[i]);
        if is_child_at(ps, node, from) {
            lemma_longest_path(ps, from);
            let last = !has_later_child(ps, node, from);
            lemma_subtree_names(es, from, prefix, last, human_readable, i);
            lemma_times_named_add(
                subtree_lines(es, ps[from], prefix, last, human_readable),
                children_lines(es, node, from + 1, prefix, human_readable),
                i,
            );
            if under(ps, ps[i], ps[from]) {
                if later {
                    // Two children of one node that a path lies under are one.
                    let c = choose|c: int|
                        from + 1 <= c && #[trigger] is_child_at(ps, node, c) && under(
                            ps,
                            ps[i],
                            ps[c],
                        );
                    lemma_under_chain(ps, ps[i], ps[from], ps[c]);
                    lemma_under_length(ps, ps[c], ps[from]);
                }
                assert(is_child_at(ps, node, from));
            } else if under_child(ps, node, from, ps[i]) {
                let c = choose|c: int|
                    from <= c && #[trigger] is_child_at(ps, node, c) && under(ps, ps[i], ps[c]);
                assert(from + 1 <= c);
            }
            if later {
                let c = choose|c: int|
                    from + 1 <= c && #[trigger] is_child_at(ps, node, c) && under(
                        ps,
                        ps[i],
                        ps[c],
                    );
                assert(from <= c);
            }
        } else {
            if under_child(ps, node, from, ps[i]) {
                let c = choose|c: int|
                    from <= c && #[trigger] is_child_at(ps, node, c) && under(ps, ps[i], ps[c]);
                assert(from + 1 <= c);
            }
            if later {
                let c = choose|c: int|
                    from + 1 <= c && #[trigger] is_child_at(ps, node, c) && under(
                        ps,
                        ps[i],
                        ps[c],
                    );
                assert(from <= c);
            }
        }
    }
}

/// Where paths are distinct, the lines of the roots from a position on name
/// exactly the entries that lie under one of them, each once.
pub proof fn lemma_roots_names(es: Seq<EntryView>, from: int, human_readable: bool, i: int)
    requires
        distinct_paths(paths(es)),
        0 <= i < es.len(),
        0 <= from,
    ensures
        times_named(roots_lines(es, from, human_readable), i) == one_if(
            under_root(paths(es), from, paths(es)[i]),
        ),
    decreases es.len() - from,
{
    let ps = paths(es);
    if from >= es.len() {
        if under_root(ps, from, ps[i]) {
            let r = choose|r: int| from <= r && #[trigger] is_root_at(ps, r) && under(ps, ps[i], ps[r]);
        }
    } else {
        lemma_roots_names(es, from + 1, human_readable, i);
        let later = under_root(ps, from + 1, ps[i]);
        if is_root_at(ps, from) {
            let last = !has_later_root(ps, from);
            lemma_subtree_names(es, from, Seq::empty(), last, human_readable, i);
            lemma_times_named_add(
                subtree_lines(es, ps[from], Seq::empty(), last, human_readable),
                roots_lines(es, from + 1, human_readable),
                i,
            );
            if under(ps, ps[i], ps[from]) {
                if later {
                    // Of two roots that a path lies under, one would lie under
                    // the other, and so be the other.
                    let r = choose|r: int|
                        from + 1 <= r && #[trigger] is_root_at(ps, r) && under(ps, ps[i], ps[r]);
                    lemma_two_roots(ps, ps[i], from, r);
                }
                assert(is_root_at(ps, from));
            } else if under_root(ps, from, ps[i]) {
                let r = choose|r: int| from <= r && #[trigger] is_root_at(ps, r) && under(ps, ps[i], ps[r]);
                assert(from + 1 <= r);
            }
            if later {
                let r = choose|r: int|
                    from + 1 <= r && #[trigger] is_root_at(ps, r) && under(ps, ps[i], ps[r]);
                assert(from <= r);
            }
        } else {
            if under_root(ps, from, ps[i]) {
                let r = choose|r: int| from <= r && #[trigger] is_root_at(ps, r) && under(ps, ps[i], ps[r]);
                assert(from + 1 <= r);
            }
            if later {
                let r = choose|r: int|
                    from + 1 <= r && #[trigger] is_root_at(ps, r) && under(ps, ps[i], ps[r]);
                assert(from <= r);
            }
        }
    }
}

/// Where paths are distinct, a path lies under one root only.
pub proof fn lemma_two_roots(ps: Seq<Seq<PartView>>, path: Seq<PartView>, a: int, b: int)
    requires
        distinct_paths(ps),
        is_root_at(ps, a),
        is_root_at(ps, b),
        under(ps, path, ps[a]),
        under(ps, path, ps[b]),
    ensures
        a == b,
{
    if ps[a].len() <= ps[b].len() {
        lemma_under_chain(ps, path, ps[a], ps[b]);
        lemma_root_under(ps, b, ps[a]);
    } else {
        lemma_under_chain(ps, path, ps[b], ps[a]);
        lemma_root_under(ps, a, ps[b]);
    }
    if a < b {
        assert(ps[a] != ps[b]);
    }
    if b < a {
        assert(ps[b] != ps[a]);
    }
}

/// A root lies under no path but its own.
pub proof fn lemma_root_under(ps: Seq<Seq<PartView>>, r: int, node: Seq<PartView>)
    requires
        is_root_at(ps, r),
        under(ps, ps[r], node),
    ensures
        ps[r] == node,
{
    if ps[r] != node {
        let q = parent_of(ps[r])->0;
        let j = choose|j: int| 0 <= j < ps.len() && #[trigger] ps[j] == q;
        assert(is_child_at(ps, ps[j], r));
    }
}

/// Where no two entries share a path, the tree shows every entry exactly
/// once.
pub proof fn lemma_tree_shows_each_entry_once(es: Seq<EntryView>, human_readable: bool, i: int)
    requires
        distinct_paths(paths(es)),
        0 <= i < es.len(),
    ensures
        times_named(tree_lines(es, human_readable), i) == 1,
{
    lemma_roots_names(es, 0, human_readable, i);
    lemma_under_some_root(paths(es), i);
}

/// Whether every line names an entry at a position below `n`.
pub open spec fn all_name_entries(lines: Seq<TreeLineView>, n: nat) -> bool {
    forall|k: int| 0 <= k < lines.len() ==> 0 <= (#[trigger] lines[k]).index < n
}

/// Where paths are distinct, the lines of an entry and of all below it name
/// entries only.
pub proof fn lemma_subtree_names_entries(
    es: Seq<EntryView>,
    v: int,
    prefix: Seq<char>,
    is_last: bool,
    human_readable: bool,
)
    requires
        distinct_paths(paths(es)),
        0 <= v < es.len(),
    ensures
        all_name_entries(
            subtree_lines(es, paths(es)[v], prefix, is_last, human_readable),
            es.len(),
        ),
    decreases longest_path(paths(es)) - paths(es)[v].len(), 1nat, 0nat,
{
    let ps = paths(es);
    lemma_first_position_is_own(ps, v);
    lemma_children_name_entries(es, v, 0, prefix + indent(is_last), human_readable);
}

/// Where paths are distinct, the lines of the children of an entry name
/// entries only.
pub proof fn lemma_children_name_entries(
    es: Seq<EntryView>,
    v: int,
    from: int,
    prefix: Seq<char>,
    human_readable: bool,
)
    requires
        distinct_paths(paths(es)),
        0 <= v < es.len(),
        0 <= from,
    ensures
        all_name_entries(
            children_lines(es, paths(es)[v], from, prefix, human_readable),
            es.len(),
        ),
    decreases longest_path(paths(es)) - paths(es)[v].len(), 0nat, es.len() - from,
{
    let ps = paths(es);
    if from < es.len() {
        lemma_children_name_entries(es, v, from + 1, prefix, human_readable);
        if is_child_at(ps, ps[v], from) {
            lemma_longest_path(ps, from);
            lemma_subtree_names_entries(
                es,
                from,
                prefix,
                !has_later_child(ps, ps[v], from),
                human_readable,
            );
        }
    }
}

/// Where paths are distinct, the lines of the roots name entries only.
pub proof fn lemma_roots_name_entries(es: Seq<EntryView>, from: int, human_readable: bool)
    requires
        distinct_paths(paths(es)),
        0 <= from,
    ensures
        all_name_entries(roots_lines(es, from, human_readable), es.len()),
    decreases es.len() - from,
{
    let ps = paths(es);
    if from < es.len() {
        lemma_roots_name_entries(es, from + 1, human_readable);
        if is_root_at(ps, from) {
            lemma_subtree_names_entries(
                es,
                from,
                Seq::empty(),
                !has_later_root(ps, from),
                human_readable,
            );
        }
    }
}

/// How often `lines` name the entries at the positions below `n`, all
/// together.
pub open spec fn times_named_below(lines: Seq<TreeLineView>, n: nat) -> nat
    decreases n,
{
    if n == 0 {
        0
    } else {
        times_named_below(lines, (n - 1) as nat) + times_named(lines, n - 1)
    }
}

/// One more line names one more entry, if it names one below `n`.
proof fn lemma_times_named_below_step(lines: Seq<TreeLineView>, n: nat)
    requires
        lines.len() > 0,
    ensures
        times_named_below(lines, n) == times_named_below(lines.drop_last(), n) + one_if(
            0 <= lines.last().index < n,
        ),
    decreases n,
{
    if n > 0 {
        lemma_times_named_below_step(lines, (n - 1) as nat);
    }
}

/// Lines that name entries only name as many, all together, as there are
/// lines.
proof fn lemma_times_named_below_is_length(lines: Seq<TreeLineView>, n: nat)
    requires
        all_name_entries(lines, n),
    ensures
        times_named_below(lines, n) == lines.len(),
    decreases lines.len(),
{
    if lines.len() == 0 {
        lemma_nothing_named(lines, n);
    } else {
        lemma_times_named_below_step(lines, n);
        assert(0 <= lines[lines.len() - 1].index < n);
        assert forall|k: int| 0 <= k < lines.drop_last().len() implies 0 <= (
        #[trigger] lines.drop_last()[k]).index < n by {
            assert(lines.drop_last()[k] == lines[k]);
        }
        lemma_times_named_below_is_length(lines.drop_last(), n);
    }
}

/// No lines name nothing.
proof fn lemma_nothing_named(lines: Seq<TreeLineView>, n: nat)
    requires
        lines.len() == 0,
    ensures
        times_named_below(lines, n) == 0,
    decreases n,
{
    if n > 0 {
        lemma_nothing_named(lines, (n - 1) as nat);
    }
}

/// Where each position below `n` is named once, all together are named `n`
/// times.
proof fn lemma_each_once_is_count(lines: Seq<TreeLineView>, n: nat)
    requires
        forall|i: int| 0 <= i < n ==> times_named(lines, i) == 1,
    ensures
        times_named_below(lines, n) == n,
    decreases n,
{
    if n > 0 {
        lemma_each_once_is_count(lines, (n - 1) as nat);
    }
}

/// Where no two entries share a path, the tree has one line for each
/// entry.
pub proof fn lemma_tree_has_a_line_for_each_entry(es: Seq<EntryView>, human_readable: bool)
    requires
        distinct_paths(paths(es)),
    ensures
        tree_lines(es, human_readable).len() == es.len(),
        all_name_entries(tree_lines(es, human_readable), es.len()),
{
    let lines = tree_lines(es, human_readable);
    lemma_roots_name_entries(es, 0, human_readable);
    assert forall|i: int| 0 <= i < es.len() implies times_named(lines, i) == 1 by {
        lemma_tree_shows_each_entry_once(es, human_readable, i);
    }
    lemma_each_once_is_count(lines, es.len());
    lemma_times_named_below_is_length(lines, es.len());
}

} // verus!
