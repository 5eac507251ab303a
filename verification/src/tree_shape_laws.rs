//! Laws of the shape of the tree, where no two entries share a path: how a
//! line is indented, which entries stand at depth 0, that an entry and all
//! below it stand as one block, and that roots and siblings keep the order
//! of the sequence.

use vstd::prelude::*;
use crate::file_entry::{parent_of, paths, EntryView, PartView};
use crate::output::{
    children_lines, connector, first_position, has_later_child, has_later_root, indent,
    is_child_at, is_first_position, is_root_at, lemma_longest_path, longest_path, node_line,
    roots_lines, subtree_lines, tree_lines, TreeLineView,
};
use crate::tree_laws::{
    distinct_paths, lemma_first_position_is_own, lemma_tree_shows_each_entry_once, occurs,
    times_named,
};

verus! {

/// Whether the entry at position `i` is the last of its siblings: the last
/// root if it is a root, else the last child of its parent path.
pub open spec fn last_of_siblings(ps: Seq<Seq<PartView>>, i: int) -> bool {
    if is_root_at(ps, i) {
        !has_later_root(ps, i)
    } else {
        !has_later_child(ps, parent_of(ps[i])->0, i)
    }
}

/// What the line of the entry at `path` is indented by: for each entry
/// above it, from the root down, blanks if that entry is the last of its
/// siblings and a bar if it is not.
pub open spec fn indent_above(ps: Seq<Seq<PartView>>, path: Seq<PartView>) -> Seq<char>
    decreases path.len(),
{
    match parent_of(path) {
        Some(q) => if occurs(ps, q) {
            indent_above(ps, q) + indent(last_of_siblings(ps, first_position(ps, q)))
        } else {
            Seq::empty()
        },
        None => Seq::empty(),
    }
}

/// What stands before the name of the entry at position `i`: the
/// indentation, and the connector.
pub open spec fn lead_of(ps: Seq<Seq<PartView>>, i: int) -> Seq<char> {
    indent_above(ps, ps[i]) + connector(last_of_siblings(ps, i))
}

/// The lines of the entry at position `v` and of all below it, as they
/// stand in the tree.
pub open spec fn block_of(es: Seq<EntryView>, v: int, human_readable: bool) -> Seq<TreeLineView> {
    subtree_lines(
        es,
        paths(es)[v],
        indent_above(paths(es), paths(es)[v]),
        last_of_siblings(paths(es), v),
        human_readable,
    )
}

/// Whether every line names an entry and is led as that entry's line is.
pub open spec fn leads_follow(lines: Seq<TreeLineView>, ps: Seq<Seq<PartView>>) -> bool {
    forall|k: int|
        0 <= k < lines.len() ==> 0 <= (#[trigger] lines[k]).index < ps.len() && lines[k].lead
            == lead_of(ps, lines[k].index)
}

/// Whether some line names the entry at position `i`.
pub open spec fn named_in(lines: Seq<TreeLineView>, i: int) -> bool {
    exists|k: int| 0 <= k < lines.len() && (#[trigger] lines[k]).index == i
}

/// Whether a line that names `a` stands above a line that names `b`.
pub open spec fn comes_before(lines: Seq<TreeLineView>, a: int, b: int) -> bool {
    exists|k: int, l: int|
        #![trigger lines[k], lines[l]]
        0 <= k < l < lines.len() && lines[k].index == a && lines[l].index == b
}

/// The lines of the children of `node` that stand at the positions from
/// `from` up to `to`, without `to`.
pub open spec fn children_between(
    es: Seq<EntryView>,
    node: Seq<PartView>,
    from: int,
    to: int,
    prefix: Seq<char>,
    human_readable: bool,
) -> Seq<TreeLineView>
    decreases to - from,
{
    let ps = paths(es);
    if from < 0 || from >= to || from >= es.len() {
        Seq::empty()
    } else if is_child_at(ps, node, from) {
        subtree_lines(es, ps[from], prefix, !has_later_child(ps, node, from), human_readable)
            + children_between(es, node, from + 1, to, prefix, human_readable)
    } else {
        children_between(es, node, from + 1, to, prefix, human_readable)
    }
}

/// The lines of the roots that stand at the positions from `from` up to
/// `to`, without `to`.
pub open spec fn roots_between(es: Seq<EntryView>, from: int, to: int, human_readable: bool) -> Seq<
    TreeLineView,
>
    decreases to - from,
{
    let ps = paths(es);
    if from < 0 || from >= to || from >= es.len() {
        Seq::empty()
    } else if is_root_at(ps, from) {
        subtree_lines(es, ps[from], Seq::empty(), !has_later_root(ps, from), human_readable)
            + roots_between(es, from + 1, to, human_readable)
    } else {
        roots_between(es, from + 1, to, human_readable)
    }
}

/// The lines of the children from a position on are those up to any later
/// position, and those from there on.
pub proof fn lemma_children_split(
    es: Seq<EntryView>,
    node: Seq<PartView>,
    from: int,
    to: int,
    prefix: Seq<char>,
    human_readable: bool,
)
    requires
        0 <= from <= to,
    ensures
        children_lines(es, node, from, prefix, human_readable) == children_between(
            es,
            node,
            from,
            to,
            prefix,
            human_readable,
        ) + children_lines(es, node, to, prefix, human_readable),
    decreases to - from,
{
    let whole = children_lines(es, node, from, prefix, human_readable);
    let head = children_between(es, node, from, to, prefix, human_readable);
    let tail = children_lines(es, node, to, prefix, human_readable);
    if from < to && from < es.len() {
        lemma_children_split(es, node, from + 1, to, prefix, human_readable);
        assert(whole =~= head + tail);
    } else {
        assert(whole =~= head + tail);
    }
}

/// The lines of the roots from a position on are those up to any later
/// position, and those from there on.
pub proof fn lemma_roots_split(es: Seq<EntryView>, from: int, to: int, human_readable: bool)
    requires
        0 <= from <= to,
    ensures
        roots_lines(es, from, human_readable) == roots_between(es, from, to, human_readable)
            + roots_lines(es, to, human_readable),
    decreases to - from,
{
    let whole = roots_lines(es, from, human_readable);
    let head = roots_between(es, from, to, human_readable);
    let tail = roots_lines(es, to, human_readable);
    if from < to && from < es.len() {
        lemma_roots_split(es, from + 1, to, human_readable);
        assert(whole =~= head + tail);
    } else {
        assert(whole =~= head + tail);
    }
}

/// A root is indented by nothing.
pub proof fn lemma_root_indent(ps: Seq<Seq<PartView>>, r: int)
    requires
        is_root_at(ps, r),
    ensures
        indent_above(ps, ps[r]) == Seq::<char>::empty(),
{
    match parent_of(ps[r]) {
        Some(q) => {
            if occurs(ps, q) {
                let j = choose|j: int| 0 <= j < ps.len() && #[trigger] ps[j] == q;
                assert(is_child_at(ps, ps[j], r));
            }
        },
        None => {},
    }
}

/// A child is no root; it is indented by what its parent is indented by and
/// the parent's own indent; and it is the last of its siblings when no
/// later entry is a child of the same parent.
pub proof fn lemma_child_indent(ps: Seq<Seq<PartView>>, v: int, c: int)
    requires
        distinct_paths(ps),
        0 <= v < ps.len(),
        is_child_at(ps, ps[v], c),
    ensures
        !is_root_at(ps, c),
        indent_above(ps, ps[c]) == indent_above(ps, ps[v]) + indent(last_of_siblings(ps, v)),
        last_of_siblings(ps, c) == !has_later_child(ps, ps[v], c),
{
    assert(occurs(ps, ps[v]));
    lemma_first_position_is_own(ps, v);
}

/// The indentation of an entry that is no root holds one indent at least.
pub proof fn lemma_indent_of_others(ps: Seq<Seq<PartView>>, c: int)
    requires
        0 <= c < ps.len(),
        !is_root_at(ps, c),
    ensures
        indent_above(ps, ps[c]).len() >= 4,
{
    let j = choose|j: int| 0 <= j < ps.len() && is_child_at(ps, #[trigger] ps[j], c);
    assert(occurs(ps, ps[j]));
}

/// Where paths are distinct, the lines of an entry and of all below it are
/// led as their entries' lines are.
pub proof fn lemma_subtree_leads(es: Seq<EntryView>, v: int, human_readable: bool)
    requires
        distinct_paths(paths(es)),
        0 <= v < es.len(),
    ensures
        leads_follow(block_of(es, v, human_readable), paths(es)),
    decreases longest_path(paths(es)) - paths(es)[v].len(), 1nat, 0nat,
{
    let ps = paths(es);
    lemma_first_position_is_own(ps, v);
    lemma_children_leads(es, v, 0, human_readable);
}

/// Where paths are distinct, the lines of the children of an entry are led
/// as their entries' lines are.
pub proof fn lemma_children_leads(es: Seq<EntryView>, v: int, from: int, human_readable: bool)
    requires
        distinct_paths(paths(es)),
        0 <= v < es.len(),
        0 <= from,
    ensures
        leads_follow(
            children_lines(
                es,
                paths(es)[v],
                from,
                indent_above(paths(es), paths(es)[v]) + indent(last_of_siblings(paths(es), v)),
                human_readable,
            ),
            paths(es),
        ),
    decreases longest_path(paths(es)) - paths(es)[v].len(), 0nat, es.len() - from,
{
    let ps = paths(es);
    if from < es.len() {
        lemma_children_leads(es, v, from + 1, human_readable);
        if is_child_at(ps, ps[v], from) {
            lemma_longest_path(ps, from);
            lemma_child_indent(ps, v, from);
            lemma_subtree_leads(es, from, human_readable);
        }
    }
}

/// Where paths are distinct, the lines of the roots are led as their
/// entries' lines are.
pub proof fn lemma_roots_leads(es: Seq<EntryView>, from: int, human_readable: bool)
    requires
        distinct_paths(paths(es)),
        0 <= from,
    ensures
        leads_follow(roots_lines(es, from, human_readable), paths(es)),
    decreases es.len() - from,
{
    let ps = paths(es);
    if from < es.len() {
        lemma_roots_leads(es, from + 1, human_readable);
        if is_root_at(ps, from) {
            lemma_root_indent(ps, from);
            lemma_subtree_leads(es, from, human_readable);
        }
    }
}

/// Where no two entries share a path, every line of the tree is indented
/// by its entry's ancestors: for each of them, from the root down, blanks
/// if the ancestor is the last of its siblings and a bar if it is not;
/// behind that stands the connector of the entry itself.
pub proof fn lemma_tree_leads(es: Seq<EntryView>, human_readable: bool)
    requires
        distinct_paths(paths(es)),
    ensures
        leads_follow(tree_lines(es, human_readable), paths(es)),
{
    lemma_roots_leads(es, 0, human_readable);
}

/// Where no two entries share a path, a line stands at depth 0, led by its
/// connector alone, exactly when it names a root: an entry whose parent
/// path is no entry's path.
pub proof fn lemma_depth_zero_is_root(es: Seq<EntryView>, human_readable: bool, k: int)
    requires
        distinct_paths(paths(es)),
        0 <= k < tree_lines(es, human_readable).len(),
    ensures
        0 <= tree_lines(es, human_readable)[k].index < es.len(),
        tree_lines(es, human_readable)[k].lead.len() == 4 <==> is_root_at(
            paths(es),
            tree_lines(es, human_readable)[k].index,
        ),
{
    let ps = paths(es);
    let line = tree_lines(es, human_readable)[k];
    lemma_tree_leads(es, human_readable);
    if is_root_at(ps, line.index) {
        lemma_root_indent(ps, line.index);
    } else {
        lemma_indent_of_others(ps, line.index);
    }
}

/// The first line of an entry's lines names the entry.
pub proof fn lemma_block_begins_with_own_line(es: Seq<EntryView>, v: int, human_readable: bool)
    requires
        distinct_paths(paths(es)),
        0 <= v < es.len(),
    ensures
        block_of(es, v, human_readable).len() >= 1,
        block_of(es, v, human_readable)[0].index == v,
        block_of(es, v, human_readable)[0].lead == lead_of(paths(es), v),
        named_in(block_of(es, v, human_readable), v),
{
    lemma_first_position_is_own(paths(es), v);
    assert(block_of(es, v, human_readable)[0].index == v);
}

/// Where no two entries share a path, an entry and all below it stand in
/// the tree as one block: the tree is what stands above the block, the
/// block, and what stands below it. Returns the two.
pub proof fn lemma_subtree_is_a_block(es: Seq<EntryView>, v: int, human_readable: bool) -> (around:
    (Seq<TreeLineView>, Seq<TreeLineView>))
    requires
        distinct_paths(paths(es)),
        0 <= v < es.len(),
    ensures
        tree_lines(es, human_readable) == around.0 + block_of(es, v, human_readable) + around.1,
    decreases paths(es)[v].len(),
{
    let ps = paths(es);
    let tree = tree_lines(es, human_readable);
    let block = block_of(es, v, human_readable);
    if is_root_at(ps, v) {
        lemma_root_indent(ps, v);
        lemma_roots_split(es, 0, v, human_readable);
        let above = roots_between(es, 0, v, human_readable);
        let below = roots_lines(es, v + 1, human_readable);
        assert(roots_lines(es, v, human_readable) == block + below);
        assert(tree =~= above + block + below);
        (above, below)
    } else {
        let p = choose|p: int| 0 <= p < ps.len() && is_child_at(ps, #[trigger] ps[p], v);
        lemma_child_indent(ps, p, v);
        lemma_first_position_is_own(ps, p);
        let around_parent = lemma_subtree_is_a_block(es, p, human_readable);
        let prefix = indent_above(ps, ps[p]) + indent(last_of_siblings(ps, p));
        let own = seq![
            node_line(es, ps[p], indent_above(ps, ps[p]), last_of_siblings(ps, p), human_readable),
        ];
        lemma_children_split(es, ps[p], 0, v, prefix, human_readable);
        let earlier = children_between(es, ps[p], 0, v, prefix, human_readable);
        let later = children_lines(es, ps[p], v + 1, prefix, human_readable);
        assert(children_lines(es, ps[p], v, prefix, human_readable) == block + later);
        let above = around_parent.0 + own + earlier;
        let below = later + around_parent.1;
        assert(block_of(es, p, human_readable) =~= own + (earlier + (block + later)));
        assert(tree =~= above + block + below);
        (above, below)
    }
}

/// An entry that some line names is named once at least.
pub proof fn lemma_named_is_counted(lines: Seq<TreeLineView>, i: int, k: int)
    requires
        0 <= k < lines.len(),
        lines[k].index == i,
    ensures
        times_named(lines, i) >= 1,
    decreases lines.len(),
{
    if k < lines.len() - 1 {
        lemma_named_is_counted(lines.drop_last(), i, k);
    }
}

/// An entry that two lines name is named twice at least.
pub proof fn lemma_named_twice_is_counted(lines: Seq<TreeLineView>, i: int, k: int, l: int)
    requires
        0 <= k < l < lines.len(),
        lines[k].index == i,
        lines[l].index == i,
    ensures
        times_named(lines, i) >= 2,
    decreases lines.len(),
{
    if l < lines.len() - 1 {
        lemma_named_twice_is_counted(lines.drop_last(), i, k, l);
    } else {
        lemma_named_is_counted(lines.drop_last(), i, k);
    }
}

/// What a first sequence names stands before what a second names, in the
/// two together.
pub proof fn lemma_before_across(x: Seq<TreeLineView>, y: Seq<TreeLineView>, a: int, b: int)
    requires
        named_in(x, a),
        named_in(y, b),
    ensures
        comes_before(x + y, a, b),
{
    let k = choose|k: int| 0 <= k < x.len() && (#[trigger] x[k]).index == a;
    let l = choose|l: int| 0 <= l < y.len() && (#[trigger] y[l]).index == b;
    let all = x + y;
    assert(all[k] == x[k]);
    assert(all[x.len() + l] == y[l]);
    assert(0 <= k < x.len() + l < all.len() && all[k].index == a && all[x.len() + l].index == b);
}

/// What stands before another in a part does so in the whole.
pub proof fn lemma_before_inside(
    x: Seq<TreeLineView>,
    s: Seq<TreeLineView>,
    y: Seq<TreeLineView>,
    a: int,
    b: int,
)
    requires
        comes_before(s, a, b),
    ensures
        comes_before(x + s + y, a, b),
{
    let (k, l) = choose|k: int, l: int|
        #![trigger s[k], s[l]]
        0 <= k < l < s.len() && s[k].index == a && s[l].index == b;
    let all = x + s + y;
    assert(all[x.len() + k] == s[k]);
    assert(all[x.len() + l] == s[l]);
    assert(0 <= x.len() + k < x.len() + l < all.len() && all[x.len() + k].index == a && all[x.len()
        + l].index == b);
}

/// What is named in a part is named in the whole.
pub proof fn lemma_named_inside(
    x: Seq<TreeLineView>,
    s: Seq<TreeLineView>,
    y: Seq<TreeLineView>,
    a: int,
)
    requires
        named_in(s, a),
    ensures
        named_in(x + s + y, a),
{
    let k = choose|k: int| 0 <= k < s.len() && (#[trigger] s[k]).index == a;
    let all = x + s + y;
    assert(all[x.len() + k] == s[k]);
    assert(0 <= x.len() + k < all.len() && all[x.len() + k].index == a);
}

/// Where each of two entries is named once, and a line of the first stands
/// above a line of the second, every line of the first stands above every
/// line of the second.
pub proof fn lemma_before_is_above(lines: Seq<TreeLineView>, a: int, b: int, k: int, l: int)
    requires
        comes_before(lines, a, b),
        times_named(lines, a) == 1,
        times_named(lines, b) == 1,
        0 <= k < lines.len(),
        0 <= l < lines.len(),
        lines[k].index == a,
        lines[l].index == b,
    ensures
        k < l,
{
    let (k0, l0) = choose|k0: int, l0: int|
        #![trigger lines[k0], lines[l0]]
        0 <= k0 < l0 < lines.len() && lines[k0].index == a && lines[l0].index == b;
    if k < k0 {
        lemma_named_twice_is_counted(lines, a, k, k0);
    }
    if k0 < k {
        lemma_named_twice_is_counted(lines, a, k0, k);
    }
    if l < l0 {
        lemma_named_twice_is_counted(lines, b, l, l0);
    }
    if l0 < l {
        lemma_named_twice_is_counted(lines, b, l0, l);
    }
}

/// Where no two entries share a path, an entry that is no root is printed
/// below its parent only: its line stands in the block of its parent, and
/// under the parent's own line.
pub proof fn lemma_child_stands_below_parent(
    es: Seq<EntryView>,
    human_readable: bool,
    p: int,
    c: int,
    k: int,
    l: int,
)
    requires
        distinct_paths(paths(es)),
        0 <= p < es.len(),
        is_child_at(paths(es), paths(es)[p], c),
        0 <= k < tree_lines(es, human_readable).len(),
        0 <= l < tree_lines(es, human_readable).len(),
        tree_lines(es, human_readable)[k].index == p,
        tree_lines(es, human_readable)[l].index == c,
    ensures
        k < l,
        named_in(block_of(es, p, human_readable), c),
{
    let ps = paths(es);
    let tree = tree_lines(es, human_readable);
    let around = lemma_subtree_is_a_block(es, p, human_readable);
    let block = block_of(es, p, human_readable);
    lemma_first_position_is_own(ps, p);
    lemma_child_indent(ps, p, c);
    let prefix = indent_above(ps, ps[p]) + indent(last_of_siblings(ps, p));
    let own = seq![
        node_line(es, ps[p], indent_above(ps, ps[p]), last_of_siblings(ps, p), human_readable),
    ];
    let below = children_lines(es, ps[p], 0, prefix, human_readable);
    lemma_children_split(es, ps[p], 0, c, prefix, human_readable);
    let earlier = children_between(es, ps[p], 0, c, prefix, human_readable);
    let later = children_lines(es, ps[p], c + 1, prefix, human_readable);
    lemma_block_begins_with_own_line(es, c, human_readable);
    assert(children_lines(es, ps[p], c, prefix, human_readable) == block_of(es, c, human_readable)
        + later);
    assert(below =~= earlier + block_of(es, c, human_readable) + later);
    lemma_named_inside(earlier, block_of(es, c, human_readable), later, c);
    assert(own[0].index == p);
    assert(named_in(own, p));
    lemma_before_across(own, below, p, c);
    assert(block =~= own + below);
    lemma_before_inside(around.0, block, around.1, p, c);
    lemma_tree_shows_each_entry_once(es, human_readable, p);
    lemma_tree_shows_each_entry_once(es, human_readable, c);
    lemma_before_is_above(tree, p, c, k, l);
    let m = choose|m: int| 0 <= m < below.len() && (#[trigger] below[m]).index == c;
    assert(block[1 + m] == below[m]);
}

/// Where no two entries share a path, the children of an entry are printed
/// in the order in which they stand in the sequence.
pub proof fn lemma_children_keep_order(
    es: Seq<EntryView>,
    human_readable: bool,
    v: int,
    i: int,
    j: int,
    k: int,
    l: int,
)
    requires
        distinct_paths(paths(es)),
        0 <= v < es.len(),
        is_child_at(paths(es), paths(es)[v], i),
        is_child_at(paths(es), paths(es)[v], j),
        i < j,
        0 <= k < tree_lines(es, human_readable).len(),
        0 <= l < tree_lines(es, human_readable).len(),
        tree_lines(es, human_readable)[k].index == i,
        tree_lines(es, human_readable)[l].index == j,
    ensures
        k < l,
{
    let ps = paths(es);
    let tree = tree_lines(es, human_readable);
    let around = lemma_subtree_is_a_block(es, v, human_readable);
    let block = block_of(es, v, human_readable);
    lemma_first_position_is_own(ps, v);
    lemma_child_indent(ps, v, i);
    lemma_child_indent(ps, v, j);
    let prefix = indent_above(ps, ps[v]) + indent(last_of_siblings(ps, v));
    let own = seq![
        node_line(es, ps[v], indent_above(ps, ps[v]), last_of_siblings(ps, v), human_readable),
    ];
    let below = children_lines(es, ps[v], 0, prefix, human_readable);
    // The children from the first of the two on: its block, and the rest.
    lemma_children_split(es, ps[v], 0, i, prefix, human_readable);
    let earlier = children_between(es, ps[v], 0, i, prefix, human_readable);
    let first = block_of(es, i, human_readable);
    let rest = children_lines(es, ps[v], i + 1, prefix, human_readable);
    assert(children_lines(es, ps[v], i, prefix, human_readable) == first + rest);
    // The rest holds the block of the second.
    lemma_children_split(es, ps[v], i + 1, j, prefix, human_readable);
    let between = children_between(es, ps[v], i + 1, j, prefix, human_readable);
    let second = block_of(es, j, human_readable);
    let last = children_lines(es, ps[v], j + 1, prefix, human_readable);
    assert(children_lines(es, ps[v], j, prefix, human_readable) == second + last);
    assert(rest =~= between + second + last);
    lemma_block_begins_with_own_line(es, i, human_readable);
    lemma_block_begins_with_own_line(es, j, human_readable);
    lemma_named_inside(between, second, last, j);
    lemma_before_across(first, rest, i, j);
    lemma_before_inside(own + earlier, first + rest, Seq::empty(), i, j);
    assert(block =~= (own + earlier) + (first + rest) + Seq::<TreeLineView>::empty());
    lemma_before_inside(around.0, block, around.1, i, j);
    lemma_tree_shows_each_entry_once(es, human_readable, i);
    lemma_tree_shows_each_entry_once(es, human_readable, j);
    lemma_before_is_above(tree, i, j, k, l);
}

/// Where no two entries share a path, the roots are printed in the order
/// in which they stand in the sequence.
pub proof fn lemma_roots_keep_order(
    es: Seq<EntryView>,
    human_readable: bool,
    i: int,
    j: int,
    k: int,
    l: int,
)
    requires
        distinct_paths(paths(es)),
        is_root_at(paths(es), i),
        is_root_at(paths(es), j),
        i < j,
        0 <= k < tree_lines(es, human_readable).len(),
        0 <= l < tree_lines(es, human_readable).len(),
        tree_lines(es, human_readable)[k].index == i,
        tree_lines(es, human_readable)[l].index == j,
    ensures
        k < l,
{
    let ps = paths(es);
    let tree = tree_lines(es, human_readable);
    lemma_root_indent(ps, i);
    lemma_root_indent(ps, j);
    lemma_roots_split(es, 0, i, human_readable);
    let earlier = roots_between(es, 0, i, human_readable);
    let first = block_of(es, i, human_readable);
    let rest = roots_lines(es, i + 1, human_readable);
    assert(roots_lines(es, i, human_readable) == first + rest);
    lemma_roots_split(es, i + 1, j, human_readable);
    let between = roots_between(es, i + 1, j, human_readable);
    let second = block_of(es, j, human_readable);
    let last = roots_lines(es, j + 1, human_readable);
    assert(roots_lines(es, j, human_readable) == second + last);
    assert(rest =~= between + second + last);
    lemma_block_begins_with_own_line(es, i, human_readable);
    lemma_block_begins_with_own_line(es, j, human_readable);
    lemma_named_inside(between, second, last, j);
    lemma_before_across(first, rest, i, j);
    lemma_before_inside(earlier, first + rest, Seq::empty(), i, j);
    assert(tree =~= earlier + (first + rest) + Seq::<TreeLineView>::empty());
    lemma_tree_shows_each_entry_once(es, human_readable, i);
    lemma_tree_shows_each_entry_once(es, human_readable, j);
    lemma_before_is_above(tree, i, j, k, l);
}

} // verus!
