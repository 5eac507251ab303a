//! What the listings show: the tree rebuilt from a flat sequence of entries,
//! the rows of the long and table formats, and the summary.

use vstd::prelude::*;
use tabled::builder::Builder;
use tabled::settings::object::{Columns, Rows};
use tabled::settings::{Color, Modify, Style, Width};
use crate::file_entry::{
    is_parent_of, parent_of, parts_view, paths, same_parts, views, EntryView, FileEntry, PartView,
    PathPart,
};
use crate::filtering::{hidden, texts};
use crate::size_utils::{human_text, HumanSize};
use crate::text::{
    decimal_digits, decimal_text, padded_left, padded_right, push_decimal, push_padded_left,
    push_padded_right, starts_with_char,
};

verus! {

/// One line of a tree: what stands before the name, which entry is named,
/// and what stands behind the name.
#[derive(Debug)]
pub struct TreeLine {
    /// The indentation and the connector.
    pub lead: String,
    /// The position of the entry in the sequence the tree was made from.
    pub index: usize,
    /// The size in parentheses, or nothing.
    pub suffix: String,
}

/// What a `TreeLine` stands for.
pub ghost struct TreeLineView {
    pub lead: Seq<char>,
    pub index: int,
    pub suffix: Seq<char>,
}

impl View for TreeLine {
    type V = TreeLineView;

    open spec fn view(&self) -> TreeLineView {
        TreeLineView { lead: self.lead@, index: self.index as int, suffix: self.suffix@ }
    }
}

/// The views of a sequence of lines.
pub open spec fn line_views(lines: Seq<TreeLine>) -> Seq<TreeLineView> {
    lines.map_values(|l: TreeLine| l@)
}

/// The connector before a name: one form for the last of its siblings,
/// another for the rest.
pub open spec fn connector(is_last: bool) -> Seq<char> {
    if is_last {
        seq!['└', '─', '─', ' ']
    } else {
        seq!['├', '─', '─', ' ']
    }
}

/// What the lines below an entry are indented by, beyond the entry's own
/// indentation: blank below a last sibling, a bar below any other.
pub open spec fn indent(is_last: bool) -> Seq<char> {
    if is_last {
        seq![' ', ' ', ' ', ' ']
    } else {
        seq!['│', ' ', ' ', ' ']
    }
}

/// What follows the name: the size in parentheses where sizes are shown.
pub open spec fn size_suffix(size: u64, human_readable: bool) -> Seq<char> {
    if human_readable {
        seq![' ', '('] + human_text(size as nat) + seq![')']
    } else {
        Seq::empty()
    }
}

/// Whether `k` is the first position at which the path `node` stands.
pub open spec fn is_first_position(ps: Seq<Seq<PartView>>, node: Seq<PartView>, k: int) -> bool {
    &&& 0 <= k < ps.len()
    &&& ps[k] == node
    &&& forall|j: int| 0 <= j < k ==> ps[j] != node
}

/// The first position at which the path `node` stands. An entry is looked
/// up by its path, so of several entries with one path the first is shown.
pub open spec fn first_position(ps: Seq<Seq<PartView>>, node: Seq<PartView>) -> int {
    choose|k: int| is_first_position(ps, node, k)
}

/// Whether the entry at position `j` is a child of the path `node`: whether
/// `node` is its parent path.
pub open spec fn is_child_at(ps: Seq<Seq<PartView>>, node: Seq<PartView>, j: int) -> bool {
    0 <= j < ps.len() && parent_of(ps[j]) == Some(node)
}

/// Whether `node` has a child behind position `after`.
pub open spec fn has_later_child(ps: Seq<Seq<PartView>>, node: Seq<PartView>, after: int) -> bool {
    exists|j: int| after < j && #[trigger] is_child_at(ps, node, j)
}

/// Whether the entry at position `j` is a root: no entry stands at its
/// parent path.
pub open spec fn is_root_at(ps: Seq<Seq<PartView>>, j: int) -> bool {
    0 <= j < ps.len() && forall|i: int| 0 <= i < ps.len() ==> !is_child_at(ps, #[trigger] ps[i], j)
}

/// Whether there is a root behind position `after`.
pub open spec fn has_later_root(ps: Seq<Seq<PartView>>, after: int) -> bool {
    exists|j: int| after < j && #[trigger] is_root_at(ps, j)
}

/// The number of components of the longest path.
pub open spec fn longest_path(ps: Seq<Seq<PartView>>) -> nat
    decreases ps.len(),
{
    if ps.len() == 0 {
        0
    } else if ps.last().len() > longest_path(ps.drop_last()) {
        ps.last().len()
    } else {
        longest_path(ps.drop_last())
    }
}

/// No path is longer than the longest.
pub proof fn lemma_longest_path(ps: Seq<Seq<PartView>>, j: int)
    requires
        0 <= j < ps.len(),
    ensures
        ps[j].len() <= longest_path(ps),
    decreases ps.len(),
{
    if j < ps.len() - 1 {
        lemma_longest_path(ps.drop_last(), j);
    }
}

/// The line for the entry at the path `node`.
pub open spec fn node_line(
    es: Seq<EntryView>,
    node: Seq<PartView>,
    prefix: Seq<char>,
    is_last: bool,
    human_readable: bool,
) -> TreeLineView {
    let k = first_position(paths(es), node);
    TreeLineView {
        lead: prefix + connector(is_last),
        index: k,
        suffix: size_suffix(es[k].size, human_readable),
    }
}

/// The lines of the entry at the path `node` and of all below it, depth
/// first: its own line, and the lines of its children under a longer prefix.
pub open spec fn subtree_lines(
    es: Seq<EntryView>,
    node: Seq<PartView>,
    prefix: Seq<char>,
    is_last: bool,
    human_readable: bool,
) -> Seq<TreeLineView>
    decreases longest_path(paths(es)) - node.len(), 1nat, 0nat,
{
    seq![node_line(es, node, prefix, is_last, human_readable)] + children_lines(
        es,
        node,
        0,
        prefix + indent(is_last),
        human_readable,
    )
}

/// The lines of the children of `node` that stand at position `from` or
/// behind it, in the order of the sequence. A child is the last of its
/// siblings when no child follows it.
pub open spec fn children_lines(
    es: Seq<EntryView>,
    node: Seq<PartView>,
    from: int,
    prefix: Seq<char>,
    human_readable: bool,
) -> Seq<TreeLineView>
    decreases longest_path(paths(es)) - node.len(), 0nat, es.len() - from,
{
    let ps = paths(es);
    if from < 0 || from >= es.len() {
        Seq::empty()
    } else if is_child_at(ps, node, from) {
        proof {
            lemma_longest_path(ps, from);
        }
        subtree_lines(es, ps[from], prefix, !has_later_child(ps, node, from), human_readable)
            + children_lines(es, node, from + 1, prefix, human_readable)
    } else {
        children_lines(es, node, from + 1, prefix, human_readable)
    }
}

/// The lines of the roots that stand at position `from` or behind it, each
/// with all below it.
pub open spec fn roots_lines(es: Seq<EntryView>, from: int, human_readable: bool) -> Seq<
    TreeLineView,
>
    decreases es.len() - from,
{
    let ps = paths(es);
    if from < 0 || from >= es.len() {
        Seq::empty()
    } else if is_root_at(ps, from) {
        subtree_lines(es, ps[from], Seq::empty(), !has_later_root(ps, from), human_readable)
            + roots_lines(es, from + 1, human_readable)
    } else {
        roots_lines(es, from + 1, human_readable)
    }
}

/// The lines of the tree of `es`: every root with all below it. The roots
/// are the entries whose parent path is no entry's path, however deep they
/// lie; siblings come in the order of the sequence.
pub open spec fn tree_lines(es: Seq<EntryView>, human_readable: bool) -> Seq<TreeLineView> {
    roots_lines(es, 0, human_readable)
}

/// Positions without a child of `node` add no lines.
proof fn lemma_children_lines_skip(
    es: Seq<EntryView>,
    node: Seq<PartView>,
    a: int,
    b: int,
    prefix: Seq<char>,
    human_readable: bool,
)
    requires
        0 <= a <= b <= es.len(),
        forall|j: int| a <= j < b ==> !is_child_at(paths(es), node, j),
    ensures
        children_lines(es, node, a, prefix, human_readable) == children_lines(
            es,
            node,
            b,
            prefix,
            human_readable,
        ),
    decreases b - a,
{
    if a < b {
        assert(!is_child_at(paths(es), node, a));
        lemma_children_lines_skip(es, node, a + 1, b, prefix, human_readable);
    }
}

/// Positions without a root add no lines.
proof fn lemma_roots_lines_skip(es: Seq<EntryView>, a: int, b: int, human_readable: bool)
    requires
        0 <= a <= b <= es.len(),
        forall|j: int| a <= j < b ==> !is_root_at(paths(es), j),
    ensures
        roots_lines(es, a, human_readable) == roots_lines(es, b, human_readable),
    decreases b - a,
{
    if a < b {
        assert(!is_root_at(paths(es), a));
        lemma_roots_lines_skip(es, a + 1, b, human_readable);
    }
}

/// Whether every line names an entry at a position below `n`.
pub open spec fn names_entries(lines: Seq<TreeLine>, n: nat) -> bool {
    forall|k: int| 0 <= k < lines.len() ==> (#[trigger] lines[k]).index < n
}

/// Whether `list` holds, in rising order, exactly the positions below `n`
/// of which `wanted` holds.
spec fn lists_exactly(list: Seq<usize>, n: int, wanted: spec_fn(int) -> bool) -> bool {
    &&& forall|k: int| 0 <= k < list.len() ==> 0 <= #[trigger] list[k] < n && wanted(list[k] as int)
    &&& forall|k: int, l: int| 0 <= k < l < list.len() ==> list[k] < list[l]
    &&& forall|j: int|
        0 <= j < n && #[trigger] holds_at(wanted, j) ==> exists|k: int|
            0 <= k < list.len() && #[trigger] list[k] == j
}

/// Whether `wanted` holds of `j`.
spec fn holds_at(wanted: spec_fn(int) -> bool, j: int) -> bool {
    wanted(j)
}

/// Where the next listed position lies: at `list[i]`, or at `n` behind the
/// last.
spec fn next_listed(list: Seq<usize>, i: int, n: int) -> int {
    if i < list.len() {
        list[i] as int
    } else {
        n
    }
}

/// The position behind the one listed before `list[i]`, or 0 for the first.
spec fn behind_previous(list: Seq<usize>, i: int) -> int {
    if i == 0 {
        0
    } else {
        list[i - 1] + 1
    }
}

/// Between one listed position and the next, `wanted` holds nowhere.
proof fn lemma_listed_gaps(list: Seq<usize>, n: int, wanted: spec_fn(int) -> bool, i: int)
    requires
        lists_exactly(list, n, wanted),
        0 <= i <= list.len(),
        0 <= n,
    ensures
        forall|j: int|
            behind_previous(list, i) <= j < next_listed(list, i, n) ==> !#[trigger] holds_at(
                wanted,
                j,
            ),
        0 <= behind_previous(list, i) <= next_listed(list, i, n) <= n,
{
    if 0 < i < list.len() {
        assert(list[i - 1] < list[i]);
    }
    if i > 0 {
        assert(0 <= list[i - 1] < n);
    }
    if i < list.len() {
        assert(0 <= list[i] < n);
    }
    assert forall|j: int|
        behind_previous(list, i) <= j < next_listed(list, i, n) implies !#[trigger] holds_at(
        wanted,
        j,
    ) by {
        if holds_at(wanted, j) {
            let k = choose|k: int| 0 <= k < list.len() && #[trigger] list[k] == j;
            if k < i {
                if k < i - 1 {
                    assert(list[k] < list[i - 1]);
                }
            } else {
                if k > i {
                    assert(list[i] < list[k]);
                }
            }
        }
    }
}

/// The first position at which an entry has the path `node`.
fn find_first(entries: &Vec<FileEntry>, node: &Vec<PathPart>) -> (k: usize)
    requires
        exists|j: int|
            0 <= j < entries@.len() && #[trigger] paths(views(entries@))[j] == parts_view(node@),
    ensures
        k < entries@.len(),
        k == first_position(paths(views(entries@)), parts_view(node@)),
{
    let ghost ps = paths(views(entries@));
    let ghost target = parts_view(node@);
    let mut i: usize = 0;
    while i < entries.len()
        invariant
            i <= entries@.len(),
            ps == paths(views(entries@)),
            target == parts_view(node@),
            forall|j: int| 0 <= j < i ==> ps[j] != target,
        decreases entries@.len() - i,
    {
        if same_parts(entries[i].parts(), node) {
            proof {
                assert(is_first_position(ps, target, i as int));
                let chosen = first_position(ps, target);
                assert(is_first_position(ps, target, chosen));
                if chosen < i {
                    assert(ps[chosen] != target);
                }
            }
            return i;
        }
        i = i + 1;
    }
    proof {
        let j = choose|j: int|
            0 <= j < entries@.len() && #[trigger] paths(views(entries@))[j] == parts_view(node@);
        assert(ps[j] != target);
    }
    0
}

/// The positions of the children of `node`, in rising order.
fn child_list(entries: &Vec<FileEntry>, node: &Vec<PathPart>) -> (list: Vec<usize>)
    ensures
        lists_exactly(
            list@,
            entries@.len() as int,
            |j: int| is_child_at(paths(views(entries@)), parts_view(node@), j),
        ),
        list@.len() <= entries@.len(),
{
    let ghost ps = paths(views(entries@));
    let ghost target = parts_view(node@);
    let ghost wanted = |j: int| is_child_at(ps, target, j);
    let mut list: Vec<usize> = Vec::new();
    let mut i: usize = 0;
    while i < entries.len()
        invariant
            i <= entries@.len(),
            ps == paths(views(entries@)),
            target == parts_view(node@),
            wanted == (|j: int| is_child_at(ps, target, j)),
            lists_exactly(list@, i as int, wanted),
            list@.len() <= i,
        decreases entries@.len() - i,
    {
        let ghost before = list@;
        if is_parent_of(node, entries[i].parts()) {
            list.push(i);
            proof {
                assert forall|j: int| 0 <= j < i + 1 && #[trigger] holds_at(
                    wanted,
                    j,
                ) implies exists|k: int| 0 <= k < list@.len() && #[trigger] list@[k] == j by {
                    if j < i {
                        let k = choose|k: int| 0 <= k < before.len() && #[trigger] before[k] == j;
                        assert(list@[k] == j);
                    } else {
                        assert(list@[list@.len() - 1] == j);
                    }
                }
            }
        }
        i = i + 1;
    }
    list
}

/// Whether no entry stands at the parent path of the entry at position `i`.
fn is_root(entries: &Vec<FileEntry>, i: usize) -> (r: bool)
    requires
        i < entries@.len(),
    ensures
        r == is_root_at(paths(views(entries@)), i as int),
{
    let ghost ps = paths(views(entries@));
    let mut j: usize = 0;
    while j < entries.len()
        invariant
            j <= entries@.len(),
            i < entries@.len(),
            ps == paths(views(entries@)),
            forall|m: int| 0 <= m < j ==> !is_child_at(ps, #[trigger] ps[m], i as int),
        decreases entries@.len() - j,
    {
        if is_parent_of(entries[j].parts(), entries[i].parts()) {
            assert(is_child_at(ps, ps[j as int], i as int));
            return false;
        }
        j = j + 1;
    }
    true
}

/// The positions of the roots, in rising order.
fn root_list(entries: &Vec<FileEntry>) -> (list: Vec<usize>)
    ensures
        lists_exactly(
            list@,
            entries@.len() as int,
            |j: int| is_root_at(paths(views(entries@)), j),
        ),
        list@.len() <= entries@.len(),
{
    let ghost ps = paths(views(entries@));
    let ghost wanted = |j: int| is_root_at(ps, j);
    let mut list: Vec<usize> = Vec::new();
    let mut i: usize = 0;
    while i < entries.len()
        invariant
            i <= entries@.len(),
            ps == paths(views(entries@)),
            wanted == (|j: int| is_root_at(ps, j)),
            lists_exactly(list@, i as int, wanted),
            list@.len() <= i,
        decreases entries@.len() - i,
    {
        let ghost before = list@;
        if is_root(entries, i) {
            list.push(i);
            proof {
                assert forall|j: int| 0 <= j < i + 1 && #[trigger] holds_at(
                    wanted,
                    j,
                ) implies exists|k: int| 0 <= k < list@.len() && #[trigger] list@[k] == j by {
                    if j < i {
                        let k = choose|k: int| 0 <= k < before.len() && #[trigger] before[k] == j;
                        assert(list@[k] == j);
                    } else {
                        assert(list@[list@.len() - 1] == j);
                    }
                }
            }
        }
        i = i + 1;
    }
    list
}

/// `a` followed by `b`.
fn joined(a: &str, b: &str) -> (r: String)
    ensures
        r@ == a@ + b@,
{
    let mut out = String::from_str(a);
    out.append(b);
    out
}

/// The text behind a name in the tree.
fn suffix_text(size: u64, human_readable: bool) -> (r: String)
    ensures
        r@ == size_suffix(size, human_readable),
{
    let mut out = String::new();
    if human_readable {
        proof {
            reveal_strlit(" (");
            reveal_strlit(")");
        }
        out.append(" (");
        let text = HumanSize::new(size).format();
        out.append(text.as_str());
        out.append(")");
        assert(out@ =~= size_suffix(size, human_readable));
    }
    out
}

/// Appends the lines of the entry at the path `node` and of all below it.
fn push_subtree(
    entries: &Vec<FileEntry>,
    node: &Vec<PathPart>,
    prefix: &str,
    is_last: bool,
    human_readable: bool,
    out: &mut Vec<TreeLine>,
)
    requires
        exists|j: int|
            0 <= j < entries@.len() && #[trigger] paths(views(entries@))[j] == parts_view(node@),
        names_entries(old(out)@, entries@.len()),
    ensures
        line_views(final(out)@) == line_views(old(out)@) + subtree_lines(
            views(entries@),
            parts_view(node@),
            prefix@,
            is_last,
            human_readable,
        ),
        names_entries(final(out)@, entries@.len()),
    decreases longest_path(paths(views(entries@))) - parts_view(node@).len(),
{
    let ghost es = views(entries@);
    let ghost ps = paths(es);
    let ghost target = parts_view(node@);
    let ghost n = entries@.len() as int;
    let ghost base = line_views(out@);
    proof {
        reveal_strlit("└── ");
        reveal_strlit("├── ");
        reveal_strlit("    ");
        reveal_strlit("│   ");
    }
    let k = find_first(entries, node);
    let lead = joined(prefix, if is_last { "└── " } else { "├── " });
    let suffix = suffix_text(entries[k].size(), human_readable);
    let line = TreeLine { lead, index: k, suffix };
    proof {
        assert(line.lead@ =~= prefix@ + connector(is_last));
        assert(line@ == node_line(es, target, prefix@, is_last, human_readable));
    }
    let ghost before = out@;
    out.push(line);
    assert(line_views(out@) =~= base + seq![line@]);
    let children = child_list(entries, node);
    let below = joined(prefix, if is_last { "    " } else { "│   " });
    assert(below@ =~= prefix@ + indent(is_last));
    let ghost wanted = |j: int| is_child_at(ps, target, j);
    let ghost rest = children_lines(es, target, 0, below@, human_readable);
    proof {
        lemma_listed_gaps(children@, n, wanted, 0);
        assert forall|j: int| 0 <= j < next_listed(children@, 0, n) implies !is_child_at(
            ps,
            target,
            j,
        ) by {
            assert(!holds_at(wanted, j));
        }
        lemma_children_lines_skip(
            es,
            target,
            0,
            next_listed(children@, 0, n),
            below@,
            human_readable,
        );
    }
    let mut i: usize = 0;
    while i < children.len()
        invariant
            i <= children@.len(),
            children@.len() <= n,
            n == entries@.len(),
            es == views(entries@),
            ps == paths(es),
            target == parts_view(node@),
            wanted == (|j: int| is_child_at(ps, target, j)),
            lists_exactly(children@, n, wanted),
            rest == children_lines(es, target, 0, below@, human_readable),
            names_entries(out@, entries@.len()),
            line_views(out@) + children_lines(
                es,
                target,
                next_listed(children@, i as int, n),
                below@,
                human_readable,
            ) == base + seq![line@] + rest,
        decreases children@.len() - i,
    {
        let c = children[i];
        let last_child = i == children.len() - 1;
        let ghost so_far = line_views(out@);
        proof {
            assert(wanted(c as int));
            assert(is_child_at(ps, target, c as int));
            lemma_longest_path(ps, c as int);
            if last_child {
                if has_later_child(ps, target, c as int) {
                    let j = choose|j: int| c < j && #[trigger] is_child_at(ps, target, j);
                    assert(holds_at(wanted, j));
                    let m = choose|m: int| 0 <= m < children@.len() && #[trigger] children@[m] == j;
                    if m < i {
                        assert(children@[m] < children@[i as int]);
                    }
                }
            } else {
                assert(wanted(children@[i + 1] as int));
                assert(is_child_at(ps, target, children@[i + 1] as int));
            }
            assert(last_child == !has_later_child(ps, target, c as int));
        }
        push_subtree(entries, entries[c].parts(), below.as_str(), last_child, human_readable, out);
        proof {
            let sub = subtree_lines(es, ps[c as int], below@, last_child, human_readable);
            lemma_listed_gaps(children@, n, wanted, i + 1);
            assert forall|j: int| c + 1 <= j < next_listed(children@, i + 1, n) implies !is_child_at(
                ps,
                target,
                j,
            ) by {
                assert(!holds_at(wanted, j));
            }
            lemma_children_lines_skip(
                es,
                target,
                c + 1,
                next_listed(children@, i + 1, n),
                below@,
                human_readable,
            );
            let tail = children_lines(
                es,
                target,
                next_listed(children@, i + 1, n),
                below@,
                human_readable,
            );
            assert(children_lines(es, target, c as int, below@, human_readable) == sub + tail);
            assert(line_views(out@) + tail =~= so_far + (sub + tail));
        }
        i = i + 1;
    }
    proof {
        assert(line_views(out@) =~= base + seq![line@] + rest);
        assert(base + seq![line@] + rest =~= base + (seq![line@] + rest));
    }
}

/// The lines of the tree of `entries`. Every root is shown with all below
/// it, depth first and in the order of the sequence; a root is an entry
/// whose parent path is no entry's path. Every line names one of the
/// entries.
pub fn render_tree(entries: &Vec<FileEntry>, human_readable: bool) -> (lines: Vec<TreeLine>)
    ensures
        line_views(lines@) == tree_lines(views(entries@), human_readable),
        names_entries(lines@, entries@.len()),
{
    let ghost es = views(entries@);
    let ghost ps = paths(es);
    let ghost n = entries@.len() as int;
    let ghost wanted = |j: int| is_root_at(ps, j);
    let mut out: Vec<TreeLine> = Vec::new();
    let roots = root_list(entries);
    proof {
        lemma_listed_gaps(roots@, n, wanted, 0);
        assert forall|j: int| 0 <= j < next_listed(roots@, 0, n) implies !is_root_at(ps, j) by {
            assert(!holds_at(wanted, j));
        }
        lemma_roots_lines_skip(es, 0, next_listed(roots@, 0, n), human_readable);
        assert(line_views(out@) =~= Seq::empty());
    }
    let mut i: usize = 0;
    while i < roots.len()
        invariant
            i <= roots@.len(),
            roots@.len() <= n,
            n == entries@.len(),
            es == views(entries@),
            ps == paths(es),
            wanted == (|j: int| is_root_at(ps, j)),
            lists_exactly(roots@, n, wanted),
            names_entries(out@, entries@.len()),
            line_views(out@) + roots_lines(es, next_listed(roots@, i as int, n), human_readable)
                == tree_lines(es, human_readable),
        decreases roots@.len() - i,
    {
        let r = roots[i];
        let last_root = i == roots.len() - 1;
        let ghost so_far = line_views(out@);
        proof {
            reveal_strlit("");
            assert(wanted(r as int));
            assert(is_root_at(ps, r as int));
            if last_root {
                if has_later_root(ps, r as int) {
                    let j = choose|j: int| r < j && #[trigger] is_root_at(ps, j);
                    assert(holds_at(wanted, j));
                    let m = choose|m: int| 0 <= m < roots@.len() && #[trigger] roots@[m] == j;
                    if m < i {
                        assert(roots@[m] < roots@[i as int]);
                    }
                }
            } else {
                assert(wanted(roots@[i + 1] as int));
                assert(is_root_at(ps, roots@[i + 1] as int));
            }
            assert(last_root == !has_later_root(ps, r as int));
            assert(""@ =~= Seq::<char>::empty());
        }
        push_subtree(entries, entries[r].parts(), "", last_root, human_readable, &mut out);
        proof {
            let sub = subtree_lines(es, ps[r as int], Seq::empty(), last_root, human_readable);
            lemma_listed_gaps(roots@, n, wanted, i + 1);
            assert forall|j: int| r + 1 <= j < next_listed(roots@, i + 1, n) implies !is_root_at(
                ps,
                j,
            ) by {
                assert(!holds_at(wanted, j));
            }
            lemma_roots_lines_skip(es, r + 1, next_listed(roots@, i + 1, n), human_readable);
            let tail = roots_lines(es, next_listed(roots@, i + 1, n), human_readable);
            assert(roots_lines(es, r as int, human_readable) == sub + tail);
            assert(line_views(out@) + tail =~= so_far + (sub + tail));
        }
        i = i + 1;
    }
    proof {
        assert(line_views(out@) + Seq::<TreeLineView>::empty() =~= line_views(out@));
    }
    out
}

/// The size as it is shown in a column: in units, or as a plain count of
/// bytes.
pub open spec fn size_text(size: u64, human_readable: bool) -> Seq<char> {
    if human_readable {
        human_text(size as nat)
    } else {
        decimal_digits(size as nat)
    }
}

/// The text at position `i`, or the empty text where there is none.
pub open spec fn text_at(list: Seq<Seq<char>>, i: int) -> Seq<char> {
    if 0 <= i < list.len() {
        list[i]
    } else {
        Seq::empty()
    }
}

/// An optional text, or the empty text where there is none.
pub open spec fn text_or_empty(s: Option<Seq<char>>) -> Seq<char> {
    match s {
        Some(t) => t,
        None => Seq::empty(),
    }
}

/// The titles of the columns of a long listing, each as wide as its column.
pub open spec fn long_titles() -> Seq<char> {
    seq![' '] + padded_right("Permissions"@, 10) + seq![' '] + padded_right("Owner"@, 8) + seq![
        ' ',
    ] + padded_right("Group"@, 8) + seq![' '] + padded_left("Size"@, 8) + seq![' ']
        + padded_right("Modified"@, 19) + seq![' '] + "Name"@
}

/// The rule below the titles: a blank and sixty dashes.
pub open spec fn long_rule() -> Seq<char> {
    seq![' '] + Seq::new(60, |i: int| '-')
}

/// The two lines above a long listing: the titles and the rule.
pub open spec fn long_header() -> Seq<Seq<char>> {
    seq![long_titles(), long_rule()]
}

/// What a row of a long listing shows before the name: permissions, owner,
/// group, size and the time of the last change, each in its column.
pub open spec fn long_lead(e: EntryView, human_readable: bool, modified: Seq<char>) -> Seq<char> {
    seq![' '] + padded_right(e.permission_text(), 10) + seq![' '] + padded_right(
        text_or_empty(e.owner),
        8,
    ) + seq![' '] + padded_right(text_or_empty(e.group), 8) + seq![' '] + padded_left(
        size_text(e.size, human_readable),
        8,
    ) + seq![' '] + padded_right(modified, 19) + seq![' ']
}

/// The titles of the columns of a table.
pub open spec fn table_header() -> Seq<Seq<char>> {
    seq!["Name"@, "Type"@, "Size"@, "Modified"@, "Permissions"@]
}

/// The cells of the row of a table for one entry.
pub open spec fn table_row(e: EntryView, human_readable: bool, modified: Seq<char>) -> Seq<
    Seq<char>,
> {
    seq![
        e.name(),
        if e.is_dir {
            "Dir"@
        } else {
            "File"@
        },
        size_text(e.size, human_readable),
        modified,
        e.permission_text(),
    ]
}

/// The rows of a table: the titles, and a row for each entry. `modified`
/// holds the text of each entry's time of last change.
pub open spec fn table_rows(
    es: Seq<EntryView>,
    human_readable: bool,
    modified: Seq<Seq<char>>,
) -> Seq<Seq<Seq<char>>> {
    seq![table_header()] + Seq::new(
        es.len(),
        |i: int| table_row(es[i], human_readable, text_at(modified, i)),
    )
}

/// The views of the rows of a table.
pub open spec fn rows_view(rows: Seq<Vec<String>>) -> Seq<Seq<Seq<char>>> {
    rows.map_values(|row: Vec<String>| texts(row@))
}

/// The text that `tabled` renders rows of cells to, in the rounded style,
/// wrapped at a width of 100, with the first row and each of the first five
/// columns in a color of its own.
pub uninterp spec fn table_text(rows: Seq<Seq<Seq<char>>>) -> Seq<char>;

/// Whether `rows` are the rows of a table of five columns: at least the
/// row of titles, and five cells in every row.
pub open spec fn five_columns(rows: Seq<Seq<Seq<char>>>) -> bool {
    rows.len() >= 1 && forall|i: int| 0 <= i < rows.len() ==> (#[trigger] rows[i]).len() == 5
}

/// Renders the rows of a table of five columns with `tabled`:
/// `Builder::from`, `Builder::build`, the settings through `Table::with`,
/// and the table's text. The text is a function of the cells alone; nothing
/// else is claimed of it.
#[verifier::external_body]
fn render_rows(rows: Vec<Vec<String>>) -> (text: String)
    requires
        five_columns(rows_view(rows@)),
    ensures
        text@ == table_text(rows_view(rows@)),
{
    let mut table = Builder::from(rows).build();
    table.with(Style::modern_rounded()).with(Width::wrap(100)).with(
        Modify::new(Rows::first()).with(Color::FG_BRIGHT_CYAN),
    ).with(Modify::new(Columns::first()).with(Color::FG_BRIGHT_BLUE)).with(
        Modify::new(Columns::new(1..2)).with(Color::FG_YELLOW),
    ).with(Modify::new(Columns::new(2..3)).with(Color::FG_MAGENTA)).with(
        Modify::new(Columns::new(3..4)).with(Color::FG_GREEN),
    ).with(Modify::new(Columns::new(4..5)).with(Color::FG_WHITE));
    table.to_string()
}

fn size_column(size: u64, human_readable: bool) -> (r: String)
    ensures
        r@ == size_text(size, human_readable),
{
    if human_readable {
        HumanSize::new(size).format()
    } else {
        decimal_text(size)
    }
}

/// The two lines above a long listing.
pub fn long_header_lines() -> (lines: Vec<String>)
    ensures
        texts(lines@) == long_header(),
{
    proof {
        reveal_strlit(" ");
        reveal_strlit("-");
    }
    let mut titles = String::from_str(" ");
    push_padded_right(&mut titles, "Permissions", 10);
    titles.append(" ");
    push_padded_right(&mut titles, "Owner", 8);
    titles.append(" ");
    push_padded_right(&mut titles, "Group", 8);
    titles.append(" ");
    push_padded_left(&mut titles, "Size", 8);
    titles.append(" ");
    push_padded_right(&mut titles, "Modified", 19);
    titles.append(" ");
    titles.append("Name");
    assert(titles@ =~= long_titles());
    let mut rule = String::from_str(" ");
    assert(rule@ =~= seq![' '] + Seq::new(0, |k: int| '-'));
    let mut i: usize = 0;
    while i < 60
        invariant
            i <= 60,
            rule@ == seq![' '] + Seq::new(i as nat, |k: int| '-'),
        decreases 60 - i,
    {
        proof {
            reveal_strlit("-");
        }
        rule.append("-");
        i = i + 1;
        assert(rule@ =~= seq![' '] + Seq::new(i as nat, |k: int| '-'));
    }
    assert(rule@ =~= long_rule());
    let mut lines: Vec<String> = Vec::new();
    lines.push(titles);
    lines.push(rule);
    proof {
        assert(texts(lines@) =~= long_header());
    }
    lines
}

/// What the row of a long listing for `entry` shows before the name.
/// `modified` is the text of the entry's time of last change.
pub fn long_row_lead(entry: &FileEntry, human_readable: bool, modified: &str) -> (r: String)
    ensures
        r@ == long_lead(entry@, human_readable, modified@),
{
    proof {
        reveal_strlit(" ");
        reveal_strlit("");
    }
    let owner = match entry.owner() {
        Some(s) => s,
        None => "",
    };
    let group = match entry.group() {
        Some(s) => s,
        None => "",
    };
    assert(owner@ =~= text_or_empty(entry@.owner));
    assert(group@ =~= text_or_empty(entry@.group));
    let size = size_column(entry.size(), human_readable);
    let permissions = entry.permissions();
    let mut out = String::from_str(" ");
    push_padded_right(&mut out, permissions.as_str(), 10);
    out.append(" ");
    push_padded_right(&mut out, owner, 8);
    out.append(" ");
    push_padded_right(&mut out, group, 8);
    out.append(" ");
    push_padded_left(&mut out, size.as_str(), 8);
    out.append(" ");
    push_padded_right(&mut out, modified, 19);
    out.append(" ");
    out
}

/// The titles of the columns of a table.
pub fn table_header_cells() -> (cells: Vec<String>)
    ensures
        texts(cells@) == table_header(),
{
    let mut cells: Vec<String> = Vec::new();
    cells.push(String::from_str("Name"));
    cells.push(String::from_str("Type"));
    cells.push(String::from_str("Size"));
    cells.push(String::from_str("Modified"));
    cells.push(String::from_str("Permissions"));
    assert(texts(cells@) =~= table_header());
    cells
}

/// The cells of the row of a table for `entry`. `modified` is the text of
/// the entry's time of last change.
pub fn table_row_cells(entry: &FileEntry, human_readable: bool, modified: &str) -> (cells: Vec<
    String,
>)
    ensures
        texts(cells@) == table_row(entry@, human_readable, modified@),
{
    let mut cells: Vec<String> = Vec::new();
    cells.push(String::from_str(entry.name()));
    cells.push(String::from_str(if entry.is_dir() { "Dir" } else { "File" }));
    cells.push(size_column(entry.size(), human_readable));
    cells.push(String::from_str(modified));
    cells.push(entry.permissions());
    assert(texts(cells@) =~= table_row(entry@, human_readable, modified@));
    cells
}

/// The table of `entries` as text. `modified` holds, for each entry, the
/// text of its time of last change; an entry without one shows none.
pub fn format_table(entries: &Vec<FileEntry>, human_readable: bool, modified: &Vec<String>) -> (text:
    String)
    ensures
        text@ == table_text(table_rows(views(entries@), human_readable, texts(modified@))),
{
    let ghost es = views(entries@);
    let ghost wanted = table_rows(es, human_readable, texts(modified@));
    let mut rows: Vec<Vec<String>> = Vec::new();
    rows.push(table_header_cells());
    assert(rows_view(rows@) =~= wanted.take(1));
    let mut i: usize = 0;
    while i < entries.len()
        invariant
            i <= entries@.len(),
            es == views(entries@),
            wanted == table_rows(es, human_readable, texts(modified@)),
            rows_view(rows@) == wanted.take(i + 1),
        decreases entries@.len() - i,
    {
        proof {
            reveal_strlit("");
        }
        let text = if i < modified.len() {
            modified[i].as_str()
        } else {
            ""
        };
        assert(text@ =~= text_at(texts(modified@), i as int));
        let ghost before = rows@;
        let cells = table_row_cells(&entries[i], human_readable, text);
        rows.push(cells);
        i = i + 1;
        proof {
            assert(rows_view(rows@) =~= rows_view(before).push(texts(cells@)));
            assert(wanted.take(i + 1) =~= wanted.take(i as int).push(wanted[i as int]));
        }
    }
    assert(wanted.take(i + 1) =~= wanted);
    assert(five_columns(wanted)) by {
        assert forall|k: int| 0 <= k < wanted.len() implies (#[trigger] wanted[k]).len() == 5 by {
            if k > 0 {
                assert(wanted[k] == table_row(es[k - 1], human_readable, text_at(texts(modified@), k - 1)));
            }
        }
    }
    render_rows(rows)
}

/// The counts shown below a listing.
#[derive(Debug, Clone, Copy, PartialEq, Eq, Structural)]
pub struct Summary {
    /// How many entries are files.
    pub files: usize,
    /// How many are directories.
    pub directories: usize,
    /// How many are hidden.
    pub hidden: usize,
    /// The sizes of all entries together.
    pub total_size: u64,
}

/// How many of `es` are directories.
pub open spec fn count_directories(es: Seq<EntryView>) -> nat
    decreases es.len(),
{
    if es.len() == 0 {
        0
    } else {
        count_directories(es.drop_last()) + if es.last().is_dir {
            1nat
        } else {
            0nat
        }
    }
}

/// How many of `es` are hidden.
pub open spec fn count_hidden(es: Seq<EntryView>) -> nat
    decreases es.len(),
{
    if es.len() == 0 {
        0
    } else {
        count_hidden(es.drop_last()) + if hidden(es.last()) {
            1nat
        } else {
            0nat
        }
    }
}

/// The sizes of `es` together.
pub open spec fn total_size(es: Seq<EntryView>) -> nat
    decreases es.len(),
{
    if es.len() == 0 {
        0
    } else {
        total_size(es.drop_last()) + es.last().size as nat
    }
}

/// Adding entries never lowers the total size.
proof fn lemma_total_size_grows(es: Seq<EntryView>, i: int)
    requires
        0 <= i <= es.len(),
    ensures
        total_size(es.take(i)) <= total_size(es),
    decreases es.len() - i,
{
    if i < es.len() {
        lemma_total_size_grows(es, i + 1);
        assert(es.take(i + 1).drop_last() =~= es.take(i));
    } else {
        assert(es.take(i) =~= es);
    }
}

/// Counts files, directories and hidden entries and adds up the sizes.
/// There is no summary where the sizes together exceed 64 bits.
pub fn summarize(entries: &Vec<FileEntry>) -> (r: Option<Summary>)
    ensures
        match r {
            Some(s) => {
                &&& s.directories == count_directories(views(entries@))
                &&& s.files == entries@.len() - count_directories(views(entries@))
                &&& s.hidden == count_hidden(views(entries@))
                &&& s.total_size == total_size(views(entries@))
            },
            None => total_size(views(entries@)) > u64::MAX,
        },
{
    let ghost es = views(entries@);
    let mut files: usize = 0;
    let mut directories: usize = 0;
    let mut hidden_count: usize = 0;
    let mut total: u64 = 0;
    let mut i: usize = 0;
    while i < entries.len()
        invariant
            i <= entries@.len(),
            es == views(entries@),
            directories == count_directories(es.take(i as int)),
            files + directories == i,
            hidden_count == count_hidden(es.take(i as int)),
            hidden_count <= i,
            total == total_size(es.take(i as int)),
        decreases entries@.len() - i,
    {
        let entry = &entries[i];
        proof {
            assert(es.take(i + 1).drop_last() =~= es.take(i as int));
            assert(es.take(i + 1).last() == entry@);
        }
        if entry.is_dir() {
            directories = directories + 1;
        } else {
            files = files + 1;
        }
        if starts_with_char(entry.name(), '.') {
            hidden_count = hidden_count + 1;
        }
        match total.checked_add(entry.size()) {
            Some(sum) => {
                total = sum;
            },
            None => {
                proof {
                    lemma_total_size_grows(es, i + 1);
                }
                return None;
            },
        }
        i = i + 1;
    }
    assert(es.take(i as int) =~= es);
    Some(Summary { files, directories, hidden: hidden_count, total_size: total })
}

/// The lines of a summary: the counts and the total size, under two
/// headings.
pub open spec fn summary_text(s: Summary) -> Seq<Seq<char>> {
    seq![
        Seq::empty(),
        "Summary:"@,
        "  Files: "@ + decimal_digits(s.files as nat),
        "  Directories: "@ + decimal_digits(s.directories as nat),
        "  Total Size: "@ + human_text(s.total_size as nat),
        Seq::empty(),
        "File Statistics:"@,
        "  Files: "@ + decimal_digits(s.files as nat),
        "  Directories: "@ + decimal_digits(s.directories as nat),
        "  Hidden: "@ + decimal_digits(s.hidden as nat),
        "  Total Size: "@ + human_text(s.total_size as nat),
    ]
}

fn labelled_count(label: &str, count: usize) -> (r: String)
    ensures
        r@ == label@ + decimal_digits(count as nat),
{
    let mut out = String::from_str(label);
    push_decimal(&mut out, count as u64);
    out
}

fn labelled_size(label: &str, size: u64) -> (r: String)
    ensures
        r@ == label@ + human_text(size as nat),
{
    let mut out = String::from_str(label);
    let text = HumanSize::new(size).format();
    out.append(text.as_str());
    out
}

/// The lines of a summary.
pub fn summary_lines(summary: &Summary) -> (lines: Vec<String>)
    ensures
        texts(lines@) == summary_text(*summary),
{
    let mut lines: Vec<String> = Vec::new();
    lines.push(String::new());
    lines.push(String::from_str("Summary:"));
    lines.push(labelled_count("  Files: ", summary.files));
    lines.push(labelled_count("  Directories: ", summary.directories));
    lines.push(labelled_size("  Total Size: ", summary.total_size));
    lines.push(String::new());
    lines.push(String::from_str("File Statistics:"));
    lines.push(labelled_count("  Files: ", summary.files));
    lines.push(labelled_count("  Directories: ", summary.directories));
    lines.push(labelled_count("  Hidden: ", summary.hidden));
    lines.push(labelled_size("  Total Size: ", summary.total_size));
    assert(texts(lines@) =~= summary_text(*summary));
    lines
}

} // verus!
