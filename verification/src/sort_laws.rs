//! Laws of the orderings: each is a total preorder, and what a sort by a
//! field guarantees.

use vstd::prelude::*;
use vstd::set_lib::{lemma_int_range, lemma_subset_equality, set_int_range};
use crate::file_entry::EntryView;
use crate::sorting::{
    digit_value, entry_order, extension_text, field_order, in_order, int_order, is_digit,
    is_permutation, is_stable_sort, leading_number, lemma_skip_digits_len, natural_order, number_from, precedes, skip_digits,
    text_order, SortField, SortOrder,
};

verus! {

/// Natural order seen from the other side is the opposite.
pub proof fn lemma_natural_order_antisymmetric(a: Seq<char>, b: Seq<char>)
    ensures
        natural_order(b, a) == -natural_order(a, b),
    decreases a.len(),
{
    if a.len() == 0 || b.len() == 0 {
    } else if is_digit(a[0]) && is_digit(b[0]) {
        if leading_number(a) == leading_number(b) {
            lemma_skip_digits_len(a);
            lemma_natural_order_antisymmetric(skip_digits(a), skip_digits(b));
        }
    } else if a[0] == b[0] {
        lemma_natural_order_antisymmetric(a.skip(1), b.skip(1));
    }
}

/// A string is equal to itself in natural order.
pub proof fn lemma_natural_order_reflexive(a: Seq<char>)
    ensures
        natural_order(a, a) == 0,
{
    lemma_natural_order_antisymmetric(a, a);
}

/// Natural order is transitive: what is not above `b`, with `b` not above
/// `c`, is not above `c`.
pub proof fn lemma_natural_order_transitive(a: Seq<char>, b: Seq<char>, c: Seq<char>)
    requires
        natural_order(a, b) <= 0,
        natural_order(b, c) <= 0,
    ensures
        natural_order(a, c) <= 0,
    decreases a.len(),
{
    if a.len() == 0 || b.len() == 0 || c.len() == 0 {
    } else if is_digit(a[0]) && is_digit(b[0]) && is_digit(c[0]) {
        if leading_number(a) == leading_number(b) && leading_number(b) == leading_number(c) {
            lemma_skip_digits_len(a);
            lemma_natural_order_transitive(skip_digits(a), skip_digits(b), skip_digits(c));
        }
    } else if a[0] == b[0] && b[0] == c[0] {
        lemma_natural_order_transitive(a.skip(1), b.skip(1), c.skip(1));
    }
}

/// Order by characters seen from the other side is the opposite.
pub proof fn lemma_text_order_antisymmetric(a: Seq<char>, b: Seq<char>)
    ensures
        text_order(b, a) == -text_order(a, b),
    decreases a.len(),
{
    if a.len() > 0 && b.len() > 0 && a[0] == b[0] {
        lemma_text_order_antisymmetric(a.skip(1), b.skip(1));
    }
}

/// Order by characters is transitive.
pub proof fn lemma_text_order_transitive(a: Seq<char>, b: Seq<char>, c: Seq<char>)
    requires
        text_order(a, b) <= 0,
        text_order(b, c) <= 0,
    ensures
        text_order(a, c) <= 0,
    decreases a.len(),
{
    if a.len() > 0 && b.len() > 0 && c.len() > 0 && a[0] == b[0] && b[0] == c[0] {
        lemma_text_order_transitive(a.skip(1), b.skip(1), c.skip(1));
    }
}

/// The order of two entries seen from the other side is the opposite, for
/// every field.
pub proof fn lemma_field_order_antisymmetric(a: EntryView, b: EntryView, field: SortField)
    ensures
        field_order(b, a, field) == -field_order(a, b, field),
{
    match field {
        SortField::Name => lemma_natural_order_antisymmetric(a.name(), b.name()),
        SortField::Type => lemma_text_order_antisymmetric(extension_text(a), extension_text(b)),
        _ => {},
    }
}

/// The order of entries is transitive, for every field.
pub proof fn lemma_field_order_transitive(a: EntryView, b: EntryView, c: EntryView, field: SortField)
    requires
        field_order(a, b, field) <= 0,
        field_order(b, c, field) <= 0,
    ensures
        field_order(a, c, field) <= 0,
{
    match field {
        SortField::Name => lemma_natural_order_transitive(a.name(), b.name(), c.name()),
        SortField::Type => {
            if a.is_dir == b.is_dir && b.is_dir == c.is_dir {
                lemma_text_order_transitive(
                    extension_text(a),
                    extension_text(b),
                    extension_text(c),
                );
            }
        },
        _ => {},
    }
}

/// The order of two entries seen from the other side is the opposite, in
/// both directions.
pub proof fn lemma_entry_order_antisymmetric(
    a: EntryView,
    b: EntryView,
    field: SortField,
    order: SortOrder,
)
    ensures
        entry_order(b, a, field, order) == -entry_order(a, b, field, order),
{
    lemma_field_order_antisymmetric(a, b, field);
}

/// The order of entries is transitive, in both directions.
pub proof fn lemma_entry_order_transitive(
    a: EntryView,
    b: EntryView,
    c: EntryView,
    field: SortField,
    order: SortOrder,
)
    requires
        entry_order(a, b, field, order) <= 0,
        entry_order(b, c, field, order) <= 0,
    ensures
        entry_order(a, c, field, order) <= 0,
{
    match order {
        SortOrder::Ascending => lemma_field_order_transitive(a, b, c, field),
        SortOrder::Descending => {
            lemma_field_order_antisymmetric(a, b, field);
            lemma_field_order_antisymmetric(b, c, field);
            lemma_field_order_antisymmetric(a, c, field);
            lemma_field_order_transitive(c, b, a, field);
        },
    }
}

/// Belonging before is transitive.
pub proof fn lemma_precedes_transitive(
    es: Seq<EntryView>,
    i: int,
    j: int,
    k: int,
    field: SortField,
    order: SortOrder,
)
    requires
        precedes(es, i, j, field, order),
        precedes(es, j, k, field, order),
    ensures
        precedes(es, i, k, field, order),
{
    lemma_entry_order_transitive(es[i], es[j], es[k], field, order);
    if entry_order(es[i], es[k], field, order) == 0 {
        lemma_entry_order_antisymmetric(es[i], es[k], field, order);
        lemma_entry_order_antisymmetric(es[i], es[j], field, order);
        lemma_entry_order_antisymmetric(es[j], es[k], field, order);
        lemma_entry_order_transitive(es[k], es[i], es[j], field, order);
        lemma_entry_order_transitive(es[j], es[k], es[i], field, order);
    }
}

/// Positions in sorted order are all different.
pub proof fn lemma_in_order_is_injective(
    p: Seq<int>,
    es: Seq<EntryView>,
    field: SortField,
    order: SortOrder,
)
    requires
        in_order(p, es, field, order),
    ensures
        forall|k: int, l: int| 0 <= k < l < p.len() ==> p[k] != p[l],
{
    assert forall|k: int, l: int| 0 <= k < l < p.len() implies p[k] != p[l] by {
        assert(precedes(es, p[k], p[l], field, order));
        lemma_entry_order_antisymmetric(es[p[k]], es[p[k]], field, order);
    }
}

/// The number that the leading run of digits of `s` spells, continuing from
/// `acc`, however large it is.
pub open spec fn unbounded_number_from(acc: nat, s: Seq<char>) -> nat
    decreases s.len(),
{
    if s.len() > 0 && is_digit(s[0]) {
        unbounded_number_from(acc * 10 + digit_value(s[0]) as nat, s.skip(1))
    } else {
        acc
    }
}

/// Further digits never make a number smaller.
pub proof fn lemma_unbounded_number_grows(acc: nat, s: Seq<char>)
    ensures
        unbounded_number_from(acc, s) >= acc,
    decreases s.len(),
{
    if s.len() > 0 && is_digit(s[0]) {
        lemma_unbounded_number_grows(acc * 10 + digit_value(s[0]) as nat, s.skip(1));
    }
}

/// A run of digits whose number stays below 2^64 is read exactly: only
/// beyond that does the number wrap around.
pub proof fn lemma_number_exact_below_64_bits(acc: u64, s: Seq<char>)
    requires
        unbounded_number_from(acc as nat, s) <= u64::MAX,
    ensures
        number_from(acc, s) == unbounded_number_from(acc as nat, s),
    decreases s.len(),
{
    if s.len() > 0 && is_digit(s[0]) {
        let d = digit_value(s[0]);
        lemma_unbounded_number_grows(acc as nat * 10 + d as nat, s.skip(1));
        assert(acc * 10 + d <= u64::MAX);
        let next = acc.wrapping_mul(10).wrapping_add(d);
        assert(acc.wrapping_mul(10) == acc * 10);
        assert(next == acc * 10 + d);
        lemma_number_exact_below_64_bits(next, s.skip(1));
    }
}

/// Whether `s` holds digits only.
pub open spec fn all_digits(s: Seq<char>) -> bool {
    forall|k: int| 0 <= k < s.len() ==> is_digit(#[trigger] s[k])
}

/// Whether `s` holds no digit.
pub open spec fn no_digits(s: Seq<char>) -> bool {
    forall|k: int| 0 <= k < s.len() ==> !is_digit(#[trigger] s[k])
}

/// Behind a string of digits nothing remains.
pub proof fn lemma_skip_all_digits(s: Seq<char>)
    requires
        all_digits(s),
    ensures
        skip_digits(s) == Seq::<char>::empty(),
    decreases s.len(),
{
    if s.len() > 0 {
        assert(is_digit(s[0]));
        assert forall|k: int| 0 <= k < s.skip(1).len() implies is_digit(#[trigger] s.skip(1)[k]) by {
            assert(s.skip(1)[k] == s[k + 1]);
        }
        lemma_skip_all_digits(s.skip(1));
    } else {
        assert(s =~= Seq::<char>::empty());
    }
}

/// Two strings of digits are ordered as the numbers they spell.
pub proof fn lemma_natural_order_of_numbers(a: Seq<char>, b: Seq<char>)
    requires
        all_digits(a),
        all_digits(b),
        a.len() > 0,
        b.len() > 0,
    ensures
        natural_order(a, b) == int_order(leading_number(a) as int, leading_number(b) as int),
{
    assert(is_digit(a[0]) && is_digit(b[0]));
    lemma_skip_all_digits(a);
    lemma_skip_all_digits(b);
    assert(natural_order(Seq::<char>::empty(), Seq::<char>::empty()) == 0);
}

/// A beginning without digits that two strings share does not change their
/// order: names that differ in a number behind the same words are ordered
/// by that number.
pub proof fn lemma_natural_order_common_prefix(p: Seq<char>, a: Seq<char>, b: Seq<char>)
    requires
        no_digits(p),
    ensures
        natural_order(p + a, p + b) == natural_order(a, b),
    decreases p.len(),
{
    if p.len() == 0 {
        assert(p + a =~= a);
        assert(p + b =~= b);
    } else {
        assert(!is_digit(p[0]));
        assert((p + a)[0] == p[0] && (p + b)[0] == p[0]);
        assert((p + a).skip(1) =~= p.skip(1) + a);
        assert((p + b).skip(1) =~= p.skip(1) + b);
        assert forall|k: int| 0 <= k < p.skip(1).len() implies !is_digit(#[trigger] p.skip(1)[k]) by {
            assert(p.skip(1)[k] == p[k + 1]);
        }
        lemma_natural_order_common_prefix(p.skip(1), a, b);
    }
}

/// In a sorted sequence no entry is above one that follows it.
pub proof fn lemma_sorted_pairs(
    p: Seq<int>,
    es: Seq<EntryView>,
    field: SortField,
    order: SortOrder,
)
    requires
        is_stable_sort(p, es, field, order),
    ensures
        forall|k: int, l: int|
            0 <= k < l < p.len() ==> entry_order(
                es[#[trigger] p[k]],
                es[#[trigger] p[l]],
                field,
                order,
            ) <= 0,
{
    assert forall|k: int, l: int| 0 <= k < l < p.len() implies entry_order(
        es[#[trigger] p[k]],
        es[#[trigger] p[l]],
        field,
        order,
    ) <= 0 by {
        assert(precedes(es, p[k], p[l], field, order));
    }
}

/// Sorted by size, descending, no entry is smaller than one that follows
/// it.
pub proof fn lemma_size_sort_descending(p: Seq<int>, es: Seq<EntryView>)
    requires
        is_stable_sort(p, es, SortField::Size, SortOrder::Descending),
    ensures
        forall|k: int, l: int|
            0 <= k < l < p.len() ==> es[#[trigger] p[k]].size >= es[#[trigger] p[l]].size,
{
    lemma_sorted_pairs(p, es, SortField::Size, SortOrder::Descending);
}

/// Sorted by type, ascending, all directories come before all files, and
/// among the directories and among the files the extensions rise.
pub proof fn lemma_type_sort_groups(p: Seq<int>, es: Seq<EntryView>)
    requires
        is_stable_sort(p, es, SortField::Type, SortOrder::Ascending),
    ensures
        forall|k: int, l: int|
            0 <= k < l < p.len() ==> (es[#[trigger] p[l]].is_dir ==> es[#[trigger] p[k]].is_dir),
        forall|k: int, l: int|
            0 <= k < l < p.len() && es[#[trigger] p[k]].is_dir == es[#[trigger] p[l]].is_dir
                ==> text_order(extension_text(es[p[k]]), extension_text(es[p[l]])) <= 0,
{
    lemma_sorted_pairs(p, es, SortField::Type, SortOrder::Ascending);
}

/// Sorted by type, descending, the whole order is reversed: all files come
/// before all directories.
pub proof fn lemma_type_sort_descending(p: Seq<int>, es: Seq<EntryView>)
    requires
        is_stable_sort(p, es, SortField::Type, SortOrder::Descending),
    ensures
        forall|k: int, l: int|
            0 <= k < l < p.len() ==> (es[#[trigger] p[k]].is_dir ==> es[#[trigger] p[l]].is_dir),
{
    lemma_sorted_pairs(p, es, SortField::Type, SortOrder::Descending);
}

/// Sorted by creation time, ascending, entries without one come before all
/// that have one.
pub proof fn lemma_created_sort_unknown_first(p: Seq<int>, es: Seq<EntryView>)
    requires
        is_stable_sort(p, es, SortField::Created, SortOrder::Ascending),
    ensures
        forall|k: int, l: int|
            0 <= k < l < p.len() ==> (es[#[trigger] p[l]].created is None ==> es[#[trigger] p[k]].created
                is None),
{
    lemma_sorted_pairs(p, es, SortField::Created, SortOrder::Ascending);
}

/// A permutation of the positions below `n` holds each of them.
pub proof fn lemma_permutation_covers(p: Seq<int>, n: nat, x: int)
    requires
        is_permutation(p, n),
        0 <= x < n,
    ensures
        exists|k: int| 0 <= k < n && p[k] == x,
{
    assert(p.no_duplicates());
    p.unique_seq_to_set();
    lemma_int_range(0, n as int);
    assert(p.to_set().subset_of(set_int_range(0, n as int))) by {
        assert forall|y: int| p.to_set().contains(y) implies set_int_range(0, n as int).contains(
            y,
        ) by {
            let k = choose|k: int| 0 <= k < p.len() && p[k] == y;
            assert(0 <= p[k] < n);
        }
    }
    lemma_subset_equality(p.to_set(), set_int_range(0, n as int));
    assert(set_int_range(0, n as int).contains(x));
    assert(p.to_set().contains(x));
    assert(p.contains(x));
}

/// Two stable sorts of one sequence agree on their first `k` positions.
proof fn lemma_stable_sorts_agree(
    p: Seq<int>,
    q: Seq<int>,
    es: Seq<EntryView>,
    field: SortField,
    order: SortOrder,
    k: int,
)
    requires
        is_stable_sort(p, es, field, order),
        is_stable_sort(q, es, field, order),
        0 <= k <= es.len(),
    ensures
        forall|i: int| 0 <= i < k ==> p[i] == q[i],
    decreases k,
{
    if k > 0 {
        lemma_stable_sorts_agree(p, q, es, field, order, k - 1);
        let n = es.len();
        let a = p[k - 1];
        let b = q[k - 1];
        if a != b {
            // Each of the two stands behind position k - 1 in the other sort,
            // so each would belong before the other.
            lemma_permutation_covers(p, n, b);
            let j = choose|j: int| 0 <= j < n && p[j] == b;
            lemma_permutation_covers(q, n, a);
            let m = choose|m: int| 0 <= m < n && q[m] == a;
            if j < k - 1 {
                assert(q[j] == q[k - 1]);
            }
            if m < k - 1 {
                assert(p[m] == p[k - 1]);
            }
            assert(precedes(es, p[k - 1], p[j], field, order));
            assert(precedes(es, q[k - 1], q[m], field, order));
            lemma_entry_order_antisymmetric(es[a], es[b], field, order);
        }
    }
}

/// A sequence has one stable sort only: the order of the entries and their
/// places in the sequence decide every position.
pub proof fn lemma_stable_sort_unique(
    p: Seq<int>,
    q: Seq<int>,
    es: Seq<EntryView>,
    field: SortField,
    order: SortOrder,
)
    requires
        is_stable_sort(p, es, field, order),
        is_stable_sort(q, es, field, order),
    ensures
        p == q,
{
    lemma_stable_sorts_agree(p, q, es, field, order, es.len() as int);
    assert(p =~= q);
}

} // verus!
