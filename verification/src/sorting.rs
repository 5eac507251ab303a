//! Ordering entries: the sort fields, natural ordering of names, and a
//! stable sort.

use vstd::prelude::*;
use vstd::std_specs::iter::IteratorSpec;
use std::cmp::Ordering;
use crate::file_entry::{views, EntryView, FileEntry, Timestamp};
use crate::sort_laws::{lemma_entry_order_antisymmetric, lemma_precedes_transitive};
use crate::text::{lowercase, lowercase_of, same_text};

verus! {

/// The field entries are ordered by.
#[derive(Debug, Clone, Copy, PartialEq, Eq, Structural)]
pub enum SortField {
    Name,
    Size,
    Modified,
    Created,
    Type,
}

/// The direction of a sort.
#[derive(Debug, Clone, Copy, PartialEq, Eq, Structural)]
pub enum SortOrder {
    Ascending,
    Descending,
}

/// How one value stands to another in an ordering.
#[derive(Debug, Clone, Copy, PartialEq, Eq, Structural)]
pub enum Rank {
    Lower,
    Same,
    Higher,
}

impl Rank {
    /// -1, 0 or 1.
    pub open spec fn sign(self) -> int {
        match self {
            Rank::Lower => -1,
            Rank::Same => 0,
            Rank::Higher => 1,
        }
    }

    /// The rank seen from the other side.
    pub fn reversed(self) -> (r: Rank)
        ensures
            r.sign() == -self.sign(),
    {
        match self {
            Rank::Lower => Rank::Higher,
            Rank::Same => Rank::Same,
            Rank::Higher => Rank::Lower,
        }
    }
}

/// The sort field that a lowercase name stands for.
pub open spec fn sort_field_named(name: Seq<char>) -> Option<SortField> {
    if name == "name"@ {
        Some(SortField::Name)
    } else if name == "size"@ {
        Some(SortField::Size)
    } else if name == "modified"@ {
        Some(SortField::Modified)
    } else if name == "created"@ {
        Some(SortField::Created)
    } else if name == "type"@ {
        Some(SortField::Type)
    } else {
        None
    }
}

/// The sort order that a lowercase name stands for.
pub open spec fn sort_order_named(name: Seq<char>) -> Option<SortOrder> {
    if name == "asc"@ || name == "ascending"@ {
        Some(SortOrder::Ascending)
    } else if name == "desc"@ || name == "descending"@ {
        Some(SortOrder::Descending)
    } else {
        None
    }
}

impl SortField {
    /// The field with exactly this name: `name`, `size`, `modified`,
    /// `created` or `type`.
    pub fn from_exact(name: &str) -> (r: Option<Self>)
        ensures
            r == sort_field_named(name@),
    {
        if same_text(name, "name") {
            Some(SortField::Name)
        } else if same_text(name, "size") {
            Some(SortField::Size)
        } else if same_text(name, "modified") {
            Some(SortField::Modified)
        } else if same_text(name, "created") {
            Some(SortField::Created)
        } else if same_text(name, "type") {
            Some(SortField::Type)
        } else {
            None
        }
    }

    /// The field that `s` names, whatever its case.
    pub fn from_str(s: &str) -> (r: Option<Self>)
        ensures
            r == sort_field_named(lowercase_of(s@)),
    {
        let lower = lowercase(s);
        SortField::from_exact(lower.as_str())
    }
}

impl SortOrder {
    /// The order with exactly this name: `asc`, `ascending`, `desc` or
    /// `descending`.
    pub fn from_exact(name: &str) -> (r: Option<Self>)
        ensures
            r == sort_order_named(name@),
    {
        if same_text(name, "asc") || same_text(name, "ascending") {
            Some(SortOrder::Ascending)
        } else if same_text(name, "desc") || same_text(name, "descending") {
            Some(SortOrder::Descending)
        } else {
            None
        }
    }

    /// The order that `s` names, whatever its case.
    pub fn from_str(s: &str) -> (r: Option<Self>)
        ensures
            r == sort_order_named(lowercase_of(s@)),
    {
        let lower = lowercase(s);
        SortOrder::from_exact(lower.as_str())
    }
}

/// Whether `c` is one of the ten decimal digits.
pub open spec fn is_digit(c: char) -> bool {
    '0' <= c && c <= '9'
}

/// The value of a decimal digit.
pub open spec fn digit_value(c: char) -> u64 {
    (c as u64 - '0' as u64) as u64
}

/// What remains of `s` after its leading run of digits.
pub open spec fn skip_digits(s: Seq<char>) -> Seq<char>
    decreases s.len(),
{
    if s.len() > 0 && is_digit(s[0]) {
        skip_digits(s.skip(1))
    } else {
        s
    }
}

/// The number that the leading run of digits of `s` spells, continuing from
/// `acc`. It is accumulated in 64 bits and wraps around beyond them: runs
/// are taken to stay below 2^64.
pub open spec fn number_from(acc: u64, s: Seq<char>) -> u64
    decreases s.len(),
{
    if s.len() > 0 && is_digit(s[0]) {
        number_from(acc.wrapping_mul(10).wrapping_add(digit_value(s[0])), s.skip(1))
    } else {
        acc
    }
}

/// The number that the leading run of digits of `s` spells.
pub open spec fn leading_number(s: Seq<char>) -> u64 {
    number_from(0, s)
}

/// What follows the leading run of digits is no longer than the whole.
pub proof fn lemma_skip_digits_len(s: Seq<char>)
    ensures
        skip_digits(s).len() <= s.len(),
        s.len() > 0 && is_digit(s[0]) ==> skip_digits(s).len() < s.len(),
    decreases s.len(),
{
    if s.len() > 0 && is_digit(s[0]) {
        lemma_skip_digits_len(s.skip(1));
    }
}

/// Natural order of two strings, as -1, 0 or 1. The strings are compared
/// character by character; where both stand at a digit, the two runs of
/// digits are compared as numbers, and comparison goes on behind them when
/// the numbers are equal. A string that ends first comes first.
pub open spec fn natural_order(a: Seq<char>, b: Seq<char>) -> int
    decreases a.len(),
{
    if a.len() == 0 && b.len() == 0 {
        0
    } else if a.len() == 0 {
        -1
    } else if b.len() == 0 {
        1
    } else if is_digit(a[0]) && is_digit(b[0]) {
        if leading_number(a) < leading_number(b) {
            -1
        } else if leading_number(a) > leading_number(b) {
            1
        } else {
            proof {
                lemma_skip_digits_len(a);
            }
            natural_order(skip_digits(a), skip_digits(b))
        }
    } else if a[0] < b[0] {
        -1
    } else if a[0] > b[0] {
        1
    } else {
        natural_order(a.skip(1), b.skip(1))
    }
}

/// The characters that an iterator and the character read ahead of it still
/// hold.
pub open spec fn pending(ahead: Option<char>, rest: Seq<char>) -> Seq<char> {
    match ahead {
        Some(c) => seq![c] + rest,
        None => rest,
    }
}

/// Reads the number that the run of digits at the front spells. `ahead` is
/// the character read ahead of `chars`, if one was; together with what
/// `chars` still holds it is what is read from. The run may be empty: the
/// number is 0 and nothing is used up. Returns the number and the first
/// character behind the run, which is the new character read ahead; there
/// is none at the end. `chars` is an iterator as `str::chars` makes it,
/// which has a measure of what it still holds.
pub fn extract_number(ahead: Option<char>, chars: &mut std::str::Chars<'_>) -> (r: (
    u64,
    Option<char>,
))
    requires
        (*old(chars)).decrease() is Some,
    ensures
        r.0 == leading_number(pending(ahead, (*old(chars)).remaining())),
        pending(r.1, (*final(chars)).remaining()) == skip_digits(
            pending(ahead, (*old(chars)).remaining()),
        ),
        r.1 is None ==> (*final(chars)).remaining().len() == 0,
        (*final(chars)).decrease() is Some,
        r.1 is Some && (*final(chars)).remaining().len() < (*old(chars)).remaining().len()
            ==> (*final(chars)).decrease()->0 < (*old(chars)).decrease()->0,
{
    let ghost whole = pending(ahead, (*old(chars)).remaining());
    let mut number: u64 = 0;
    let mut cur: Option<char> = match ahead {
        Some(c) => Some(c),
        None => chars.next(),
    };
    proof {
        assert(pending(cur, (*chars).remaining()) =~= whole);
    }
    loop
        invariant
            whole == pending(ahead, (*old(chars)).remaining()),
            (*chars).obeys_prophetic_iter_laws(),
            (*chars).decrease() is Some,
            (*chars).remaining().len() <= (*old(chars)).remaining().len(),
            cur is Some && (*chars).remaining().len() < (*old(chars)).remaining().len()
                ==> (*chars).decrease()->0 < (*old(chars)).decrease()->0,
            cur is Some && (*chars).remaining().len() == (*old(chars)).remaining().len()
                ==> (*chars).decrease()->0 == (*old(chars)).decrease()->0,
            cur is None ==> (*chars).remaining().len() == 0,
            number_from(number, pending(cur, (*chars).remaining())) == leading_number(whole),
            skip_digits(pending(cur, (*chars).remaining())) == skip_digits(whole),
        decreases (*chars).decrease()->0,
    {
        let ghost now = pending(cur, (*chars).remaining());
        match cur {
            None => {
                return (number, None);
            },
            Some(c) => {
                if '0' <= c && c <= '9' {
                    let ghost before = number;
                    let digit: u64 = (c as u32 - '0' as u32) as u64;
                    number = number.wrapping_mul(10).wrapping_add(digit);
                    proof {
                        assert(now.skip(1) =~= (*chars).remaining());
                        assert(now[0] == c);
                        assert(digit == digit_value(c));
                        assert(number_from(before, now) == number_from(number, now.skip(1)));
                        assert(skip_digits(now) == skip_digits(now.skip(1)));
                    }
                    match chars.next() {
                        None => {
                            proof {
                                assert(now.skip(1).len() == 0);
                            }
                            return (number, None);
                        },
                        Some(n) => {
                            proof {
                                assert(seq![n] + (*chars).remaining() =~= now.skip(1));
                            }
                            cur = Some(n);
                        },
                    }
                } else {
                    proof {
                        assert(now[0] == c);
                    }
                    return (number, Some(c));
                }
            },
        }
    }
}

/// Natural order of two strings.
pub fn natural_rank(a: &str, b: &str) -> (r: Rank)
    ensures
        r.sign() == natural_order(a@, b@),
{
    let mut ia = a.chars();
    let mut ib = b.chars();
    let mut ca = ia.next();
    let mut cb = ib.next();
    proof {
        assert(pending(ca, ia.remaining()) =~= a@);
        assert(pending(cb, ib.remaining()) =~= b@);
    }
    loop
        invariant
            ia.obeys_prophetic_iter_laws(),
            ib.obeys_prophetic_iter_laws(),
            ia.decrease() is Some,
            ib.decrease() is Some,
            ca is None ==> ia.remaining().len() == 0,
            cb is None ==> ib.remaining().len() == 0,
            natural_order(a@, b@) == natural_order(
                pending(ca, ia.remaining()),
                pending(cb, ib.remaining()),
            ),
        decreases ia.decrease()->0,
    {
        let ghost ra = pending(ca, ia.remaining());
        let ghost rb = pending(cb, ib.remaining());
        match (ca, cb) {
            (None, None) => {
                return Rank::Same;
            },
            (None, Some(_)) => {
                return Rank::Lower;
            },
            (Some(_), None) => {
                return Rank::Higher;
            },
            (Some(x), Some(y)) => {
                if '0' <= x && x <= '9' && '0' <= y && y <= '9' {
                    let ghost held = ia.remaining();
                    let (na, next_a) = extract_number(Some(x), &mut ia);
                    let (nb, next_b) = extract_number(Some(y), &mut ib);
                    if na < nb {
                        return Rank::Lower;
                    }
                    if na > nb {
                        return Rank::Higher;
                    }
                    proof {
                        assert(ra[0] == x && rb[0] == y);
                        lemma_skip_digits_len(ra);
                        if next_a is Some {
                            assert(pending(next_a, ia.remaining()).len() == 1 + ia.remaining().len());
                            assert(ra.len() == 1 + held.len());
                        }
                        assert(natural_order(ra, rb) == natural_order(
                            skip_digits(ra),
                            skip_digits(rb),
                        ));
                    }
                    ca = next_a;
                    cb = next_b;
                } else if x < y {
                    assert(ra[0] == x && rb[0] == y);
                    return Rank::Lower;
                } else if x > y {
                    assert(ra[0] == x && rb[0] == y);
                    return Rank::Higher;
                } else {
                    proof {
                        assert(ra[0] == x && rb[0] == y);
                        assert(ra.skip(1) =~= ia.remaining());
                        assert(rb.skip(1) =~= ib.remaining());
                    }
                    ca = ia.next();
                    cb = ib.next();
                    proof {
                        assert(pending(ca, ia.remaining()) =~= ra.skip(1));
                        assert(pending(cb, ib.remaining()) =~= rb.skip(1));
                    }
                }
                proof {
                    assert(natural_order(a@, b@) == natural_order(
                        pending(ca, ia.remaining()),
                        pending(cb, ib.remaining()),
                    ));
                    if ca is None {
                        assert(pending(ca, ia.remaining()).len() == 0);
                        if cb is None {
                            assert(pending(cb, ib.remaining()).len() == 0);
                        } else {
                            assert(pending(cb, ib.remaining()).len() > 0);
                        }
                    }
                }
                if ca.is_none() {
                    return if cb.is_none() {
                        Rank::Same
                    } else {
                        Rank::Lower
                    };
                }
            },
        }
    }
}

/// Natural order of two strings as an `Ordering`, for use as a comparison
/// function.
pub fn natural_sort(a: &str, b: &str) -> (r: Ordering)
    ensures
        r is Less <==> natural_order(a@, b@) < 0,
        r is Equal <==> natural_order(a@, b@) == 0,
        r is Greater <==> natural_order(a@, b@) > 0,
{
    match natural_rank(a, b) {
        Rank::Lower => Ordering::Less,
        Rank::Same => Ordering::Equal,
        Rank::Higher => Ordering::Greater,
    }
}

/// Order of two strings by their characters, as -1, 0 or 1: the first
/// character that differs decides, and a string that ends first comes first.
pub open spec fn text_order(a: Seq<char>, b: Seq<char>) -> int
    decreases a.len(),
{
    if a.len() == 0 && b.len() == 0 {
        0
    } else if a.len() == 0 {
        -1
    } else if b.len() == 0 {
        1
    } else if a[0] < b[0] {
        -1
    } else if a[0] > b[0] {
        1
    } else {
        text_order(a.skip(1), b.skip(1))
    }
}

/// Order of two integers, as -1, 0 or 1.
pub open spec fn int_order(a: int, b: int) -> int {
    if a < b {
        -1
    } else if a > b {
        1
    } else {
        0
    }
}

/// Order of two points in time: by seconds, and by nanoseconds among equal
/// seconds.
pub open spec fn time_order(a: Timestamp, b: Timestamp) -> int {
    if a.secs != b.secs {
        int_order(a.secs as int, b.secs as int)
    } else {
        int_order(a.nanos as int, b.nanos as int)
    }
}

/// Order of two optional points in time: an absent one comes before any
/// present one.
pub open spec fn optional_time_order(a: Option<Timestamp>, b: Option<Timestamp>) -> int {
    match (a, b) {
        (None, None) => 0,
        (None, Some(_)) => -1,
        (Some(_), None) => 1,
        (Some(x), Some(y)) => time_order(x, y),
    }
}

/// The extension an entry is ordered by: empty where it has none.
pub open spec fn extension_text(e: EntryView) -> Seq<char> {
    match e.extension() {
        Some(ext) => ext,
        None => Seq::empty(),
    }
}

/// Order by type: directories before files, and by extension among each.
pub open spec fn type_order(a: EntryView, b: EntryView) -> int {
    if a.is_dir && !b.is_dir {
        -1
    } else if !a.is_dir && b.is_dir {
        1
    } else {
        text_order(extension_text(a), extension_text(b))
    }
}

/// Order of two entries by a field, ascending.
pub open spec fn field_order(a: EntryView, b: EntryView, field: SortField) -> int {
    match field {
        SortField::Name => natural_order(a.name(), b.name()),
        SortField::Size => int_order(a.size as int, b.size as int),
        SortField::Modified => time_order(a.modified, b.modified),
        SortField::Created => optional_time_order(a.created, b.created),
        SortField::Type => type_order(a, b),
    }
}

/// Order of two entries by a field in a direction. A descending order is
/// the ascending one with every comparison reversed as a whole.
pub open spec fn entry_order(a: EntryView, b: EntryView, field: SortField, order: SortOrder) -> int {
    match order {
        SortOrder::Ascending => field_order(a, b, field),
        SortOrder::Descending => -field_order(a, b, field),
    }
}

/// Order of two strings by their characters.
pub fn text_rank(a: &str, b: &str) -> (r: Rank)
    ensures
        r.sign() == text_order(a@, b@),
{
    let mut ia = a.chars();
    let mut ib = b.chars();
    let ghost mut k: int = 0;
    proof {
        assert(a@.skip(0) =~= a@);
        assert(b@.skip(0) =~= b@);
    }
    loop
        invariant
            0 <= k <= a@.len(),
            k <= b@.len(),
            text_order(a@, b@) == text_order(a@.skip(k), b@.skip(k)),
            ia.remaining() == a@.skip(k),
            ib.remaining() == b@.skip(k),
            ia.obeys_prophetic_iter_laws(),
            ib.obeys_prophetic_iter_laws(),
        decreases a@.len() - k,
    {
        let ca = ia.next();
        let cb = ib.next();
        match (ca, cb) {
            (None, None) => {
                return Rank::Same;
            },
            (None, Some(_)) => {
                return Rank::Lower;
            },
            (Some(_), None) => {
                return Rank::Higher;
            },
            (Some(x), Some(y)) => {
                assert(a@.skip(k)[0] == x && b@.skip(k)[0] == y);
                if x < y {
                    return Rank::Lower;
                }
                if x > y {
                    return Rank::Higher;
                }
                proof {
                    assert(a@.skip(k).skip(1) =~= a@.skip(k + 1));
                    assert(b@.skip(k).skip(1) =~= b@.skip(k + 1));
                    assert(a@.skip(k).drop_first() =~= a@.skip(k + 1));
                    assert(b@.skip(k).drop_first() =~= b@.skip(k + 1));
                    k = k + 1;
                }
            },
        }
    }
}

fn number_rank(a: u64, b: u64) -> (r: Rank)
    ensures
        r.sign() == int_order(a as int, b as int),
{
    if a < b {
        Rank::Lower
    } else if a > b {
        Rank::Higher
    } else {
        Rank::Same
    }
}

/// Order of two points in time.
pub fn time_rank(a: Timestamp, b: Timestamp) -> (r: Rank)
    ensures
        r.sign() == time_order(a, b),
{
    if a.secs < b.secs {
        Rank::Lower
    } else if a.secs > b.secs {
        Rank::Higher
    } else if a.nanos < b.nanos {
        Rank::Lower
    } else if a.nanos > b.nanos {
        Rank::Higher
    } else {
        Rank::Same
    }
}

fn type_rank(a: &FileEntry, b: &FileEntry) -> (r: Rank)
    ensures
        r.sign() == type_order(a@, b@),
{
    if a.is_dir() && !b.is_dir() {
        Rank::Lower
    } else if !a.is_dir() && b.is_dir() {
        Rank::Higher
    } else {
        let ext_a = match a.extension() {
            Some(ext) => ext,
            None => "",
        };
        let ext_b = match b.extension() {
            Some(ext) => ext,
            None => "",
        };
        proof {
            reveal_strlit("");
            assert(ext_a@ =~= extension_text(a@));
            assert(ext_b@ =~= extension_text(b@));
        }
        text_rank(ext_a, ext_b)
    }
}

/// Order of two entries by a field in a direction.
pub fn rank_entries(a: &FileEntry, b: &FileEntry, field: SortField, order: SortOrder) -> (r: Rank)
    ensures
        r.sign() == entry_order(a@, b@, field, order),
{
    let ascending = match field {
        SortField::Name => natural_rank(a.name(), b.name()),
        SortField::Size => number_rank(a.size(), b.size()),
        SortField::Modified => time_rank(a.modified(), b.modified()),
        SortField::Created => match (a.created(), b.created()) {
            (None, None) => Rank::Same,
            (None, Some(_)) => Rank::Lower,
            (Some(_), None) => Rank::Higher,
            (Some(x), Some(y)) => time_rank(x, y),
        },
        SortField::Type => type_rank(a, b),
    };
    match order {
        SortOrder::Ascending => ascending,
        SortOrder::Descending => ascending.reversed(),
    }
}

/// Whether the entry at position `i` belongs before the one at position `j`:
/// it is lower in the order, or equal and earlier in the sequence.
pub open spec fn precedes(
    es: Seq<EntryView>,
    i: int,
    j: int,
    field: SortField,
    order: SortOrder,
) -> bool {
    entry_order(es[i], es[j], field, order) < 0 || (entry_order(es[i], es[j], field, order) == 0
        && i < j)
}

/// Whether `p` lists every position below `n` exactly once.
pub open spec fn is_permutation(p: Seq<int>, n: nat) -> bool {
    &&& p.len() == n
    &&& forall|k: int| 0 <= k < n ==> 0 <= #[trigger] p[k] < n
    &&& forall|k: int, l: int| 0 <= k < l < n ==> p[k] != p[l]
}

/// Whether the positions in `p` are in sorted order: each belongs before
/// all that follow it.
pub open spec fn in_order(p: Seq<int>, es: Seq<EntryView>, field: SortField, order: SortOrder) -> bool {
    forall|k: int, l: int| 0 <= k < l < p.len() ==> precedes(es, p[k], p[l], field, order)
}

/// Whether `p` is the stable sort of `es`: a permutation of its positions in
/// which lower entries come first and equal entries keep their order.
pub open spec fn is_stable_sort(
    p: Seq<int>,
    es: Seq<EntryView>,
    field: SortField,
    order: SortOrder,
) -> bool {
    is_permutation(p, es.len()) && in_order(p, es, field, order)
}

/// The sequence that holds, at each position `k`, the item of `s` at
/// position `p[k]`.
pub open spec fn rearranged<T>(s: Seq<T>, p: Seq<int>) -> Seq<T> {
    Seq::new(p.len(), |k: int| s[p[k]])
}

/// Whether `v` holds the items of `src` at the positions `p`, all of them
/// from `lo` up to `hi`.
spec fn tracks(v: Seq<FileEntry>, p: Seq<int>, src: Seq<FileEntry>, lo: int, hi: int) -> bool {
    &&& v.len() == p.len()
    &&& forall|k: int| 0 <= k < p.len() ==> lo <= #[trigger] p[k] < hi && v[k] == src[p[k]]
}

/// Merges two sorted runs, the left one from positions below `mid` and the
/// right one from positions at or above it.
fn merge_runs(
    left: Vec<FileEntry>,
    right: Vec<FileEntry>,
    field: SortField,
    order: SortOrder,
    Ghost(src): Ghost<Seq<FileEntry>>,
    Ghost(lp): Ghost<Seq<int>>,
    Ghost(rp): Ghost<Seq<int>>,
    Ghost(lo): Ghost<int>,
    Ghost(mid): Ghost<int>,
    Ghost(hi): Ghost<int>,
) -> (r: (Vec<FileEntry>, Ghost<Seq<int>>))
    requires
        0 <= lo <= mid <= hi <= src.len(),
        tracks(left@, lp, src, lo, mid),
        tracks(right@, rp, src, mid, hi),
        in_order(lp, views(src), field, order),
        in_order(rp, views(src), field, order),
    ensures
        tracks(r.0@, r.1@, src, lo, hi),
        in_order(r.1@, views(src), field, order),
        r.0@.len() == left@.len() + right@.len(),
{
    let ghost es = views(src);
    let ghost total = left@.len() + right@.len();
    let mut left = left;
    let mut right = right;
    let ghost all_left = left@;
    let ghost all_right = right@;
    // The merged run, largest first.
    let mut rev: Vec<FileEntry> = Vec::new();
    let ghost mut revp: Seq<int> = Seq::empty();
    while left.len() > 0 || right.len() > 0
        invariant
            0 <= lo <= mid <= hi <= src.len(),
            es == views(src),
            tracks(all_left, lp, src, lo, mid),
            tracks(all_right, rp, src, mid, hi),
            in_order(lp, es, field, order),
            in_order(rp, es, field, order),
            left@ == all_left.take(left@.len() as int),
            right@ == all_right.take(right@.len() as int),
            left@.len() <= all_left.len(),
            right@.len() <= all_right.len(),
            tracks(rev@, revp, src, lo, hi),
            rev@.len() + left@.len() + right@.len() == total,
            total == all_left.len() + all_right.len(),
            forall|k: int, l: int|
                0 <= k < l < revp.len() ==> precedes(es, revp[l], revp[k], field, order),
            forall|k: int, m: int|
                0 <= k < left@.len() && 0 <= m < revp.len() ==> precedes(
                    es,
                    lp[k],
                    revp[m],
                    field,
                    order,
                ),
            forall|k: int, m: int|
                0 <= k < right@.len() && 0 <= m < revp.len() ==> precedes(
                    es,
                    rp[k],
                    revp[m],
                    field,
                    order,
                ),
        decreases left@.len() + right@.len(),
    {
        let ghost ll = left@.len() as int;
        let ghost rl = right@.len() as int;
        let from_left = if left.len() == 0 {
            false
        } else if right.len() == 0 {
            true
        } else {
            let a = &left[left.len() - 1];
            let b = &right[right.len() - 1];
            let rank = rank_entries(a, b, field, order);
            proof {
                let ai = lp[ll - 1];
                let bi = rp[rl - 1];
                assert(a@ == es[ai]);
                assert(b@ == es[bi]);
                lemma_entry_order_antisymmetric(es[ai], es[bi], field, order);
            }
            match rank {
                Rank::Higher => true,
                _ => false,
            }
        };
        if from_left {
            let ghost ai = lp[ll - 1];
            proof {
                assert forall|k: int| 0 <= k < rl implies precedes(es, rp[k], ai, field, order) by {
                    let bi = rp[rl - 1];
                    if k < rl - 1 {
                        lemma_precedes_transitive(es, rp[k], bi, ai, field, order);
                    }
                }
            }
            let x = left.pop().unwrap();
            rev.push(x);
            proof {
                revp = revp.push(ai);
                assert(left@ =~= all_left.take(left@.len() as int));
            }
        } else {
            let ghost bi = rp[rl - 1];
            proof {
                assert forall|k: int| 0 <= k < ll implies precedes(es, lp[k], bi, field, order) by {
                    let ai = lp[ll - 1];
                    assert(es[ai] == all_left[ll - 1]@);
                    assert(es[bi] == all_right[rl - 1]@);
                    if k < ll - 1 {
                        lemma_precedes_transitive(es, lp[k], ai, bi, field, order);
                    }
                }
            }
            let y = right.pop().unwrap();
            rev.push(y);
            proof {
                revp = revp.push(bi);
                assert(right@ =~= all_right.take(right@.len() as int));
            }
        }
    }
    let ghost all_rev = rev@;
    let mut out: Vec<FileEntry> = Vec::new();
    while rev.len() > 0
        invariant
            rev@ == all_rev.take(rev@.len() as int),
            rev@.len() <= all_rev.len(),
            out@.len() + rev@.len() == all_rev.len(),
            forall|k: int| 0 <= k < out@.len() ==> out@[k] == all_rev[all_rev.len() - 1 - k],
        decreases rev@.len(),
    {
        let x = rev.pop().unwrap();
        out.push(x);
        proof {
            assert(rev@ =~= all_rev.take(rev@.len() as int));
        }
    }
    let ghost n = revp.len() as int;
    let ghost p = Seq::new(revp.len(), |k: int| revp[n - 1 - k]);
    proof {
        assert forall|k: int, l: int| 0 <= k < l < p.len() implies precedes(
            es,
            p[k],
            p[l],
            field,
            order,
        ) by {
            assert(precedes(es, revp[n - 1 - k], revp[n - 1 - l], field, order));
        }
        assert forall|k: int| 0 <= k < p.len() implies lo <= #[trigger] p[k] < hi && out@[k]
            == src[p[k]] by {
            assert(lo <= revp[n - 1 - k] < hi);
        }
    }
    (out, Ghost(p))
}

/// Sorts a run that holds the items of `src` from position `lo` on.
fn sort_run(
    run: Vec<FileEntry>,
    field: SortField,
    order: SortOrder,
    Ghost(src): Ghost<Seq<FileEntry>>,
    Ghost(lo): Ghost<int>,
) -> (r: (Vec<FileEntry>, Ghost<Seq<int>>))
    requires
        0 <= lo,
        lo + run@.len() <= src.len(),
        run@ == src.subrange(lo, lo + run@.len()),
    ensures
        tracks(r.0@, r.1@, src, lo, lo + run@.len()),
        in_order(r.1@, views(src), field, order),
        r.0@.len() == run@.len(),
    decreases run@.len(),
{
    let mut run = run;
    let len = run.len();
    if len <= 1 {
        let ghost p = Seq::new(len as nat, |k: int| lo + k);
        return (run, Ghost(p));
    }
    let half = len / 2;
    let ghost whole = run@;
    let upper = run.split_off(half);
    proof {
        assert(run@ =~= src.subrange(lo, lo + half));
        assert(upper@ =~= src.subrange(lo + half, lo + half + (len - half)));
    }
    let (left, Ghost(lp)) = sort_run(run, field, order, Ghost(src), Ghost(lo));
    let (right, Ghost(rp)) = sort_run(upper, field, order, Ghost(src), Ghost(lo + half));
    merge_runs(
        left,
        right,
        field,
        order,
        Ghost(src),
        Ghost(lp),
        Ghost(rp),
        Ghost(lo),
        Ghost(lo + half),
        Ghost(lo + len),
    )
}

/// Sorts `entries` by `field` in the direction `order`. The sort is stable:
/// entries that are equal in the order keep their places to one another.
/// No entry is added, removed or changed.
pub fn sort_entries(entries: &mut Vec<FileEntry>, field: SortField, order: SortOrder)
    ensures
        exists|p: Seq<int>|
            is_stable_sort(p, views(old(entries)@), field, order) && final(entries)@ == rearranged(
                old(entries)@,
                p,
            ),
{
    let ghost src = entries@;
    let mut taken: Vec<FileEntry> = Vec::new();
    core::mem::swap(entries, &mut taken);
    proof {
        assert(taken@ =~= src.subrange(0, taken@.len() as int));
    }
    let (sorted, Ghost(p)) = sort_run(taken, field, order, Ghost(src), Ghost(0));
    *entries = sorted;
    proof {
        crate::sort_laws::lemma_in_order_is_injective(p, views(src), field, order);
        assert(entries@ =~= rearranged(src, p));
        assert(is_stable_sort(p, views(src), field, order));
    }
}

} // verus!
