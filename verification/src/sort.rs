//! The order of the entries of one directory.

use crate::entry::{DirEntry, EntryResult};
use crate::read_dir::ReadDir;
use vstd::prelude::*;
use vstd::seq_lib::lemma_multiset_commutative;

verus! {

/// By what the entries of a directory are ordered.
///
/// Entries are ordered by name as byte strings, or by one of their times,
/// earlier first. An entry whose time is not known (its attributes could not
/// be loaded, or the platform does not record that time) comes behind every
/// entry whose time is known. A position of the listing that holds an error
/// comes behind every entry. Whatever the order does not tell apart stays in
/// the order in which it was read.
#[derive(Clone, Copy, Debug, PartialEq, Eq, Structural)]
pub enum Sort {
    /// By file name.
    Name,
    /// By the time of the last access.
    Access,
    /// By the time of creation.
    Creation,
    /// By the time of the last change.
    Modification,
}

/// `a` comes before `b` as a byte string: at the first byte in which they
/// differ `a` has the smaller one, or `a` ends there and `b` goes on.
pub open spec fn lex_less(a: Seq<u8>, b: Seq<u8>) -> bool
    decreases a.len(),
{
    if b.len() == 0 {
        false
    } else if a.len() == 0 {
        true
    } else if a[0] != b[0] {
        a[0] < b[0]
    } else {
        lex_less(a.drop_first(), b.drop_first())
    }
}

/// The time by which `sort` orders an entry, where it is known.
pub open spec fn sort_time(sort: Sort, entry: DirEntry) -> Option<i128> {
    match *entry.metadata() {
        Some(Ok(metadata)) => match sort {
            Sort::Name => None,
            Sort::Access => metadata.accessed,
            Sort::Creation => metadata.created,
            Sort::Modification => metadata.modified,
        },
        _ => None,
    }
}

/// The order requires `a` to come before `b`.
pub open spec fn precedes(sort: Sort, a: EntryResult, b: EntryResult) -> bool {
    match (a, b) {
        (Ok(x), Ok(y)) => match sort {
            Sort::Name => lex_less(x.file_name()@, y.file_name()@),
            _ => match (sort_time(sort, x), sort_time(sort, y)) {
                (Some(s), Some(t)) => s < t,
                (Some(_), None) => true,
                _ => false,
            },
        },
        (Ok(_), Err(_)) => true,
        _ => false,
    }
}

/// The order does not tell `a` and `b` apart.
pub open spec fn tied(sort: Sort, a: EntryResult, b: EntryResult) -> bool {
    !precedes(sort, a, b) && !precedes(sort, b, a)
}

/// No item of `items` stands behind one that it is required to come before.
pub open spec fn sorted_by(sort: Sort, items: Seq<EntryResult>) -> bool {
    forall|i: int, j: int| 0 <= i < j < items.len() ==> !precedes(sort, items[j], items[i])
}

/// The items of `items` that the order does not tell apart from `pivot`, in
/// the order in which they stand.
pub open spec fn tied_with(sort: Sort, pivot: EntryResult, items: Seq<EntryResult>) -> Seq<
    EntryResult,
>
    decreases items.len(),
{
    if items.len() == 0 {
        Seq::empty()
    } else {
        let before = tied_with(sort, pivot, items.drop_last());
        if tied(sort, pivot, items.last()) {
            before.push(items.last())
        } else {
            before
        }
    }
}

/// `output` is `input` in order: it holds the same items, none stands behind
/// one that it is required to come before, and items that the order does not
/// tell apart stand as they stood in `input`.
pub open spec fn is_stable_sort(sort: Sort, input: Seq<EntryResult>, output: Seq<EntryResult>) -> bool {
    &&& output.to_multiset() == input.to_multiset()
    &&& sorted_by(sort, output)
    &&& forall|pivot: EntryResult| #[trigger]
        tied_with(sort, pivot, output) == tied_with(sort, pivot, input)
}

pub proof fn lemma_lex_irreflexive(a: Seq<u8>)
    ensures
        !lex_less(a, a),
    decreases a.len(),
{
    if a.len() > 0 {
        lemma_lex_irreflexive(a.drop_first());
    }
}

pub proof fn lemma_lex_transitive(a: Seq<u8>, b: Seq<u8>, c: Seq<u8>)
    requires
        lex_less(a, b),
        lex_less(b, c),
    ensures
        lex_less(a, c),
    decreases a.len(),
{
    if a.len() > 0 && a[0] == b[0] && b[0] == c[0] {
        lemma_lex_transitive(a.drop_first(), b.drop_first(), c.drop_first());
    }
}

/// Of two different byte strings one comes before the other.
pub proof fn lemma_lex_total(a: Seq<u8>, b: Seq<u8>)
    ensures
        lex_less(a, b) || lex_less(b, a) || a == b,
    decreases a.len(),
{
    if a.len() > 0 && b.len() > 0 && a[0] == b[0] {
        lemma_lex_total(a.drop_first(), b.drop_first());
        if a.drop_first() == b.drop_first() {
            assert(a =~= seq![a[0]] + a.drop_first());
            assert(b =~= seq![b[0]] + b.drop_first());
        }
    } else if a.len() == 0 && b.len() == 0 {
        assert(a =~= b);
    }
}

/// Nothing is required to come before itself.
pub proof fn lemma_precedes_irreflexive(sort: Sort, a: EntryResult)
    ensures
        !precedes(sort, a, a),
{
    if let Ok(x) = a {
        lemma_lex_irreflexive(x.file_name()@);
    }
}

/// What comes before something that comes before a third comes before the
/// third.
pub proof fn lemma_precedes_transitive(sort: Sort, a: EntryResult, b: EntryResult, c: EntryResult)
    requires
        precedes(sort, a, b),
        precedes(sort, b, c),
    ensures
        precedes(sort, a, c),
{
    if let (Ok(x), Ok(y), Ok(z)) = (a, b, c) {
        if sort == Sort::Name {
            lemma_lex_transitive(x.file_name()@, y.file_name()@, z.file_name()@);
        }
    }
}

/// Where `a` need not come before `b`, nor `b` before `c`, `a` need not come
/// before `c`.
pub proof fn lemma_precedes_negative_transitive(
    sort: Sort,
    a: EntryResult,
    b: EntryResult,
    c: EntryResult,
)
    requires
        !precedes(sort, a, b),
        !precedes(sort, b, c),
    ensures
        !precedes(sort, a, c),
{
    if let (Ok(x), Ok(y), Ok(z)) = (a, b, c) {
        if sort == Sort::Name {
            let (p, q, r) = (x.file_name()@, y.file_name()@, z.file_name()@);
            if lex_less(p, r) {
                lemma_lex_total(p, q);
                if lex_less(q, p) {
                    lemma_lex_transitive(q, p, r);
                }
            }
        }
    }
}

/// The items tied with a pivot in a listing are those of its first part, then
/// those of the rest.
pub proof fn lemma_tied_with_add(
    sort: Sort,
    pivot: EntryResult,
    a: Seq<EntryResult>,
    b: Seq<EntryResult>,
)
    ensures
        tied_with(sort, pivot, a + b) == tied_with(sort, pivot, a) + tied_with(sort, pivot, b),
    decreases b.len(),
{
    if b.len() == 0 {
        assert(a + b == a);
        assert(tied_with(sort, pivot, a) + tied_with(sort, pivot, b) == tied_with(sort, pivot, a));
    } else {
        assert((a + b).drop_last() == a + b.drop_last());
        assert((a + b).last() == b.last());
        lemma_tied_with_add(sort, pivot, a, b.drop_last());
        if tied(sort, pivot, b.last()) {
            assert((tied_with(sort, pivot, a) + tied_with(sort, pivot, b.drop_last())).push(
                b.last(),
            ) == tied_with(sort, pivot, a) + tied_with(sort, pivot, b.drop_last()).push(b.last()));
        }
    }
}

/// Whether the byte string `a` comes before `b`.
pub fn name_less(a: &Vec<u8>, b: &Vec<u8>) -> (r: bool)
    ensures
        r == lex_less(a@, b@),
{
    let mut i: usize = 0;
    assert(a@.skip(0) == a@ && b@.skip(0) == b@);
    while i < a.len() && i < b.len() && a[i] == b[i]
        invariant
            i <= a.len(),
            i <= b.len(),
            lex_less(a@, b@) == lex_less(a@.skip(i as int), b@.skip(i as int)),
        decreases a.len() - i,
    {
        assert(a@.skip(i as int).drop_first() == a@.skip(i + 1));
        assert(b@.skip(i as int).drop_first() == b@.skip(i + 1));
        i += 1;
    }
    if i >= b.len() {
        false
    } else if i >= a.len() {
        true
    } else {
        a[i] < b[i]
    }
}

/// What is required to come before another is not required to come behind it.
pub proof fn lemma_precedes_asymmetric(sort: Sort, a: EntryResult, b: EntryResult)
    requires
        precedes(sort, a, b),
    ensures
        !precedes(sort, b, a),
{
    if precedes(sort, b, a) {
        lemma_precedes_transitive(sort, a, b, a);
        lemma_precedes_irreflexive(sort, a);
    }
}

/// A listing none of whose items is tied with the pivot has no item tied with
/// it.
pub proof fn lemma_tied_with_none(sort: Sort, pivot: EntryResult, items: Seq<EntryResult>)
    requires
        forall|k: int| 0 <= k < items.len() ==> !tied(sort, pivot, #[trigger] items[k]),
    ensures
        tied_with(sort, pivot, items) == Seq::<EntryResult>::empty(),
    decreases items.len(),
{
    if items.len() > 0 {
        assert forall|k: int| 0 <= k < items.drop_last().len() implies !tied(
            sort,
            pivot,
            #[trigger] items.drop_last()[k],
        ) by {
            assert(items.drop_last()[k] == items[k]);
        }
        lemma_tied_with_none(sort, pivot, items.drop_last());
        assert(!tied(sort, pivot, items[items.len() - 1]));
    }
}

/// Merges two listings that are in order into one.
#[verifier::rlimit(50)]
fn merge(sort: Sort, a: Vec<EntryResult>, b: Vec<EntryResult>) -> (out: Vec<EntryResult>)
    requires
        sorted_by(sort, a@),
        sorted_by(sort, b@),
    ensures
        is_stable_sort(sort, a@ + b@, out@),
{
    let mut left = ReadDir::new(a);
    let mut right = ReadDir::new(b);
    let mut out: Vec<EntryResult> = Vec::new();
    let ghost mut i: int = 0;
    let ghost mut j: int = 0;
    proof {
        assert(a@.skip(0) == a@);
        assert(b@.skip(0) == b@);
        assert(a@.take(0) == Seq::<EntryResult>::empty());
        assert(b@.take(0) == Seq::<EntryResult>::empty());
        assert(out@.to_multiset() =~= a@.take(0).to_multiset().add(b@.take(0).to_multiset())) by {
            broadcast use vstd::seq_lib::group_to_multiset_ensures;

        }
        assert forall|pivot: EntryResult| #[trigger]
            tied_with(sort, pivot, out@) == tied_with(sort, pivot, a@.take(0)) + tied_with(
                sort,
                pivot,
                b@.take(0),
            ) by {}
    }
    while !left.is_done() || !right.is_done()
        invariant
            sorted_by(sort, a@),
            sorted_by(sort, b@),
            0 <= i <= a@.len(),
            0 <= j <= b@.len(),
            left@ == a@.skip(i),
            right@ == b@.skip(j),
            sorted_by(sort, out@),
            out@.to_multiset() == a@.take(i).to_multiset().add(b@.take(j).to_multiset()),
            forall|k: int, m: int|
                0 <= k < out@.len() && i <= m < a@.len() ==> !precedes(
                    sort,
                    #[trigger] a@[m],
                    #[trigger] out@[k],
                ),
            forall|k: int, m: int|
                0 <= k < out@.len() && j <= m < b@.len() ==> !precedes(
                    sort,
                    #[trigger] b@[m],
                    #[trigger] out@[k],
                ),
            forall|pivot: EntryResult| #[trigger]
                tied_with(sort, pivot, out@) == tied_with(sort, pivot, a@.take(i)) + tied_with(
                    sort,
                    pivot,
                    b@.take(j),
                ),
            forall|m: int, n: int|
                0 <= m < j && i <= n < a@.len() ==> precedes(
                    sort,
                    #[trigger] b@[m],
                    #[trigger] a@[n],
                ),
        decreases left@.len() + right@.len(),
    {
        let ghost before = out@;
        let from_right = if right.is_done() {
            false
        } else if left.is_done() {
            true
        } else {
            sort.comes_before(right.get(0), left.get(0))
        };
        if from_right {
            let item = right.next().unwrap();
            out.push(item);
            proof {
                assert(item == b@[j]);
                assert(b@.skip(j).drop_first() == b@.skip(j + 1));
                assert(b@.take(j + 1) == b@.take(j).push(item));
                assert(b@.take(j + 1).drop_last() == b@.take(j));
                assert(out@.to_multiset() =~= a@.take(i).to_multiset().add(
                    b@.take(j + 1).to_multiset(),
                )) by {
                    broadcast use vstd::seq_lib::group_to_multiset_ensures;

                }
                // what is left of `a` comes behind the item
                assert forall|n: int| i <= n < a@.len() implies precedes(
                    sort,
                    item,
                    #[trigger] a@[n],
                ) by {
                    if !precedes(sort, item, a@[n]) {
                        assert(precedes(sort, item, a@[i]));
                        if n > i {
                            assert(!precedes(sort, a@[n], a@[i]));
                            lemma_precedes_negative_transitive(sort, item, a@[n], a@[i]);
                        }
                    }
                }
                assert forall|k: int, m: int|
                    0 <= k < out@.len() && i <= m < a@.len() implies !precedes(
                    sort,
                    #[trigger] a@[m],
                    #[trigger] out@[k],
                ) by {
                    if k == before.len() {
                        lemma_precedes_asymmetric(sort, item, a@[m]);
                    } else {
                        assert(out@[k] == before[k]);
                    }
                }
                assert forall|k: int, m: int|
                    0 <= k < out@.len() && j + 1 <= m < b@.len() implies !precedes(
                    sort,
                    #[trigger] b@[m],
                    #[trigger] out@[k],
                ) by {
                    if k < before.len() {
                        assert(out@[k] == before[k]);
                    }
                }
                assert forall|k: int, m: int| 0 <= k < m < out@.len() implies !precedes(
                    sort,
                    out@[m],
                    out@[k],
                ) by {
                    if m < before.len() {
                        assert(out@[k] == before[k] && out@[m] == before[m]);
                    } else {
                        assert(out@[k] == before[k]);
                        assert(!precedes(sort, b@[j], before[k]));
                    }
                }
                assert forall|pivot: EntryResult| #[trigger]
                    tied_with(sort, pivot, out@) == tied_with(sort, pivot, a@.take(i)) + tied_with(
                        sort,
                        pivot,
                        b@.take(j + 1),
                    ) by {
                    assert(out@.drop_last() == before);
                    let x = tied_with(sort, pivot, a@.take(i));
                    let y = tied_with(sort, pivot, b@.take(j));
                    assert(tied_with(sort, pivot, before) == x + y);
                    if tied(sort, pivot, item) {
                        assert((x + y).push(item) == x + y.push(item));
                    }
                }
                j = j + 1;
            }
        } else {
            let item = left.next().unwrap();
            out.push(item);
            proof {
                assert(item == a@[i]);
                assert(a@.skip(i).drop_first() == a@.skip(i + 1));
                assert(a@.take(i + 1) == a@.take(i).push(item));
                assert(a@.take(i + 1).drop_last() == a@.take(i));
                assert(out@.to_multiset() =~= a@.take(i + 1).to_multiset().add(
                    b@.take(j).to_multiset(),
                )) by {
                    broadcast use vstd::seq_lib::group_to_multiset_ensures;

                }
                assert forall|k: int, m: int|
                    0 <= k < out@.len() && j <= m < b@.len() implies !precedes(
                    sort,
                    #[trigger] b@[m],
                    #[trigger] out@[k],
                ) by {
                    if k == before.len() {
                        assert(!precedes(sort, b@[j], item));
                        if m > j {
                            assert(!precedes(sort, b@[m], b@[j]));
                            lemma_precedes_negative_transitive(sort, b@[m], b@[j], item);
                        }
                    } else {
                        assert(out@[k] == before[k]);
                    }
                }
                assert forall|k: int, m: int|
                    0 <= k < out@.len() && i + 1 <= m < a@.len() implies !precedes(
                    sort,
                    #[trigger] a@[m],
                    #[trigger] out@[k],
                ) by {
                    if k < before.len() {
                        assert(out@[k] == before[k]);
                    }
                }
                assert forall|k: int, m: int| 0 <= k < m < out@.len() implies !precedes(
                    sort,
                    out@[m],
                    out@[k],
                ) by {
                    if m < before.len() {
                        assert(out@[k] == before[k] && out@[m] == before[m]);
                    } else {
                        assert(out@[k] == before[k]);
                        assert(!precedes(sort, a@[i], before[k]));
                    }
                }
                assert forall|pivot: EntryResult| #[trigger]
                    tied_with(sort, pivot, out@) == tied_with(sort, pivot, a@.take(i + 1))
                        + tied_with(sort, pivot, b@.take(j)) by {
                    assert(out@.drop_last() == before);
                    let x = tied_with(sort, pivot, a@.take(i));
                    let y = tied_with(sort, pivot, b@.take(j));
                    assert(tied_with(sort, pivot, before) == x + y);
                    if tied(sort, pivot, item) {
                        // what was taken of `b` comes before the item, so none of it
                        // is tied with the pivot
                        assert forall|k: int| 0 <= k < b@.take(j).len() implies !tied(
                            sort,
                            pivot,
                            #[trigger] b@.take(j)[k],
                        ) by {
                            assert(precedes(sort, b@[k], a@[i]));
                            if tied(sort, pivot, b@[k]) {
                                lemma_precedes_negative_transitive(sort, b@[k], pivot, item);
                            }
                        }
                        lemma_tied_with_none(sort, pivot, b@.take(j));
                        assert((x + y).push(item) == x.push(item) + y);
                    }
                }
                i = i + 1;
            }
        }
    }
    proof {
        assert(a@.take(i) == a@);
        assert(b@.take(j) == b@);
        lemma_multiset_commutative(a@, b@);
        assert forall|pivot: EntryResult| #[trigger]
            tied_with(sort, pivot, out@) == tied_with(sort, pivot, a@ + b@) by {
            lemma_tied_with_add(sort, pivot, a@, b@);
        }
    }
    out
}

/// Puts a listing in order.
fn merge_sort(sort: Sort, items: Vec<EntryResult>) -> (out: Vec<EntryResult>)
    ensures
        is_stable_sort(sort, items@, out@),
    decreases items@.len(),
{
    if items.len() <= 1 {
        return items;
    }
    let mut front = items;
    let middle = front.len() / 2;
    let back = front.split_off(middle);
    let ghost (x, y) = (front@, back@);
    assert(items@ == x + y);
    let front = merge_sort(sort, front);
    let back = merge_sort(sort, back);
    let out = merge(sort, front, back);
    proof {
        lemma_multiset_commutative(x, y);
        lemma_multiset_commutative(front@, back@);
        assert forall|pivot: EntryResult| #[trigger]
            tied_with(sort, pivot, out@) == tied_with(sort, pivot, items@) by {
            lemma_tied_with_add(sort, pivot, x, y);
            lemma_tied_with_add(sort, pivot, front@, back@);
        }
    }
    out
}

impl Sort {
    /// The time by which this order orders an entry, where it is known.
    fn time_of(&self, entry: &DirEntry) -> (r: Option<i128>)
        ensures
            r == sort_time(*self, *entry),
    {
        match entry.metadata() {
            Some(Ok(metadata)) => match self {
                Sort::Name => None,
                Sort::Access => metadata.accessed,
                Sort::Creation => metadata.created,
                Sort::Modification => metadata.modified,
            },
            _ => None,
        }
    }

    /// Whether this order requires `a` to come before `b`.
    pub fn comes_before(&self, a: &EntryResult, b: &EntryResult) -> (r: bool)
        ensures
            r == precedes(*self, *a, *b),
    {
        match (a, b) {
            (Ok(x), Ok(y)) => match self {
                Sort::Name => name_less(x.file_name(), y.file_name()),
                _ => match (self.time_of(x), self.time_of(y)) {
                    (Some(s), Some(t)) => s < t,
                    (Some(_), None) => true,
                    _ => false,
                },
            },
            (Ok(_), Err(_)) => true,
            _ => false,
        }
    }

    /// Puts the results of one directory in this order.
    pub fn perform_sort(&self, dir_entry_results: &mut Vec<EntryResult>)
        ensures
            is_stable_sort(*self, old(dir_entry_results)@, final(dir_entry_results)@),
    {
        let mut items: Vec<EntryResult> = Vec::new();
        std::mem::swap(dir_entry_results, &mut items);
        *dir_entry_results = merge_sort(*self, items);
    }
}

} // verus!
