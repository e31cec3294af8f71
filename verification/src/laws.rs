//! What holds of every walk that is read by the rules of this crate.
//!
//! Each law asks of the listings only what it needs: the depth cap asks that
//! depths are kept, the law on hidden names that no hidden entry is listed,
//! the law on parents that each entry names the directory it is listed for. A
//! walk without a transform meets all of them, and so does one whose transform
//! drops items, reorders them, or keeps the walk from descending.

use crate::entry::{branch_of, law_entry_path, DirEntry, EntryResult, FileType, IoError, ReadDirSpec};
use crate::order::{
    fits, law_order, lemma_fits_reach, lemma_walk_leaf, reach, remaining, run, walk, Content, Move,
};
use crate::path::{hidden, joined};
use crate::sort::{is_stable_sort, lex_less, precedes, Sort};
use crate::walk::{kept, ordered, RawResult, WalkDirOptions};
use std::sync::Arc;
use vstd::prelude::*;

verus! {

/// Every listing that `content` gives for a directory is one that a walk with
/// `options` lists for it, from some reading of the directory.
pub open spec fn read_by<P>(options: WalkDirOptions<P>, content: Content) -> bool {
    forall|spec: Arc<ReadDirSpec>|
        (#[trigger] content(spec)) matches Ok(listing) ==> exists|raw: Seq<RawResult>| #[trigger]
            options.lists(spec, raw, listing)
}

/// An item of the listing of `spec` keeps its depth: an entry is one level
/// below the directory, and the directory below it, if any, is at the entry's
/// depth and within the depth cap.
pub open spec fn leveled_item(max_depth: usize, spec: Arc<ReadDirSpec>, item: EntryResult) -> bool {
    item matches Ok(entry) ==> {
        &&& entry.depth() == spec.depth + 1
        &&& *entry.children_spec() matches Some(below) ==> below.depth == entry.depth()
            && below.depth < max_depth
    }
}

/// An item of the listing of `spec` names its parent: an entry is one level
/// below the directory and names it as the directory it was read from, and
/// the directory below it, if any, is at the entry's depth.
pub open spec fn parented_item(spec: Arc<ReadDirSpec>, item: EntryResult) -> bool {
    item matches Ok(entry) ==> {
        &&& entry.depth() == spec.depth + 1
        &&& *entry.parent_spec() == Some(spec)
        &&& *entry.children_spec() matches Some(below) ==> below.depth == entry.depth()
    }
}

/// What holds of each item that a walk with `options` lists for the directory
/// `spec`: an entry is one level below the directory, names it as its parent,
/// has its name inside the directory for its path, is not hidden where hidden
/// entries are skipped, and is a directory within the depth cap where the
/// walk descends below it.
pub open spec fn listed_item<P>(
    options: WalkDirOptions<P>,
    spec: Arc<ReadDirSpec>,
    item: EntryResult,
) -> bool {
    item matches Ok(entry) ==> {
        &&& entry.depth() == spec.depth + 1
        &&& *entry.parent_spec() == Some(spec)
        &&& entry.spec_path() == joined(spec.path@, entry.file_name()@)
        &&& entry.wf()
        &&& options.skip_hidden ==> !hidden(entry.file_name()@)
        &&& !options.spec_loads_metadata() ==> *entry.metadata() is None
        &&& *entry.children_spec() matches Some(below) ==> {
            &&& *entry.file_type() == Ok::<FileType, IoError>(FileType::Dir)
            &&& below.depth == entry.depth()
            &&& below.depth < options.max_depth
            &&& below.path@ == entry.spec_path()
            &&& below.state is None
        }
    }
}

/// Every listing that `content` gives keeps the depths of its items.
pub open spec fn keeps_depth(max_depth: usize, content: Content) -> bool {
    forall|spec: Arc<ReadDirSpec>, listing: Seq<EntryResult>, k: int|
        #![trigger content(spec), listing[k]]
        content(spec) == Ok::<Seq<EntryResult>, IoError>(listing) && 0 <= k < listing.len()
            ==> leveled_item(max_depth, spec, listing[k])
}

/// Every entry of every listing that `content` gives names the directory it
/// is listed for as its parent.
pub open spec fn keeps_parents(content: Content) -> bool {
    forall|spec: Arc<ReadDirSpec>, listing: Seq<EntryResult>, k: int|
        #![trigger content(spec), listing[k]]
        content(spec) == Ok::<Seq<EntryResult>, IoError>(listing) && 0 <= k < listing.len()
            ==> parented_item(spec, listing[k])
}

/// No listing that `content` gives holds an entry whose name starts with a
/// dot.
pub open spec fn keeps_hidden_out(content: Content) -> bool {
    forall|spec: Arc<ReadDirSpec>, listing: Seq<EntryResult>, k: int|
        #![trigger content(spec), listing[k]]
        content(spec) == Ok::<Seq<EntryResult>, IoError>(listing) && 0 <= k < listing.len()
            ==> (listing[k] matches Ok(entry) ==> !hidden(entry.file_name()@))
}

/// Every item of every listing that `content` gives is as the rules of a walk
/// with `options` make it. This holds of what the walk lists itself, and it
/// still holds after a transform that drops items, reorders them, or keeps the
/// walk from descending below an entry.
pub open spec fn abides<P>(options: WalkDirOptions<P>, content: Content) -> bool {
    forall|spec: Arc<ReadDirSpec>, listing: Seq<EntryResult>, k: int|
        #![trigger content(spec), listing[k]]
        content(spec) == Ok::<Seq<EntryResult>, IoError>(listing) && 0 <= k < listing.len()
            ==> listed_item(options, spec, listing[k])
}

/// The root entry keeps its depth: it is at depth 0, and the directory below
/// it, if any, is at depth 0 and within the depth cap.
pub open spec fn leveled_root(max_depth: usize, root: DirEntry) -> bool {
    &&& root.depth() == 0
    &&& *root.children_spec() matches Some(below) ==> below.depth == 0 && 0 < max_depth
}

/// The items of a walk at one level: entries are at depth `level`, and the
/// directories below them are at that depth and within the depth cap.
pub open spec fn level_item(max_depth: usize, level: nat, item: EntryResult) -> bool {
    item matches Ok(entry) ==> {
        &&& entry.depth() == level
        &&& *entry.children_spec() matches Some(below) ==> below.depth == level && level < max_depth
    }
}

/// The entries among `items` are not hidden.
pub open spec fn none_hidden(items: Seq<EntryResult>) -> bool {
    forall|k: int|
        0 <= k < items.len() ==> ((#[trigger] items[k]) matches Ok(entry) ==> !hidden(
            entry.file_name()@,
        ))
}

/// The entry at `k` of `yielded` stands behind the entry of its parent
/// directory, one level below it: an entry before it descends into the very
/// directory that the entry at `k` names as its parent.
pub open spec fn follows_parent(yielded: Seq<EntryResult>, k: int) -> bool {
    yielded[k] matches Ok(entry) && exists|j: int|
        0 <= j < k && ((#[trigger] yielded[j]) matches Ok(above) && above.children_spec()
            == entry.parent_spec() && above.depth() + 1 == entry.depth())
}

/// Each result that is kept is one of those read, and no hidden entry is kept
/// where hidden entries are skipped.
pub proof fn lemma_kept(skip_hidden: bool, raw: Seq<RawResult>, k: int)
    requires
        0 <= k < kept(skip_hidden, raw).len(),
    ensures
        raw.contains(kept(skip_hidden, raw)[k]),
        skip_hidden ==> !(kept(skip_hidden, raw)[k] matches Ok(entry) && hidden(entry.file_name@)),
    decreases raw.len(),
{
    if raw.len() > 0 {
        let before = kept(skip_hidden, raw.drop_last());
        if k < before.len() {
            lemma_kept(skip_hidden, raw.drop_last(), k);
            let m = choose|m: int|
                0 <= m < raw.drop_last().len() && raw.drop_last()[m] == before[k];
            assert(raw[m] == before[k]);
        } else {
            assert(raw[raw.len() - 1] == raw.last());
        }
    }
}

/// Each item of a listing in order is one of the items it was made from.
pub proof fn lemma_ordered_member(
    sort: Option<Sort>,
    input: Seq<EntryResult>,
    output: Seq<EntryResult>,
    k: int,
)
    requires
        ordered(sort, input, output),
        0 <= k < output.len(),
    ensures
        input.contains(output[k]),
{
    let item = output[k];
    assert(output.contains(item));
    if sort is Some {
        output.to_multiset_ensures();
        input.to_multiset_ensures();
        assert(output.to_multiset().count(item) > 0);
        assert(input.to_multiset().count(item) > 0);
    }
}

/// Every item of a listing is as the rules of the walk make it.
pub proof fn law_listed<P>(
    options: WalkDirOptions<P>,
    spec: Arc<ReadDirSpec>,
    raw: Seq<RawResult>,
    listing: Seq<EntryResult>,
)
    requires
        options.lists(spec, raw, listing),
    ensures
        forall|k: int| 0 <= k < listing.len() ==> listed_item(options, spec, #[trigger] listing[k]),
{
    let items = choose|items: Seq<EntryResult>| #[trigger]
        options.admits(spec, raw, items) && ordered(options.sort, items, listing);
    assert forall|k: int| 0 <= k < listing.len() implies listed_item(
        options,
        spec,
        #[trigger] listing[k],
    ) by {
        lemma_ordered_member(options.sort, items, listing, k);
        let m = choose|m: int| 0 <= m < items.len() && items[m] == listing[k];
        lemma_kept(options.skip_hidden, raw, m);
        assert(options.admitted_as(spec, kept(options.skip_hidden, raw)[m], items[m]));
    }
}

/// What a walk lists by its own rules abides by them.
pub proof fn law_read_by_abides<P>(options: WalkDirOptions<P>, content: Content)
    requires
        read_by(options, content),
    ensures
        abides(options, content),
{
    assert forall|spec: Arc<ReadDirSpec>, listing: Seq<EntryResult>, k: int|
        #![trigger content(spec), listing[k]]
        content(spec) == Ok::<Seq<EntryResult>, IoError>(listing) && 0 <= k
            < listing.len() implies listed_item(options, spec, listing[k]) by {
        let raw = choose|raw: Seq<RawResult>| #[trigger] options.lists(spec, raw, listing);
        law_listed(options, spec, raw, listing);
    }
}

/// Listings that abide by the rules keep depths and parents, and hold no
/// hidden entry where hidden entries are skipped.
pub proof fn law_abides<P>(options: WalkDirOptions<P>, content: Content)
    requires
        abides(options, content),
    ensures
        keeps_depth(options.max_depth, content),
        keeps_parents(content),
        options.skip_hidden ==> keeps_hidden_out(content),
{
    assert forall|spec: Arc<ReadDirSpec>, listing: Seq<EntryResult>, k: int|
        #![trigger content(spec), listing[k]]
        content(spec) == Ok::<Seq<EntryResult>, IoError>(listing) && 0 <= k
            < listing.len() implies leveled_item(options.max_depth, spec, listing[k])
        && parented_item(spec, listing[k]) && (options.skip_hidden ==> (listing[k] matches Ok(
        entry,
    ) ==> !hidden(entry.file_name()@))) by {
        assert(listed_item(options, spec, listing[k]));
    }
}

/// An entry that abides by the rules still does once the walk is kept from
/// descending below it.
pub proof fn law_cleared_abides<P>(
    options: WalkDirOptions<P>,
    spec: Arc<ReadDirSpec>,
    before: DirEntry,
    after: DirEntry,
)
    requires
        listed_item(options, spec, Ok(before)),
        after.children_spec() is None,
        after.depth() == before.depth(),
        after.file_name() == before.file_name(),
        after.file_type() == before.file_type(),
        after.metadata() == before.metadata(),
        after.parent_spec() == before.parent_spec(),
        after.spec_path() == before.spec_path(),
    ensures
        listed_item(options, spec, Ok(after)),
{
}

/// An entry that is sent to another directory still keeps its depth, and
/// still names its parent, where the new directory is at the entry's depth
/// and within the depth cap, whatever its path and state.
pub proof fn law_redirected_keeps<P>(
    options: WalkDirOptions<P>,
    spec: Arc<ReadDirSpec>,
    before: DirEntry,
    after: DirEntry,
)
    requires
        listed_item(options, spec, Ok(before)),
        *after.children_spec() matches Some(below) && below.depth == before.depth() && below.depth
            < options.max_depth,
        after.depth() == before.depth(),
        after.parent_spec() == before.parent_spec(),
    ensures
        leveled_item(options.max_depth, spec, Ok(after)),
        parented_item(spec, Ok(after)),
{
}

/// With hidden entries skipped, no entry of a listing has a name that starts
/// with a dot.
pub proof fn law_hidden_skipped<P>(
    options: WalkDirOptions<P>,
    spec: Arc<ReadDirSpec>,
    raw: Seq<RawResult>,
    listing: Seq<EntryResult>,
)
    requires
        options.skip_hidden,
        options.lists(spec, raw, listing),
    ensures
        none_hidden(listing),
{
    law_listed(options, spec, raw, listing);
    assert forall|k: int| 0 <= k < listing.len() implies ((#[trigger] listing[k]) matches Ok(
        entry,
    ) ==> !hidden(entry.file_name()@)) by {
        assert(listed_item(options, spec, listing[k]));
    }
}

/// An entry is one level below the entry whose directory it is listed for,
/// names that directory as its parent, and has its name inside that directory
/// for its path.
pub proof fn law_child_depth(parent: DirEntry, item: EntryResult)
    requires
        *parent.children_spec() matches Some(below) && below.depth == parent.depth()
            && parented_item(below, item),
    ensures
        item matches Ok(entry) ==> {
            &&& entry.depth() == parent.depth() + 1
            &&& entry.parent_spec() == parent.children_spec()
            &&& entry.spec_path() == joined(
                parent.children_spec()->0.path@,
                entry.file_name()@,
            )
        },
{
    if let Ok(entry) = item {
        law_entry_path(entry);
    }
}

/// Ordered by name, the entries of a listing stand in ascending order of
/// their names as byte strings, and the errors stand behind the entries.
pub proof fn law_name_order<P>(
    options: WalkDirOptions<P>,
    spec: Arc<ReadDirSpec>,
    raw: Seq<RawResult>,
    listing: Seq<EntryResult>,
)
    requires
        options.sort == Some(Sort::Name),
        options.lists(spec, raw, listing),
    ensures
        forall|i: int, j: int|
            0 <= i < j < listing.len() ==> match (#[trigger] listing[i], #[trigger] listing[j]) {
                (Ok(first), Ok(second)) => !lex_less(second.file_name()@, first.file_name()@),
                (Err(_), Ok(_)) => false,
                _ => true,
            },
{
    let items = choose|items: Seq<EntryResult>| #[trigger]
        options.admits(spec, raw, items) && ordered(options.sort, items, listing);
    assert(is_stable_sort(Sort::Name, items, listing));
    assert forall|i: int, j: int| 0 <= i < j < listing.len() implies match (
        #[trigger] listing[i],
        #[trigger] listing[j],
    ) {
        (Ok(first), Ok(second)) => !lex_less(second.file_name()@, first.file_name()@),
        (Err(_), Ok(_)) => false,
        _ => true,
    } by {
        assert(!precedes(Sort::Name, listing[j], listing[i]));
    }
}

/// The walk of items at one level stays within the depth cap, and so does
/// every chain of directories below them.
#[verifier::rlimit(50)]
pub proof fn lemma_walk_levels(
    max_depth: usize,
    content: Content,
    level: nat,
    items: Seq<EntryResult>,
)
    requires
        keeps_depth(max_depth, content),
        level <= max_depth,
        forall|m: int| 0 <= m < items.len() ==> level_item(max_depth, level, #[trigger] items[m]),
    ensures
        fits(content, (max_depth - level) as nat, items),
        forall|k: int|
            0 <= k < walk(content, (max_depth - level) as nat, items).len() ==> ((#[trigger] walk(
                content,
                (max_depth - level) as nat,
                items,
            )[k]) matches Ok(entry) ==> entry.depth() <= max_depth),
    decreases max_depth - level, items.len(),
{
    let fuel = (max_depth - level) as nat;
    if items.len() > 0 {
        let item = items[0];
        let rest = items.drop_first();
        assert forall|m: int| 0 <= m < rest.len() implies level_item(
            max_depth,
            level,
            #[trigger] rest[m],
        ) by {
            assert(rest[m] == items[m + 1]);
        }
        lemma_walk_levels(max_depth, content, level, rest);
        assert(level_item(max_depth, level, item));
        let tail = walk(content, fuel, rest);
        match branch_of(item) {
            None => {
                assert(walk(content, fuel, items) == seq![item] + tail);
            },
            Some(spec) => {
                assert(fuel > 0);
                match content(spec) {
                    Err(error) => {
                        assert(walk(content, fuel, items) == seq![Err::<DirEntry, IoError>(error)]
                            + tail);
                    },
                    Ok(listing) => {
                        assert forall|m: int| 0 <= m < listing.len() implies level_item(
                            max_depth,
                            level + 1,
                            #[trigger] listing[m],
                        ) by {
                            assert(leveled_item(max_depth, spec, listing[m]));
                        }
                        lemma_walk_levels(max_depth, content, level + 1, listing);
                        let below = walk(content, (fuel - 1) as nat, listing);
                        assert(walk(content, fuel, items) == seq![item] + below + tail);
                    },
                }
            },
        }
    }
}

/// No entry of a walk is deeper than the depth cap.
///
/// Where the listings keep the depths of their items, no chain of directories
/// below the root is longer than the depth cap, so the walk with the cap for
/// fuel is the whole walk, and every entry of it is within the cap. The
/// listings may have been changed by a transform, and a transform may have
/// sent the walk to other directories, as long as the depths are kept.
pub proof fn law_depth_cap(max_depth: usize, root: DirEntry, content: Content)
    requires
        leveled_root(max_depth, root),
        keeps_depth(max_depth, content),
    ensures
        fits(content, max_depth as nat, seq![Ok::<DirEntry, IoError>(root)]),
        forall|k: int|
            0 <= k < walk(content, max_depth as nat, seq![Ok::<DirEntry, IoError>(root)]).len()
                ==> ((#[trigger] walk(
                content,
                max_depth as nat,
                seq![Ok::<DirEntry, IoError>(root)],
            )[k]) matches Ok(entry) ==> entry.depth() <= max_depth),
{
    lemma_walk_levels(max_depth, content, 0, seq![Ok::<DirEntry, IoError>(root)]);
}

/// Whoever moves when, a walk whose listings keep their depths hands out the
/// depth-first walk of the tree, and no entry of it is deeper than the cap.
///
/// What the walker has been handed after any moves of the readers and the
/// walker is the front of the depth-first walk, whose rest is what it has yet
/// to hand out, and every entry it has been handed is within the depth cap.
pub proof fn law_walk(max_depth: usize, root: DirEntry, content: Content, moves: Seq<Move>)
    requires
        leveled_root(max_depth, root),
        keeps_depth(max_depth, content),
    ensures
        run(root, content, moves).1 + remaining(
            content,
            max_depth as nat,
            run(root, content, moves).0.stack,
        ) == walk(content, max_depth as nat, seq![Ok::<DirEntry, IoError>(root)]),
        forall|k: int|
            0 <= k < run(root, content, moves).1.len() ==> ((#[trigger] run(
                root,
                content,
                moves,
            ).1[k]) matches Ok(entry) ==> entry.depth() <= max_depth),
{
    let fuel = max_depth as nat;
    let whole = walk(content, fuel, seq![Ok::<DirEntry, IoError>(root)]);
    law_depth_cap(max_depth, root, content);
    lemma_fits_reach(root, content, fuel, moves);
    law_order(root, content, fuel, moves);
    let out = run(root, content, moves).1;
    let rest = remaining(content, fuel, run(root, content, moves).0.stack);
    assert forall|k: int| 0 <= k < out.len() implies ((#[trigger] out[k]) matches Ok(entry)
        ==> entry.depth() <= max_depth) by {
        assert(out[k] == (out + rest)[k]);
        assert(whole[k] == out[k]);
    }
}

/// The walk of items none of which is hidden, over listings that hold no
/// hidden entry, yields no hidden entry.
#[verifier::rlimit(50)]
pub proof fn lemma_walk_hidden(content: Content, fuel: nat, items: Seq<EntryResult>)
    requires
        keeps_hidden_out(content),
        none_hidden(items),
    ensures
        none_hidden(walk(content, fuel, items)),
    decreases fuel, items.len(),
{
    if items.len() > 0 {
        let item = items[0];
        let rest = items.drop_first();
        assert forall|m: int| 0 <= m < rest.len() implies ((#[trigger] rest[m]) matches Ok(entry)
            ==> !hidden(entry.file_name()@)) by {
            assert(rest[m] == items[m + 1]);
        }
        lemma_walk_hidden(content, fuel, rest);
        let tail = walk(content, fuel, rest);
        assert(none_hidden(seq![item])) by {
            assert(seq![item][0] == items[0]);
        }
        match branch_of(item) {
            None => {
                assert(walk(content, fuel, items) == seq![item] + tail);
            },
            Some(spec) => match content(spec) {
                Err(error) => {
                    assert(walk(content, fuel, items) == seq![Err::<DirEntry, IoError>(error)]
                        + tail);
                },
                Ok(listing) => {
                    if fuel == 0 {
                        assert(walk(content, fuel, items) == seq![item] + tail);
                    } else {
                        assert forall|m: int| 0 <= m < listing.len() implies ((
                        #[trigger] listing[m]) matches Ok(entry) ==> !hidden(
                            entry.file_name()@,
                        )) by {}
                        lemma_walk_hidden(content, (fuel - 1) as nat, listing);
                        let below = walk(content, (fuel - 1) as nat, listing);
                        assert(walk(content, fuel, items) == seq![item] + below + tail);
                    }
                },
            },
        }
    }
}

/// With hidden entries skipped, no entry that a walk yields below the root
/// has a name that starts with a dot, whoever moves when. The root itself is
/// yielded whatever its name.
#[verifier::rlimit(50)]
pub proof fn law_walk_hidden(root: DirEntry, content: Content, moves: Seq<Move>)
    requires
        keeps_hidden_out(content),
    ensures
        forall|k: int|
            1 <= k < run(root, content, moves).1.len() ==> ((#[trigger] run(
                root,
                content,
                moves,
            ).1[k]) matches Ok(entry) ==> !hidden(entry.file_name()@)),
{
    let fuel = reach(root, content, moves);
    law_order(root, content, fuel, moves);
    let out = run(root, content, moves).1;
    let rest = remaining(content, fuel, run(root, content, moves).0.stack);
    let items = seq![Ok::<DirEntry, IoError>(root)];
    let whole = walk(content, fuel, items);
    assert(items.drop_first() == Seq::<EntryResult>::empty());
    assert(walk(content, fuel, items.drop_first()) == Seq::<EntryResult>::empty());
    assert forall|k: int| 1 <= k < whole.len() implies ((#[trigger] whole[k]) matches Ok(entry)
        ==> !hidden(entry.file_name()@)) by {
        match branch_of(items[0]) {
            None => {},
            Some(spec) => match content(spec) {
                Err(_) => {},
                Ok(listing) => {
                    if fuel > 0 {
                        assert forall|m: int| 0 <= m < listing.len() implies ((
                        #[trigger] listing[m]) matches Ok(entry) ==> !hidden(
                            entry.file_name()@,
                        )) by {}
                        lemma_walk_hidden(content, (fuel - 1) as nat, listing);
                        let below = walk(content, (fuel - 1) as nat, listing);
                        assert(whole == seq![items[0]] + below);
                        assert(whole[k] == below[k - 1]);
                    }
                },
            },
        }
    }
    assert forall|k: int| 1 <= k < out.len() implies ((#[trigger] out[k]) matches Ok(entry)
        ==> !hidden(entry.file_name()@)) by {
        assert(out[k] == (out + rest)[k]);
        assert(whole[k] == out[k]);
    }
}

/// The entry at `k` of `yielded` is in its place below a directory: it is
/// listed for the directory `anchor` at depth `level`, or it stands behind the
/// entry of its parent directory.
pub open spec fn placed(
    anchor: Option<Arc<ReadDirSpec>>,
    level: nat,
    yielded: Seq<EntryResult>,
    k: int,
) -> bool {
    yielded[k] matches Ok(entry) ==> (*entry.parent_spec() == anchor && entry.depth() == level)
        || follows_parent(yielded, k)
}

/// Every entry of `yielded` is in its place.
pub open spec fn all_placed(
    anchor: Option<Arc<ReadDirSpec>>,
    level: nat,
    yielded: Seq<EntryResult>,
) -> bool {
    forall|k: int| 0 <= k < yielded.len() ==> #[trigger] placed(anchor, level, yielded, k)
}

/// An entry that stands behind its parent still does with more items before
/// the sequence and behind it.
pub proof fn lemma_follows_within(
    before: Seq<EntryResult>,
    yielded: Seq<EntryResult>,
    after: Seq<EntryResult>,
    k: int,
)
    requires
        0 <= k < yielded.len(),
        follows_parent(yielded, k),
    ensures
        follows_parent(before + yielded + after, before.len() + k),
{
    let whole = before + yielded + after;
    let entry = yielded[k]->Ok_0;
    let j = choose|j: int|
        0 <= j < k && ((#[trigger] yielded[j]) matches Ok(above) && above.children_spec()
            == entry.parent_spec() && above.depth() + 1 == entry.depth());
    assert(whole[before.len() + k] == yielded[k]);
    assert(whole[before.len() + j] == yielded[j]);
}

/// Entries that are in their place in two sequences are in the one made of
/// both.
#[verifier::rlimit(50)]
pub proof fn lemma_placed_add(
    anchor: Option<Arc<ReadDirSpec>>,
    level: nat,
    a: Seq<EntryResult>,
    b: Seq<EntryResult>,
)
    requires
        all_placed(anchor, level, a),
        all_placed(anchor, level, b),
    ensures
        all_placed(anchor, level, a + b),
{
    let none = Seq::<EntryResult>::empty();
    assert forall|k: int| 0 <= k < (a + b).len() implies #[trigger] placed(
        anchor,
        level,
        a + b,
        k,
    ) by {
        if k < a.len() {
            assert((a + b)[k] == a[k]);
            assert(placed(anchor, level, a, k));
            if a[k] is Ok && follows_parent(a, k) {
                lemma_follows_within(none, a, b, k);
                assert(none + a + b == a + b);
            }
        } else {
            let n = k - a.len();
            assert((a + b)[k] == b[n]);
            assert(placed(anchor, level, b, n));
            if b[n] is Ok && follows_parent(b, n) {
                lemma_follows_within(a, b, none, n);
                assert(a + b + none == a + b);
            }
        }
    }
}

/// Where the entries below a directory are in their place below it, they are
/// in their place behind the directory's own entry.
#[verifier::rlimit(50)]
pub proof fn lemma_placed_below(
    anchor: Option<Arc<ReadDirSpec>>,
    level: nat,
    above: DirEntry,
    below: Seq<EntryResult>,
)
    requires
        *above.parent_spec() == anchor,
        above.depth() == level,
        above.children_spec() is Some,
        all_placed(*above.children_spec(), level + 1, below),
    ensures
        all_placed(anchor, level, seq![Ok::<DirEntry, IoError>(above)] + below),
{
    let first = seq![Ok::<DirEntry, IoError>(above)];
    let whole = first + below;
    let none = Seq::<EntryResult>::empty();
    assert forall|k: int| 0 <= k < whole.len() implies #[trigger] placed(anchor, level, whole, k) by {
        if k > 0 {
            let n = k - 1;
            assert(whole[k] == below[n]);
            assert(placed(*above.children_spec(), level + 1, below, n));
            if let Ok(entry) = below[n] {
                if follows_parent(below, n) {
                    lemma_follows_within(first, below, none, n);
                    assert(first + below + none == whole);
                } else {
                    assert(whole[0] == Ok::<DirEntry, IoError>(above));
                    assert(follows_parent(whole, k));
                }
            }
        } else {
            assert(whole[0] == Ok::<DirEntry, IoError>(above));
        }
    }
}

/// In the walk of items that are listed for one directory, every entry is
/// one of those items or stands behind the entry of its parent directory.
#[verifier::rlimit(50)]
pub proof fn lemma_walk_parents(
    content: Content,
    fuel: nat,
    anchor: Option<Arc<ReadDirSpec>>,
    level: nat,
    items: Seq<EntryResult>,
)
    requires
        keeps_parents(content),
        forall|m: int|
            0 <= m < items.len() ==> ((#[trigger] items[m]) matches Ok(entry) ==> *entry.parent_spec()
                == anchor && entry.depth() == level && (*entry.children_spec() matches Some(below)
                ==> below.depth == level)),
    ensures
        all_placed(anchor, level, walk(content, fuel, items)),
    decreases fuel, items.len(),
{
    let whole = walk(content, fuel, items);
    if items.len() > 0 {
        let item = items[0];
        let rest = items.drop_first();
        assert forall|m: int| 0 <= m < rest.len() implies ((#[trigger] rest[m]) matches Ok(entry)
            ==> *entry.parent_spec() == anchor && entry.depth() == level && (
        *entry.children_spec() matches Some(below) ==> below.depth == level)) by {
            assert(rest[m] == items[m + 1]);
        }
        lemma_walk_parents(content, fuel, anchor, level, rest);
        let tail = walk(content, fuel, rest);
        let head: Seq<EntryResult> = match branch_of(item) {
            None => seq![item],
            Some(spec) => match content(spec) {
                Err(error) => seq![Err::<DirEntry, IoError>(error)],
                Ok(listing) => if fuel == 0 {
                    seq![item]
                } else {
                    seq![item] + walk(content, (fuel - 1) as nat, listing)
                },
            },
        };
        assert(whole == head + tail);
        assert(items[0] == item);
        assert(all_placed(anchor, level, head)) by {
            if head.len() == 1 {
                assert(placed(anchor, level, head, 0));
            } else {
                let spec = branch_of(item)->0;
                let listing = content(spec)->Ok_0;
                let below = walk(content, (fuel - 1) as nat, listing);
                assert forall|m: int| 0 <= m < listing.len() implies ((
                #[trigger] listing[m]) matches Ok(entry) ==> *entry.parent_spec() == Some(spec)
                    && entry.depth() == level + 1 && (*entry.children_spec() matches Some(b)
                    ==> b.depth == level + 1)) by {
                    assert(parented_item(spec, listing[m]));
                }
                lemma_walk_parents(content, (fuel - 1) as nat, Some(spec), level + 1, listing);
                lemma_placed_below(anchor, level, item->Ok_0, below);
            }
        }
        lemma_placed_add(anchor, level, head, tail);
    }
}

/// Every entry that a walk yields is the root, or stands behind the entry of
/// its parent directory and is one level below it, whoever moves when.
///
/// The listings may have been changed by a transform, as long as each entry
/// still names the directory it is listed for and depths are kept. That the
/// entry's path is its name inside its parent directory holds of every entry
/// there is.
#[verifier::rlimit(50)]
pub proof fn law_parents_first(root: DirEntry, content: Content, moves: Seq<Move>)
    requires
        root.depth() == 0,
        *root.parent_spec() is None,
        *root.children_spec() matches Some(below) ==> below.depth == 0,
        keeps_parents(content),
    ensures
        forall|k: int|
            0 <= k < run(root, content, moves).1.len() ==> ((#[trigger] run(
                root,
                content,
                moves,
            ).1[k]) matches Ok(entry) ==> (*entry.parent_spec() is None && entry.depth() == 0)
                || follows_parent(run(root, content, moves).1, k)),
{
    let fuel = reach(root, content, moves);
    law_order(root, content, fuel, moves);
    let out = run(root, content, moves).1;
    let rest = remaining(content, fuel, run(root, content, moves).0.stack);
    let items = seq![Ok::<DirEntry, IoError>(root)];
    let whole = walk(content, fuel, items);
    lemma_walk_parents(content, fuel, None, 0, items);
    assert forall|k: int| 0 <= k < out.len() implies ((#[trigger] out[k]) matches Ok(entry) ==> (
    *entry.parent_spec() is None && entry.depth() == 0) || follows_parent(out, k)) by {
        assert(out[k] == (out + rest)[k]);
        assert(whole[k] == out[k]);
        assert(placed(None, 0, whole, k));
        if let Ok(entry) = out[k] {
            if !(*entry.parent_spec() is None && entry.depth() == 0) {
                assert(follows_parent(whole, k));
                let j = choose|j: int|
                    0 <= j < k && ((#[trigger] whole[j]) matches Ok(above) && above.children_spec()
                        == entry.parent_spec() && above.depth() + 1 == entry.depth());
                assert(whole[j] == (out + rest)[j]);
                assert(out[j] == whole[j]);
            }
        }
    }
}

/// With a depth cap of 0 the walk yields the root entry and nothing else.
pub proof fn law_depth_zero<P>(
    options: WalkDirOptions<P>,
    path: Seq<u8>,
    root_type: Result<FileType, IoError>,
    root: DirEntry,
    content: Content,
    fuel: nat,
)
    requires
        options.max_depth == 0,
        options.is_root(path, root_type, root),
    ensures
        walk(content, fuel, seq![Ok::<DirEntry, IoError>(root)]) == seq![
            Ok::<DirEntry, IoError>(root),
        ],
{
    lemma_walk_leaf(content, fuel, Ok(root));
}

/// The walk of a path that is no directory yields the entry of that path and
/// nothing else.
pub proof fn law_file_root<P>(
    options: WalkDirOptions<P>,
    path: Seq<u8>,
    root_type: Result<FileType, IoError>,
    root: DirEntry,
    content: Content,
    fuel: nat,
)
    requires
        root_type != Ok::<FileType, IoError>(FileType::Dir),
        options.is_root(path, root_type, root),
    ensures
        walk(content, fuel, seq![Ok::<DirEntry, IoError>(root)]) == seq![
            Ok::<DirEntry, IoError>(root),
        ],
{
    lemma_walk_leaf(content, fuel, Ok(root));
}

/// What a walk lists for a directory does not depend on the number of
/// threads, nor on the transform: two walks that agree on order, depth cap and
/// both flags list the same.
pub proof fn law_threads_do_not_matter<P, Q>(
    first: WalkDirOptions<P>,
    second: WalkDirOptions<Q>,
    spec: Arc<ReadDirSpec>,
    raw: Seq<RawResult>,
    listing: Seq<EntryResult>,
)
    requires
        first.sort == second.sort,
        first.max_depth == second.max_depth,
        first.skip_hidden == second.skip_hidden,
        first.preload_metadata == second.preload_metadata,
        first.lists(spec, raw, listing),
    ensures
        second.lists(spec, raw, listing),
{
    let items = choose|items: Seq<EntryResult>| #[trigger]
        first.admits(spec, raw, items) && ordered(first.sort, items, listing);
    let kept = kept(first.skip_hidden, raw);
    assert forall|k: int| 0 <= k < kept.len() implies second.admitted_as(
        spec,
        kept[k],
        #[trigger] items[k],
    ) by {
        assert(first.admitted_as(spec, kept[k], items[k]));
    }
    assert(second.admits(spec, raw, items));
}

} // verus!
