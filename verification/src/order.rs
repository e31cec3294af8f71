//! The order of a walk, and why the hand-off keeps it.
//!
//! `walk` says what a plain depth-first pre-order walk hands out when every
//! directory is read at the moment the walk reaches it. The laws below show
//! that the hand-off yields that very sequence, whenever and in whatever order
//! the results of the directories are published.

use crate::entry::{branch_of, DirEntry, EntryResult, IoError, ReadDirSpec};
use crate::state::{
    lemma_next_wf, lemma_publish_wf, lemma_settled_wf, lemma_start_wf, lemma_step_node,
    FrameView, SlotView, StepView, WalkState,
};
use std::sync::Arc;
use vstd::prelude::*;

verus! {

/// What reading each directory gives: the listing that is published for it, or
/// the error of a directory that cannot be read.
pub type Content = spec_fn(Arc<ReadDirSpec>) -> Result<Seq<EntryResult>, IoError>;

/// The sequence that a depth-first pre-order walk of `items` hands out, going
/// at most `fuel` directories deep.
///
/// An item that the walk does not descend below stands for itself. An entry
/// that it descends below is followed by the walk of its directory's listing;
/// where the directory cannot be read, the error stands in the entry's place.
/// Where the fuel is used up the walk reads no listing and hands out the
/// entry alone; a walk that [`fits`] never comes to that.
pub open spec fn walk(content: Content, fuel: nat, items: Seq<EntryResult>) -> Seq<EntryResult>
    decreases fuel, items.len(),
{
    if items.len() == 0 {
        Seq::empty()
    } else {
        let item = items[0];
        let rest = walk(content, fuel, items.drop_first());
        match branch_of(item) {
            None => seq![item] + rest,
            Some(spec) => match content(spec) {
                Err(error) => seq![Err::<DirEntry, IoError>(error)] + rest,
                Ok(listing) => if fuel == 0 {
                    seq![item] + rest
                } else {
                    seq![item] + walk(content, (fuel - 1) as nat, listing) + rest
                },
            },
        }
    }
}

/// No chain of directories below `items` is longer than `fuel`.
pub open spec fn fits(content: Content, fuel: nat, items: Seq<EntryResult>) -> bool
    decreases fuel, items.len(),
{
    if items.len() == 0 {
        true
    } else {
        &&& fits(content, fuel, items.drop_first())
        &&& match branch_of(items[0]) {
            None => true,
            Some(spec) => match content(spec) {
                Ok(listing) => fuel > 0 && fits(content, (fuel - 1) as nat, listing),
                Err(_) => true,
            },
        }
    }
}

/// The fuel that is left for the `level`-th listing of the stack.
pub open spec fn budget(fuel: nat, level: int) -> nat {
    if 0 <= level <= fuel {
        (fuel - level) as nat
    } else {
        0
    }
}

/// What the walker has yet to hand out, given the listings it is in the
/// middle of: the walk of the innermost, then that of the one around it, and
/// so on.
pub open spec fn remaining(content: Content, fuel: nat, stack: Seq<FrameView>) -> Seq<EntryResult>
    decreases stack.len(),
{
    if stack.len() == 0 {
        Seq::empty()
    } else {
        walk(content, budget(fuel, stack.len() - 1), stack.last().entries) + remaining(
            content,
            fuel,
            stack.drop_last(),
        )
    }
}

impl WalkState {
    /// Every result that has been published is the one that `content` gives
    /// for the node's directory.
    pub open spec fn consistent(self, content: Content) -> bool {
        forall|n: int|
            0 <= n < self.nodes.len() ==> ((#[trigger] self.nodes[n]).slot matches SlotView::Ready(
                result,
            ) ==> result == content(self.nodes[n].spec))
    }

    /// The listings on the stack, and what lies below them, are within `fuel`.
    pub open spec fn within(self, content: Content, fuel: nat) -> bool {
        self.stack.len() <= fuel + 1 && snug(content, fuel, self.stack)
    }
}

/// Who moves next: a reader that publishes the result of a node's directory,
/// or the walker.
pub enum Move {
    Publish(int),
    Next,
}

/// The hand-off after `moves`, from a walk that starts at `root`, and the
/// items that the walker was handed on the way. A reader publishes what
/// `content` gives for the node's directory.
pub open spec fn run(root: DirEntry, content: Content, moves: Seq<Move>) -> (
    WalkState,
    Seq<EntryResult>,
)
    decreases moves.len(),
{
    if moves.len() == 0 {
        (WalkState::start(root), Seq::empty())
    } else {
        let (state, out) = run(root, content, moves.drop_last());
        match moves.last() {
            Move::Publish(node) => (
                if state.is_pending(node) {
                    state.publish(node, content(state.nodes[node].spec))
                } else {
                    state
                },
                out,
            ),
            Move::Next => {
                let (after, step) = state.next();
                (
                    after,
                    match step {
                        StepView::Entry(item) => out.push(item),
                        _ => out,
                    },
                )
            },
        }
    }
}

/// How deep the walker got in the course of `moves`: the greatest number of
/// listings that it was in the middle of at once.
pub open spec fn reach(root: DirEntry, content: Content, moves: Seq<Move>) -> nat
    decreases moves.len(),
{
    let here = run(root, content, moves).0.stack.len();
    if moves.len() == 0 {
        here
    } else {
        let before = reach(root, content, moves.drop_last());
        if before >= here {
            before
        } else {
            here
        }
    }
}

/// The walk of a listing is the walk of its first part, then that of the
/// rest: what lies below one item does not depend on the items beside it.
pub proof fn law_walk_splits(content: Content, fuel: nat, a: Seq<EntryResult>, b: Seq<EntryResult>)
    ensures
        walk(content, fuel, a + b) == walk(content, fuel, a) + walk(content, fuel, b),
    decreases a.len(),
{
    if a.len() == 0 {
        assert(a + b == b);
    } else {
        assert((a + b).drop_first() == a.drop_first() + b);
        assert((a + b)[0] == a[0]);
        law_walk_splits(content, fuel, a.drop_first(), b);
    }
}

/// The walk of one item that the walk does not descend below is the item.
pub proof fn lemma_walk_leaf(content: Content, fuel: nat, item: EntryResult)
    requires
        branch_of(item) is None,
    ensures
        walk(content, fuel, seq![item]) == seq![item],
{
    let items = seq![item];
    assert(items.drop_first() == Seq::<EntryResult>::empty());
    assert(walk(content, fuel, items.drop_first()) == Seq::<EntryResult>::empty());
}

/// The walk of an entry whose directory can be read is the entry, then the
/// walk of the directory's listing: what lies below a directory does not
/// depend on what stands beside it.
pub proof fn law_walk_below(
    content: Content,
    fuel: nat,
    item: EntryResult,
    listing: Seq<EntryResult>,
)
    requires
        fuel > 0,
        branch_of(item) matches Some(spec) && content(spec) == Ok::<Seq<EntryResult>, IoError>(
            listing,
        ),
    ensures
        walk(content, fuel, seq![item]) == seq![item] + walk(content, (fuel - 1) as nat, listing),
{
    let items = seq![item];
    assert(items.drop_first() == Seq::<EntryResult>::empty());
    assert(walk(content, fuel, items.drop_first()) == Seq::<EntryResult>::empty());
}

/// A directory that cannot be read gives one error in the place of its entry,
/// and the walk goes on with what follows the entry.
pub proof fn law_unreadable(
    content: Content,
    fuel: nat,
    items: Seq<EntryResult>,
    error: IoError,
)
    requires
        items.len() > 0,
        branch_of(items[0]) matches Some(spec) && content(spec) == Err::<
            Seq<EntryResult>,
            IoError,
        >(error),
    ensures
        walk(content, fuel, items) == seq![Err::<DirEntry, IoError>(error)] + walk(
            content,
            fuel,
            items.drop_first(),
        ),
{
}

/// Listings that are walked to their end add nothing to what is left.
pub proof fn lemma_remaining_settled(content: Content, fuel: nat, s: WalkState)
    ensures
        remaining(content, fuel, s.settled().stack) == remaining(content, fuel, s.stack),
        s.consistent(content) ==> s.settled().consistent(content),
    decreases s.stack.len(),
{
    if s.stack.len() > 0 && s.stack.last().entries.len() == 0 {
        let t = WalkState { nodes: s.nodes, stack: s.stack.drop_last() };
        lemma_remaining_settled(content, fuel, t);
    }
}

/// Before the walk begins, all of it is left.
pub proof fn lemma_start(root: DirEntry, content: Content, fuel: nat)
    ensures
        WalkState::start(root).wf(),
        WalkState::start(root).consistent(content),
        remaining(content, fuel, WalkState::start(root).stack) == walk(
            content,
            fuel,
            seq![Ok::<DirEntry, IoError>(root)],
        ),
        fits(content, fuel, seq![Ok::<DirEntry, IoError>(root)]) ==> WalkState::start(root).within(
            content,
            fuel,
        ),
{
    lemma_start_wf(root);
    let s = WalkState::start(root);
    assert(s.stack.drop_last() == Seq::<FrameView>::empty());
    assert(remaining(content, fuel, s.stack.drop_last()) == Seq::<EntryResult>::empty());
    assert(snug(content, fuel, s.stack.drop_last()));
    assert(s.stack.last().entries == seq![Ok::<DirEntry, IoError>(root)]);
}

/// Publishing the result of a directory changes nothing of what the walker
/// has yet to hand out.
pub proof fn law_publish(
    s: WalkState,
    content: Content,
    fuel: nat,
    node: int,
    result: Result<Seq<EntryResult>, IoError>,
)
    requires
        s.wf(),
    ensures
        s.publish(node, result).wf(),
        remaining(content, fuel, s.publish(node, result).stack) == remaining(
            content,
            fuel,
            s.stack,
        ),
        s.within(content, fuel) ==> s.publish(node, result).within(content, fuel),
        s.consistent(content) && s.is_pending(node) && result == content(s.nodes[node].spec)
            ==> s.publish(node, result).consistent(content),
{
    lemma_publish_wf(s, node, result);
    if s.is_pending(node) {
        let t = s.publish(node, result);
        assert(t.stack == s.stack);
        if s.consistent(content) && result == content(s.nodes[node].spec) {
            assert forall|n: int| 0 <= n < t.nodes.len() implies ((
            #[trigger] t.nodes[n]).slot matches SlotView::Ready(r) ==> r == content(
                t.nodes[n].spec,
            )) by {
                if n != node && n < s.nodes.len() {
                    assert(t.nodes[n] == s.nodes[n]);
                }
            }
        }
    }
}

/// The walker hands out what is left, one item at a time and from the front.
///
/// While every published result is what `content` gives, a call of `next`
/// either hands out the first item of what is left, or ends the walk when
/// nothing is left, or waits for a node that has no result yet and leaves
/// what is left as it was. The fuel is any that the walker stays within.
#[verifier::rlimit(50)]
pub proof fn law_next(s: WalkState, content: Content, fuel: nat)
    requires
        s.wf(),
        s.consistent(content),
        s.stack.len() <= fuel + 1,
        s.next().0.stack.len() <= fuel + 1,
    ensures
        s.next().0.wf(),
        s.next().0.consistent(content),
        match s.next().1 {
            StepView::Entry(item) => remaining(content, fuel, s.stack) == seq![item] + remaining(
                content,
                fuel,
                s.next().0.stack,
            ),
            StepView::Pending(task) => {
                &&& s.next().0.is_pending(task.node)
                &&& s.next().0.nodes[task.node].spec == task.spec
                &&& remaining(content, fuel, s.next().0.stack) == remaining(content, fuel, s.stack)
            },
            StepView::Done => {
                &&& remaining(content, fuel, s.stack) == Seq::<EntryResult>::empty()
                &&& s.next().0.stack.len() == 0
            },
        },
{
    lemma_next_wf(s);
    lemma_settled_wf(s);
    lemma_remaining_settled(content, fuel, s);
    let s0 = s.settled();
    let t = s0.step().0;
    if s0.stack.len() > 0 {
        let last = s0.stack.len() - 1;
        let top = s0.stack[last];
        let item = top.entries[0];
        let rest = top.entries.drop_first();
        let below = s0.stack.drop_last();
        let fuel_top = budget(fuel, last);
        match branch_of(item) {
            None => {
                assert(t.stack.drop_last() == below);
                assert(t.stack.last().entries == rest);
                assert(remaining(content, fuel, s0.stack) == seq![item] + remaining(
                    content,
                    fuel,
                    t.stack,
                ));
            },
            Some(spec) => {
                lemma_step_node(s0);
                let id = top.next_child;
                let node = s0.nodes[id];
                assert(node.spec == spec);
                match node.slot {
                    SlotView::Pending => {},
                    SlotView::Taken => {},
                    SlotView::Ready(result) => {
                        assert(result == content(spec));
                        assert forall|n: int| 0 <= n < t.nodes.len() implies ((
                        #[trigger] t.nodes[n]).slot matches SlotView::Ready(r) ==> r == content(
                            t.nodes[n].spec,
                        )) by {
                            if n != id {
                                assert(t.nodes[n] == s0.nodes[n]);
                            }
                        }
                        match result {
                            Err(error) => {
                                assert(t.stack.drop_last() == below);
                                assert(t.stack.last().entries == rest);
                                assert(remaining(content, fuel, s0.stack) == seq![
                                    Err::<DirEntry, IoError>(error),
                                ] + remaining(content, fuel, t.stack));
                            },
                            Ok(listing) => {
                                let mid = t.stack.drop_last();
                                assert(t.stack.len() == last + 2);
                                assert(fuel_top > 0);
                                assert(t.stack.last().entries == listing);
                                assert(mid.drop_last() == below);
                                assert(mid.last().entries == rest);
                                assert(mid.len() == last + 1);
                                assert(budget(fuel, last + 1) == (fuel_top - 1) as nat);
                                assert(remaining(content, fuel, mid) == walk(
                                    content,
                                    fuel_top,
                                    rest,
                                ) + remaining(content, fuel, below));
                                assert(remaining(content, fuel, t.stack) == walk(
                                    content,
                                    (fuel_top - 1) as nat,
                                    listing,
                                ) + remaining(content, fuel, mid));
                                assert(remaining(content, fuel, s0.stack) == seq![item]
                                    + remaining(content, fuel, t.stack));
                            },
                        }
                    },
                }
            },
        }
    }
}

/// Where no chain of directories below the listings of the walker is longer
/// than the fuel, none is after a call of `next`.
#[verifier::rlimit(50)]
pub proof fn lemma_next_within(s: WalkState, content: Content, fuel: nat)
    requires
        s.wf(),
        s.consistent(content),
        s.within(content, fuel),
    ensures
        s.next().0.within(content, fuel),
{
    lemma_settled_wf(s);
    lemma_snug_settled(content, fuel, s);
    let s0 = s.settled();
    let t = s0.step().0;
    if s0.stack.len() > 0 {
        let last = s0.stack.len() - 1;
        let top = s0.stack[last];
        let item = top.entries[0];
        assert(fits(content, budget(fuel, last), s0.stack.last().entries));
        if let Some(spec) = branch_of(item) {
            lemma_step_node(s0);
            if let SlotView::Ready(result) = s0.nodes[top.next_child].slot {
                assert(result == content(spec));
            }
        }
    }
    assert(t.stack.len() <= fuel + 1);
    lemma_next_snug(s, content, fuel);
}

/// The walker waits for nothing but a missing result: once the result it
/// waits for is published, its next step hands out an item.
pub proof fn law_progress(s: WalkState, result: Result<Seq<EntryResult>, IoError>)
    requires
        s.wf(),
        s.next().1 is Pending,
    ensures
        s.next().0.is_pending(s.next().1->Pending_0.node),
        s.next().0.publish(s.next().1->Pending_0.node, result).next().1 is Entry,
{
    lemma_settled_wf(s);
    let s0 = s.settled();
    lemma_step_node(s0);
    let id = s0.stack.last().next_child;
    let t = s0.publish(id, result);
    assert(t.stack == s0.stack);
    assert(t.settled() == t);
    assert(t.nodes[id].slot == SlotView::Ready(result));
}

/// The order of the walk does not depend on who moves when.
///
/// Whatever the moves of the readers and the walker, what the walker has been
/// handed so far, followed by what it has yet to hand out, is the depth-first
/// walk from the root. Once the walker is told that the walk is over, it has
/// been handed exactly that walk. The fuel is any that the walker stayed
/// within in the course of the moves.
pub proof fn law_order(root: DirEntry, content: Content, fuel: nat, moves: Seq<Move>)
    requires
        reach(root, content, moves) <= fuel + 1,
    ensures
        run(root, content, moves).0.wf(),
        run(root, content, moves).0.consistent(content),
        run(root, content, moves).1 + remaining(content, fuel, run(root, content, moves).0.stack)
            == walk(content, fuel, seq![Ok::<DirEntry, IoError>(root)]),
        run(root, content, moves).0.next().1 is Done ==> run(root, content, moves).1 == walk(
            content,
            fuel,
            seq![Ok::<DirEntry, IoError>(root)],
        ),
    decreases moves.len(),
{
    let whole = walk(content, fuel, seq![Ok::<DirEntry, IoError>(root)]);
    if moves.len() == 0 {
        lemma_start(root, content, fuel);
        assert(Seq::<EntryResult>::empty() + whole == whole);
    } else {
        law_order(root, content, fuel, moves.drop_last());
        let (state, out) = run(root, content, moves.drop_last());
        match moves.last() {
            Move::Publish(node) => {
                if state.is_pending(node) {
                    law_publish(state, content, fuel, node, content(state.nodes[node].spec));
                }
            },
            Move::Next => {
                law_next(state, content, fuel);
                let (after, step) = state.next();
                match step {
                    StepView::Entry(item) => {
                        assert(out.push(item) + remaining(content, fuel, after.stack) == out + (
                        seq![item] + remaining(content, fuel, after.stack)));
                    },
                    _ => {},
                }
            },
        }
    }
    let (end, out) = run(root, content, moves);
    if end.next().1 is Done {
        lemma_settled_wf(end);
        assert(end.next().0 == end.settled());
        law_next(end, content, fuel);
        assert(out + Seq::<EntryResult>::empty() == out);
    }
}

/// Where no chain of directories below the root is longer than the fuel, the
/// walker stays within the fuel whatever the moves.
pub proof fn lemma_fits_reach(root: DirEntry, content: Content, fuel: nat, moves: Seq<Move>)
    requires
        fits(content, fuel, seq![Ok::<DirEntry, IoError>(root)]),
    ensures
        run(root, content, moves).0.wf(),
        run(root, content, moves).0.consistent(content),
        run(root, content, moves).0.within(content, fuel),
        reach(root, content, moves) <= fuel + 1,
    decreases moves.len(),
{
    if moves.len() == 0 {
        lemma_start(root, content, fuel);
    } else {
        lemma_fits_reach(root, content, fuel, moves.drop_last());
        let (state, out) = run(root, content, moves.drop_last());
        match moves.last() {
            Move::Publish(node) => {
                if state.is_pending(node) {
                    law_publish(state, content, fuel, node, content(state.nodes[node].spec));
                }
            },
            Move::Next => {
                lemma_next_wf(state);
                lemma_next_within(state, content, fuel);
                law_next(state, content, fuel);
            },
        }
    }
}

/// No chain of directories below the listings that the walker is in the
/// middle of is longer than the fuel that is left for each.
pub open spec fn snug(content: Content, fuel: nat, stack: Seq<FrameView>) -> bool
    decreases stack.len(),
{
    if stack.len() == 0 {
        true
    } else {
        fits(content, budget(fuel, stack.len() - 1), stack.last().entries) && snug(
            content,
            fuel,
            stack.drop_last(),
        )
    }
}

/// Listings that are walked to their end have nothing below them.
pub proof fn lemma_snug_settled(content: Content, fuel: nat, s: WalkState)
    ensures
        snug(content, fuel, s.settled().stack) == snug(content, fuel, s.stack),
    decreases s.stack.len(),
{
    if s.stack.len() > 0 && s.stack.last().entries.len() == 0 {
        let t = WalkState { nodes: s.nodes, stack: s.stack.drop_last() };
        lemma_snug_settled(content, fuel, t);
    }
}

/// A step of a walker that stays within the fuel neither adds a chain that is
/// too long nor takes one away.
#[verifier::rlimit(50)]
pub proof fn lemma_next_snug(s: WalkState, content: Content, fuel: nat)
    requires
        s.wf(),
        s.consistent(content),
        s.stack.len() <= fuel + 1,
        s.next().0.stack.len() <= fuel + 1,
    ensures
        snug(content, fuel, s.next().0.stack) == snug(content, fuel, s.stack),
{
    lemma_settled_wf(s);
    lemma_snug_settled(content, fuel, s);
    let s0 = s.settled();
    let t = s0.step().0;
    if s0.stack.len() > 0 {
        let last = s0.stack.len() - 1;
        let top = s0.stack[last];
        let item = top.entries[0];
        let rest = top.entries.drop_first();
        let below = s0.stack.drop_last();
        let fuel_top = budget(fuel, last);
        match branch_of(item) {
            None => {
                assert(t.stack.drop_last() == below);
                assert(t.stack.last().entries == rest);
            },
            Some(spec) => {
                lemma_step_node(s0);
                let id = top.next_child;
                let node = s0.nodes[id];
                match node.slot {
                    SlotView::Pending => {},
                    SlotView::Taken => {},
                    SlotView::Ready(result) => {
                        assert(result == content(spec));
                        match result {
                            Err(error) => {
                                assert(t.stack.drop_last() == below);
                                assert(t.stack.last().entries == rest);
                            },
                            Ok(listing) => {
                                let mid = t.stack.drop_last();
                                assert(t.stack.len() == last + 2);
                                assert(fuel_top > 0);
                                assert(t.stack.last().entries == listing);
                                assert(mid.drop_last() == below);
                                assert(mid.last().entries == rest);
                                assert(mid.len() == last + 1);
                                assert(budget(fuel, last + 1) == (fuel_top - 1) as nat);
                                assert(snug(content, fuel, mid) == (fits(content, fuel_top, rest)
                                    && snug(content, fuel, below)));
                                assert(snug(content, fuel, t.stack) == (fits(
                                    content,
                                    (fuel_top - 1) as nat,
                                    listing,
                                ) && snug(content, fuel, mid)));
                            },
                        }
                    },
                }
            },
        }
    }
}

/// A walk that has come to its end has read every directory below the root:
/// no chain of them is longer than the walker got deep.
pub proof fn law_finished_fits(root: DirEntry, content: Content, fuel: nat, moves: Seq<Move>)
    requires
        reach(root, content, moves) <= fuel + 1,
        run(root, content, moves).0.next().1 is Done,
    ensures
        fits(content, fuel, seq![Ok::<DirEntry, IoError>(root)]),
{
    lemma_run_snug(root, content, fuel, moves);
    law_order(root, content, fuel, moves);
    let end = run(root, content, moves).0;
    lemma_settled_wf(end);
    assert(end.next().0 == end.settled());
    law_next(end, content, fuel);
    lemma_next_snug(end, content, fuel);
    assert(snug(content, fuel, end.next().0.stack));
}

/// In the course of a walk that stays within the fuel, the chains below what
/// is left fit exactly if those below the root do.
pub proof fn lemma_run_snug(root: DirEntry, content: Content, fuel: nat, moves: Seq<Move>)
    requires
        reach(root, content, moves) <= fuel + 1,
    ensures
        snug(content, fuel, run(root, content, moves).0.stack) == fits(
            content,
            fuel,
            seq![Ok::<DirEntry, IoError>(root)],
        ),
    decreases moves.len(),
{
    if moves.len() == 0 {
        let s = WalkState::start(root);
        assert(s.stack.drop_last() == Seq::<FrameView>::empty());
        assert(snug(content, fuel, s.stack.drop_last()));
        assert(s.stack.last().entries == seq![Ok::<DirEntry, IoError>(root)]);
    } else {
        lemma_run_snug(root, content, fuel, moves.drop_last());
        law_order(root, content, fuel, moves.drop_last());
        let (state, out) = run(root, content, moves.drop_last());
        match moves.last() {
            Move::Publish(node) => {},
            Move::Next => {
                lemma_next_snug(state, content, fuel);
            },
        }
    }
}

/// Listing again every directory that a finished walk has yielded gives back
/// the walk: what the walker was handed is the root, as the walk shows it,
/// together with the listings of the directories below the entries it was
/// handed, each listed once.
pub proof fn law_round_trip_of_walk(root: DirEntry, content: Content, moves: Seq<Move>)
    requires
        run(root, content, moves).0.next().1 is Done,
    ensures
        run(root, content, moves).1.to_multiset() == shown_all(
            content,
            seq![Ok::<DirEntry, IoError>(root)],
        ).to_multiset().add(relisted(content, run(root, content, moves).1).to_multiset()),
{
    let fuel = reach(root, content, moves);
    law_order(root, content, fuel, moves);
    law_finished_fits(root, content, fuel, moves);
    law_round_trip(content, fuel, seq![Ok::<DirEntry, IoError>(root)]);
}

/// Two walks of the same tree hand out the same sequence, however the
/// readers and the walker took turns in each: for one root and one outcome of
/// reading each directory, every walk that comes to its end has handed out
/// the same items in the same order.
pub proof fn law_deterministic(
    root: DirEntry,
    content: Content,
    first: Seq<Move>,
    second: Seq<Move>,
)
    requires
        run(root, content, first).0.next().1 is Done,
        run(root, content, second).0.next().1 is Done,
    ensures
        run(root, content, first).1 == run(root, content, second).1,
{
    let one = reach(root, content, first);
    let other = reach(root, content, second);
    let fuel = if one >= other {
        one
    } else {
        other
    };
    law_order(root, content, fuel, first);
    law_order(root, content, fuel, second);
}

/// An item as a walk shows it: the entry of a directory that cannot be read
/// gives way to the error, every other item stands for itself.
pub open spec fn shown(content: Content, item: EntryResult) -> EntryResult {
    match branch_of(item) {
        Some(spec) => match content(spec) {
            Ok(_) => item,
            Err(error) => Err(error),
        },
        None => item,
    }
}

/// The items of a listing as a walk shows them.
pub open spec fn shown_all(content: Content, items: Seq<EntryResult>) -> Seq<EntryResult> {
    Seq::new(items.len(), |k: int| shown(content, items[k]))
}

/// The listings of the directories below the entries of `yielded`, each read
/// once and on its own, one behind the other.
pub open spec fn relisted(content: Content, yielded: Seq<EntryResult>) -> Seq<EntryResult>
    decreases yielded.len(),
{
    if yielded.len() == 0 {
        Seq::empty()
    } else {
        let first = match branch_of(yielded[0]) {
            Some(spec) => match content(spec) {
                Ok(listing) => shown_all(content, listing),
                Err(_) => Seq::empty(),
            },
            None => Seq::empty(),
        };
        first + relisted(content, yielded.drop_first())
    }
}

/// The listings below a sequence of entries are those below its first part,
/// then those below the rest.
pub proof fn lemma_relisted_add(content: Content, a: Seq<EntryResult>, b: Seq<EntryResult>)
    ensures
        relisted(content, a + b) == relisted(content, a) + relisted(content, b),
    decreases a.len(),
{
    if a.len() == 0 {
        assert(a + b == b);
    } else {
        assert((a + b).drop_first() == a.drop_first() + b);
        assert((a + b)[0] == a[0]);
        lemma_relisted_add(content, a.drop_first(), b);
    }
}

/// Listing again every directory that a walk yields gives back the walk.
///
/// The items of a walk are the items it starts from, as the walk shows them,
/// together with the listings of the directories below the entries it yields,
/// each listed once: nothing is yielded twice and nothing is left out.
#[verifier::rlimit(50)]
pub proof fn law_round_trip(content: Content, fuel: nat, items: Seq<EntryResult>)
    requires
        fits(content, fuel, items),
    ensures
        walk(content, fuel, items).to_multiset() == shown_all(content, items).to_multiset().add(
            relisted(content, walk(content, fuel, items)).to_multiset(),
        ),
    decreases fuel, items.len(),
{
    broadcast use vstd::seq_lib::group_to_multiset_ensures;

    let whole = walk(content, fuel, items);
    if items.len() == 0 {
        assert(shown_all(content, items) == Seq::<EntryResult>::empty());
        assert(whole.to_multiset() =~= shown_all(content, items).to_multiset().add(
            relisted(content, whole).to_multiset(),
        ));
    } else {
        let item = items[0];
        let rest = items.drop_first();
        let tail = walk(content, fuel, rest);
        law_round_trip(content, fuel, rest);
        assert(shown_all(content, items) == seq![shown(content, item)] + shown_all(content, rest));
        vstd::seq_lib::lemma_multiset_commutative(
            seq![shown(content, item)],
            shown_all(content, rest),
        );
        let head: Seq<EntryResult> = match branch_of(item) {
            None => seq![item],
            Some(spec) => match content(spec) {
                Ok(listing) => seq![item] + walk(content, (fuel - 1) as nat, listing),
                Err(error) => seq![Err::<DirEntry, IoError>(error)],
            },
        };
        assert(whole == head + tail);
        lemma_relisted_add(content, head, tail);
        vstd::seq_lib::lemma_multiset_commutative(head, tail);
        vstd::seq_lib::lemma_multiset_commutative(relisted(content, head), relisted(content, tail));
        let one = seq![shown(content, item)];
        assert(one.to_multiset() =~= vstd::multiset::Multiset::<EntryResult>::empty().insert(shown(content, item)))
            by {
            assert(one == Seq::<EntryResult>::empty().push(shown(content, item)));
        }
        // the first item and what lies below it
        assert(head.to_multiset() =~= one.to_multiset().add(relisted(content, head).to_multiset()))
            by {
            match branch_of(item) {
                None => {
                    assert(head.drop_first() == Seq::<EntryResult>::empty());
                    assert(relisted(content, head.drop_first()) == Seq::<EntryResult>::empty());
                    assert(relisted(content, head) == Seq::<EntryResult>::empty()
                        + Seq::<EntryResult>::empty());
                    assert(relisted(content, head) == Seq::<EntryResult>::empty());
                },
                Some(spec) => match content(spec) {
                    Err(error) => {
                        assert(head.drop_first() == Seq::<EntryResult>::empty());
                        assert(relisted(content, head.drop_first()) == Seq::<EntryResult>::empty());
                        assert(branch_of(head[0]) is None);
                        assert(relisted(content, head) == Seq::<EntryResult>::empty()
                            + Seq::<EntryResult>::empty());
                        assert(relisted(content, head) == Seq::<EntryResult>::empty());
                    },
                    Ok(listing) => {
                        let below = walk(content, (fuel - 1) as nat, listing);
                        law_round_trip(content, (fuel - 1) as nat, listing);
                        lemma_relisted_add(content, seq![item], below);
                        let single = seq![item];
                        assert(single.drop_first() == Seq::<EntryResult>::empty());
                        assert(relisted(content, single) == shown_all(content, listing)
                            + relisted(content, Seq::<EntryResult>::empty()));
                        assert(relisted(content, single) == shown_all(content, listing));
                        vstd::seq_lib::lemma_multiset_commutative(single, below);
                        vstd::seq_lib::lemma_multiset_commutative(
                            shown_all(content, listing),
                            relisted(content, below),
                        );
                        assert(single == one);
                    },
                }
            }
        }
        assert(whole.to_multiset() =~= shown_all(content, items).to_multiset().add(
            relisted(content, whole).to_multiset(),
        ));
    }
}

/// Two outcomes of reading the directories of a tree that differ in nothing
/// but the order in which each directory gives its items: every directory
/// that can be read gives the same items either way, and one that cannot
/// gives the same error.
pub open spec fn same_items(first: Content, second: Content) -> bool {
    forall|spec: Arc<ReadDirSpec>|
        match (#[trigger] first(spec), #[trigger] second(spec)) {
            (Ok(a), Ok(b)) => a.to_multiset() == b.to_multiset(),
            (Err(error), Err(other)) => error == other,
            _ => false,
        }
}

/// The walk of a listing without one of its items, and the walk of that item
/// alone, hold between them what the walk of the listing holds.
pub proof fn lemma_walk_remove(content: Content, fuel: nat, items: Seq<EntryResult>, i: int)
    requires
        0 <= i < items.len(),
    ensures
        walk(content, fuel, items).to_multiset() == walk(
            content,
            fuel,
            items.remove(i),
        ).to_multiset().add(walk(content, fuel, seq![items[i]]).to_multiset()),
{
    let before = items.take(i);
    let one = seq![items[i]];
    let after = items.skip(i + 1);
    assert(items == before + (one + after));
    assert(items.remove(i) == before + after);
    law_walk_splits(content, fuel, before, one + after);
    law_walk_splits(content, fuel, one, after);
    law_walk_splits(content, fuel, before, after);
    let (x, y, z) = (walk(content, fuel, before), walk(content, fuel, one), walk(content, fuel, after));
    vstd::seq_lib::lemma_multiset_commutative(x, y + z);
    vstd::seq_lib::lemma_multiset_commutative(y, z);
    vstd::seq_lib::lemma_multiset_commutative(x, z);
    assert(x.to_multiset().add(y.to_multiset().add(z.to_multiset())) =~= x.to_multiset().add(
        z.to_multiset(),
    ).add(y.to_multiset()));
}

/// The order in which the directories give their items changes the order of
/// a walk and nothing else: two walks of the same items, over listings that
/// hold the same items, yield the same items.
#[verifier::rlimit(50)]
pub proof fn law_walks_permute(
    first: Content,
    second: Content,
    fuel: nat,
    a: Seq<EntryResult>,
    b: Seq<EntryResult>,
)
    requires
        same_items(first, second),
        a.to_multiset() == b.to_multiset(),
    ensures
        walk(first, fuel, a).to_multiset() == walk(second, fuel, b).to_multiset(),
    decreases fuel, a.len(),
{
    a.to_multiset_ensures();
    b.to_multiset_ensures();
    if a.len() == 0 {
        assert(b.len() == 0);
    } else {
        let item = a[0];
        assert(a.contains(item));
        assert(b.to_multiset().count(item) > 0);
        let i = choose|i: int| 0 <= i < b.len() && b[i] == item;
        let one = seq![item];
        assert(a.remove(0) == a.drop_first());
        assert(a.remove(0).to_multiset() == b.remove(i).to_multiset());
        law_walks_permute(first, second, fuel, a.drop_first(), b.remove(i));
        lemma_walk_remove(first, fuel, a, 0);
        lemma_walk_remove(second, fuel, b, i);
        // the item alone
        assert(walk(first, fuel, one).to_multiset() == walk(second, fuel, one).to_multiset()) by {
            assert(one.drop_first() == Seq::<EntryResult>::empty());
            assert(walk(first, fuel, one.drop_first()) == Seq::<EntryResult>::empty());
            assert(walk(second, fuel, one.drop_first()) == Seq::<EntryResult>::empty());
            match branch_of(item) {
                None => {},
                Some(spec) => match (first(spec), second(spec)) {
                    (Ok(x), Ok(y)) => {
                        if fuel > 0 {
                            law_walks_permute(first, second, (fuel - 1) as nat, x, y);
                            let below = walk(first, (fuel - 1) as nat, x);
                            let other = walk(second, (fuel - 1) as nat, y);
                            assert(walk(first, fuel, one) == one + below);
                            assert(walk(second, fuel, one) == one + other);
                            vstd::seq_lib::lemma_multiset_commutative(one, below);
                            vstd::seq_lib::lemma_multiset_commutative(one, other);
                        }
                    },
                    _ => {},
                },
            }
        }
    }
}

/// Two finished walks of one tree, read in whatever order each directory
/// gave its items, have yielded the same items.
pub proof fn law_unsorted_walks_permute(
    root: DirEntry,
    first: Content,
    second: Content,
    moves: Seq<Move>,
    others: Seq<Move>,
)
    requires
        same_items(first, second),
        run(root, first, moves).0.next().1 is Done,
        run(root, second, others).0.next().1 is Done,
    ensures
        run(root, first, moves).1.to_multiset() == run(root, second, others).1.to_multiset(),
{
    let one = reach(root, first, moves);
    let other = reach(root, second, others);
    let fuel = if one >= other {
        one
    } else {
        other
    };
    law_order(root, first, fuel, moves);
    law_order(root, second, fuel, others);
    law_walks_permute(
        first,
        second,
        fuel,
        seq![Ok::<DirEntry, IoError>(root)],
        seq![Ok::<DirEntry, IoError>(root)],
    );
}

} // verus!
