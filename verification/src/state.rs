//! The hand-off between those who read directories and the one who walks.
//!
//! The hand-off is a table of nodes, one per directory that the walk has met,
//! and a stack of listings that the walker is in the middle of. A node waits
//! for the result of reading its directory; when the result is published, one
//! more node is added for each entry of it that the walk descends below. The
//! walker takes a node's result when it reaches the entry the node belongs to,
//! and waits there while the result is missing.
//!
//! This file states the hand-off as a mathematical state with its two
//! transitions, `publish` and `next`. The executable iterator is held to them.

use crate::entry::{branch_of, DirEntry, EntryResult, IoError, ReadDirSpec};
use std::sync::Arc;
use vstd::prelude::*;

verus! {

/// A directory whose result the hand-off waits for: the node to publish the
/// result to, and the directory to read.
#[derive(Debug)]
pub struct Task {
    pub node: usize,
    pub spec: Arc<ReadDirSpec>,
}

/// What one call of `next` comes to.
#[derive(Debug)]
pub enum Step {
    /// The next item of the walk.
    Entry(EntryResult),
    /// The walk waits here until the result of reading this directory is published.
    Pending(Task),
    /// The walk is over.
    Done,
}

/// A task, with its node as a number without bound.
pub struct TaskView {
    pub node: int,
    pub spec: Arc<ReadDirSpec>,
}

/// A step, with the node of a task as a number without bound.
pub enum StepView {
    Entry(EntryResult),
    Pending(TaskView),
    Done,
}

impl View for Task {
    type V = TaskView;

    open spec fn view(&self) -> TaskView {
        TaskView { node: self.node as int, spec: self.spec }
    }
}

impl View for Step {
    type V = StepView;

    open spec fn view(&self) -> StepView {
        match *self {
            Step::Entry(item) => StepView::Entry(item),
            Step::Pending(task) => StepView::Pending(task@),
            Step::Done => StepView::Done,
        }
    }
}

/// What a node holds of its directory's result.
pub enum SlotView {
    /// Not published yet.
    Pending,
    /// Published, and not yet reached by the walker.
    Ready(Result<Seq<EntryResult>, IoError>),
    /// Handed to the walker.
    Taken,
}

pub struct NodeView {
    pub spec: Arc<ReadDirSpec>,
    pub slot: SlotView,
    /// The node of the first entry of the result that the walk descends below;
    /// the others follow it, in the order of the entries.
    pub first_child: int,
}

/// A listing that the walker is in the middle of.
pub struct FrameView {
    /// The items not yet walked.
    pub entries: Seq<EntryResult>,
    /// The node of the first of `entries` that the walk descends below.
    pub next_child: int,
}

pub struct WalkState {
    pub nodes: Seq<NodeView>,
    /// The listings being walked, innermost last.
    pub stack: Seq<FrameView>,
}

/// The directories that the walk reads for `items`, in the order of the items.
pub open spec fn branches(items: Seq<EntryResult>) -> Seq<Arc<ReadDirSpec>>
    decreases items.len(),
{
    if items.len() == 0 {
        Seq::empty()
    } else {
        let before = branches(items.drop_last());
        match branch_of(items.last()) {
            Some(spec) => before.push(spec),
            None => before,
        }
    }
}

/// One waiting node for each of `specs`.
pub open spec fn pending_nodes(specs: Seq<Arc<ReadDirSpec>>) -> Seq<NodeView> {
    Seq::new(
        specs.len(),
        |k: int| NodeView { spec: specs[k], slot: SlotView::Pending, first_child: 0 },
    )
}

/// The tasks of the nodes `first..` that stand for `specs`.
pub open spec fn tasks_for(first: int, specs: Seq<Arc<ReadDirSpec>>) -> Seq<TaskView> {
    Seq::new(specs.len(), |k: int| TaskView { node: first + k, spec: specs[k] })
}

/// Two runs of nodes, each given by its first node and its length, share none.
pub open spec fn apart(lo1: int, n1: int, lo2: int, n2: int) -> bool {
    n1 == 0 || n2 == 0 || lo1 + n1 <= lo2 || lo2 + n2 <= lo1
}

/// The nodes `lo..` stand for `specs`, one each and in order, and the walker
/// has taken none of them.
pub open spec fn awaits(nodes: Seq<NodeView>, lo: int, specs: Seq<Arc<ReadDirSpec>>) -> bool {
    &&& 0 <= lo
    &&& lo + specs.len() <= nodes.len()
    &&& forall|id: int|
        lo <= id < lo + specs.len() ==> (#[trigger] nodes[id]).spec == specs[id - lo]
            && !(nodes[id].slot is Taken)
}

impl NodeView {
    /// The directories whose nodes belong to this node's result.
    pub open spec fn claims(self) -> Seq<Arc<ReadDirSpec>> {
        match self.slot {
            SlotView::Ready(Ok(items)) => branches(items),
            _ => Seq::empty(),
        }
    }
}

impl FrameView {
    /// The directories whose nodes belong to what is left of this listing.
    pub open spec fn claims(self) -> Seq<Arc<ReadDirSpec>> {
        branches(self.entries)
    }
}

impl WalkState {
    /// The hand-off of a walk that has not begun: the root entry is the one
    /// item of the outermost listing.
    pub open spec fn start(root: DirEntry) -> WalkState {
        let items = seq![Ok::<DirEntry, IoError>(root)];
        WalkState {
            nodes: pending_nodes(branches(items)),
            stack: seq![FrameView { entries: items, next_child: 0 }],
        }
    }

    /// Every listing, walked or waiting, has its own run of nodes, which
    /// stand for the directories below its entries.
    pub open spec fn wf(self) -> bool {
        &&& forall|i: int|
            0 <= i < self.stack.len() ==> awaits(
                self.nodes,
                (#[trigger] self.stack[i]).next_child,
                self.stack[i].claims(),
            )
        &&& forall|n: int|
            0 <= n < self.nodes.len() ==> awaits(
                self.nodes,
                (#[trigger] self.nodes[n]).first_child,
                self.nodes[n].claims(),
            )
        &&& forall|i: int, j: int|
            0 <= i < j < self.stack.len() ==> apart(
                (#[trigger] self.stack[i]).next_child,
                self.stack[i].claims().len() as int,
                (#[trigger] self.stack[j]).next_child,
                self.stack[j].claims().len() as int,
            )
        &&& forall|i: int, n: int|
            0 <= i < self.stack.len() && 0 <= n < self.nodes.len() ==> apart(
                (#[trigger] self.stack[i]).next_child,
                self.stack[i].claims().len() as int,
                (#[trigger] self.nodes[n]).first_child,
                self.nodes[n].claims().len() as int,
            )
        &&& forall|n: int, m: int|
            0 <= n < m < self.nodes.len() ==> apart(
                (#[trigger] self.nodes[n]).first_child,
                self.nodes[n].claims().len() as int,
                (#[trigger] self.nodes[m]).first_child,
                self.nodes[m].claims().len() as int,
            )
    }

    /// Whether `node` is a node that waits for its result.
    pub open spec fn is_pending(self, node: int) -> bool {
        0 <= node < self.nodes.len() && self.nodes[node].slot is Pending
    }

    /// The hand-off after `result` has been published to `node`. A result for
    /// a node that does not wait for one changes nothing.
    pub open spec fn publish(self, node: int, result: Result<Seq<EntryResult>, IoError>) -> WalkState {
        if self.is_pending(node) {
            let filled = NodeView {
                spec: self.nodes[node].spec,
                slot: SlotView::Ready(result),
                first_child: self.nodes.len() as int,
            };
            WalkState {
                nodes: self.nodes.update(node, filled) + pending_nodes(self.grown(result)),
                stack: self.stack,
            }
        } else {
            self
        }
    }

    /// The directories that a published `result` adds nodes for.
    pub open spec fn grown(self, result: Result<Seq<EntryResult>, IoError>) -> Seq<
        Arc<ReadDirSpec>,
    > {
        match result {
            Ok(items) => branches(items),
            Err(_) => Seq::empty(),
        }
    }

    /// The tasks that publishing `result` to `node` gives rise to, in the
    /// order of the entries they belong to.
    pub open spec fn published_tasks(
        self,
        node: int,
        result: Result<Seq<EntryResult>, IoError>,
    ) -> Seq<TaskView> {
        if self.is_pending(node) {
            tasks_for(self.nodes.len() as int, self.grown(result))
        } else {
            Seq::empty()
        }
    }

    /// The hand-off without the listings on top that have been walked to
    /// their end.
    pub open spec fn settled(self) -> WalkState
        decreases self.stack.len(),
    {
        if self.stack.len() > 0 && self.stack.last().entries.len() == 0 {
            WalkState { nodes: self.nodes, stack: self.stack.drop_last() }.settled()
        } else {
            self
        }
    }

    /// One step of the walker on a settled hand-off.
    ///
    /// An entry that the walk does not descend below is handed out as it is.
    /// Before an entry that it descends below, the walker looks at the entry's
    /// node. While the node waits, so does the walker. A directory that could
    /// not be read gives its error in place of the entry. Otherwise the entry
    /// is handed out and the walker goes on inside the directory's listing.
    pub open spec fn step(self) -> (WalkState, StepView) {
        if self.stack.len() == 0 {
            (self, StepView::Done)
        } else {
            let last = self.stack.len() - 1;
            let top = self.stack[last];
            let item = top.entries[0];
            let rest = top.entries.drop_first();
            match branch_of(item) {
                None => (
                    WalkState {
                        nodes: self.nodes,
                        stack: self.stack.update(
                            last,
                            FrameView { entries: rest, next_child: top.next_child },
                        ),
                    },
                    StepView::Entry(item),
                ),
                Some(_) => {
                    let id = top.next_child;
                    let node = self.nodes[id];
                    let taken = NodeView {
                        spec: node.spec,
                        slot: SlotView::Taken,
                        first_child: node.first_child,
                    };
                    let advanced = FrameView { entries: rest, next_child: id + 1 };
                    match node.slot {
                        SlotView::Pending => (
                            self,
                            StepView::Pending(TaskView { node: id, spec: node.spec }),
                        ),
                        SlotView::Ready(Err(error)) => (
                            WalkState {
                                nodes: self.nodes.update(id, taken),
                                stack: self.stack.update(last, advanced),
                            },
                            StepView::Entry(Err(error)),
                        ),
                        SlotView::Ready(Ok(listing)) => (
                            WalkState {
                                nodes: self.nodes.update(id, taken),
                                stack: self.stack.update(last, advanced).push(
                                    FrameView { entries: listing, next_child: node.first_child },
                                ),
                            },
                            StepView::Entry(item),
                        ),
                        SlotView::Taken => (self, StepView::Done),
                    }
                },
            }
        }
    }

    /// The hand-off after one call of `next`, and what the call comes to.
    pub open spec fn next(self) -> (WalkState, StepView) {
        self.settled().step()
    }
}

/// The directories below a listing are those below its first part, then those
/// below the rest.
pub proof fn lemma_branches_add(a: Seq<EntryResult>, b: Seq<EntryResult>)
    ensures
        branches(a + b) == branches(a) + branches(b),
    decreases b.len(),
{
    if b.len() == 0 {
        assert(a + b == a);
        assert(branches(a) + branches(b) == branches(a));
    } else {
        assert((a + b).drop_last() == a + b.drop_last());
        assert((a + b).last() == b.last());
        lemma_branches_add(a, b.drop_last());
        match branch_of(b.last()) {
            Some(spec) => {
                assert((branches(a) + branches(b.drop_last())).push(spec) == branches(a)
                    + branches(b.drop_last()).push(spec));
            },
            None => {},
        }
    }
}

/// The directories below a listing, told from its first item on.
pub proof fn lemma_branches_first(items: Seq<EntryResult>)
    requires
        items.len() > 0,
    ensures
        branches(items) == match branch_of(items[0]) {
            Some(spec) => seq![spec] + branches(items.drop_first()),
            None => branches(items.drop_first()),
        },
{
    let head = seq![items[0]];
    assert(items == head + items.drop_first());
    lemma_branches_add(head, items.drop_first());
    assert(head.drop_last() == Seq::<EntryResult>::empty());
    assert(branches(head.drop_last()) == Seq::<Arc<ReadDirSpec>>::empty());
    match branch_of(items[0]) {
        Some(spec) => {
            assert(branches(head) == seq![spec]);
        },
        None => {
            assert(branches(head) == Seq::<Arc<ReadDirSpec>>::empty());
            assert(branches(head) + branches(items.drop_first()) == branches(items.drop_first()));
        },
    }
}


/// A hand-off that has not begun is in order.
pub proof fn lemma_start_wf(root: DirEntry)
    ensures
        WalkState::start(root).wf(),
{
    let s = WalkState::start(root);
    assert(s.stack[0].claims() == branches(seq![Ok::<DirEntry, IoError>(root)]));
}

/// Publishing a result keeps the hand-off in order.
#[verifier::rlimit(50)]
pub proof fn lemma_publish_wf(s: WalkState, node: int, result: Result<Seq<EntryResult>, IoError>)
    requires
        s.wf(),
    ensures
        s.publish(node, result).wf(),
{
    if s.is_pending(node) {
        let t = s.publish(node, result);
        let old_len = s.nodes.len() as int;
        let grown = s.grown(result);
        assert(t.nodes.len() == old_len + grown.len());
        assert forall|n: int| 0 <= n < t.nodes.len() implies (#[trigger] t.nodes[n]).claims().len()
            == (if n == node {
            grown.len()
        } else if n < old_len {
            s.nodes[n].claims().len()
        } else {
            0
        }) && t.nodes[n].first_child == (if n == node {
            old_len
        } else if n < old_len {
            s.nodes[n].first_child
        } else {
            0
        }) by {
            if n == node {
                assert(t.nodes[n].claims() == grown);
            } else if n < old_len {
                assert(t.nodes[n] == s.nodes[n]);
            }
        }
        assert forall|id: int| 0 <= id < old_len implies (#[trigger] t.nodes[id]).spec
            == s.nodes[id].spec && (t.nodes[id].slot is Taken ==> s.nodes[id].slot is Taken) by {}
        assert forall|i: int| 0 <= i < t.stack.len() implies awaits(
            t.nodes,
            (#[trigger] t.stack[i]).next_child,
            t.stack[i].claims(),
        ) by {
            assert(awaits(s.nodes, s.stack[i].next_child, s.stack[i].claims()));
        }
        assert forall|n: int| 0 <= n < t.nodes.len() implies awaits(
            t.nodes,
            (#[trigger] t.nodes[n]).first_child,
            t.nodes[n].claims(),
        ) by {
            if n == node {
                assert(t.nodes[n].claims() == grown);
            } else if n < old_len {
                assert(t.nodes[n] == s.nodes[n]);
                assert(awaits(s.nodes, s.nodes[n].first_child, s.nodes[n].claims()));
            }
        }
        assert forall|i: int, n: int|
            0 <= i < t.stack.len() && 0 <= n < t.nodes.len() implies apart(
            (#[trigger] t.stack[i]).next_child,
            t.stack[i].claims().len() as int,
            (#[trigger] t.nodes[n]).first_child,
            t.nodes[n].claims().len() as int,
        ) by {
            assert(awaits(s.nodes, s.stack[i].next_child, s.stack[i].claims()));
            if n < old_len && n != node {
                assert(apart(
                    s.stack[i].next_child,
                    s.stack[i].claims().len() as int,
                    s.nodes[n].first_child,
                    s.nodes[n].claims().len() as int,
                ));
            }
        }
        assert forall|n: int, m: int| 0 <= n < m < t.nodes.len() implies apart(
            (#[trigger] t.nodes[n]).first_child,
            t.nodes[n].claims().len() as int,
            (#[trigger] t.nodes[m]).first_child,
            t.nodes[m].claims().len() as int,
        ) by {
            if n < old_len {
                assert(awaits(s.nodes, s.nodes[n].first_child, s.nodes[n].claims()));
            }
            if m < old_len {
                assert(awaits(s.nodes, s.nodes[m].first_child, s.nodes[m].claims()));
            }
            if n < old_len && m < old_len && n != node && m != node {
                assert(apart(
                    s.nodes[n].first_child,
                    s.nodes[n].claims().len() as int,
                    s.nodes[m].first_child,
                    s.nodes[m].claims().len() as int,
                ));
            }
        }
    }
}

/// Dropping the listings that are walked to their end keeps the hand-off in
/// order; what is then on top has an item left.
pub proof fn lemma_settled_wf(s: WalkState)
    requires
        s.wf(),
    ensures
        s.settled().wf(),
        s.settled().nodes == s.nodes,
        s.settled().stack.len() <= s.stack.len(),
        s.settled().stack.len() > 0 ==> s.settled().stack.last().entries.len() > 0,
        s.settled().settled() == s.settled(),
    decreases s.stack.len(),
{
    if s.stack.len() > 0 && s.stack.last().entries.len() == 0 {
        let t = WalkState { nodes: s.nodes, stack: s.stack.drop_last() };
        assert forall|i: int| 0 <= i < t.stack.len() implies t.stack[i] == s.stack[i] by {}
        assert(t.wf());
        lemma_settled_wf(t);
    }
}

/// On a settled hand-off that is in order, the entry on top that the walk
/// descends below has its node: the node stands for the entry's directory and
/// has not been taken.
pub proof fn lemma_step_node(s: WalkState)
    requires
        s.wf(),
        s.stack.len() > 0,
        s.stack.last().entries.len() > 0,
        branch_of(s.stack.last().entries[0]) is Some,
    ensures
        0 <= s.stack.last().next_child < s.nodes.len(),
        Some(s.nodes[s.stack.last().next_child].spec) == branch_of(s.stack.last().entries[0]),
        !(s.nodes[s.stack.last().next_child].slot is Taken),
{
    let top = s.stack[s.stack.len() - 1];
    lemma_branches_first(top.entries);
    assert(awaits(s.nodes, top.next_child, top.claims()));
    assert(top.claims()[0] == branch_of(top.entries[0])->0);
    let id = top.next_child;
    assert(s.nodes[id].spec == top.claims()[id - top.next_child]);
}

/// A step of the walker keeps the hand-off in order.
#[verifier::rlimit(50)]
pub proof fn lemma_step_wf(s: WalkState)
    requires
        s.wf(),
        s.stack.len() > 0 ==> s.stack.last().entries.len() > 0,
    ensures
        s.step().0.wf(),
{
    if s.stack.len() > 0 {
        let last = s.stack.len() - 1;
        let top = s.stack[last];
        let item = top.entries[0];
        let rest = top.entries.drop_first();
        let t = s.step().0;
        lemma_branches_first(top.entries);
        assert(awaits(s.nodes, top.next_child, top.claims()));
        match branch_of(item) {
            None => {
                assert(t.stack[last].claims() == top.claims());
                assert forall|i: int| 0 <= i < t.stack.len() implies (#[trigger] t.stack[i]).claims()
                    == s.stack[i].claims() && t.stack[i].next_child == s.stack[i].next_child by {}
                assert(t.wf());
            },
            Some(spec) => {
                lemma_step_node(s);
                let id = top.next_child;
                let node = s.nodes[id];
                assert(top.claims() == seq![spec] + branches(rest));
                assert(top.claims().len() == branches(rest).len() + 1);
                match node.slot {
                    SlotView::Pending => {},
                    SlotView::Taken => {},
                    SlotView::Ready(result) => {
                        assert(t.nodes == s.nodes.update(id, NodeView {
                            spec: node.spec,
                            slot: SlotView::Taken,
                            first_child: node.first_child,
                        }));
                        assert(t.nodes[id].claims() == Seq::<Arc<ReadDirSpec>>::empty());
                        assert forall|n: int| 0 <= n < t.nodes.len() && n != id implies (
                        #[trigger] t.nodes[n]) == s.nodes[n] by {}
                        assert(awaits(s.nodes, node.first_child, node.claims()));
                        assert(apart(
                            s.stack[last].next_child,
                            s.stack[last].claims().len() as int,
                            s.nodes[id].first_child,
                            s.nodes[id].claims().len() as int,
                        ));
                        assert forall|i: int| 0 <= i < last implies (#[trigger] t.stack[i])
                            == s.stack[i] by {}
                        assert(t.stack[last] == FrameView { entries: rest, next_child: id + 1 });
                        assert(t.stack[last].claims() == branches(rest));
                        if t.stack.len() > s.stack.len() {
                            assert(t.stack[last + 1].claims() == node.claims());
                            assert(t.stack[last + 1].next_child == node.first_child);
                        }
                        // the taken node belongs to the listing on top alone
                        assert forall|i: int| 0 <= i < last implies !((#[trigger] s.stack[i]).next_child
                            <= id < s.stack[i].next_child + s.stack[i].claims().len()) by {
                            assert(apart(
                                s.stack[i].next_child,
                                s.stack[i].claims().len() as int,
                                s.stack[last].next_child,
                                s.stack[last].claims().len() as int,
                            ));
                        }
                        assert forall|n: int| 0 <= n < s.nodes.len() implies !((
                        #[trigger] s.nodes[n]).first_child <= id < s.nodes[n].first_child
                            + s.nodes[n].claims().len()) by {
                            assert(apart(
                                s.stack[last].next_child,
                                s.stack[last].claims().len() as int,
                                s.nodes[n].first_child,
                                s.nodes[n].claims().len() as int,
                            ));
                        }
                        assert forall|i: int| 0 <= i < t.stack.len() implies awaits(
                            t.nodes,
                            (#[trigger] t.stack[i]).next_child,
                            t.stack[i].claims(),
                        ) by {
                            if i < last {
                                assert(awaits(s.nodes, s.stack[i].next_child, s.stack[i].claims()));
                            } else if i == last {
                                assert forall|k: int|
                                    id + 1 <= k < id + 1 + branches(rest).len() implies (
                                #[trigger] t.nodes[k]).spec == branches(rest)[k - (id + 1)] && !(
                                t.nodes[k].slot is Taken) by {
                                    assert(s.nodes[k].spec == top.claims()[k - id]);
                                }
                            } else {
                                assert(awaits(s.nodes, node.first_child, node.claims()));
                            }
                        }
                        assert forall|n: int| 0 <= n < t.nodes.len() implies awaits(
                            t.nodes,
                            (#[trigger] t.nodes[n]).first_child,
                            t.nodes[n].claims(),
                        ) by {
                            assert(awaits(s.nodes, s.nodes[n].first_child, s.nodes[n].claims()));
                        }
                        assert forall|i: int, j: int| 0 <= i < j < t.stack.len() implies apart(
                            (#[trigger] t.stack[i]).next_child,
                            t.stack[i].claims().len() as int,
                            (#[trigger] t.stack[j]).next_child,
                            t.stack[j].claims().len() as int,
                        ) by {
                            if j <= last {
                                assert(apart(
                                    s.stack[i].next_child,
                                    s.stack[i].claims().len() as int,
                                    s.stack[j].next_child,
                                    s.stack[j].claims().len() as int,
                                ));
                            } else {
                                assert(apart(
                                    s.stack[i].next_child,
                                    s.stack[i].claims().len() as int,
                                    s.nodes[id].first_child,
                                    s.nodes[id].claims().len() as int,
                                ));
                            }
                        }
                        assert forall|i: int, n: int|
                            0 <= i < t.stack.len() && 0 <= n < t.nodes.len() implies apart(
                            (#[trigger] t.stack[i]).next_child,
                            t.stack[i].claims().len() as int,
                            (#[trigger] t.nodes[n]).first_child,
                            t.nodes[n].claims().len() as int,
                        ) by {
                            if n != id {
                                if i <= last {
                                    assert(apart(
                                        s.stack[i].next_child,
                                        s.stack[i].claims().len() as int,
                                        s.nodes[n].first_child,
                                        s.nodes[n].claims().len() as int,
                                    ));
                                } else if n < id {
                                    assert(apart(
                                        s.nodes[n].first_child,
                                        s.nodes[n].claims().len() as int,
                                        s.nodes[id].first_child,
                                        s.nodes[id].claims().len() as int,
                                    ));
                                } else {
                                    assert(apart(
                                        s.nodes[id].first_child,
                                        s.nodes[id].claims().len() as int,
                                        s.nodes[n].first_child,
                                        s.nodes[n].claims().len() as int,
                                    ));
                                }
                            }
                        }
                        assert forall|n: int, m: int| 0 <= n < m < t.nodes.len() implies apart(
                            (#[trigger] t.nodes[n]).first_child,
                            t.nodes[n].claims().len() as int,
                            (#[trigger] t.nodes[m]).first_child,
                            t.nodes[m].claims().len() as int,
                        ) by {
                            if n != id && m != id {
                                assert(apart(
                                    s.nodes[n].first_child,
                                    s.nodes[n].claims().len() as int,
                                    s.nodes[m].first_child,
                                    s.nodes[m].claims().len() as int,
                                ));
                            }
                        }
                    },
                }
            },
        }
    }
}

/// A call of `next` keeps the hand-off in order.
pub proof fn lemma_next_wf(s: WalkState)
    requires
        s.wf(),
    ensures
        s.next().0.wf(),
{
    lemma_settled_wf(s);
    lemma_step_wf(s.settled());
}

} // verus!
