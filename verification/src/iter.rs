//! The iterator of a walk.

use crate::entry::{DirEntry, EntryResult, IoError, ReadDirSpec};
use crate::read_dir::ReadDir;
use crate::state::{
    branches, lemma_publish_wf, lemma_settled_wf, lemma_start_wf, lemma_step_node,
    lemma_step_wf, pending_nodes, tasks_for, FrameView, NodeView, SlotView, Step, Task,
    WalkState,
};
use std::sync::Arc;
use vstd::prelude::*;

verus! {

/// What a node holds of its directory's result.
#[derive(Debug)]
enum Slot {
    Pending,
    Ready(Result<ReadDir, IoError>),
    Taken,
}

/// One directory that the walk has met.
#[derive(Debug)]
struct Node {
    spec: Arc<ReadDirSpec>,
    slot: Slot,
    /// The node of the first entry of the result that the walk descends
    /// below; the nodes of the others follow it.
    first_child: usize,
}

/// A listing that the walker is in the middle of.
#[derive(Debug)]
struct Frame {
    /// The items not yet walked.
    entries: ReadDir,
    /// The node of the first of `entries` that the walk descends below.
    next_child: usize,
}

/// The result of reading a directory, as the hand-off sees it: the listing by
/// its items.
pub open spec fn outcome(result: Result<ReadDir, IoError>) -> Result<Seq<EntryResult>, IoError> {
    match result {
        Ok(listing) => Ok(listing@),
        Err(error) => Err(error),
    }
}

impl Slot {
    spec fn view(self) -> SlotView {
        match self {
            Slot::Pending => SlotView::Pending,
            Slot::Ready(result) => SlotView::Ready(outcome(result)),
            Slot::Taken => SlotView::Taken,
        }
    }
}

impl Node {
    spec fn view(self) -> NodeView {
        NodeView { spec: self.spec, slot: self.slot.view(), first_child: self.first_child as int }
    }
}

impl Frame {
    spec fn view(self) -> FrameView {
        FrameView { entries: self.entries@, next_child: self.next_child as int }
    }
}

spec fn node_views(nodes: Seq<Node>) -> Seq<NodeView> {
    Seq::new(nodes.len(), |i: int| nodes[i].view())
}

spec fn frame_views(stack: Seq<Frame>) -> Seq<FrameView> {
    Seq::new(stack.len(), |i: int| stack[i].view())
}

/// The views of some tasks.
pub open spec fn task_views(tasks: Seq<Task>) -> Seq<crate::state::TaskView> {
    Seq::new(tasks.len(), |i: int| tasks[i]@)
}

/// The walker's end of the hand-off: it yields the entries of a walk in
/// depth-first pre-order, and says which directory it waits for when the
/// result it needs next has not been published.
#[derive(Debug)]
pub struct DirEntryIter {
    nodes: Vec<Node>,
    stack: Vec<Frame>,
}

impl View for DirEntryIter {
    type V = WalkState;

    closed spec fn view(&self) -> WalkState {
        WalkState { nodes: node_views(self.nodes@), stack: frame_views(self.stack@) }
    }
}

/// Adds one waiting node, and one task, for each entry of `listing` that the
/// walk descends below.
#[verifier::rlimit(50)]
fn spawn(nodes: &mut Vec<Node>, tasks: &mut Vec<Task>, listing: &ReadDir)
    ensures
        node_views(final(nodes)@) == node_views(old(nodes)@) + pending_nodes(branches(listing@)),
        task_views(final(tasks)@) == task_views(old(tasks)@) + tasks_for(
            old(nodes)@.len() as int,
            branches(listing@),
        ),
{
    let count = listing.len();
    let mut i: usize = 0;
    while i < count
        invariant
            count == listing@.len(),
            i <= count,
            node_views(nodes@) == node_views(old(nodes)@) + pending_nodes(
                branches(listing@.take(i as int)),
            ),
            task_views(tasks@) == task_views(old(tasks)@) + tasks_for(
                old(nodes)@.len() as int,
                branches(listing@.take(i as int)),
            ),
        decreases count - i,
    {
        let ghost nodes_before = nodes@;
        let ghost tasks_before = tasks@;
        let ghost found = branches(listing@.take(i as int));
        proof {
            assert(listing@.take(i + 1).drop_last() == listing@.take(i as int));
            assert(listing@.take(i + 1).last() == listing@[i as int]);
        }
        match listing.get(i) {
            Ok(entry) => {
                match entry.children_spec() {
                    Some(spec) => {
                        let id = nodes.len();
                        nodes.push(Node { spec: spec.clone(), slot: Slot::Pending, first_child: 0 });
                        tasks.push(Task { node: id, spec: spec.clone() });
                        proof {
                            assert(branches(listing@.take(i + 1)) == found.push(*spec));
                            assert(node_views(nodes@) =~= node_views(nodes_before).push(
                                NodeView {
                                    spec: *spec,
                                    slot: SlotView::Pending,
                                    first_child: 0,
                                },
                            ));
                            assert(node_views(nodes@) =~= node_views(old(nodes)@) + pending_nodes(
                                found.push(*spec),
                            ));
                            assert(task_views(tasks@) =~= task_views(tasks_before).push(
                                crate::state::TaskView { node: id as int, spec: *spec },
                            ));
                            assert(task_views(tasks@) =~= task_views(old(tasks)@) + tasks_for(
                                old(nodes)@.len() as int,
                                found.push(*spec),
                            ));
                        }
                    },
                    None => {},
                }
            },
            Err(_) => {},
        }
        i += 1;
    }
    assert(listing@.take(count as int) == listing@);
}

impl DirEntryIter {
    /// Every listing of the hand-off has its own run of nodes, which stand
    /// for the directories below its entries.
    pub open spec fn wf(&self) -> bool {
        self@.wf()
    }

    /// The iterator of a walk that starts at `root`, and the task of reading
    /// the root where the walk descends below it.
    pub fn new(root: DirEntry) -> (r: (Self, Vec<Task>))
        ensures
            r.0@ == WalkState::start(root),
            r.0.wf(),
            task_views(r.1@) == tasks_for(0, branches(seq![Ok::<DirEntry, IoError>(root)])),
    {
        let mut items: Vec<EntryResult> = Vec::new();
        items.push(Ok(root));
        let listing = ReadDir::new(items);
        assert(listing@ =~= seq![Ok::<DirEntry, IoError>(root)]);
        let mut nodes: Vec<Node> = Vec::new();
        let mut tasks: Vec<Task> = Vec::new();
        spawn(&mut nodes, &mut tasks, &listing);
        let mut stack: Vec<Frame> = Vec::new();
        stack.push(Frame { entries: listing, next_child: 0 });
        let iter = DirEntryIter { nodes, stack };
        proof {
            lemma_start_wf(root);
            assert(iter@.nodes =~= WalkState::start(root).nodes);
            assert(iter@.stack =~= WalkState::start(root).stack);
            assert(task_views(tasks@) =~= tasks_for(
                0,
                branches(seq![Ok::<DirEntry, IoError>(root)]),
            ));
        }
        (iter, tasks)
    }

    /// Whether `node` is a node that waits for its result.
    pub fn is_pending(&self, node: usize) -> (r: bool)
        ensures
            r == self@.is_pending(node as int),
    {
        node < self.nodes.len() && matches!(self.nodes[node].slot, Slot::Pending)
    }

    /// Publishes the result of reading the directory of `node`, and returns
    /// the tasks for the directories below its entries, in the order of the
    /// entries. A result for a node that does not wait for one is dropped.
    #[verifier::rlimit(50)]
    pub fn publish(&mut self, node: usize, result: Result<ReadDir, IoError>) -> (tasks: Vec<Task>)
        requires
            old(self).wf(),
        ensures
            final(self).wf(),
            final(self)@ == old(self)@.publish(node as int, outcome(result)),
            task_views(tasks@) == old(self)@.published_tasks(node as int, outcome(result)),
    {
        let mut tasks: Vec<Task> = Vec::new();
        if !self.is_pending(node) {
            assert(task_views(tasks@) =~= Seq::empty());
            return tasks;
        }
        let first_child = self.nodes.len();
        match &result {
            Ok(listing) => {
                spawn(&mut self.nodes, &mut tasks, listing);
            },
            Err(_) => {
                assert(node_views(self.nodes@) =~= node_views(old(self).nodes@) + pending_nodes(
                    Seq::empty(),
                ));
            },
        }
        assert(node_views(self.nodes@).len() >= node_views(old(self).nodes@).len());
        assert(node < self.nodes@.len());
        let ghost grown = self.nodes@;
        self.nodes[node].slot = Slot::Ready(result);
        self.nodes[node].first_child = first_child;
        proof {
            lemma_publish_wf(old(self)@, node as int, outcome(result));
            let target = old(self)@.publish(node as int, outcome(result));
            let before = node_views(old(self).nodes@);
            let added = pending_nodes(old(self)@.grown(outcome(result)));
            assert(node_views(grown) == before + added);
            assert(self.nodes@.len() == grown.len());
            assert(node_views(grown).len() == grown.len());
            assert forall|i: int| 0 <= i < self.nodes@.len() implies node_views(self.nodes@)[i]
                == target.nodes[i] by {
                assert(node_views(grown)[i] == (before + added)[i]);
                if i == node {
                    assert(self.nodes@[i].spec == grown[i].spec);
                } else {
                    assert(self.nodes@[i] == grown[i]);
                }
            }
            assert(self@.nodes =~= target.nodes);
            assert(self@.stack =~= target.stack);
            assert(task_views(tasks@) =~= old(self)@.published_tasks(node as int, outcome(result)));
        }
        tasks
    }

    /// Drops the listings on top of the stack that are walked to their end.
    fn settle(&mut self)
        requires
            old(self).wf(),
        ensures
            final(self)@ == old(self)@.settled(),
            final(self).wf(),
            final(self).stack@.len() > 0 ==> final(self).stack@.last().entries@.len() > 0,
    {
        proof {
            lemma_settled_wf(self@);
        }
        while self.stack.len() > 0 && self.stack[self.stack.len() - 1].entries.is_done()
            invariant
                self@.wf(),
                self@.settled() == old(self)@.settled(),
            decreases self.stack.len(),
        {
            let ghost before = self@;
            self.stack.pop();
            proof {
                assert(self@.stack =~= before.stack.drop_last());
                assert(self@.nodes == before.nodes);
                assert(before.stack.last().entries.len() == 0);
                assert(self@ == WalkState { nodes: before.nodes, stack: before.stack.drop_last() });
                lemma_settled_wf(WalkState {
                    nodes: before.nodes,
                    stack: before.stack.drop_last(),
                });
                assert forall|i: int| 0 <= i < self@.stack.len() implies self@.stack[i]
                    == before.stack[i] by {}
                assert(self@.wf());
            }
        }
        proof {
            if self.stack@.len() > 0 {
                assert(self@.stack.last() == self.stack@.last().view());
            }
        }
    }

    /// The next step of the walk: the item that comes next in depth-first
    /// pre-order, the task whose result the walk cannot go on without, or the
    /// end of the walk.
    #[verifier::rlimit(50)]
    pub fn next(&mut self) -> (step: Step)
        requires
            old(self).wf(),
        ensures
            final(self).wf(),
            final(self)@ == old(self)@.next().0,
            step@ == old(self)@.next().1,
            step matches Step::Entry(Ok(entry)) ==> entry.wf(),
    {
        self.settle();
        let ghost settled = self@;
        proof {
            lemma_step_wf(settled);
        }
        if self.stack.len() == 0 {
            return Step::Done;
        }
        let last = self.stack.len() - 1;
        assert(settled.stack[last as int] == self.stack@[last as int].view());
        let descends = match self.stack[last].entries.get(0) {
            Ok(entry) => entry.children_spec().is_some(),
            Err(_) => false,
        };
        if !descends {
            let item = self.stack[last].entries.next().unwrap();
            proof {
                let target = settled.step().0;
                assert(self@.stack =~= target.stack);
                assert(self@.nodes =~= target.nodes);
                if let Ok(entry) = &item {
                    use_type_invariant(entry);
                }
            }
            return Step::Entry(item);
        }
        proof {
            lemma_step_node(settled);
        }
        let id = self.stack[last].next_child;
        assert(settled.nodes[id as int] == self.nodes@[id as int].view());
        if matches!(self.nodes[id].slot, Slot::Pending) {
            let spec = self.nodes[id].spec.clone();
            return Step::Pending(Task { node: id, spec });
        }
        let mut slot = Slot::Taken;
        std::mem::swap(&mut self.nodes[id].slot, &mut slot);
        let first_child = self.nodes[id].first_child;
        let item = self.stack[last].entries.next().unwrap();
        let count = self.nodes.len();
        assert(id < count);
        self.stack[last].next_child = id + 1;
        match slot {
            Slot::Ready(Ok(listing)) => {
                self.stack.push(Frame { entries: listing, next_child: first_child });
                proof {
                    let target = settled.step().0;
                    assert(self@.stack =~= target.stack);
                    assert(self@.nodes =~= target.nodes);
                    if let Ok(entry) = &item {
                        use_type_invariant(entry);
                    }
                }
                Step::Entry(item)
            },
            Slot::Ready(Err(error)) => {
                proof {
                    let target = settled.step().0;
                    assert(self@.stack =~= target.stack);
                    assert(self@.nodes =~= target.nodes);
                }
                Step::Entry(Err(error))
            },
            _ => Step::Done,
        }
    }
}

} // verus!
