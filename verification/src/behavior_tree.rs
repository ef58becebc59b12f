use vstd::prelude::*;

verus! {

/// Index of a node in a [`BehaviorTree`].
#[derive(Clone, Copy, Debug, PartialEq, Eq, Structural, Hash)]
pub struct NodeId(pub usize);

impl NodeId {
    /// The root node: the first node added to a tree.
    pub fn root() -> (r: NodeId)
        ensures
            r == NodeId(0),
    {
        NodeId(0)
    }
}

/// A node of a behavior tree: an action, an optional parent and the
/// ordered list of children.
#[derive(Debug)]
pub struct Node<A> {
    action: A,
    parent: Option<NodeId>,
    children: Vec<NodeId>,
}

impl<A> Node<A> {
    pub closed spec fn spec_action(&self) -> A {
        self.action
    }

    pub closed spec fn spec_parent(&self) -> Option<NodeId> {
        self.parent
    }

    pub closed spec fn spec_children(&self) -> Seq<NodeId> {
        self.children@
    }

    /// A node without parent or children, holding `action`.
    pub fn new(action: A) -> (r: Node<A>)
        ensures
            r.spec_action() == action,
            r.spec_parent() is None,
            r.spec_children() == Seq::<NodeId>::empty(),
    {
        Node { action, parent: None, children: Vec::new() }
    }

    /// A fresh copy of the node's action.
    pub fn get_action(&self) -> (r: A)
        where
            A: Clone,
        ensures
            cloned(self.spec_action(), r),
    {
        self.action.clone()
    }

    pub fn num_children(&self) -> (r: usize)
        ensures
            r == self.spec_children().len(),
    {
        self.children.len()
    }

    pub fn parent_id(&self) -> (r: Option<NodeId>)
        ensures
            r == self.spec_parent(),
    {
        self.parent
    }

    /// The `index`-th child; `index` must be below the number of children.
    pub fn child_id(&self, index: usize) -> (r: NodeId)
        requires
            index < self.spec_children().len(),
        ensures
            r == self.spec_children()[index as int],
    {
        self.children[index]
    }
}

impl<A: Clone> Clone for Node<A> {
    fn clone(&self) -> (r: Self)
        ensures
            cloned(self.spec_action(), r.spec_action()),
            r.spec_parent() == self.spec_parent(),
            r.spec_children() == self.spec_children(),
    {
        Node { action: self.action.clone(), parent: self.parent, children: self.children.clone() }
    }
}

/// A tree of actions. Nodes are stored in the order they were added; node
/// `0` is the root.
#[derive(Debug)]
pub struct BehaviorTree<A> {
    nodes: Vec<Node<A>>,
}

impl<A> BehaviorTree<A> {
    /// The nodes, in the order they were added.
    pub closed spec fn spec_nodes(&self) -> Seq<Node<A>> {
        self.nodes@
    }

    /// Parent and child links agree: every child of a node names that node
    /// as its parent and appears once in its list, and every node that has
    /// a parent is among that parent's children.
    pub open spec fn wf(&self) -> bool {
        let nodes = self.spec_nodes();
        &&& forall|p: int, k: int|
            0 <= p < nodes.len() && 0 <= k < nodes[p].spec_children().len() ==> {
                let c = #[trigger] nodes[p].spec_children()[k];
                &&& c.0 < nodes.len()
                &&& nodes[c.0 as int].spec_parent() == Some(NodeId(p as usize))
            }
        &&& forall|p: int, k: int, l: int|
            0 <= p < nodes.len() && 0 <= k < l < nodes[p].spec_children().len()
                ==> #[trigger] nodes[p].spec_children()[k] != #[trigger] nodes[p].spec_children()[l]
        &&& forall|i: int|
            0 <= i < nodes.len() && (#[trigger] nodes[i].spec_parent()) is Some ==> {
                let p = nodes[i].spec_parent().unwrap().0 as int;
                &&& p < nodes.len()
                &&& nodes[p].spec_children().contains(NodeId(i as usize))
            }
    }

    /// An empty tree.
    pub fn new() -> (r: BehaviorTree<A>)
        ensures
            r.wf(),
            r.spec_nodes() == Seq::<Node<A>>::empty(),
    {
        BehaviorTree { nodes: Vec::new() }
    }

    /// Appends `node` and returns its id, the number of nodes before the
    /// call. A node without parent or children keeps the tree well formed.
    pub fn add_node(&mut self, node: Node<A>) -> (r: NodeId)
        ensures
            r == NodeId(old(self).spec_nodes().len() as usize),
            final(self).spec_nodes() == old(self).spec_nodes().push(node),
            old(self).wf() && node.spec_parent() is None && node.spec_children().len() == 0
                ==> final(self).wf(),
    {
        let id = NodeId(self.nodes.len());
        self.nodes.push(node);
        proof {
            let nodes = self.spec_nodes();
            let old_nodes = old(self).spec_nodes();
            if old(self).wf() && node.spec_parent() is None && node.spec_children().len() == 0 {
                assert forall|i: int|
                    0 <= i < nodes.len() && (#[trigger] nodes[i].spec_parent()) is Some implies {
                    let p = nodes[i].spec_parent().unwrap().0 as int;
                    &&& p < nodes.len()
                    &&& nodes[p].spec_children().contains(NodeId(i as usize))
                } by {
                    assert(i < old_nodes.len());
                    assert(old_nodes[i].spec_parent() is Some);
                }
            }
        }
        id
    }

    /// Makes `child_id` the last child of `parent_id`. Both ids must name
    /// nodes of the tree, and the child must not have a parent yet.
    pub fn add_child(&mut self, parent_id: NodeId, child_id: NodeId)
        requires
            parent_id.0 < old(self).spec_nodes().len(),
            child_id.0 < old(self).spec_nodes().len(),
            old(self).spec_nodes()[child_id.0 as int].spec_parent() is None,
        ensures
            old(self).wf() ==> final(self).wf(),
            final(self).spec_nodes().len() == old(self).spec_nodes().len(),
            final(self).spec_nodes()[parent_id.0 as int].spec_children() == old(
                self,
            ).spec_nodes()[parent_id.0 as int].spec_children().push(child_id),
            final(self).spec_nodes()[child_id.0 as int].spec_parent() == Some(parent_id),
            forall|i: int|
                0 <= i < final(self).spec_nodes().len() ==> {
                    &&& #[trigger] final(self).spec_nodes()[i].spec_action() == old(
                        self,
                    ).spec_nodes()[i].spec_action()
                    &&& i != child_id.0 ==> final(self).spec_nodes()[i].spec_parent() == old(
                        self,
                    ).spec_nodes()[i].spec_parent()
                    &&& i != parent_id.0 ==> final(self).spec_nodes()[i].spec_children() == old(
                        self,
                    ).spec_nodes()[i].spec_children()
                },
    {
        let ghost old_nodes = self.nodes@;
        let p = parent_id.0;
        let c = child_id.0;
        self.nodes[p].children.push(child_id);
        self.nodes[c].parent = Some(parent_id);
        proof {
            let nodes = self.nodes@;
            assert(nodes.len() == old_nodes.len());
            assert(nodes[p as int].spec_children() == old_nodes[p as int].spec_children().push(child_id));
            if old(self).wf() {
                // The child is in no list yet, since it has no parent.
                assert forall|q: int, k: int|
                    0 <= q < old_nodes.len() && 0 <= k < old_nodes[q].spec_children().len() implies
                    #[trigger] old_nodes[q].spec_children()[k] != child_id by {
                    let d = old_nodes[q].spec_children()[k];
                    assert(old_nodes[d.0 as int].spec_parent() == Some(NodeId(q as usize)));
                    assert(old_nodes[child_id.0 as int].spec_parent() is None);
                }
                assert forall|q: int, k: int|
                    0 <= q < nodes.len() && 0 <= k < nodes[q].spec_children().len() implies {
                    let d = #[trigger] nodes[q].spec_children()[k];
                    &&& d.0 < nodes.len()
                    &&& nodes[d.0 as int].spec_parent() == Some(NodeId(q as usize))
                } by {
                    if q == p && k == old_nodes[q].spec_children().len() {
                    } else {
                        let d = old_nodes[q].spec_children()[k];
                        assert(nodes[q].spec_children()[k] == d);
                        assert(d != child_id);
                    }
                }
                assert forall|q: int, k: int, l: int|
                    0 <= q < nodes.len() && 0 <= k < l < nodes[q].spec_children().len() implies
                    #[trigger] nodes[q].spec_children()[k] != #[trigger] nodes[q].spec_children()[l] by {
                    if q == p {
                        let oc = old_nodes[q].spec_children();
                        assert(nodes[q].spec_children() == oc.push(child_id));
                        if l == oc.len() {
                            assert(oc[k] != child_id);
                            assert(nodes[q].spec_children()[k] == oc[k]);
                            assert(nodes[q].spec_children()[l] == child_id);
                        } else {
                            assert(oc[k] != oc[l]);
                            assert(nodes[q].spec_children()[k] == oc[k]);
                            assert(nodes[q].spec_children()[l] == oc[l]);
                        }
                    } else {
                        assert(nodes[q].spec_children() == old_nodes[q].spec_children());
                        assert(old_nodes[q].spec_children()[k] != old_nodes[q].spec_children()[l]);
                    }
                }
                assert forall|i: int|
                    0 <= i < nodes.len() && (#[trigger] nodes[i].spec_parent()) is Some implies {
                    let pp = nodes[i].spec_parent().unwrap().0 as int;
                    &&& pp < nodes.len()
                    &&& nodes[pp].spec_children().contains(NodeId(i as usize))
                } by {
                    if i == c {
                        let cs = nodes[p as int].spec_children();
                        assert(cs[cs.len() - 1] == child_id);
                    } else {
                        let pp = old_nodes[i].spec_parent().unwrap().0 as int;
                        let olds = old_nodes[pp].spec_children();
                        let k = choose|k: int| 0 <= k < olds.len() && olds[k] == NodeId(i as usize);
                        assert(nodes[pp].spec_children()[k] == NodeId(i as usize));
                    }
                }
            }
        }
    }

    /// The node with id `node_id`, which must name a node of the tree.
    pub fn get_node(&self, node_id: NodeId) -> (r: &Node<A>)
        requires
            node_id.0 < self.spec_nodes().len(),
        ensures
            *r == self.spec_nodes()[node_id.0 as int],
    {
        &self.nodes[node_id.0]
    }
}

/// How a behavior ended.
#[derive(Clone, Copy, Debug, PartialEq, Eq, Structural, Hash)]
pub enum BehaviorResult {
    Success,
    Failure,
}

/// What a running behavior asks for after a step.
#[derive(Clone, Copy, Debug, PartialEq, Eq, Structural)]
pub enum BehaviorCommand {
    /// Keep running this behavior.
    Continue,
    /// Return to the parent with a result.
    Exit { result: BehaviorResult },
    /// Run the `index`-th child, then come back.
    RunChild { index: usize },
}

/// A running action of an agent, at a node of its tree.
#[derive(Debug)]
pub struct Behavior<A> {
    pub action: A,
    command: BehaviorCommand,
    node_id: NodeId,
    num_children: usize,
    child_result: Option<BehaviorResult>,
}

impl<A> Behavior<A> {
    pub closed spec fn spec_action(&self) -> A {
        self.action
    }

    /// The behavior's action.
    pub fn action(&self) -> (r: &A)
        ensures
            *r == self.spec_action(),
    {
        &self.action
    }

    /// The behavior's action, for changing it in place.
    pub fn action_mut(&mut self) -> (r: &mut A)
        ensures
            *r == old(self).spec_action(),
            final(self).spec_action() == *final(r),
            final(self).spec_command() == old(self).spec_command(),
            final(self).spec_node_id() == old(self).spec_node_id(),
            final(self).spec_num_children() == old(self).spec_num_children(),
            final(self).spec_child_result() == old(self).spec_child_result(),
    {
        &mut self.action
    }

    pub closed spec fn spec_command(&self) -> BehaviorCommand {
        self.command
    }

    pub closed spec fn spec_node_id(&self) -> NodeId {
        self.node_id
    }

    pub closed spec fn spec_num_children(&self) -> usize {
        self.num_children
    }

    pub closed spec fn spec_child_result(&self) -> Option<BehaviorResult> {
        self.child_result
    }

    /// The command last issued by the behavior.
    pub fn command(&self) -> (r: BehaviorCommand)
        ensures
            r == self.spec_command(),
    {
        self.command
    }

    /// The node the behavior runs at.
    pub fn node_id(&self) -> (r: NodeId)
        ensures
            r == self.spec_node_id(),
    {
        self.node_id
    }

    pub fn num_children(&self) -> (r: usize)
        ensures
            r == self.spec_num_children(),
    {
        self.num_children
    }

    /// Whether a child has just returned to this behavior.
    pub fn has_returned_from_child(&self) -> (r: bool)
        ensures
            r == self.spec_child_result() is Some,
    {
        self.child_result.is_some()
    }

    /// Whether the child that just returned failed.
    pub fn child_failed(&self) -> (r: bool)
        ensures
            r == (self.spec_child_result() == Some(BehaviorResult::Failure)),
    {
        match self.child_result {
            Some(BehaviorResult::Failure) => true,
            _ => false,
        }
    }

    /// The same test as [`Behavior::child_failed`]: true exactly when the
    /// child that just returned failed.
    pub fn child_succeeded(&self) -> (r: bool)
        ensures
            r == (self.spec_child_result() == Some(BehaviorResult::Failure)),
    {
        match self.child_result {
            Some(BehaviorResult::Failure) => true,
            _ => false,
        }
    }

    /// Asks to run the `index`-th child.
    pub fn run_child(&mut self, index: usize)
        ensures
            final(self).spec_command() == (BehaviorCommand::RunChild { index }),
            final(self).spec_action() == old(self).spec_action(),
            final(self).spec_node_id() == old(self).spec_node_id(),
            final(self).spec_num_children() == old(self).spec_num_children(),
            final(self).spec_child_result() == old(self).spec_child_result(),
    {
        self.command = BehaviorCommand::RunChild { index };
    }

    /// Ends the behavior with success.
    pub fn success(&mut self)
        ensures
            final(self).spec_command() == (BehaviorCommand::Exit { result: BehaviorResult::Success }),
            final(self).spec_action() == old(self).spec_action(),
            final(self).spec_node_id() == old(self).spec_node_id(),
            final(self).spec_num_children() == old(self).spec_num_children(),
            final(self).spec_child_result() == old(self).spec_child_result(),
    {
        self.command = BehaviorCommand::Exit { result: BehaviorResult::Success };
    }

    /// Ends the behavior with failure.
    pub fn failure(&mut self)
        ensures
            final(self).spec_command() == (BehaviorCommand::Exit { result: BehaviorResult::Failure }),
            final(self).spec_action() == old(self).spec_action(),
            final(self).spec_node_id() == old(self).spec_node_id(),
            final(self).spec_num_children() == old(self).spec_num_children(),
            final(self).spec_child_result() == old(self).spec_child_result(),
    {
        self.command = BehaviorCommand::Exit { result: BehaviorResult::Failure };
    }
}

/// An agent between two behaviors: the node it goes to next, that node's
/// number of children, and the result of the child it returns from.
#[derive(Clone, Copy, Debug, PartialEq, Eq, Structural)]
pub struct PassBehavior {
    pub node_id: NodeId,
    pub num_children: usize,
    pub child_result: Option<BehaviorResult>,
}

/// The saved actions of an agent; the last one is resumed next.
#[derive(Debug)]
pub struct BehaviorStack<A> {
    pub stack: Vec<A>,
}

/// Whether the agent's behavior for this step has been created.
#[derive(Clone, Copy, Debug, PartialEq, Eq, Structural)]
pub struct InstantiatedFlag(pub bool);

/// Node `n` lies `d` parent links below the root: node `0`, which has no
/// parent, is at depth 0, and a node whose parent is at depth `d - 1` is at
/// depth `d`.
pub open spec fn at_depth<A>(tree: &BehaviorTree<A>, n: NodeId, d: nat) -> bool
    decreases d,
{
    let nodes = tree.spec_nodes();
    if d == 0 {
        n.0 == 0 && nodes.len() > 0 && nodes[0].spec_parent() is None
    } else {
        &&& n.0 < nodes.len()
        &&& nodes[n.0 as int].spec_parent() matches Some(p) && at_depth(tree, p, (d - 1) as nat)
    }
}

/// The depth of a behavior stack: an agent running a behavior at node `n`
/// holds one saved action for each ancestor of `n`; an agent passing to
/// node `n` holds one more, the action to resume at `n`.
pub open spec fn stack_depth_ok<A>(tree: &BehaviorTree<A>, n: NodeId, stack_len: nat, passing: bool) -> bool {
    if passing {
        stack_len >= 1 && at_depth(tree, n, (stack_len - 1) as nat)
    } else {
        at_depth(tree, n, stack_len)
    }
}

/// In a well-formed tree the `k`-th child of a node at depth `d` is at
/// depth `d + 1`.
pub proof fn lemma_child_depth<A>(tree: &BehaviorTree<A>, n: NodeId, k: int, d: nat)
    requires
        tree.wf(),
        at_depth(tree, n, d),
        0 <= k < tree.spec_nodes()[n.0 as int].spec_children().len(),
    ensures
        at_depth(tree, tree.spec_nodes()[n.0 as int].spec_children()[k], d + 1),
{
    let c = tree.spec_nodes()[n.0 as int].spec_children()[k];
    assert(tree.spec_nodes()[c.0 as int].spec_parent() == Some(NodeId(n.0)));
}

/// The nodes from the root down to `n`, for a node `n` at depth `d`.
pub open spec fn path_to<A>(tree: &BehaviorTree<A>, n: NodeId, d: nat) -> Seq<NodeId>
    decreases d,
{
    if d == 0 {
        seq![n]
    } else {
        path_to(tree, tree.spec_nodes()[n.0 as int].spec_parent().unwrap(), (d - 1) as nat).push(n)
    }
}

/// `frames[j]` names the node whose action sits at position `j` of an
/// agent's stack. An agent running a behavior at `n` holds the saved
/// actions of the ancestors of `n`, root first; an agent passing to `n`
/// holds those and then the action to resume at `n`.
pub open spec fn stack_frames_ok<A>(tree: &BehaviorTree<A>, n: NodeId, frames: Seq<NodeId>, passing: bool) -> bool {
    if passing {
        &&& frames.len() >= 1
        &&& at_depth(tree, n, (frames.len() - 1) as nat)
        &&& frames == path_to(tree, n, (frames.len() - 1) as nat)
    } else {
        &&& at_depth(tree, n, frames.len())
        &&& frames == path_to(tree, n, frames.len()).drop_last()
    }
}

/// Where [`transition_behavior`] sends an agent whose behavior at `n` issued
/// `cmd`, and which nodes the actions on its stack then belong to: starting
/// over pushes the action of `n`; returning keeps the stack; running child
/// `c` pushes the saved action of `n` and then the action of `c`.
pub open spec fn frames_after<A>(tree: &BehaviorTree<A>, n: NodeId, cmd: BehaviorCommand, frames: Seq<NodeId>) -> (NodeId, Seq<NodeId>) {
    match cmd {
        BehaviorCommand::Exit { .. } => if frames.len() == 0 {
            (n, seq![n])
        } else {
            (tree.spec_nodes()[n.0 as int].spec_parent().unwrap(), frames)
        },
        BehaviorCommand::RunChild { index } => {
            let c = tree.spec_nodes()[n.0 as int].spec_children()[index as int];
            (c, frames.push(n).push(c))
        },
        BehaviorCommand::Continue => (n, frames),
    }
}

/// The behavior stack of an agent holds the actions of the ancestors of its
/// node, root first, plus the action to resume while it is passing: an agent
/// set up by [`initialize_agent`] starts so (see
/// [`lemma_initial_frames`]), and this lemma gives the step of
/// [`transition_behavior`] in a well-formed tree, whose contract pushes
/// exactly the actions that [`frames_after`] names.
pub proof fn lemma_transition_keeps_frames<A>(
    tree: &BehaviorTree<A>,
    n: NodeId,
    cmd: BehaviorCommand,
    frames: Seq<NodeId>,
)
    requires
        tree.wf(),
        stack_frames_ok(tree, n, frames, false),
        !(cmd is Continue),
        cmd matches BehaviorCommand::RunChild { index } ==> index < tree.spec_nodes()[n.0 as int].spec_children().len(),
    ensures
        stack_frames_ok(tree, frames_after(tree, n, cmd, frames).0, frames_after(tree, n, cmd, frames).1, true),
{
    let d = frames.len();
    match cmd {
        BehaviorCommand::Exit { .. } => {
            if d == 0 {
                assert(path_to(tree, n, 0) == seq![n]);
            } else {
                let p = tree.spec_nodes()[n.0 as int].spec_parent().unwrap();
                assert(path_to(tree, n, d) == path_to(tree, p, (d - 1) as nat).push(n));
                assert(path_to(tree, n, d).drop_last() =~= path_to(tree, p, (d - 1) as nat));
            }
        },
        BehaviorCommand::RunChild { index } => {
            let c = tree.spec_nodes()[n.0 as int].spec_children()[index as int];
            lemma_child_depth(tree, n, index as int, d);
            assert(tree.spec_nodes()[c.0 as int].spec_parent() == Some(NodeId(n.0)));
            assert(path_to(tree, c, d + 1) == path_to(tree, n, d).push(c));
            assert(path_to(tree, n, d) =~= path_to(tree, n, d).drop_last().push(path_to(tree, n, d).last()));
            lemma_path_len(tree, n, d);
            assert(frames.push(n) =~= path_to(tree, n, d));
        },
        BehaviorCommand::Continue => {},
    }
}

/// A path from the root to a node at depth `d` has `d + 1` nodes and ends
/// at that node.
pub proof fn lemma_path_len<A>(tree: &BehaviorTree<A>, n: NodeId, d: nat)
    ensures
        path_to(tree, n, d).len() == d + 1,
        path_to(tree, n, d).last() == n,
    decreases d,
{
    if d > 0 {
        lemma_path_len(tree, tree.spec_nodes()[n.0 as int].spec_parent().unwrap(), (d - 1) as nat);
    }
}

/// Resuming a passing agent, as [`instantiate_behavior`] does, takes the
/// action of its node off the top of the stack and leaves the actions of
/// the ancestors.
pub proof fn lemma_resume_keeps_frames<A>(tree: &BehaviorTree<A>, n: NodeId, frames: Seq<NodeId>)
    requires
        stack_frames_ok(tree, n, frames, true),
    ensures
        stack_frames_ok(tree, n, frames.drop_last(), false),
{
}

/// A fresh agent at the root, which has no parent, holds the root's action.
pub proof fn lemma_initial_frames<A>(tree: &BehaviorTree<A>)
    requires
        tree.spec_nodes().len() > 0,
        tree.spec_nodes()[0].spec_parent() is None,
    ensures
        stack_frames_ok(tree, NodeId(0), seq![NodeId(0)], true),
{
    assert(at_depth(tree, NodeId(0), 0));
}

/// The values on an agent's stack are copies of the action states `saved`,
/// one for one: `stack[j]` is a clone of `saved[j]`.
pub open spec fn stack_saves<A: Clone>(stack: Seq<A>, saved: Seq<A>) -> bool {
    &&& stack.len() == saved.len()
    &&& forall|j: int| 0 <= j < stack.len() ==> cloned(saved[j], #[trigger] stack[j])
}

/// The action states an agent's stack copies after its behavior at `n`,
/// whose state is `action`, issued `cmd`: starting over saves the action of
/// `n` from the tree; returning to the parent keeps the saved states;
/// running child `c` saves the behavior's own state and then the action of
/// `c` from the tree. Together with [`frames_after`], which names the node
/// of each entry, this is the behavior-stack law: while an agent runs a
/// behavior at `n`, its stack holds the saved states of the ancestors of
/// `n`, root first (each the state its behavior had when it ran the next
/// child down), and while it passes to `n`, the state to resume at `n` on
/// top of those.
pub open spec fn saves_after<A>(
    tree: &BehaviorTree<A>,
    n: NodeId,
    cmd: BehaviorCommand,
    action: A,
    saved: Seq<A>,
) -> Seq<A> {
    match cmd {
        BehaviorCommand::Exit { .. } => if saved.len() == 0 {
            seq![tree.spec_nodes()[n.0 as int].spec_action()]
        } else {
            saved
        },
        BehaviorCommand::RunChild { index } => {
            let c = tree.spec_nodes()[n.0 as int].spec_children()[index as int];
            saved.push(action).push(tree.spec_nodes()[c.0 as int].spec_action())
        },
        BehaviorCommand::Continue => saved,
    }
}

/// Resuming a passing agent, as [`instantiate_behavior`] does, gives the
/// behavior the state saved on top of the stack and leaves the states saved
/// below it.
pub proof fn lemma_resume_keeps_saves<A: Clone>(stack: Seq<A>, saved: Seq<A>, action: A)
    requires
        stack_saves(stack, saved),
        stack.len() > 0,
        action == stack.last(),
    ensures
        stack_saves(stack.drop_last(), saved.drop_last()),
        cloned(saved.last(), action),
{
    assert(cloned(saved[stack.len() - 1], stack[stack.len() - 1]));
}

/// A fresh agent: its stack holds a copy of the root action, and it moves
/// to the root.
pub fn initialize_agent<A: Clone>(tree: &BehaviorTree<A>) -> (r: (BehaviorStack<A>, InstantiatedFlag, PassBehavior))
    requires
        tree.spec_nodes().len() > 0,
    ensures
        r.0.stack.len() == 1,
        stack_saves(r.0.stack@, seq![tree.spec_nodes()[0].spec_action()]),
        tree.spec_nodes()[0].spec_parent() is None ==> stack_depth_ok(tree, r.2.node_id, r.0.stack.len() as nat, true),
        cloned(tree.spec_nodes()[0].spec_action(), r.0.stack@[0]),
        r.1 == InstantiatedFlag(false),
        r.2 == (PassBehavior {
            node_id: NodeId(0),
            num_children: tree.spec_nodes()[0].spec_children().len() as usize,
            child_result: None,
        }),
{
    let node = tree.get_node(NodeId::root());
    let mut stack = Vec::new();
    stack.push(node.get_action());
    (
        BehaviorStack { stack },
        InstantiatedFlag(false),
        PassBehavior { node_id: NodeId::root(), num_children: node.num_children(), child_result: None },
    )
}

/// Clears the flag so that a behavior may be created this step.
pub fn reset_instantiated_flag(flag: &mut InstantiatedFlag)
    ensures
        *final(flag) == InstantiatedFlag(false),
{
    flag.0 = false;
}

/// Turns a passing agent into a running behavior by resuming the last saved
/// action. Nothing happens, and `None` is returned, when a behavior was
/// already created this step or the stack is empty.
pub fn instantiate_behavior<A>(
    pass: &PassBehavior,
    stack: &mut BehaviorStack<A>,
    flag: &mut InstantiatedFlag,
) -> (r: Option<Behavior<A>>)
    ensures
        old(flag).0 || old(stack).stack.len() == 0 ==> {
            &&& r is None
            &&& final(stack).stack@ == old(stack).stack@
            &&& *final(flag) == *old(flag)
        },
        !old(flag).0 && old(stack).stack.len() > 0 ==> {
            &&& r is Some
            &&& r.unwrap().spec_action() == old(stack).stack@.last()
            &&& r.unwrap().spec_command() == BehaviorCommand::Continue
            &&& r.unwrap().spec_node_id() == pass.node_id
            &&& r.unwrap().spec_num_children() == pass.num_children
            &&& r.unwrap().spec_child_result() == pass.child_result
            &&& final(stack).stack@ == old(stack).stack@.drop_last()
            &&& *final(flag) == InstantiatedFlag(true)
        },
{
    if flag.0 {
        return None;
    }
    match stack.stack.pop() {
        Some(action) => {
            flag.0 = true;
            Some(
                Behavior {
                    action,
                    command: BehaviorCommand::Continue,
                    node_id: pass.node_id,
                    num_children: pass.num_children,
                    child_result: pass.child_result,
                },
            )
        },
        None => None,
    }
}

/// Turns a passing agent into a running behavior of action type `B`, in a
/// tree whose actions have type `A`: `take` gives the `B` that the last
/// saved action stands for, or `None` when it stands for an action of
/// another type. Nothing happens, and `None` is returned, when a behavior
/// was already created this step, the stack is empty, or the last action is
/// not a `B`; then another action type gets its turn.
pub fn instantiate_behavior_as<A, B, F: Fn(&A) -> Option<B>>(
    pass: &PassBehavior,
    stack: &mut BehaviorStack<A>,
    flag: &mut InstantiatedFlag,
    take: F,
) -> (r: Option<Behavior<B>>)
    requires
        forall|a: A| take.requires((&a,)),
    ensures
        old(flag).0 || old(stack).stack.len() == 0 ==> r is None,
        r is None ==> final(stack).stack@ == old(stack).stack@ && *final(flag) == *old(flag),
        !old(flag).0 && old(stack).stack.len() > 0 && r is None ==> take.ensures(
            (&old(stack).stack@.last(),),
            None,
        ),
        r matches Some(b) ==> {
            &&& !old(flag).0
            &&& old(stack).stack.len() > 0
            &&& take.ensures((&old(stack).stack@.last(),), Some(b.spec_action()))
            &&& b.spec_command() == BehaviorCommand::Continue
            &&& b.spec_node_id() == pass.node_id
            &&& b.spec_num_children() == pass.num_children
            &&& b.spec_child_result() == pass.child_result
            &&& final(stack).stack@ == old(stack).stack@.drop_last()
            &&& *final(flag) == InstantiatedFlag(true)
        },
{
    if flag.0 {
        return None;
    }
    let n = stack.stack.len();
    if n == 0 {
        return None;
    }
    match take(&stack.stack[n - 1]) {
        Some(action) => {
            stack.stack.pop();
            flag.0 = true;
            Some(
                Behavior {
                    action,
                    command: BehaviorCommand::Continue,
                    node_id: pass.node_id,
                    num_children: pass.num_children,
                    child_result: pass.child_result,
                },
            )
        },
        None => None,
    }
}

/// Where an agent goes after its behavior, of action type `B`, issued a
/// command, in a tree whose actions have type `A`; `put` turns a saved `B`
/// into an `A` for the stack. This lets one tree mix actions of several
/// types, held in `A` (an enum of them, say).
///
/// - `Continue`: nowhere, `None`.
/// - `Exit` with an empty stack: the tree starts over at the same node,
///   with a fresh copy of its action pushed on the stack.
/// - `Exit` otherwise: back to the parent, carrying the result.
/// - `RunChild`: a copy of the behavior's action and a fresh copy of the
///   child's action are pushed, and the agent goes to the child.
pub fn transition_behavior_as<A: Clone, B: Clone, G: Fn(B) -> A>(
    tree: &BehaviorTree<A>,
    behavior: &Behavior<B>,
    stack: &mut BehaviorStack<A>,
    put: G,
) -> (r: Option<PassBehavior>)
    requires
        forall|b: B| put.requires((b,)),
        behavior.spec_node_id().0 < tree.spec_nodes().len(),
        behavior.spec_command() matches BehaviorCommand::Exit { .. } && old(stack).stack.len() > 0 ==> {
            let parent = tree.spec_nodes()[behavior.spec_node_id().0 as int].spec_parent();
            parent is Some && parent.unwrap().0 < tree.spec_nodes().len()
        },
        behavior.spec_command() matches BehaviorCommand::RunChild { index } ==> {
            let children = tree.spec_nodes()[behavior.spec_node_id().0 as int].spec_children();
            index < children.len() && children[index as int].0 < tree.spec_nodes().len()
        },
    ensures
        tree.wf() && stack_depth_ok(tree, behavior.spec_node_id(), old(stack).stack.len() as nat, false) ==> match r {
            Some(pass) => stack_depth_ok(tree, pass.node_id, final(stack).stack.len() as nat, true),
            None => final(stack).stack@ == old(stack).stack@,
        },
        ({
            let node = tree.spec_nodes()[behavior.spec_node_id().0 as int];
            match behavior.spec_command() {
                BehaviorCommand::Continue => r is None && final(stack).stack@ == old(stack).stack@,
                BehaviorCommand::Exit { result } => if old(stack).stack.len() == 0 {
                    &&& final(stack).stack.len() == 1
                    &&& cloned(node.spec_action(), final(stack).stack@[0])
                    &&& r == Some(
                        PassBehavior {
                            node_id: behavior.spec_node_id(),
                            num_children: behavior.spec_num_children(),
                            child_result: None,
                        },
                    )
                } else {
                    let parent = node.spec_parent().unwrap();
                    &&& final(stack).stack@ == old(stack).stack@
                    &&& r == Some(
                        PassBehavior {
                            node_id: parent,
                            num_children: tree.spec_nodes()[parent.0 as int].spec_children().len() as usize,
                            child_result: Some(result),
                        },
                    )
                },
                BehaviorCommand::RunChild { index } => {
                    let child = node.spec_children()[index as int];
                    let s = final(stack).stack@;
                    &&& s.len() == old(stack).stack.len() + 2
                    &&& s.subrange(0, old(stack).stack.len() as int) == old(stack).stack@
                    &&& exists|c: B| cloned(behavior.spec_action(), c) && put.ensures((c,), s[s.len() - 2])
                    &&& cloned(tree.spec_nodes()[child.0 as int].spec_action(), s[s.len() - 1])
                    &&& r == Some(
                        PassBehavior {
                            node_id: child,
                            num_children: tree.spec_nodes()[child.0 as int].spec_children().len() as usize,
                            child_result: None,
                        },
                    )
                },
            }
        }),
{
    let node = tree.get_node(behavior.node_id);
    match behavior.command {
        BehaviorCommand::Continue => None,
        BehaviorCommand::Exit { result } => {
            if stack.stack.len() == 0 {
                let action = node.get_action();
                stack.stack.push(action);
                Some(
                    PassBehavior {
                        node_id: behavior.node_id,
                        num_children: behavior.num_children,
                        child_result: None,
                    },
                )
            } else {
                let parent_id = match node.parent_id() {
                    Some(id) => id,
                    None => { return None; },
                };
                proof {
                    let i = behavior.node_id.0 as int;
                    assert(tree.spec_nodes()[i].spec_parent() is Some);
                }
                let parent_node = tree.get_node(parent_id);
                Some(
                    PassBehavior {
                        node_id: parent_id,
                        num_children: parent_node.num_children(),
                        child_result: Some(result),
                    },
                )
            }
        },
        BehaviorCommand::RunChild { index } => {
            let ghost old_stack = stack.stack@;
            let this_action = behavior.action.clone();
            let ghost c = this_action;
            let saved = put(this_action);
            let ghost saved_g = saved;
            stack.stack.push(saved);
            let child_id = node.child_id(index);
            proof {
                let i = behavior.node_id.0 as int;
                let k = index as int;
                assert(tree.spec_nodes()[i].spec_children()[k] == child_id);
            }
            let child_node = tree.get_node(child_id);
            let child_action = child_node.get_action();
            stack.stack.push(child_action);
            proof {
                assert(stack.stack@.subrange(0, old_stack.len() as int) =~= old_stack);
                assert(stack.stack@[stack.stack@.len() - 2] == saved_g);
                assert(cloned(behavior.spec_action(), c) && put.ensures((c,), saved_g));
                if tree.wf() && at_depth(tree, behavior.node_id, old_stack.len() as nat) {
                    lemma_child_depth(tree, behavior.node_id, index as int, old_stack.len() as nat);
                }
            }
            Some(PassBehavior { node_id: child_id, num_children: child_node.num_children(), child_result: None })
        },
    }
}

/// Where an agent goes after its behavior issued a command.
///
/// - `Continue`: nowhere, `None`.
/// - `Exit` with an empty stack: the tree starts over at the same node,
///   with a fresh copy of its action pushed on the stack.
/// - `Exit` otherwise: back to the parent, carrying the result.
/// - `RunChild`: a copy of the behavior's action and a fresh copy of the
///   child's action are pushed, and the agent goes to the child.
pub fn transition_behavior<A: Clone>(
    tree: &BehaviorTree<A>,
    behavior: &Behavior<A>,
    stack: &mut BehaviorStack<A>,
) -> (r: Option<PassBehavior>)
    requires
        behavior.spec_node_id().0 < tree.spec_nodes().len(),
        behavior.spec_command() matches BehaviorCommand::Exit { .. } && old(stack).stack.len() > 0 ==> {
            let parent = tree.spec_nodes()[behavior.spec_node_id().0 as int].spec_parent();
            parent is Some && parent.unwrap().0 < tree.spec_nodes().len()
        },
        behavior.spec_command() matches BehaviorCommand::RunChild { index } ==> {
            let children = tree.spec_nodes()[behavior.spec_node_id().0 as int].spec_children();
            index < children.len() && children[index as int].0 < tree.spec_nodes().len()
        },
    ensures
        forall|saved: Seq<A>|
            stack_saves(old(stack).stack@, saved) ==> stack_saves(
                final(stack).stack@,
                saves_after(tree, behavior.spec_node_id(), behavior.spec_command(), behavior.spec_action(), saved),
            ),
        tree.wf() && stack_depth_ok(tree, behavior.spec_node_id(), old(stack).stack.len() as nat, false) ==> match r {
            Some(pass) => stack_depth_ok(tree, pass.node_id, final(stack).stack.len() as nat, true),
            None => final(stack).stack@ == old(stack).stack@,
        },
        ({
            let node = tree.spec_nodes()[behavior.spec_node_id().0 as int];
            match behavior.spec_command() {
                BehaviorCommand::Continue => r is None && final(stack).stack@ == old(stack).stack@,
                BehaviorCommand::Exit { result } => if old(stack).stack.len() == 0 {
                    &&& final(stack).stack.len() == 1
                    &&& cloned(node.spec_action(), final(stack).stack@[0])
                    &&& r == Some(
                        PassBehavior {
                            node_id: behavior.spec_node_id(),
                            num_children: behavior.spec_num_children(),
                            child_result: None,
                        },
                    )
                } else {
                    let parent = node.spec_parent().unwrap();
                    &&& final(stack).stack@ == old(stack).stack@
                    &&& r == Some(
                        PassBehavior {
                            node_id: parent,
                            num_children: tree.spec_nodes()[parent.0 as int].spec_children().len() as usize,
                            child_result: Some(result),
                        },
                    )
                },
                BehaviorCommand::RunChild { index } => {
                    let child = node.spec_children()[index as int];
                    let s = final(stack).stack@;
                    &&& s.len() == old(stack).stack.len() + 2
                    &&& s.subrange(0, old(stack).stack.len() as int) == old(stack).stack@
                    &&& cloned(behavior.spec_action(), s[s.len() - 2])
                    &&& cloned(tree.spec_nodes()[child.0 as int].spec_action(), s[s.len() - 1])
                    &&& r == Some(
                        PassBehavior {
                            node_id: child,
                            num_children: tree.spec_nodes()[child.0 as int].spec_children().len() as usize,
                            child_result: None,
                        },
                    )
                },
            }
        }),
{
    let r = transition_behavior_as(tree, behavior, stack, |a: A| -> (b: A)
        ensures
            b == a,
        { a });
    proof {
        assert forall|saved: Seq<A>| stack_saves(old(stack).stack@, saved) implies stack_saves(
            final(stack).stack@,
            saves_after(tree, behavior.spec_node_id(), behavior.spec_command(), behavior.spec_action(), saved),
        ) by {
            let s0 = old(stack).stack@;
            let s1 = final(stack).stack@;
            let sa = saves_after(tree, behavior.spec_node_id(), behavior.spec_command(), behavior.spec_action(), saved);
            match behavior.spec_command() {
                BehaviorCommand::RunChild { index } => {
                    assert(s1.subrange(0, s0.len() as int) == s0);
                    assert forall|j: int| 0 <= j < s1.len() implies cloned(sa[j], #[trigger] s1[j]) by {
                        if j < s0.len() {
                            assert(s1[j] == s1.subrange(0, s0.len() as int)[j]);
                            assert(cloned(saved[j], s0[j]));
                        }
                    }
                },
                _ => {},
            }
        }
    }
    r
}

} // verus!
