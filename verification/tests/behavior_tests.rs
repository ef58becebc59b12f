use rg::actions::{
    process_always_fail, process_always_succeed, process_invert_result, process_log_message,
    process_sequence_until_failure, process_sequence_until_success, process_sleep, AlwaysFail,
    AlwaysSucceed, Duration, InvertResult, LogMessage, SequenceUntilFailure, SequenceUntilSuccess,
    Sleep,
};
use rg::behavior_tree::{
    initialize_agent, instantiate_behavior, instantiate_behavior_as, reset_instantiated_flag,
    transition_behavior, transition_behavior_as, Behavior,
    BehaviorCommand, BehaviorResult, BehaviorStack, BehaviorTree, InstantiatedFlag, Node, NodeId,
    PassBehavior,
};

fn tree3() -> BehaviorTree<&'static str> {
    let mut tree = BehaviorTree::new();
    let root = tree.add_node(Node::new("root"));
    let a = tree.add_node(Node::new("a"));
    let b = tree.add_node(Node::new("b"));
    tree.add_child(root, a);
    tree.add_child(root, b);
    tree
}

fn behavior_at<A>(pass: PassBehavior, action: A) -> Behavior<A> {
    let mut stack = BehaviorStack { stack: vec![action] };
    let mut flag = InstantiatedFlag(false);
    instantiate_behavior(&pass, &mut stack, &mut flag).unwrap()
}

fn pass(node: usize, num_children: usize, child_result: Option<BehaviorResult>) -> PassBehavior {
    PassBehavior { node_id: NodeId(node), num_children, child_result }
}

#[test]
fn tree_links_parents_and_children() {
    let tree = tree3();
    let root = tree.get_node(NodeId::root());
    assert_eq!(root.num_children(), 2);
    assert_eq!(root.child_id(0), NodeId(1));
    assert_eq!(root.child_id(1), NodeId(2));
    assert_eq!(root.parent_id(), None);
    assert_eq!(tree.get_node(NodeId(2)).parent_id(), Some(NodeId(0)));
    assert_eq!(tree.get_node(NodeId(2)).get_action(), "b");
    assert_eq!(tree.get_node(NodeId(1)).clone().get_action(), "a");
}

#[test]
fn copied_node_keeps_its_links() {
    let mut tree = tree3();
    let copy = tree.get_node(NodeId(1)).clone();
    let c = tree.add_node(copy);
    let leaf = tree.add_node(Node::new("leaf"));
    tree.add_child(c, leaf);
    assert_eq!(tree.get_node(c).parent_id(), Some(NodeId(0)));
    assert_eq!(tree.get_node(c).child_id(0), leaf);
    assert_eq!(tree.get_node(leaf).parent_id(), Some(c));
    assert_eq!(tree.get_node(NodeId(0)).num_children(), 2);
    let mut b = behavior_at(pass(c.0, 1, None), "a");
    b.success();
    let mut stack = BehaviorStack { stack: vec!["root"] };
    let p = transition_behavior(&tree, &b, &mut stack).unwrap();
    assert_eq!(p, pass(0, 2, Some(BehaviorResult::Success)));
}

#[test]
fn agent_starts_at_root() {
    let tree = tree3();
    let (stack, flag, pass) = initialize_agent(&tree);
    assert_eq!(stack.stack, vec!["root"]);
    assert_eq!(flag, InstantiatedFlag(false));
    assert_eq!(pass, PassBehavior { node_id: NodeId(0), num_children: 2, child_result: None });
}

#[test]
fn run_child_then_return_resumes_parent() {
    let tree = tree3();
    let (mut stack, mut flag, p) = initialize_agent(&tree);
    let mut root = instantiate_behavior(&p, &mut stack, &mut flag).unwrap();
    assert_eq!(*root.action(), "root");
    assert_eq!(root.command(), BehaviorCommand::Continue);
    assert!(instantiate_behavior(&p, &mut stack, &mut flag).is_none());
    root.run_child(1);
    let p = transition_behavior(&tree, &root, &mut stack).unwrap();
    assert_eq!(stack.stack, vec!["root", "b"]);
    assert_eq!(p, pass(2, 0, None));
    reset_instantiated_flag(&mut flag);
    let mut child = instantiate_behavior(&p, &mut stack, &mut flag).unwrap();
    assert_eq!(*child.action(), "b");
    assert_eq!(child.node_id(), NodeId(2));
    child.failure();
    let p = transition_behavior(&tree, &child, &mut stack).unwrap();
    assert_eq!(p, pass(0, 2, Some(BehaviorResult::Failure)));
    reset_instantiated_flag(&mut flag);
    let back = instantiate_behavior(&p, &mut stack, &mut flag).unwrap();
    assert_eq!(*back.action(), "root");
    assert!(back.has_returned_from_child());
    assert!(back.child_failed());
    assert!(stack.stack.is_empty());
}

#[test]
fn exit_with_empty_stack_starts_over() {
    let tree = tree3();
    let (mut stack, mut flag, p) = initialize_agent(&tree);
    let mut root = instantiate_behavior(&p, &mut stack, &mut flag).unwrap();
    root.success();
    let p = transition_behavior(&tree, &root, &mut stack).unwrap();
    assert_eq!(p, pass(0, 2, None));
    assert_eq!(stack.stack, vec!["root"]);
    let cont = behavior_at(pass(0, 2, None), "root");
    assert!(transition_behavior(&tree, &cont, &mut stack).is_none());
}

#[test]
fn sequence_until_failure_steps() {
    let mut b = behavior_at(pass(0, 2, None), SequenceUntilFailure { index: 0 });
    process_sequence_until_failure(&mut b);
    assert_eq!(b.command(), BehaviorCommand::RunChild { index: 0 });
    assert_eq!(b.action().index, 1);
    let mut b = behavior_at(pass(0, 2, Some(BehaviorResult::Success)), SequenceUntilFailure { index: 2 });
    process_sequence_until_failure(&mut b);
    assert_eq!(b.command(), BehaviorCommand::Exit { result: BehaviorResult::Success });
    let mut b = behavior_at(pass(0, 2, Some(BehaviorResult::Failure)), SequenceUntilFailure { index: 1 });
    process_sequence_until_failure(&mut b);
    assert_eq!(b.command(), BehaviorCommand::Exit { result: BehaviorResult::Failure });
}

#[test]
fn sequence_until_success_steps() {
    let mut b = behavior_at(pass(0, 3, None), SequenceUntilSuccess { index: 1 });
    process_sequence_until_success(&mut b);
    assert_eq!(b.command(), BehaviorCommand::RunChild { index: 1 });
    assert_eq!(b.action().index, 2);
    let mut b = behavior_at(pass(0, 3, None), SequenceUntilSuccess { index: 3 });
    process_sequence_until_success(&mut b);
    assert_eq!(b.command(), BehaviorCommand::Exit { result: BehaviorResult::Failure });
    let mut b = behavior_at(pass(0, 3, Some(BehaviorResult::Failure)), SequenceUntilSuccess { index: 1 });
    process_sequence_until_success(&mut b);
    assert_eq!(b.command(), BehaviorCommand::Exit { result: BehaviorResult::Success });
}

#[test]
fn child_succeeded_reports_a_failed_child() {
    let b = behavior_at(pass(0, 1, Some(BehaviorResult::Failure)), AlwaysSucceed);
    assert!(b.child_succeeded());
    let b = behavior_at(pass(0, 1, Some(BehaviorResult::Success)), AlwaysSucceed);
    assert!(!b.child_succeeded());
    assert!(!b.child_failed());
}

#[test]
fn always_succeed_and_fail() {
    let mut b = behavior_at(pass(0, 1, None), AlwaysSucceed);
    process_always_succeed(&mut b);
    assert_eq!(b.command(), BehaviorCommand::RunChild { index: 0 });
    let mut b = behavior_at(pass(0, 0, None), AlwaysSucceed);
    process_always_succeed(&mut b);
    assert_eq!(b.command(), BehaviorCommand::Exit { result: BehaviorResult::Success });
    let mut b = behavior_at(pass(0, 1, Some(BehaviorResult::Success)), AlwaysFail);
    process_always_fail(&mut b);
    assert_eq!(b.command(), BehaviorCommand::Exit { result: BehaviorResult::Failure });
    let mut b = behavior_at(pass(0, 1, None), AlwaysFail);
    process_always_fail(&mut b);
    assert_eq!(b.command(), BehaviorCommand::RunChild { index: 0 });
}

#[test]
fn invert_result_steps() {
    let mut b = behavior_at(pass(0, 1, None), InvertResult);
    process_invert_result(&mut b);
    assert_eq!(b.command(), BehaviorCommand::RunChild { index: 0 });
    let mut b = behavior_at(pass(0, 1, Some(BehaviorResult::Failure)), InvertResult);
    process_invert_result(&mut b);
    assert_eq!(b.command(), BehaviorCommand::Exit { result: BehaviorResult::Failure });
    let mut b = behavior_at(pass(0, 1, Some(BehaviorResult::Success)), InvertResult);
    process_invert_result(&mut b);
    assert_eq!(b.command(), BehaviorCommand::Exit { result: BehaviorResult::Success });
}

#[test]
fn sleep_counts_down_then_succeeds() {
    let mut b = behavior_at(pass(0, 0, None), Sleep { duration: Duration::new(1, 500_000_000) });
    process_sleep(&mut b, Duration::new(0, 700_000_000));
    assert_eq!(b.command(), BehaviorCommand::Continue);
    assert_eq!(b.action().duration, Duration::new(0, 800_000_000));
    process_sleep(&mut b, Duration::new(0, 800_000_000));
    assert_eq!(b.action().duration, Duration::zero());
    assert_eq!(b.command(), BehaviorCommand::Continue);
    process_sleep(&mut b, Duration::new(0, 1));
    assert_eq!(b.command(), BehaviorCommand::Exit { result: BehaviorResult::Success });
}

#[test]
fn duration_arithmetic() {
    let d = Duration::new(2, 1_500_000_000);
    assert_eq!(d.as_secs(), 3);
    assert_eq!(d.subsec_nanos(), 500_000_000);
    assert_eq!(Duration::new(1, 0).checked_sub(Duration::new(0, 1)), Some(Duration::new(0, 999_999_999)));
    assert_eq!(Duration::new(1, 0).checked_sub(Duration::new(1, 1)), None);
}

#[test]
fn log_message_succeeds() {
    let mut b = behavior_at(pass(0, 0, None), LogMessage { message: String::from("hi") });
    process_log_message(&mut b);
    assert_eq!(b.command(), BehaviorCommand::Exit { result: BehaviorResult::Success });
    assert_eq!(b.action().message, "hi");
}

#[derive(Clone, Copy, Debug, PartialEq, Eq)]
enum Act {
    Sequence(SequenceUntilFailure),
    Succeed(AlwaysSucceed),
}

fn take_seq(a: &Act) -> Option<SequenceUntilFailure> {
    match a {
        Act::Sequence(s) => Some(*s),
        _ => None,
    }
}

fn take_ok(a: &Act) -> Option<AlwaysSucceed> {
    match a {
        Act::Succeed(s) => Some(*s),
        _ => None,
    }
}

#[test]
fn mixed_tree_runs_each_action_type() {
    let mut tree = BehaviorTree::new();
    let root = tree.add_node(Node::new(Act::Sequence(SequenceUntilFailure { index: 0 })));
    let leaf = tree.add_node(Node::new(Act::Succeed(AlwaysSucceed)));
    tree.add_child(root, leaf);
    let (mut stack, mut flag, p) = initialize_agent(&tree);
    // the top action is not an AlwaysSucceed: that type leaves the agent alone
    assert!(instantiate_behavior_as(&p, &mut stack, &mut flag, take_ok).is_none());
    assert_eq!(stack.stack.len(), 1);
    assert_eq!(flag, InstantiatedFlag(false));
    let mut seq = instantiate_behavior_as(&p, &mut stack, &mut flag, take_seq).unwrap();
    assert!(stack.stack.is_empty());
    process_sequence_until_failure(&mut seq);
    assert_eq!(seq.command(), BehaviorCommand::RunChild { index: 0 });
    let p = transition_behavior_as(&tree, &seq, &mut stack, Act::Sequence).unwrap();
    assert_eq!(p, pass(1, 0, None));
    assert_eq!(
        stack.stack,
        vec![Act::Sequence(SequenceUntilFailure { index: 1 }), Act::Succeed(AlwaysSucceed)]
    );
    reset_instantiated_flag(&mut flag);
    assert!(instantiate_behavior_as(&p, &mut stack, &mut flag, take_seq).is_none());
    let mut ok = instantiate_behavior_as(&p, &mut stack, &mut flag, take_ok).unwrap();
    process_always_succeed(&mut ok);
    let p = transition_behavior_as(&tree, &ok, &mut stack, Act::Succeed).unwrap();
    assert_eq!(p, pass(0, 1, Some(BehaviorResult::Success)));
    assert_eq!(stack.stack, vec![Act::Sequence(SequenceUntilFailure { index: 1 })]);
}
