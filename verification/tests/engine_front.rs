use lolite::{Command, Engine, Id, RunError};

#[test]
fn the_root_is_id_0() {
    let engine = Engine::new();
    assert_eq!(engine.root_id(), Id::from_u64(0));
    assert_eq!(engine.root_id().value(), 0);
}

#[test]
fn new_nodes_count_up_from_1() {
    let mut engine = Engine::new();
    assert_eq!(engine.create_node(None), Id::from_u64(1));
    assert_eq!(engine.create_node(Some("text".to_owned())), Id::from_u64(2));
    assert_eq!(engine.create_node(None), Id::from_u64(3));
    assert_eq!(engine.root_id(), Id::from_u64(0));
}

#[test]
fn commands_queue_in_the_order_given() {
    let mut engine = Engine::new();
    engine.add_stylesheet(".a { width: 1px; }");
    let a = engine.create_node(Some("text".to_owned()));
    let root = engine.root_id();
    engine.set_parent(root, a);
    engine.set_attribute(a, "class".to_owned(), "a".to_owned());

    let commands = engine.take_commands();
    assert_eq!(commands.len(), 4);
    assert!(matches!(&commands[0], Command::AddStylesheet(css) if css == ".a { width: 1px; }"));
    assert!(
        matches!(&commands[1], Command::CreateNode(id, Some(text)) if *id == a && text == "text")
    );
    assert!(
        matches!(&commands[2], Command::SetParent(parent, child) if *parent == root && *child == a)
    );
    assert!(matches!(
        &commands[3],
        Command::SetAttribute(id, key, value) if *id == a && key == "class" && value == "a"
    ));

    assert!(engine.take_commands().is_empty());
    let b = engine.create_node(None);
    assert_eq!(b, Id::from_u64(2));
    let commands = engine.take_commands();
    assert_eq!(commands.len(), 1);
    assert!(matches!(&commands[0], Command::CreateNode(id, None) if *id == b));
}

#[test]
fn the_event_loop_runs_once_at_a_time() {
    let mut engine = Engine::new();
    assert!(matches!(engine.run(), Ok(())));
    assert!(matches!(engine.run(), Err(RunError::AlreadyRunning)));
    assert!(matches!(engine.run(), Err(RunError::AlreadyRunning)));
    assert!(matches!(engine.finish_run(Ok(())), Ok(())));
    assert!(matches!(engine.run(), Ok(())));
}

#[test]
fn a_failed_event_loop_is_an_unknown_error() {
    let mut engine = Engine::new();
    assert!(matches!(engine.run(), Ok(())));
    let result = engine.finish_run(Err("no display".to_owned()));
    assert!(matches!(result, Err(RunError::UnknownError(message)) if message == "no display"));
    assert!(matches!(engine.run(), Ok(())));
}
