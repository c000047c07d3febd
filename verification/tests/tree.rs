use todo_list::{TodoError, TodoList};

fn task(text: &str, mark: bool) -> TodoList {
    TodoList::Item { mark, text: text.to_string() }
}

fn group(text: &str, items: Vec<TodoList>) -> TodoList {
    TodoList::Container { items, text: text.to_string() }
}

fn label(node: &TodoList) -> &str {
    match node {
        TodoList::Container { text, .. } => text,
        TodoList::Item { text, .. } => text,
    }
}

/// root
///   first
///     first (task)
///     nested
///   second
///     deep
///       deeper (task, done)
fn sample() -> TodoList {
    group(
        "root",
        vec![
            group("first", vec![task("first", false), task("nested", false)]),
            group("second", vec![group("deep", vec![task("deeper", true)])]),
        ],
    )
}

#[test]
fn add_item_turns_item_into_container_and_adds_child() {
    let mut item = TodoList::Item {
        mark: false,
        text: "parent".to_string(),
    };

    item.add_item(TodoList::Item {
        mark: false,
        text: "child".to_string(),
    });

    match item {
        TodoList::Container { ref items, ref text } => {
            assert_eq!(text, "parent");
            assert_eq!(items.len(), 2);
            match items[0] {
                TodoList::Item { ref text, mark } => {
                    assert_eq!(text, "parent");
                    assert!(!mark);
                }
                _ => panic!("the task itself should remain item"),
            }
            match items[1] {
                TodoList::Item { ref text, mark } => {
                    assert_eq!(text, "child");
                    assert!(!mark);
                }
                _ => panic!("child should remain item"),
            }
        }
        _ => panic!("item should be converted to container"),
    }
}

#[test]
fn get_index_returns_correct_nested_item() {
    let mut root = TodoList::new("root".into());
    root.add_item(TodoList::Item {
        mark: false,
        text: "first".into(),
    });
    root.add_item(TodoList::Item {
        mark: false,
        text: "second".into(),
    });

    if let TodoList::Container { ref mut items, .. } = root {
        items[0].add_item(TodoList::Item {
            mark: false,
            text: "nested".into(),
        });
    }

    // positions: 0 root, 1 first (group), 2 first (task), 3 nested, 4 second
    let elem = root.get_index(3).unwrap();
    match elem {
        TodoList::Item { text, .. } => assert_eq!(text, "nested"),
        _ => panic!("wrong element returned"),
    }
    let elem = root.get_index(2).unwrap();
    match elem {
        TodoList::Item { text, .. } => assert_eq!(text, "first"),
        _ => panic!("wrong element returned"),
    }
}

#[test]
fn mark_recursively_updates_children() {
    let mut root = TodoList::new("root".into());
    root.add_item(TodoList::Item {
        mark: false,
        text: "first".into(),
    });

    root.add_item(TodoList::Item {
        mark: false,
        text: "second".into(),
    });

    // mark whole list as done
    root.mark(true);

    if let TodoList::Container { items, .. } = root {
        assert_eq!(items.len(), 2);
        for item in items {
            match item {
                TodoList::Item { mark, .. } => assert!(mark),
                _ => (),
            }
        }
    } else {
        panic!("root should be a container");
    }
}

#[test]
fn new_list_is_an_empty_group() {
    let list = TodoList::new("ToDo List".to_string());
    assert_eq!(list, group("ToDo List", vec![]));
}

#[test]
fn add_item_appends_to_a_group_in_order() {
    let mut list = TodoList::new("root".to_string());
    list.add_item(task("a", false));
    list.add_item(task("b", true));
    list.add_item(group("c", vec![]));
    assert_eq!(
        list,
        group("root", vec![task("a", false), task("b", true), group("c", vec![])])
    );
}

#[test]
fn promotion_keeps_the_flag_of_a_done_task() {
    let mut node = task("parent", true);
    let child = group("child", vec![task("inner", false)]);
    node.add_item(child.clone());
    assert_eq!(node, group("parent", vec![task("parent", true), child]));
}

#[test]
fn promotion_keeps_an_empty_label() {
    let mut node = task("", false);
    node.add_item(task("x", true));
    assert_eq!(node, group("", vec![task("", false), task("x", true)]));
}

#[test]
fn positions_follow_the_walk() {
    let mut list = sample();
    let walk = ["root", "first", "first", "nested", "second", "deep", "deeper"];
    for (index, expected) in walk.iter().enumerate() {
        let node = list.get_index(index).unwrap();
        assert_eq!(label(node), *expected);
    }
    assert!(matches!(list.get_index(1), Ok(TodoList::Container { .. })));
    assert!(matches!(list.get_index(2), Ok(TodoList::Item { .. })));
    assert!(matches!(list.get_index(5), Ok(TodoList::Container { .. })));
    assert!(matches!(list.get_index(6), Ok(TodoList::Item { mark: true, .. })));
}

#[test]
fn position_zero_is_the_root() {
    let mut list = sample();
    let whole = list.clone();
    assert_eq!(*list.get_index(0).unwrap(), whole);

    let mut alone = task("alone", false);
    assert_eq!(*alone.get_index(0).unwrap(), task("alone", false));
}

#[test]
fn positions_past_the_end_are_out_of_range() {
    let mut list = sample();
    let whole = list.clone();
    assert_eq!(list.get_index(7), Err(TodoError::OutOfRange));
    assert_eq!(list.get_index(8), Err(TodoError::OutOfRange));
    assert_eq!(list.get_index(usize::MAX), Err(TodoError::OutOfRange));
    assert_eq!(list, whole);

    let mut empty = TodoList::new("empty".to_string());
    assert_eq!(empty.get_index(1), Err(TodoError::OutOfRange));
    let mut alone = task("alone", false);
    assert_eq!(alone.get_index(1), Err(TodoError::OutOfRange));
}

#[test]
fn a_node_found_by_position_can_be_changed_in_place() {
    let mut list = sample();
    list.get_index(3).unwrap().add_item(task("below", false));
    assert_eq!(
        list,
        group(
            "root",
            vec![
                group(
                    "first",
                    vec![
                        task("first", false),
                        group("nested", vec![task("nested", false), task("below", false)]),
                    ]
                ),
                group("second", vec![group("deep", vec![task("deeper", true)])]),
            ],
        )
    );
    // the change moved what follows: "second" was at 4 and is now at 6
    assert_eq!(label(list.get_index(4).unwrap()), "nested");
    assert_eq!(label(list.get_index(5).unwrap()), "below");
    assert_eq!(label(list.get_index(6).unwrap()), "second");
}

#[test]
fn mark_cascades_to_every_depth_and_keeps_labels() {
    let mut list = sample();
    list.mark(true);
    assert_eq!(
        list,
        group(
            "root",
            vec![
                group("first", vec![task("first", true), task("nested", true)]),
                group("second", vec![group("deep", vec![task("deeper", true)])]),
            ],
        )
    );
    list.mark(false);
    assert_eq!(
        list,
        group(
            "root",
            vec![
                group("first", vec![task("first", false), task("nested", false)]),
                group("second", vec![group("deep", vec![task("deeper", false)])]),
            ],
        )
    );
}

#[test]
fn mark_on_one_node_leaves_the_others() {
    let mut list = sample();
    list.get_index(1).unwrap().mark(true);
    assert_eq!(
        list,
        group(
            "root",
            vec![
                group("first", vec![task("first", true), task("nested", true)]),
                group("second", vec![group("deep", vec![task("deeper", true)])]),
            ],
        )
    );
    list.get_index(6).unwrap().mark(false);
    assert!(matches!(list.get_index(6), Ok(TodoList::Item { mark: false, .. })));
    assert!(matches!(list.get_index(2), Ok(TodoList::Item { mark: true, .. })));
}

#[test]
fn mark_on_an_empty_group_changes_nothing() {
    let mut list = TodoList::new("empty".to_string());
    list.mark(true);
    assert_eq!(list, group("empty", vec![]));
}

#[test]
fn print_lists_every_node_on_its_own_numbered_line() {
    let list = sample();
    let expected = "1.root:\n    2.first:\n        3.first _\n        4.nested _\n    5.second:\n        6.deep:\n            7.deeper X\n";
    assert_eq!(list.print(), expected);
}

#[test]
fn print_of_a_fresh_list_and_of_a_task() {
    assert_eq!(TodoList::new("ToDo List".to_string()).print(), "1.ToDo List:\n");
    assert_eq!(task("only", false).print(), "1.only _\n");
    assert_eq!(task("only", true).print(), "1.only X\n");
}

#[test]
fn print_writes_numbers_of_several_digits() {
    let mut list = TodoList::new("many".to_string());
    for n in 0..120 {
        list.add_item(task("t", n % 2 == 0));
    }
    let text = list.print();
    let lines: Vec<&str> = text.lines().collect();
    assert_eq!(lines.len(), 121);
    assert_eq!(lines[0], "1.many:");
    assert_eq!(lines[8], "    9.t _");
    assert_eq!(lines[9], "    10.t X");
    assert_eq!(lines[10], "    11.t _");
    assert_eq!(lines[99], "    100.t X");
    assert_eq!(lines[108], "    109.t _");
    assert_eq!(lines[120], "    121.t _");
    assert!(text.ends_with('\n'));
}
