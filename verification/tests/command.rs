use todo_list::{run, AddCommand, Command, Document, MarkCommand, TodoError, TodoList};
use todo_list::{Malformation, Outcome};

fn task(text: &str, mark: bool) -> TodoList {
    TodoList::Item { mark, text: text.to_string() }
}

fn group(text: &str, items: Vec<TodoList>) -> TodoList {
    TodoList::Container { items, text: text.to_string() }
}

fn add(text: &str, index: usize) -> Command {
    Command::Add(AddCommand { text: text.to_string(), index })
}

fn mark(index: usize, mark: bool) -> Command {
    Command::Mark(MarkCommand { index, mark })
}

#[test]
fn a_session_from_a_fresh_list() {
    let mut list = TodoList::new("ToDo List".to_string());
    assert_eq!(list, group("ToDo List", vec![]));

    assert_eq!(list.execute(add("buy milk", 0)), Ok(None));
    assert_eq!(list, group("ToDo List", vec![task("buy milk", false)]));

    assert_eq!(list.execute(add("eggs", 0)), Ok(None));
    assert_eq!(list, group("ToDo List", vec![task("buy milk", false), task("eggs", false)]));

    // positions: 0 the list, 1 buy milk, 2 eggs
    assert_eq!(list.execute(mark(2, true)), Ok(None));
    assert_eq!(list, group("ToDo List", vec![task("buy milk", false), task("eggs", true)]));

    let read = TodoList::deserialize(&list.serialize()).unwrap();
    assert_eq!(read, group("ToDo List", vec![task("buy milk", false), task("eggs", true)]));
    assert_eq!(read, list);
}

#[test]
fn add_below_a_task_promotes_it() {
    let mut list = group("ToDo List", vec![task("buy milk", true), task("eggs", false)]);
    assert_eq!(list.execute(add("oat", 1)), Ok(None));
    assert_eq!(
        list,
        group(
            "ToDo List",
            vec![
                group("buy milk", vec![task("buy milk", true), task("oat", false)]),
                task("eggs", false),
            ],
        )
    );
}

#[test]
fn mark_on_a_group_marks_all_below_it() {
    let mut list = group(
        "ToDo List",
        vec![group("shop", vec![task("milk", false), task("eggs", false)]), task("call", false)],
    );
    assert_eq!(list.execute(mark(1, true)), Ok(None));
    assert_eq!(
        list,
        group(
            "ToDo List",
            vec![group("shop", vec![task("milk", true), task("eggs", true)]), task("call", false)],
        )
    );
    assert_eq!(list.execute(mark(0, false)), Ok(None));
    assert_eq!(
        list,
        group(
            "ToDo List",
            vec![group("shop", vec![task("milk", false), task("eggs", false)]), task("call", false)],
        )
    );
}

#[test]
fn list_shows_the_listing_and_changes_nothing() {
    let mut list = group("ToDo List", vec![task("buy milk", false), task("eggs", true)]);
    let before = list.clone();
    assert_eq!(
        list.execute(Command::List),
        Ok(Some("1.ToDo List:\n    2.buy milk _\n    3.eggs X\n".to_string()))
    );
    assert_eq!(list, before);
}

#[test]
fn a_request_out_of_range_fails_and_changes_nothing() {
    let mut list = group("ToDo List", vec![task("buy milk", false), task("eggs", true)]);
    let before = list.clone();
    assert_eq!(list.execute(add("x", 3)), Err(TodoError::OutOfRange));
    assert_eq!(list.execute(mark(3, true)), Err(TodoError::OutOfRange));
    assert_eq!(list.execute(mark(usize::MAX, false)), Err(TodoError::OutOfRange));
    assert_eq!(list, before);
    assert_eq!(list.execute(mark(2, false)), Ok(None));
}

#[test]
fn load_without_a_stored_document_gives_a_fresh_list() {
    assert_eq!(TodoList::load(None), Ok(group("ToDo List", vec![])));
}

#[test]
fn load_reads_the_stored_document() {
    let list = group("mine", vec![task("a", true)]);
    let stored = list.serialize();
    assert_eq!(TodoList::load(Some(&stored)), Ok(list));
}

#[test]
fn load_reports_a_stored_document_that_is_no_list() {
    assert_eq!(
        TodoList::load(Some(&Document::Null)),
        Err(TodoError::MalformedDocument(Malformation::Untagged))
    );
    assert_eq!(
        TodoList::load(Some(&Document::Record(vec![]))),
        Err(TodoError::MalformedDocument(Malformation::Untagged))
    );
}

#[test]
fn run_loads_executes_and_writes_back() {
    let first = run(None, add("buy milk", 0)).unwrap();
    assert_eq!(first.shown, None);
    assert_eq!(first.document, group("ToDo List", vec![task("buy milk", false)]).serialize());

    let second = run(Some(&first.document), add("eggs", 0)).unwrap();
    let third = run(Some(&second.document), mark(2, true)).unwrap();
    let expected = group("ToDo List", vec![task("buy milk", false), task("eggs", true)]);
    assert_eq!(third, Outcome { document: expected.serialize(), shown: None });

    let shown = run(Some(&third.document), Command::List).unwrap();
    assert_eq!(shown.document, third.document);
    assert_eq!(shown.shown, Some("1.ToDo List:\n    2.buy milk _\n    3.eggs X\n".to_string()));
}

#[test]
fn run_fails_on_a_bad_position_or_a_bad_document() {
    let stored = group("ToDo List", vec![task("a", false)]).serialize();
    assert_eq!(run(Some(&stored), mark(2, true)), Err(TodoError::OutOfRange));
    assert_eq!(run(None, add("x", 1)), Err(TodoError::OutOfRange));
    assert_eq!(
        run(Some(&Document::Text("ToDo List".to_string())), Command::List),
        Err(TodoError::MalformedDocument(Malformation::Untagged))
    );
}
