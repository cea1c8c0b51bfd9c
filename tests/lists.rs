use todo_rs::date::Date;
use todo_rs::document::Document;
use todo_rs::error::{CodeComponent, Error};
use todo_rs::item::Item;
use todo_rs::list::{complete_item, toggle_item, List, TodoList};
use todo_rs::path::ItemPath;

fn today() -> Date {
    Date::new(19, 10, 2026).unwrap()
}

fn item(name: &str, completed: bool, priority: i64) -> Item {
    Item {
        completed,
        archived: false,
        priority,
        date: None,
        name: name.to_string(),
        items: vec![],
    }
}

fn names(items: &List) -> Vec<String> {
    items.iter().map(|i| i.name.clone()).collect()
}

fn path(text: &str) -> ItemPath {
    ItemPath::try_from(&text.to_string(), &"Groceries".to_string()).unwrap()
}

#[test]
fn incomplete_items_sort_first() {
    for text in ["# Groceries\n\n- [ ] Milk\n- [x] Bread\n", "# Groceries\n\n- [x] Bread\n- [ ] Milk\n"] {
        let doc = Document::from(text.to_string(), "/tmp".to_string(), today()).unwrap();
        assert_eq!(doc.name, "Groceries");
        assert_eq!(doc.items.len(), 2);
        assert_eq!(names(&doc.items), vec!["Milk", "Bread"]);
        assert!(!doc.items[0].completed);
        assert!(doc.items[1].completed);
    }
}

#[test]
fn item_line_with_priority_and_date() {
    let it = Item::from("- [ ] \\5\\3/7/2026\\ Renew license".to_string(), vec![], today()).unwrap();
    assert_eq!(it.priority, 5);
    assert_eq!(it.date, Some(Date::new(3, 7, 2026).unwrap()));
    assert_eq!(it.name, "Renew license");
    assert!(!it.completed);
    assert!(!it.archived);
}

#[test]
fn item_line_forms() {
    let t = today();
    let a = Item::from("- [a] Old thing".to_string(), vec![], t).unwrap();
    assert!(a.archived && a.completed);
    assert_eq!(a.name, "Old thing");
    let x = Item::from("  - [x] \\-3\\ Done".to_string(), vec![], t).unwrap();
    assert!(x.completed && !x.archived);
    assert_eq!(x.priority, -3);
    assert_eq!(x.name, "Done");
    let d = Item::from("- [ ] \\7\\not a date\\ Name".to_string(), vec![], t).unwrap();
    assert_eq!(d.priority, 7);
    assert_eq!(d.date, None);
    assert_eq!(d.name, "Name");
    let e = Item::from("- [ ] \\2\\\\ Back\\slash".to_string(), vec![], t).unwrap();
    assert_eq!(e.priority, 2);
    assert_eq!(e.date, None);
    assert_eq!(e.name, "Back\\slash");
    assert!(Item::from("- [".to_string(), vec![], t).is_err());
    assert!(Item::from("- [ ]".to_string(), vec![], t).is_err());
}

#[test]
fn item_lines_serialize() {
    let mut it = item("Renew license", false, 5);
    it.date = Some(Date::new(7, 3, 2026).unwrap());
    assert_eq!(it.to_string(0), "- [ ] \\5\\7-Mar-2026\\ Renew license\n");
    let mut child = item("Sub", true, 0);
    child.archived = true;
    let mut parent = item("Top", false, 0);
    parent.items.push(child);
    assert_eq!(parent.to_string(1), " - [ ] Top\n  - [a] Sub\n");
    assert_eq!(item("Neg", true, -12).to_string(0), "- [x] \\-12\\ Neg\n");
}

#[test]
fn adding_under_a_missing_item_fails() {
    let text = "# Groceries\n\n- [ ] Bread\n";
    let mut doc = Document::from(text.to_string(), "/tmp".to_string(), today()).unwrap();
    let missing = path("#Groceries/Milk");
    assert!(doc.items.add_item(item("Oat", false, 0), missing).is_err());
    assert_eq!(names(&doc.items), vec!["Bread"]);
    let root = path("#Groceries");
    assert!(root.item_prefixes.is_empty());
    assert!(doc.items.add_item(item("Eggs", false, 0), root).is_ok());
    assert_eq!(names(&doc.items), vec!["Bread", "Eggs"]);
    assert!(doc.items.add_item(item("Rye", false, 0), path("#Groceries/br")).is_ok());
    assert_eq!(names(&doc.items[0].items), vec!["Rye"]);
}

#[test]
fn prune_archives_completed_items() {
    let mut parent = item("Parent", false, 0);
    parent.items.push(item("Child", true, 0));
    let mut items: List = vec![item("Leaf", true, 0), parent];
    items.prune();
    assert!(items[0].archived && items[0].completed);
    assert!(!items[1].archived && !items[1].completed);
    assert_eq!(items[1].items.len(), 1);
    assert!(items[1].items[0].archived);
    assert_eq!(items[1].items[0].name, "Child");
}

#[test]
fn prune_twice_is_prune_once() {
    let text = "- [x] A\n - [ ] B\n  - [x] C\n- [ ] D\n";
    let mut once = List::parse(text.to_string(), today()).unwrap();
    once.prune();
    let first = once.to_save();
    once.prune();
    assert_eq!(once.to_save(), first);
    assert_eq!(first, "- [ ] D\n- [a] A\n - [ ] B\n  - [a] C\n");
}

#[test]
fn find_picks_first_match() {
    let mut items: List = vec![item("Milk", false, 0), item("milkshake", false, 0)];
    let found = items.find(&path("#Groceries/MILK")).unwrap();
    assert_eq!(found.name, "Milk");
    found.completed = true;
    assert!(items[0].completed);
    assert!(!items[1].completed);
    assert!(items.find(&path("#Groceries/tea")).is_err());
}

#[test]
fn find_descends_into_children() {
    let mut a = item("Home", false, 0);
    a.items.push(item("Paint", false, 0));
    let mut b = item("Homework", false, 0);
    b.items.push(item("Math", false, 0));
    let mut items: List = vec![a, b];
    let found = items.find(&path("#Groceries/ho/ma")).unwrap();
    assert_eq!(found.name, "Math");
    assert!(items.find(&path("#Groceries/ho/xyz")).is_err());
}

#[test]
fn remove_takes_the_subtree() {
    let mut a = item("Home", false, 0);
    a.items.push(item("Paint", false, 0));
    let mut items: List = vec![a, item("Work", false, 0)];
    let removed = items.remove_by_path(&path("#Groceries/home")).unwrap();
    assert_eq!(removed.name, "Home");
    assert_eq!(removed.items.len(), 1);
    assert_eq!(names(&items), vec!["Work"]);
    assert!(items.remove_by_path(&path("#Groceries/home")).is_err());
}

#[test]
fn filter_removes_at_every_depth() {
    let mut a = item("A", false, 0);
    a.items.push(item("done", true, 0));
    a.items.push(item("open", false, 0));
    let mut items: List = vec![a, item("B", true, 0)];
    items.recursive_filter(&|i: &Item| i.completed);
    assert_eq!(names(&items), vec!["A"]);
    assert_eq!(names(&items[0].items), vec!["open"]);
}

#[test]
fn nested_lists_are_sorted() {
    let text = "- [x] Done\n- [ ] Low\n - [x] c1\n - [ ] c2\n - [ ] \\4\\ c3\n- [ ] \\9\\ High\n";
    let items = List::parse(text.to_string(), today()).unwrap();
    assert_eq!(names(&items), vec!["High", "Low", "Done"]);
    assert_eq!(names(&items[1].items), vec!["c3", "c2", "c1"]);
}

#[test]
fn document_round_trip() {
    let text = "# Chores\n# priority 3\n# date 7-Mar-2026\n# archived\n\n- [ ] \\2\\ Sweep\n - [x] Kitchen\n - [ ] \\1\\1-Apr-2026\\ Hall\n- [a] Dust\n";
    let doc = Document::from(text.to_string(), "/home".to_string(), today()).unwrap();
    assert_eq!(doc.name, "Chores");
    assert_eq!(doc.priority, 3);
    assert_eq!(doc.date, Some(Date::new(7, 3, 2026).unwrap()));
    assert!(doc.archived);
    let saved = doc.to_string();
    assert_eq!(
        saved,
        "# Chores\n# priority 3\n# date 7-Mar-2026\n# archived\n\n- [ ] \\2\\ Sweep\n - [ ] \\1\\1-Apr-2026\\ Hall\n - [x] Kitchen\n- [a] Dust\n"
    );
    let again = Document::from(saved.clone(), "/home".to_string(), today()).unwrap();
    assert_eq!(again.to_string(), saved);
}

#[test]
fn document_errors() {
    let t = today();
    assert!(Document::from("# T\n# colour red\n\n".to_string(), String::new(), t).is_err());
    assert!(Document::from("# T\n# priority high\n\n".to_string(), String::new(), t).is_err());
    assert!(Document::from("# T\n\n- [ ] a\n\n- [ ] b\n".to_string(), String::new(), t).is_err());
    let d = Document::from("# T\n# date someday\n\n".to_string(), String::new(), t).unwrap();
    assert_eq!(d.date, None);
    let empty = Document::from(String::new(), String::new(), t).unwrap();
    assert_eq!(empty.name, "Unnamed Todo List");
    assert!(empty.items.is_empty());
}

#[test]
fn item_paths() {
    let p = ItemPath::try_from(&"#Work/a/b/".to_string(), &"Home".to_string()).unwrap();
    assert_eq!(p.document, "Work");
    assert_eq!(p.item_prefixes, vec!["a", "b"]);
    assert_eq!(p.display(), "#Work/a/b");
    let q = ItemPath::try_from(&"/a".to_string(), &"Home".to_string()).unwrap();
    assert_eq!(q.document, "Home");
    assert_eq!(q.item_prefixes, vec!["a"]);
    let r = ItemPath::try_from(&"a/b".to_string(), &"Home".to_string()).unwrap();
    assert_eq!(r.document, "Home");
    assert_eq!(r.item_prefixes, vec!["a", "b"]);
    assert!(ItemPath::try_from(&"#Work/a//b".to_string(), &"Home".to_string()).is_err());
    let s = p.shifted();
    assert_eq!(s.item_prefixes, vec!["b"]);
    assert!(p.matches(&item("Apples", false, 0)));
    assert!(!s.matches(&item("Apples", false, 0)));
}

#[test]
fn error_trail() {
    let inner = Error::new(CodeComponent::DateParser, "bad day");
    let outer = Error::wrap(CodeComponent::Main, "could not add", inner);
    assert_eq!(outer.format(0), "[MAIN] could not add\n ╰ [DATE:PARSER] bad day\n");
    assert_eq!(CodeComponent::ItemList.format(), "[LIST:MAIN]");
}

#[test]
fn metadata_ends_at_the_blank_line() {
    let text = "# T\n# priority 2\n\n- [ ] a\n";
    let doc = Document::from(text.to_string(), String::new(), today()).unwrap();
    assert_eq!(doc.priority, 2);
    assert_eq!(doc.items.len(), 1);
    // After the blank line a `#` line is an item line, and a malformed one.
    let later = "# T\n# priority 2\n\n- [ ] a\n# archived\n";
    let err = Document::from(later.to_string(), String::new(), today()).unwrap_err();
    assert_eq!(err.message, "Could not read the items.");
    let cause = err.child.unwrap();
    assert_eq!(cause.component, CodeComponent::ListParser);
    assert_eq!(cause.child.unwrap().component, CodeComponent::ItemParser);
}

#[test]
fn saved_tree_reads_back_sorted() {
    let text = "# Work\n\n- [ ] Plan\n - [ ] Draft\n";
    let mut doc = Document::from(text.to_string(), String::new(), today()).unwrap();
    doc.items.add_item(item("Urgent", false, 9), path("#Work/plan")).unwrap();
    doc.items.add_item(item("Done", true, 0), path("#Work")).unwrap();
    doc.items.add_item(item("Top", false, 4), path("#Work")).unwrap();
    let saved = doc.to_string();
    assert_eq!(saved, "# Work\n\n- [ ] Plan\n - [ ] Draft\n - [ ] \\9\\ Urgent\n- [x] Done\n- [ ] \\4\\ Top\n");
    let again = Document::from(saved, String::new(), today()).unwrap();
    assert_eq!(
        again.to_string(),
        "# Work\n\n- [ ] \\4\\ Top\n- [ ] Plan\n - [ ] \\9\\ Urgent\n - [ ] Draft\n- [x] Done\n"
    );
}

#[test]
fn lines_without_a_checkbox_are_malformed() {
    let t = today();
    for line in ["hello world", "", "- [", "- [ ]", "- [q] Name", "-  [ ] Name", "* [ ] Name"] {
        assert!(Item::from(line.to_string(), vec![], t).is_err(), "{line:?}");
    }
    assert!(Document::from("# T\n\n- [ ] a\nhello world\n".to_string(), String::new(), t).is_err());
    let ok = Item::from("   - [ ] Indented".to_string(), vec![], t).unwrap();
    assert_eq!(ok.name, "Indented");
}

#[test]
fn complete_and_toggle_by_prefix() {
    let mut home = item("Home", false, 0);
    home.items.push(item("Paint walls", false, 0));
    let mut list: List = vec![home, item("Painting class", false, 0)];
    assert!(complete_item(&mut list, "PAINT".to_string()));
    assert!(list[0].items[0].completed);
    assert!(!list[1].completed);
    assert!(toggle_item(&mut list, "paint".to_string()));
    assert!(!list[0].items[0].completed);
    assert!(toggle_item(&mut list, "ho".to_string()));
    assert!(list[0].completed);
    assert!(!complete_item(&mut list, "garden".to_string()));
    assert!(!toggle_item(&mut list, "garden".to_string()));
}
