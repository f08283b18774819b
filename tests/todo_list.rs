use display_services::todo::{TodoCommand, TodoItem, TodoList};
use std::collections::HashSet;
use std::sync::Mutex;

fn snapshot(l: &TodoList) -> Vec<(u128, String, bool)> {
    l.list().into_iter().map(|t: TodoItem| (t.id, t.title, t.completed)).collect()
}

#[test]
fn add_then_list_holds_one_open_item() {
    let mut l = TodoList::new();
    let t = l.add("Buy milk".to_string());
    let items = l.list();
    let milk: Vec<&TodoItem> = items.iter().filter(|i| i.title == "Buy milk").collect();
    assert_eq!(milk.len(), 1);
    assert!(!milk[0].completed);
    assert_eq!(milk[0].id, t.id);
    assert_eq!(t.title, "Buy milk");
    assert!(!t.completed);
}

#[test]
fn add_draws_a_version_four_uuid() {
    let mut l = TodoList::new();
    let a = l.add("a".to_string());
    let b = l.add("b".to_string());
    assert_eq!((a.id >> 76) & 0xf, 4);
    assert_eq!((a.id >> 62) & 3, 2);
    assert_eq!((b.id >> 76) & 0xf, 4);
    assert_ne!(a.id, b.id);
}

#[test]
fn add_keeps_empty_title() {
    let mut l = TodoList::new();
    let t = l.add(String::new());
    assert_eq!(t.title, "");
    assert_eq!(l.len(), 1);
}

#[test]
fn add_appends_at_the_end() {
    let mut l = TodoList::new();
    l.add("first".to_string());
    l.add("second".to_string());
    let titles: Vec<String> = l.list().into_iter().map(|t| t.title).collect();
    assert_eq!(titles, vec!["first".to_string(), "second".to_string()]);
}

#[test]
fn candidate_is_used_when_free() {
    let mut l = TodoList::new();
    let t = l.add_with_candidate("x".to_string(), 77);
    assert_eq!(t.id, 77);
    assert_eq!(l.fresh_id(5), 5);
}

#[test]
fn taken_candidate_falls_back_to_least_unused() {
    let mut l = TodoList::new();
    l.add_with_candidate("a".to_string(), 0);
    l.add_with_candidate("b".to_string(), 1);
    l.add_with_candidate("c".to_string(), 3);
    assert_eq!(l.fresh_id(3), 2);
    let t = l.add_with_candidate("d".to_string(), 1);
    assert_eq!(t.id, 2);
    assert_eq!(l.fresh_id(0), 4);
}

#[test]
fn toggle_flips_once_and_twice_restores() {
    let mut l = TodoList::new();
    let a = l.add("a".to_string());
    let b = l.add("b".to_string());
    let before = snapshot(&l);
    assert!(l.toggle(a.id));
    let once = snapshot(&l);
    assert!(once[0].2);
    assert!(!once[1].2);
    assert_eq!(once[1].0, b.id);
    assert!(l.toggle(a.id));
    assert_eq!(snapshot(&l), before);
}

#[test]
fn unknown_id_changes_nothing() {
    let mut l = TodoList::new();
    l.add_with_candidate("a".to_string(), 10);
    l.add_with_candidate("b".to_string(), 20);
    let before = snapshot(&l);
    assert!(!l.toggle(30));
    assert_eq!(snapshot(&l), before);
    assert!(!l.delete(30));
    assert_eq!(snapshot(&l), before);
}

#[test]
fn unknown_id_on_empty_list() {
    let mut l = TodoList::new();
    assert!(!l.toggle(1));
    assert!(!l.delete(1));
    assert_eq!(l.len(), 0);
}

#[test]
fn delete_removes_exactly_one() {
    let mut l = TodoList::new();
    l.add_with_candidate("a".to_string(), 1);
    l.add_with_candidate("b".to_string(), 2);
    l.add_with_candidate("c".to_string(), 3);
    assert!(l.delete(2));
    assert_eq!(
        snapshot(&l),
        vec![(1, "a".to_string(), false), (3, "c".to_string(), false)]
    );
    assert!(!l.delete(2));
    assert_eq!(l.len(), 2);
}

#[test]
fn hundred_additions_under_a_lock_are_distinct() {
    let shared = Mutex::new(TodoList::new());
    for i in 0..100 {
        let mut l = shared.lock().unwrap();
        l.add(format!("item {}", i));
    }
    let l = shared.lock().unwrap();
    let items = l.list();
    assert_eq!(items.len(), 100);
    let ids: HashSet<u128> = items.iter().map(|t| t.id).collect();
    assert_eq!(ids.len(), 100);
}

#[test]
fn replay_applies_commands_in_order() {
    let cmds = vec![
        TodoCommand::Add { title: "a".to_string(), candidate: 5 },
        TodoCommand::Add { title: "b".to_string(), candidate: 5 },
        TodoCommand::Toggle { id: 5 },
        TodoCommand::Add { title: "c".to_string(), candidate: 9 },
        TodoCommand::Delete { id: 0 },
        TodoCommand::Toggle { id: 9 },
        TodoCommand::Toggle { id: 9 },
    ];
    let l = TodoList::replay(&cmds);
    assert_eq!(
        snapshot(&l),
        vec![(5, "a".to_string(), true), (9, "c".to_string(), false)]
    );
}

#[test]
fn apply_matches_direct_calls() {
    let mut via_apply = TodoList::new();
    via_apply.apply(&TodoCommand::Add { title: "x".to_string(), candidate: 1 });
    via_apply.apply(&TodoCommand::Toggle { id: 1 });
    let mut direct = TodoList::new();
    direct.add_with_candidate("x".to_string(), 1);
    direct.toggle(1);
    assert_eq!(snapshot(&via_apply), snapshot(&direct));
    via_apply.apply(&TodoCommand::Delete { id: 1 });
    assert_eq!(via_apply.len(), 0);
}

#[test]
fn position_finds_the_item() {
    let mut l = TodoList::new();
    l.add_with_candidate("a".to_string(), 4);
    l.add_with_candidate("b".to_string(), 8);
    assert_eq!(l.position(8), Some(1));
    assert_eq!(l.position(4), Some(0));
    assert_eq!(l.position(6), None);
}
