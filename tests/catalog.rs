use display_services::catalog::{foods, posts, StaticList};

#[test]
fn posts_on_startup_in_order() {
    let p = posts();
    assert_eq!(
        p.list(),
        &vec!["Post 1: Hello World".to_string(), "Post 2: Rust is Great".to_string()]
    );
    assert_eq!(p.len(), 2);
}

#[test]
fn foods_on_startup_in_order() {
    let f = foods();
    assert_eq!(f.list(), &vec!["Pizza".to_string(), "Sushi".to_string(), "Burger".to_string()]);
    assert_eq!(f.len(), 3);
}

#[test]
fn static_list_keeps_given_order() {
    let l = StaticList::new(vec!["b".to_string(), "a".to_string()]);
    assert_eq!(l.list(), &vec!["b".to_string(), "a".to_string()]);
    // reading twice gives the same answer
    assert_eq!(l.list(), l.list());
}

#[test]
fn static_list_may_be_empty() {
    let l = StaticList::new(Vec::new());
    assert!(l.list().is_empty());
    assert_eq!(l.len(), 0);
}
