use bevy_lite::puffin_profiler::{server_address, FieldVisitor, OpenScopes, DEFAULT_PUFFIN_SERVER_ADDR};

#[test]
fn fields_are_formatted_with_the_name_first() {
    let mut visitor = FieldVisitor { data: String::new() };
    visitor.record("name", "my_system");
    visitor.record("count", "3");
    assert_eq!(visitor.data, "my_system, count=3");
}

#[test]
fn first_field_has_no_separator() {
    let mut visitor = FieldVisitor { data: String::new() };
    visitor.record("count", "3");
    assert_eq!(visitor.data, "count=3");
    visitor.record("name", "x");
    assert_eq!(visitor.data, "count=3, x");
}

#[test]
fn exiting_a_span_closes_its_scope() {
    let mut scopes = OpenScopes::new();
    scopes.enter(1, 10);
    scopes.enter(2, 20);
    assert_eq!(scopes.exit(2), vec![20]);
    assert_eq!(scopes.exit(1), vec![10]);
    assert_eq!(scopes.exit(1), Vec::<usize>::new());
}

#[test]
fn exiting_out_of_order_closes_later_scopes_first() {
    let mut scopes = OpenScopes::new();
    scopes.enter(1, 10);
    scopes.enter(2, 20);
    scopes.enter(3, 30);
    assert_eq!(scopes.exit(2), vec![30, 20]);
    assert_eq!(scopes.exit(3), Vec::<usize>::new());
    assert_eq!(scopes.exit(1), vec![10]);
}

#[test]
fn spans_without_scope_close_nothing() {
    let mut scopes = OpenScopes::new();
    scopes.enter(1, 10);
    assert_eq!(scopes.exit(7), Vec::<usize>::new());
    assert_eq!(scopes.exit(1), vec![10]);
}

#[test]
fn the_last_scope_of_a_reentered_span_is_closed() {
    let mut scopes = OpenScopes::new();
    scopes.enter(1, 10);
    scopes.enter(1, 20);
    assert_eq!(scopes.exit(1), vec![20]);
    assert_eq!(scopes.exit(1), vec![10]);
}

#[test]
fn server_address_defaults() {
    assert_eq!(server_address(None), DEFAULT_PUFFIN_SERVER_ADDR);
    assert_eq!(server_address(Some("0.0.0.0:1".to_string())), "0.0.0.0:1");
}
