use catalyst::error::ServerError;
use catalyst::method::Method;
use catalyst::routing_table::RoutingTable;

fn text(b: &[u8]) -> String {
    String::from_utf8(b.to_vec()).unwrap()
}

#[test]
fn literal_route_resolves_to_its_handler() {
    let mut table: RoutingTable<u32> = RoutingTable::new();
    assert!(table.at("/users/list", Method::Get, 1).is_ok());
    assert!(table.at("/about", Method::Get, 2).is_ok());
    assert_eq!(table.resolve(Method::Get, "/users/list"), Some(&1));
    assert_eq!(table.resolve(Method::Get, "/about"), Some(&2));
}

#[test]
fn reregistration_overwrites_the_handler() {
    let mut table: RoutingTable<u32> = RoutingTable::new();
    assert!(table.at("/index", Method::Get, 1).is_ok());
    assert!(table.at("/index", Method::Get, 7).is_ok());
    assert_eq!(table.resolve(Method::Get, "/index"), Some(&7));
}

#[test]
fn dynamic_segment_matches_any_value() {
    let mut table: RoutingTable<u32> = RoutingTable::new();
    assert!(table.at("/users/{id}/posts", Method::Get, 3).is_ok());
    for value in ["42", "alice", "x-y_z"] {
        let path = format!("/users/{}/posts", value);
        assert_eq!(table.resolve(Method::Get, &path), Some(&3));
        let params = table.path_params(Method::Get, &path).unwrap();
        assert_eq!(params.len(), 1);
        assert_eq!(text(&params[0].0), "id");
        assert_eq!(text(&params[0].1), value);
    }
    assert_eq!(table.resolve(Method::Get, "/users/42"), None);
    assert_eq!(table.path_params(Method::Get, "/users/42"), None);
}

#[test]
fn several_parameters_are_bound_in_order() {
    let mut table: RoutingTable<u32> = RoutingTable::new();
    assert!(table.at("/{org}/repos/{repo}", Method::Get, 5).is_ok());
    let params = table.path_params(Method::Get, "/acme/repos/anvil").unwrap();
    assert_eq!(params.len(), 2);
    assert_eq!((text(&params[0].0), text(&params[0].1)), ("org".to_string(), "acme".to_string()));
    assert_eq!((text(&params[1].0), text(&params[1].1)), ("repo".to_string(), "anvil".to_string()));
}

#[test]
fn literal_takes_precedence_over_dynamic() {
    let mut table: RoutingTable<&str> = RoutingTable::new();
    assert!(table.at("/users/admin", Method::Get, "literal").is_ok());
    assert!(table.at("/users/{id}", Method::Get, "dynamic").is_ok());
    assert_eq!(table.resolve(Method::Get, "/users/admin"), Some(&"literal"));
    assert_eq!(table.resolve(Method::Get, "/users/42"), Some(&"dynamic"));
}

#[test]
fn literal_takes_precedence_registered_in_either_order() {
    let mut table: RoutingTable<&str> = RoutingTable::new();
    assert!(table.at("/users/{id}", Method::Get, "dynamic").is_ok());
    assert!(table.at("/users/admin", Method::Get, "literal").is_ok());
    assert_eq!(table.resolve(Method::Get, "/users/admin"), Some(&"literal"));
    assert_eq!(table.resolve(Method::Get, "/users/7"), Some(&"dynamic"));
}

#[test]
fn repeated_and_trailing_slashes_are_skipped() {
    let mut table: RoutingTable<u32> = RoutingTable::new();
    assert!(table.at("/a/b", Method::Get, 9).is_ok());
    assert_eq!(table.resolve(Method::Get, "/a/b"), Some(&9));
    assert_eq!(table.resolve(Method::Get, "/a/b/"), Some(&9));
    assert_eq!(table.resolve(Method::Get, "/a//b"), Some(&9));
    assert_eq!(table.resolve(Method::Get, "a/b"), Some(&9));
}

#[test]
fn unregistered_path_is_not_found() {
    let mut table: RoutingTable<u32> = RoutingTable::new();
    assert_eq!(table.resolve(Method::Get, "/anything"), None);
    assert_eq!(table.resolve(Method::Get, "/"), None);
    assert!(table.at("/a/b", Method::Get, 1).is_ok());
    assert_eq!(table.resolve(Method::Get, "/a"), None);
    assert_eq!(table.resolve(Method::Get, "/a/b/c"), None);
    assert_eq!(table.resolve(Method::Get, "/b"), None);
    assert_eq!(table.resolve(Method::Get, ""), None);
}

#[test]
fn methods_are_told_apart() {
    let mut table: RoutingTable<u32> = RoutingTable::new();
    assert!(table.at("/x", Method::Get, 1).is_ok());
    assert_eq!(table.resolve(Method::Get, "/x"), Some(&1));
    assert_eq!(table.resolve(Method::Post, "/x"), None);
    assert!(table.at("/x", Method::Post, 2).is_ok());
    assert_eq!(table.resolve(Method::Post, "/x"), Some(&2));
    assert_eq!(table.resolve(Method::Get, "/x"), Some(&1));
}

#[test]
fn root_path_is_refused() {
    let mut table: RoutingTable<u32> = RoutingTable::new();
    assert!(matches!(table.at("/", Method::Get, 1), Err(ServerError::IllegalPath)));
    assert!(matches!(table.at("", Method::Get, 1), Err(ServerError::IllegalPath)));
    assert!(matches!(table.at("//", Method::Get, 1), Err(ServerError::IllegalPath)));
    assert_eq!(table.resolve(Method::Get, "/"), None);
}

#[test]
fn brace_alone_is_a_literal_segment() {
    let mut table: RoutingTable<u32> = RoutingTable::new();
    assert!(table.at("/{", Method::Get, 1).is_ok());
    assert_eq!(table.resolve(Method::Get, "/{"), Some(&1));
    assert_eq!(table.resolve(Method::Get, "/x"), None);
}

#[test]
fn dynamic_branch_without_backtracking() {
    let mut table: RoutingTable<u32> = RoutingTable::new();
    assert!(table.at("/users/admin", Method::Get, 1).is_ok());
    assert!(table.at("/users/{id}/posts", Method::Get, 2).is_ok());
    assert_eq!(table.resolve(Method::Get, "/users/7/posts"), Some(&2));
    assert_eq!(table.resolve(Method::Get, "/users/admin/posts"), None);
}

#[test]
fn repeated_parameter_name_keeps_its_last_position() {
    let mut table: RoutingTable<u32> = RoutingTable::new();
    assert!(table.at("/{id}/x/{id}", Method::Get, 1).is_ok());
    let params = table.path_params(Method::Get, "/first/x/second").unwrap();
    assert_eq!(params.len(), 1);
    assert_eq!((text(&params[0].0), text(&params[0].1)), ("id".to_string(), "second".to_string()));
}
