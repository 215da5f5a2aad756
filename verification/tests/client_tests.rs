use cozad_union_find::union_find::client as ufclient;
use cozad_union_find::union_find::client::BulkConnection as ufconnection;

#[test]
fn constructor() {
    let client = ufclient::Client::new();

    assert_eq!(0, client.node_count());
    assert_eq!(0, client.disjoint_set_count());
}

#[test]
fn add_node() {
    let mut client = ufclient::Client::new();
    client.add_node("A");

    assert_eq!(true, client.node_exists("A"));
    assert_eq!(1, client.node_count());
}

#[test]
fn duplicate_adds_ignored() {
    let mut client = ufclient::Client::new();
    client.add_node("A");
    client.add_node("A");

    assert_eq!(1, client.node_count());
    assert_eq!(1, client.disjoint_set_count());
}

#[test]
fn node_exists_positive() {
    let mut client = ufclient::Client::new();
    client.add_node("A");

    assert_eq!(true, client.node_exists("A"));
}

#[test]
fn node_exists_negative() {
    let mut client = ufclient::Client::new();
    client.add_node("A");

    assert_eq!(false, client.node_exists("foo"));
}

#[test]
fn node_index_positive() {
    let mut client = ufclient::Client::new();
    client.add_node("A");

    assert_eq!(1, client.node_index("A"));
}

#[test]
fn node_index_negative() {
    let mut client = ufclient::Client::new();
    client.add_node("A");

    assert_eq!(0, client.node_index("foo"));
}

#[test]
fn connect_nodes_positive() {
    let mut client = ufclient::Client::new();
    client.add_node("A");
    client.add_node("B");
    client.connect_nodes("A", "B");

    assert_eq!(true, client.nodes_connected("A", "B"));
}

#[test]
fn connect_nodes_negative() {
    let mut client = ufclient::Client::new();
    client.add_node("A");
    client.add_node("B");
    client.add_node("C");
    client.connect_nodes("A", "B");

    assert_eq!(false, client.nodes_connected("A", "C"));
}

#[test]
fn disjoint_set_count() {
    let mut client = ufclient::Client::new();
    client.add_node("A");
    client.add_node("B");
    client.add_node("C");
    assert_eq!(3, client.disjoint_set_count());
    client.connect_nodes("A", "B");
    assert_eq!(2, client.disjoint_set_count());
    client.connect_nodes("B", "C");
    assert_eq!(1, client.disjoint_set_count());
    client.connect_nodes("B", "C");
    assert_eq!(1, client.disjoint_set_count());
    client.connect_nodes("A", "A");
    assert_eq!(1, client.disjoint_set_count());
}

#[test]
fn add_nodes_bulk() {
    let mut client = ufclient::Client::new();
    let nodes = vec![
        String::from("A"),
        String::from("B"),
        String::from("C"),
        String::from("D"),
        String::from("E"),
        String::from("F"),
        String::from("G"),
        String::from("H"),
        String::from("I"),
        String::from("J"),
    ];
    client.add_nodes_bulk(nodes);

    assert_eq!(10, client.node_count());
}

#[test]
fn connect_nodes_bulk() {
    let mut client = ufclient::Client::new();
    let nodes = vec![
        String::from("A"),
        String::from("B"),
        String::from("C"),
        String::from("D"),
        String::from("E"),
        String::from("F"),
        String::from("G"),
        String::from("H"),
        String::from("I"),
        String::from("J"),
    ];
    client.add_nodes_bulk(nodes);

    let connections = vec![
        ufconnection::new(4, 3),
        ufconnection::new(3, 8),
        ufconnection::new(6, 5),
        ufconnection::new(9, 4),
        ufconnection::new(2, 1),
        ufconnection::new(8, 9),
        ufconnection::new(5, 0),
        ufconnection::new(7, 2),
        ufconnection::new(6, 1),
        ufconnection::new(1, 0),
        ufconnection::new(6, 7),
    ];
    client.connect_nodes_bulk(connections).unwrap();

    assert_eq!(10, client.node_count());
    assert_eq!(2, client.disjoint_set_count());
}

#[test]
fn distinct_adds_count_up() {
    let mut client = ufclient::Client::new();
    client.add_node("A");
    client.add_node("B");
    client.add_node("C");
    client.add_node("D");

    assert_eq!(4, client.node_count());
    assert_eq!(4, client.disjoint_set_count());
}

#[test]
fn connection_is_symmetric() {
    let mut client = ufclient::Client::new();
    client.add_node("A");
    client.add_node("B");
    client.connect_nodes("A", "B");

    assert_eq!(true, client.nodes_connected("B", "A"));
}

#[test]
fn connection_is_transitive() {
    let mut client = ufclient::Client::new();
    client.add_node("A");
    client.add_node("B");
    client.add_node("C");
    client.connect_nodes("A", "B");
    client.connect_nodes("B", "C");

    assert_eq!(true, client.nodes_connected("A", "C"));
    assert_eq!(true, client.nodes_connected("C", "A"));
}

#[test]
fn find_root_is_stable_between_unions() {
    let mut client = ufclient::Client::new();
    client.add_node("A");
    client.add_node("B");
    client.add_node("C");
    client.connect_nodes("A", "B");

    let first = client.find_root_index("B");
    let second = client.find_root_index("B");
    assert_eq!(first, second);

    let bulk_first = client.find_root_index_bulk(2);
    let bulk_second = client.find_root_index_bulk(2);
    assert_eq!(bulk_first, bulk_second);
}

#[test]
fn find_root_unknown_name_is_placeholder() {
    let mut client = ufclient::Client::new();
    client.add_node("A");

    assert_eq!(0, client.find_root_index("foo"));
}

#[test]
fn smaller_set_attaches_under_larger() {
    let mut client = ufclient::Client::new();
    client.add_node("A");
    client.add_node("B");
    client.add_node("C");
    client.connect_nodes("A", "B");
    client.connect_nodes("C", "B");

    // A and B form a set of two rooted at A's record; C's singleton set is
    // strictly smaller and must defer to that root.
    assert_eq!(1, client.find_root_index("A"));
    assert_eq!(1, client.find_root_index("B"));
    assert_eq!(1, client.find_root_index("C"));
}

#[test]
fn connect_unknown_name_is_ignored() {
    let mut client = ufclient::Client::new();
    client.add_node("A");
    client.add_node("B");
    client.connect_nodes("A", "foo");
    client.connect_nodes("foo", "B");
    client.connect_nodes("foo", "bar");

    assert_eq!(2, client.disjoint_set_count());
    assert_eq!(false, client.nodes_connected("A", "B"));
    assert_eq!(false, client.nodes_connected("A", "foo"));
}

#[test]
fn bulk_add_keeps_duplicates() {
    let mut client = ufclient::Client::new();
    let nodes = vec![String::from("A"), String::from("A")];
    client.add_nodes_bulk(nodes);

    assert_eq!(2, client.node_count());
    assert_eq!(2, client.disjoint_set_count());
    // The later record shadows the first in the name index.
    assert_eq!(2, client.node_index("A"));
}

#[test]
fn bulk_connections_merge_in_order() {
    let mut client = ufclient::Client::new();
    let nodes = vec![
        String::from("A"),
        String::from("B"),
        String::from("C"),
        String::from("D"),
    ];
    client.add_nodes_bulk(nodes);

    let connections = vec![ufconnection::new(0, 1), ufconnection::new(2, 3)];
    client.connect_nodes_bulk(connections).unwrap();

    assert_eq!(2, client.disjoint_set_count());
    assert_eq!(true, client.nodes_connected("A", "B"));
    assert_eq!(true, client.nodes_connected("C", "D"));
    assert_eq!(false, client.nodes_connected("A", "C"));

    client.connect_nodes_bulk(vec![ufconnection::new(1, 2)]).unwrap();
    assert_eq!(1, client.disjoint_set_count());
    assert_eq!(true, client.nodes_connected("A", "D"));
}

#[test]
fn bulk_connection_out_of_range() {
    let mut client = ufclient::Client::new();
    let nodes = vec![String::from("A"), String::from("B"), String::from("C")];
    client.add_nodes_bulk(nodes);

    let connections = vec![
        ufconnection::new(0, 1),
        ufconnection::new(5, 2),
        ufconnection::new(1, 2),
    ];
    let result = client.connect_nodes_bulk(connections);

    assert_eq!(Err(ufclient::BoundsError { index: 5 }), result);
    // The pair before the offending one was applied; the one after was not.
    assert_eq!(2, client.disjoint_set_count());
    assert_eq!(true, client.nodes_connected("A", "B"));
    assert_eq!(false, client.nodes_connected("B", "C"));
}

#[test]
fn bulk_connection_constructor() {
    let connection = ufconnection::new(4, 3);

    assert_eq!(4, connection.a);
    assert_eq!(3, connection.b);
}
