use graph_store::parser::{parse_command, parse_u32, Command, CommandError};
use graph_store::{GraphDatabase, PropertyMap};

#[test]
fn test_add_and_get_node() {
    let mut db = GraphDatabase::new();
    let properties = PropertyMap::new();
    db.add_node(1, "User".to_string(), properties.clone());

    let node = db.get_node_by_id(1).unwrap();
    assert_eq!(node.label, "User");
    assert_eq!(node.properties, properties);
}

#[test]
fn test_add_and_get_relationship() {
    let mut db = GraphDatabase::new();
    let properties = PropertyMap::new();

    db.add_node(1, "User".to_string(), properties.clone());
    db.add_node(2, "Post".to_string(), properties.clone());

    db.add_relationship(1, "WROTE".to_string(), 1, 2, properties.clone());

    let rels = db.get_relationships_of_node(1);
    let relationship = rels[0];
    assert_eq!(relationship.start_node, 1);
    assert_eq!(relationship.end_node, 2);
    assert_eq!(relationship.label, "WROTE");
}

#[test]
fn test_query_node_by_property() {
    let mut db = GraphDatabase::new();
    let mut properties = PropertyMap::new();
    properties.insert("username".to_string(), "alice".to_string());

    db.add_node(1, "User".to_string(), properties);

    let nodes = db.get_nodes_by_property("username", "alice");
    assert_eq!(nodes.len(), 1);
    assert_eq!(nodes[0].id, 1);
}

#[test]
fn test_overwrite_node_keeps_only_last() {
    let mut db = GraphDatabase::new();
    let mut first = PropertyMap::new();
    first.insert("role".to_string(), "guest".to_string());
    db.add_node(7, "User".to_string(), first);

    let mut second = PropertyMap::new();
    second.insert("city".to_string(), "Oslo".to_string());
    db.add_node(7, "Admin".to_string(), second);

    let node = db.get_node_by_id(7).unwrap();
    assert_eq!(node.label, "Admin");
    assert_eq!(node.properties.get("city"), Some(&"Oslo".to_string()));
    assert_eq!(node.properties.get("role"), None);

    let by_old = db.get_nodes_by_property("role", "guest");
    assert_eq!(by_old.len(), 0);
}

#[test]
fn test_overwrite_relationship_keeps_only_last() {
    let mut db = GraphDatabase::new();
    db.add_relationship(1, "LIKES".to_string(), 1, 2, PropertyMap::new());
    db.add_relationship(1, "WROTE".to_string(), 3, 4, PropertyMap::new());

    assert_eq!(db.get_relationships_of_node(1).len(), 0);
    let rels = db.get_relationships_of_node(3);
    assert_eq!(rels.len(), 1);
    assert_eq!(rels[0].label, "WROTE");
    assert_eq!(rels[0].end_node, 4);
}

#[test]
fn test_adjacency_scenario() {
    let mut db = GraphDatabase::new();
    db.add_node(1, "User".to_string(), PropertyMap::new());
    db.add_node(2, "Post".to_string(), PropertyMap::new());
    db.add_relationship(1, "WROTE".to_string(), 1, 2, PropertyMap::new());

    let of_start = db.get_relationships_of_node(1);
    assert_eq!(of_start.len(), 1);
    assert_eq!(of_start[0].id, 1);
    assert_eq!(of_start[0].label, "WROTE");

    let of_end = db.get_relationships_of_node(2);
    assert_eq!(of_end.len(), 1);
    assert_eq!(of_end[0].id, 1);

    assert!(db.get_node_by_id(3).is_none());
    assert_eq!(db.get_relationships_of_node(3).len(), 0);
}

#[test]
fn test_dangling_relationship_is_kept() {
    let mut db = GraphDatabase::new();
    db.add_relationship(9, "POINTS_AT".to_string(), 100, 200, PropertyMap::new());

    let rels = db.get_relationships_of_node(200);
    assert_eq!(rels.len(), 1);
    assert_eq!(rels[0].start_node, 100);
}

#[test]
fn test_property_scenario() {
    let mut db = GraphDatabase::new();
    let mut properties = PropertyMap::new();
    properties.insert("username".to_string(), "alice".to_string());
    db.add_node(1, "User".to_string(), properties);

    let alice = db.get_nodes_by_property("username", "alice");
    assert_eq!(alice.len(), 1);
    assert_eq!(alice[0].id, 1);
    assert_eq!(alice[0].label, "User");

    let bob = db.get_nodes_by_property("username", "bob");
    assert_eq!(bob.len(), 0);
}

#[test]
fn test_query_repeats_identically() {
    let mut db = GraphDatabase::new();
    let mut properties = PropertyMap::new();
    properties.insert("k".to_string(), "v".to_string());
    db.add_node(1, "A".to_string(), properties.clone());
    db.add_node(2, "B".to_string(), properties);
    db.add_relationship(1, "R".to_string(), 1, 2, PropertyMap::new());

    let n1: Vec<u32> = db.get_nodes_by_property("k", "v").iter().map(|n| n.id).collect();
    let n2: Vec<u32> = db.get_nodes_by_property("k", "v").iter().map(|n| n.id).collect();
    assert_eq!(n1, n2);

    let r1: Vec<u32> = db.get_relationships_of_node(1).iter().map(|r| r.id).collect();
    let r2: Vec<u32> = db.get_relationships_of_node(1).iter().map(|r| r.id).collect();
    assert_eq!(r1, r2);

    assert_eq!(db.get_node_by_id(1).unwrap().label, db.get_node_by_id(1).unwrap().label);
}

#[test]
fn test_property_map_last_assignment_wins() {
    let mut pm = PropertyMap::new();
    assert_eq!(pm.get("a"), None);
    pm.insert("a".to_string(), "1".to_string());
    pm.insert("b".to_string(), "2".to_string());
    pm.insert("a".to_string(), "3".to_string());
    assert_eq!(pm.get("a"), Some(&"3".to_string()));
    assert_eq!(pm.get("b"), Some(&"2".to_string()));
    assert_eq!(pm.get("c"), None);
}

#[test]
fn test_parse_exit() {
    assert_eq!(parse_command("exit"), Ok(Command::Exit));
    assert_eq!(parse_command("  exit  "), Ok(Command::Exit));
}

#[test]
fn test_parse_add_node() {
    let cmd = parse_command("add node 1 User username:alice,city:Oslo").unwrap();
    match cmd {
        Command::AddNode { id, label, properties } => {
            assert_eq!(id, 1);
            assert_eq!(label, "User");
            assert_eq!(properties.get("username"), Some(&"alice".to_string()));
            assert_eq!(properties.get("city"), Some(&"Oslo".to_string()));
        }
        other => panic!("expected an add-node command, got {:?}", other),
    }
}

#[test]
fn test_parse_add_relationship() {
    let cmd = parse_command("add relationship 1 WROTE 1 2 since:2020").unwrap();
    match cmd {
        Command::AddRelationship { id, label, start_node, end_node, properties } => {
            assert_eq!(id, 1);
            assert_eq!(label, "WROTE");
            assert_eq!(start_node, 1);
            assert_eq!(end_node, 2);
            assert_eq!(properties.get("since"), Some(&"2020".to_string()));
        }
        other => panic!("expected an add-relationship command, got {:?}", other),
    }
}

#[test]
fn test_parse_queries() {
    assert_eq!(parse_command("query node id 12"), Ok(Command::QueryNodeById { id: 12 }));
    assert_eq!(
        parse_command("query node property username alice"),
        Ok(Command::QueryNodeByProperty {
            key: "username".to_string(),
            value: "alice".to_string(),
        })
    );
}

#[test]
fn test_parse_extra_whitespace() {
    assert_eq!(
        parse_command("  query   node \t id  3 "),
        Ok(Command::QueryNodeById { id: 3 })
    );
}

#[test]
fn test_parse_unknown_command() {
    assert_eq!(parse_command(""), Err(CommandError::UnknownCommand));
    assert_eq!(parse_command("hello"), Err(CommandError::UnknownCommand));
    assert_eq!(parse_command("add node 1 User"), Err(CommandError::UnknownCommand));
    assert_eq!(parse_command("query node label User"), Err(CommandError::UnknownCommand));
}

#[test]
fn test_parse_invalid_id() {
    assert_eq!(parse_command("add node x User a:b"), Err(CommandError::InvalidId));
    assert_eq!(parse_command("add node 4294967296 User a:b"), Err(CommandError::InvalidId));
    assert_eq!(parse_command("query node id -1"), Err(CommandError::InvalidId));
    assert_eq!(
        parse_command("add relationship 1 WROTE one 2 a:b"),
        Err(CommandError::InvalidId)
    );
}

#[test]
fn test_parse_invalid_properties() {
    assert_eq!(parse_command("add node 1 User ab"), Err(CommandError::InvalidProperties));
    assert_eq!(
        parse_command("add node 1 User a:b,cd"),
        Err(CommandError::InvalidProperties)
    );
    assert_eq!(
        parse_command("add relationship 1 WROTE 1 2 nope"),
        Err(CommandError::InvalidProperties)
    );
}

#[test]
fn test_parse_property_extra_colon_ignored() {
    let cmd = parse_command("add node 1 User a:b:c").unwrap();
    match cmd {
        Command::AddNode { properties, .. } => {
            assert_eq!(properties.get("a"), Some(&"b".to_string()));
        }
        other => panic!("expected an add-node command, got {:?}", other),
    }
}

#[test]
fn test_parse_property_duplicate_key_last_wins() {
    let cmd = parse_command("add node 1 User a:1,a:2").unwrap();
    match cmd {
        Command::AddNode { properties, .. } => {
            assert_eq!(properties.get("a"), Some(&"2".to_string()));
        }
        other => panic!("expected an add-node command, got {:?}", other),
    }
}

#[test]
fn test_parse_u32_values() {
    assert_eq!(parse_u32("0"), Some(0));
    assert_eq!(parse_u32("007"), Some(7));
    assert_eq!(parse_u32("4294967295"), Some(4294967295));
    assert_eq!(parse_u32("4294967296"), None);
    assert_eq!(parse_u32("99999999999999999999"), None);
    assert_eq!(parse_u32(""), None);
    assert_eq!(parse_u32("12a"), None);
    assert_eq!(parse_u32("+3"), None);
}
