use pipe_maze::network::{parse_input, Network, Node};

const FIRST: &str = "RL\n\nAAA = (BBB, CCC)\nBBB = (DDD, EEE)\nCCC = (ZZZ, GGG)\nDDD = (DDD, DDD)\nEEE = (EEE, EEE)\nGGG = (GGG, GGG)\nZZZ = (ZZZ, ZZZ)\n";

#[test]
fn node_reads_labels() {
    let node = Node::from("AAA = (BBB, CCC)").unwrap();
    assert_eq!(node.name, "AAA");
    assert_eq!(node.left, "BBB");
    assert_eq!(node.right, "CCC");
    assert_eq!(node.get_label_by_direction('L'), Some("BBB".to_string()));
    assert_eq!(node.get_label_by_direction('R'), Some("CCC".to_string()));
    assert_eq!(node.get_label_by_direction('X'), None);
    assert!(node.is_start_node());
    assert!(!node.is_end_node());
    assert!(Node::from("AAA = (BBB, CC").is_none());
}

#[test]
fn walk_from_aaa_to_zzz() {
    let (instructions, network) = parse_input(FIRST).unwrap();
    assert_eq!(instructions, "RL");
    assert_eq!(network.nodes.len(), 7);
    assert_eq!(network.steps(&instructions), Some(2));
}

#[test]
fn walk_repeats_instructions() {
    let (instructions, network) =
        parse_input("LLR\n\nAAA = (BBB, BBB)\nBBB = (AAA, ZZZ)\nZZZ = (ZZZ, ZZZ)").unwrap();
    assert_eq!(network.steps(&instructions), Some(6));
}

#[test]
fn walk_that_never_arrives() {
    let (instructions, network) = parse_input("L\n\nAAA = (AAA, ZZZ)\nZZZ = (ZZZ, ZZZ)").unwrap();
    assert_eq!(network.steps(&instructions), None);
    let (_, network) = parse_input("L\n\nBBB = (BBB, BBB)").unwrap();
    assert_eq!(network.steps("L"), None);
}

#[test]
fn insert_replaces_same_label_and_tracks_ends() {
    let mut network = Network::new();
    network.insert(Node::from("11A = (11B, XXX)").unwrap());
    network.insert(Node::from("11Z = (11B, XXX)").unwrap());
    network.insert(Node::from("11A = (22B, XXX)").unwrap());
    assert_eq!(network.nodes.len(), 2);
    assert_eq!(network.nodes_start.len(), 2);
    assert_eq!(network.nodes_end.len(), 1);
    let label = "11A".to_string();
    assert_eq!(network.get_node_by_label(&label).unwrap().left, "22B");
    assert!(network.get_node_by_label(&"QQQ".to_string()).is_none());
}

#[test]
fn network_refuses_short_lines() {
    assert!(Network::from("AAA = (BBB, CCC)\nBBB").is_none());
    assert!(parse_input("no newline").is_none());
}

#[test]
fn ghosts_walk_together() {
    let text = "LR\n\n11A = (11B, XXX)\n11B = (XXX, 11Z)\n11Z = (11B, XXX)\n22A = (22B, XXX)\n22B = (22C, 22C)\n22C = (22Z, 22Z)\n22Z = (22B, 22B)\nXXX = (XXX, XXX)";
    let (instructions, network) = parse_input(text).unwrap();
    assert_eq!(network.nodes_start.len(), 2);
    assert_eq!(network.nodes_end.len(), 2);
    assert_eq!(network.ghost_steps(&instructions, 100), Some(6));
    assert_eq!(network.ghost_steps(&instructions, 5), None);
}
