use gate::node::FileNode;

#[test]
fn default_node_is_an_empty_file() {
    let node = FileNode::default();
    assert_eq!(node.name, "");
    assert_eq!(node.path, "");
    assert_eq!(node.size, 0);
    assert!(!node.is_dir);
    assert!(node.children.is_empty());
}

#[test]
fn clone_copies_the_whole_tree() {
    let tree = FileNode {
        name: "d".to_string(),
        path: "/d".to_string(),
        size: 7,
        is_dir: true,
        children: vec![
            FileNode {
                name: "e".to_string(),
                path: "/d/e".to_string(),
                size: 4,
                is_dir: true,
                children: vec![FileNode {
                    name: "f".to_string(),
                    path: "/d/e/f".to_string(),
                    size: 4,
                    is_dir: false,
                    children: vec![],
                }],
            },
            FileNode { name: "g".to_string(), path: "/d/g".to_string(), size: 3, is_dir: false, children: vec![] },
        ],
    };
    let mut copy = tree.clone();
    assert_eq!(format!("{:?}", copy), format!("{:?}", tree));
    copy.children[0].children[0].size = 1;
    assert_eq!(tree.children[0].children[0].size, 4);
    assert_eq!(copy.children.len(), 2);
    assert_eq!(copy.children[1].name, "g");
}
