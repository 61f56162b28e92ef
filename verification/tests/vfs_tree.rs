use react::vfs::{File, FileSystem, FileType, MatchResult, Node};

fn sample() -> FileSystem {
    let mut file = FileSystem::new();
    file.mk_dir("/a");
    file.mk_dir("/b");
    file.mk_dir("/a/c");
    file.mk_dir("/a/d");
    file
}

#[test]
fn new_test() {
    let file = FileSystem::new();

    let root = file.root();
    assert_eq!("", root.name);
    assert_eq!(0, root.children.len());
    assert_ne!(0, root.creation_time);
}

#[test]
fn mk_dir_test() {
    let file = sample();

    let children = &file.root().children;
    assert_eq!("a", children[0].get_name());
    assert_eq!("b", children[1].get_name());

    assert_eq!("c", children[0].as_dir().unwrap().children[0].get_name());
    assert_eq!("d", children[0].as_dir().unwrap().children[1].get_name());
}

#[test]
fn rm_dir_test() {
    let mut file = sample();

    file.rm_dir("/a/c");
    {
        let root = file.root();
        assert_eq!(1, root.get_child_mut(0).unwrap().as_dir().map_or(0, |c| c.children.len()));
    }

    file.rm_dir("/a/f");
    {
        let root = file.root();
        assert_eq!(1, root.get_child_mut(0).unwrap().as_dir().map_or(0, |c| c.children.len()));
    }

    file.rm_dir("/a/d");
    {
        let root = file.root();
        assert_eq!(0, root.get_child_mut(0).unwrap().as_dir().map_or(0, |c| c.children.len()));
    }
}

#[test]
fn new_file_test() {
    let mut file = sample();

    let new_file = File {
        name: "Sium".to_string(),
        content: vec![0, 1, 2],
        creation_time: 0,
        type_: FileType::Binary,
    };

    assert!(file.new_file("/", new_file.clone()));
    {
        let root = file.root();
        assert_eq!(Node::File(new_file.clone()), root.children[2]);
    }

    assert!(file.new_file("/a", new_file.clone()));
    {
        let root = file.root();
        assert_eq!(
            Node::File(new_file.clone()),
            root.children[0].as_dir().unwrap().children[2]
        );
    }
}

#[test]
fn search_test() {
    let mut file = FileSystem::new();
    file.new_file("/", File { name: "a".into(), ..Default::default() });
    file.mk_dir("/b");
    file.mk_dir("/b/c");
    file.mk_dir("/b/d");
    file.mk_dir("/b/c/a");
    file.new_file("/b/d", File { name: "o".into(), ..Default::default() });

    let matches = file.search(&["name:a", "name:f", "name:o", "smaller:32"]).unwrap();

    assert_eq!(matches.queries.len(), 3);
    assert_eq!(matches.nodes.len(), 3);
}

#[test]
fn lib_new_test() {
    let file = FileSystem::new();

    assert_eq!("", file.root().name);
    assert_eq!(0, file.root().children.len());
    assert_ne!(0, file.root().creation_time);
}

#[test]
fn lib_mk_dir_test() {
    let file = sample();

    assert_eq!("a", file.root().children[0].get_name());
    assert_eq!("b", file.root().children[1].get_name());

    assert_eq!("c", file.root().children[0].as_dir().unwrap().children[0].get_name());
    assert_eq!("d", file.root().children[0].as_dir().unwrap().children[1].get_name());
}

#[test]
fn lib_rm_dir_test() {
    let mut file = sample();

    file.rm_dir("/a/c");
    assert_eq!(1, file.root().children[0].as_dir().unwrap().children.len());

    file.rm_dir("/a/f");
    assert_eq!(1, file.root().children[0].as_dir().unwrap().children.len());

    file.rm_dir("/a/d");
    assert_eq!(0, file.root().children[0].as_dir().unwrap().children.len());
}

#[test]
fn lib_new_file_test() {
    let mut file = sample();

    let new_file = File {
        name: "Sium".to_string(),
        content: vec![0, 1, 2],
        creation_time: 0,
        type_: FileType::Binary,
    };

    assert!(file.new_file("/", new_file.clone()));
    assert_eq!(Node::File(new_file.clone()), file.root().children[2]);
    println!("{:#?}", file);

    assert!(file.new_file("/a", new_file.clone()));
    assert_eq!(
        Node::File(new_file.clone()),
        file.root().children[0].as_dir().unwrap().children[2]
    );
}

#[test]
fn lib_search_test() {
    let mut file = FileSystem::new();
    let a = File { name: "a".into(), ..Default::default() };
    file.new_file("/", a.clone());
    file.mk_dir("/b");
    file.mk_dir("/b/c");
    file.mk_dir("/b/d");
    let o = File { name: "o".into(), ..Default::default() };

    file.new_file("/b/d", o.clone());

    println!("{:#?}", file);

    let other = file.clone();
    assert_eq!(other.root(), file.root());
    let a = Node::File(a);
    let o = Node::File(o);
    let res = MatchResult {
        queries: vec!["name:a", "name:o", "smaller:32"],
        nodes: vec![&a, &o],
    };
    assert_eq!(Some(res), file.search(&["name:a", "name:f", "name:o", "smaller:32"]));
}
