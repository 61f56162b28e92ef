use react::text::{parse_u32, parse_u64, split, split_terminator, trim};
use react::vfs::fs::parse_query;
use react::vfs::{Dir, File, FileSystem, FileType, Node, QueryParam};

fn file(name: &str, content: &[u8], creation_time: u64) -> File {
    File { name: name.to_string(), content: content.to_vec(), creation_time, type_: FileType::Text }
}

fn tree() -> FileSystem {
    let mut fs = FileSystem::new_at(100);
    fs.mk_dir_at("/docs", 110);
    fs.mk_dir_at("/docs/old", 120);
    fs.mk_dir_at("/tmp", 130);
    assert!(fs.new_file("/docs", file("notes.txt", b"remember the milk", 140)));
    assert!(fs.new_file("/docs/old", file("draft", &[0xff, 0xfe, 0x00], 50)));
    assert!(fs.new_file("/", file("readme", b"hello", 150)));
    fs
}

fn names(nodes: &[&Node]) -> Vec<String> {
    nodes.iter().map(|n| n.get_name().to_string()).collect()
}

#[test]
fn split_cuts_at_every_separator() {
    assert_eq!(split("/a/b", '/'), vec!["", "a", "b"]);
    assert_eq!(split("", '/'), vec![""]);
    assert_eq!(split("/", '/'), vec!["", ""]);
    assert_eq!(split("a//b/", '/'), vec!["a", "", "b", ""]);
    assert_eq!(split("no separator", '/'), vec!["no separator"]);
    assert_eq!(split("naïve:ñ", ':'), vec!["naïve", "ñ"]);
    for s in ["/a/b", "", "/", "a//b/", "x", "//"] {
        assert_eq!(split(s, '/'), s.split('/').collect::<Vec<_>>());
    }
}

#[test]
fn split_terminator_drops_an_empty_last_piece() {
    assert_eq!(split_terminator("/", '/'), vec![""]);
    assert_eq!(split_terminator("", '/'), Vec::<&str>::new());
    assert_eq!(split_terminator("/a/", '/'), vec!["", "a"]);
    assert_eq!(split_terminator("/a//", '/'), vec!["", "a", ""]);
    for s in ["/a/b", "", "/", "a//b/", "x", "//"] {
        assert_eq!(split_terminator(s, '/'), s.split_terminator('/').collect::<Vec<_>>());
    }
}

#[test]
fn trim_strips_white_space_at_both_ends() {
    assert_eq!(trim("  /a b \t\n"), "/a b");
    assert_eq!(trim(""), "");
    assert_eq!(trim(" \u{a0}\u{2003} "), "");
    assert_eq!(trim("x"), "x");
    for s in ["  /a b \t\n", "", "   ", "x", " x", "x ", "\u{3000}é\u{3000}"] {
        assert_eq!(trim(s), s.trim());
    }
}

#[test]
fn numbers_are_read_as_the_standard_library_reads_them() {
    assert_eq!(parse_u32("32"), Some(32));
    assert_eq!(parse_u32("+7"), Some(7));
    assert_eq!(parse_u32("007"), Some(7));
    assert_eq!(parse_u32("4294967295"), Some(u32::MAX));
    assert_eq!(parse_u32("4294967296"), None);
    assert_eq!(parse_u64("18446744073709551615"), Some(u64::MAX));
    assert_eq!(parse_u64("18446744073709551616"), None);
    for s in [
        "", "+", "-", "-1", "++1", "+-1", "1+", " 1", "1 ", "1_000", "0x10", "１２", "0", "+0",
        "00000000000000000000000000000001", "99999999999999999999", "12a", "a12",
    ] {
        assert_eq!(parse_u32(s), s.parse::<u32>().ok(), "{s:?}");
        assert_eq!(parse_u64(s), s.parse::<u64>().ok(), "{s:?}");
    }
}

#[test]
fn queries_are_a_kind_and_an_argument() {
    assert!(matches!(parse_query("name:a", 3), Some(QueryParam::Name(s, 3)) if s == "a"));
    assert!(matches!(parse_query("content:milk", 0), Some(QueryParam::Content(s, 0)) if s == "milk"));
    assert!(matches!(parse_query("larger:10", 1), Some(QueryParam::Larger(10, 1))));
    assert!(matches!(parse_query("smaller:32", 2), Some(QueryParam::Smaller(32, 2))));
    assert!(matches!(parse_query("newer:5000000000", 0), Some(QueryParam::Newer(5000000000, 0))));
    assert!(matches!(parse_query("older:7", 0), Some(QueryParam::Older(7, 0))));
    assert!(matches!(parse_query("name:", 0), Some(QueryParam::Name(s, 0)) if s.is_empty()));
    for bad in ["name", "name:a:b", "", ":", "size:3", "larger:x", "smaller:5000000000", "Name:a", "newer:-1"] {
        assert!(parse_query(bad, 0).is_none(), "{bad:?}");
    }
    assert_eq!(parse_query("older:9", 4).unwrap().get_index(), 4);
}

#[test]
fn mk_dir_needs_the_directory_above() {
    let mut fs = FileSystem::new();
    fs.mk_dir("/a/b");
    assert_eq!(fs.root().children.len(), 0);
    fs.mk_dir("a");
    assert_eq!(fs.root().children.len(), 0);
    fs.mk_dir("/a");
    fs.mk_dir("/a");
    assert_eq!(fs.root().children.len(), 1);
    fs.mk_dir("/a/b");
    assert_eq!(fs.root().children[0].children_len(), 1);
    assert!(fs.root().children[0].is_dir());
    assert!(!fs.root().children[0].is_file());
    // A file in the way stops the walk, and its name is taken.
    assert!(fs.new_file("/", file("f", b"", 0)));
    fs.mk_dir("/f");
    fs.mk_dir("/f/x");
    assert_eq!(fs.root().children.len(), 2);
}

#[test]
fn mk_dir_at_records_the_time() {
    let mut fs = FileSystem::new_at(5);
    fs.mk_dir_at("/a", 42);
    assert_eq!(fs.root().creation_time, 5);
    assert_eq!(fs.root().children[0].get_creation_time(), 42);
    assert_eq!(fs.root().children[0].get_size(), None);
    assert!(fs.root().children[0].get_content().is_none());
}

#[test]
fn rm_dir_keeps_directories_that_have_children() {
    let mut fs = tree();
    fs.rm_dir("/docs");
    assert_eq!(fs.root().children.len(), 3);
    fs.rm_dir("/tmp");
    assert_eq!(names(&fs.root().children.iter().collect::<Vec<_>>()), ["docs", "readme"]);
    // The first node of the name goes, be it a file.
    fs.rm_dir("/readme");
    assert_eq!(fs.root().children.len(), 1);
    fs.rm_dir("/docs/old/draft");
    fs.rm_dir("/docs/old");
    fs.rm_dir("/nothing/here");
    fs.rm_dir("docs");
    assert_eq!(names(&fs.root().children[0].as_dir().unwrap().children.iter().collect::<Vec<_>>()), ["notes.txt"]);
}

#[test]
fn new_file_says_whether_it_added() {
    let mut fs = tree();
    assert!(!fs.new_file("/nowhere", file("x", b"", 0)));
    assert!(!fs.new_file("docs", file("x", b"", 0)));
    assert!(!fs.new_file("/docs/old/deeper", file("x", b"", 0)));
    assert!(fs.new_file("  /docs/ \n", file("x", b"", 0)));
    assert!(fs.new_file("/docs/old/", file("x", b"", 0)));
    // "" has no name at all, not even that of the root.
    assert!(!fs.new_file("", file("y", b"", 0)));
    let docs = fs.root().children[0].as_dir().unwrap();
    assert_eq!(docs.contains_file("x"), Some(2));
    assert_eq!(docs.contains_file("old"), None);
    assert_eq!(docs.contains_dir("old"), Some(0));
    assert_eq!(docs.contains_dir("x"), None);
    assert_eq!(docs.contains_mut("notes.txt"), Some(1));
    assert_eq!(docs.contains_mut("old"), Some(0));
    assert_eq!(docs.contains_mut("missing"), None);
    assert!(docs.get_child_mut(3).is_none());
    assert_eq!(docs.get_child_mut(1).unwrap().as_file().unwrap().creation_time, 140);
}

#[test]
fn remove_takes_the_first_file_of_the_name() {
    let mut d = Dir::new_at("d", 1);
    d.children.push(Node::Dir(Dir::new_at("x", 2)));
    d.children.push(Node::File(file("x", b"1", 3)));
    d.children.push(Node::File(file("x", b"2", 4)));
    d.remove("x");
    assert_eq!(d.children.len(), 2);
    assert!(d.children[0].is_dir());
    assert_eq!(d.children[1].get_content().unwrap(), b"2");
    d.remove("y");
    assert_eq!(d.children.len(), 2);
    let made = Dir::new("now");
    assert_eq!(made.name, "now");
    assert!(made.children.is_empty());
}

#[test]
fn get_file_walks_from_a_directory_of_the_root() {
    let fs = tree();
    assert_eq!(fs.get_file("/docs/notes.txt").unwrap().get_name(), "notes.txt");
    assert_eq!(fs.get_file("/docs/old/draft").unwrap().get_size(), Some(3));
    assert!(fs.get_file("/docs/old").is_none());
    assert!(fs.get_file("/docs/missing").is_none());
    assert!(fs.get_file("/docs/notes.txt/x").is_none());
    assert!(fs.get_file("docs/notes.txt").is_none());
    assert!(fs.get_file("/missing").is_none());
    // A file of the root is not under a directory of the root.
    assert!(fs.get_file("/readme").is_none());
}

#[test]
fn search_finds_nodes_in_the_order_of_the_walk() {
    let fs = tree();
    let found = fs.search(&["name:o"]).unwrap();
    assert_eq!(names(&found.nodes), ["docs", "old", "notes.txt"]);
    assert_eq!(found.queries, ["name:o"]);
    let found = fs.search(&["content:milk", "content:\u{0}", "name:zzz", "larger:4", "smaller:4"]).unwrap();
    assert_eq!(names(&found.nodes), ["draft", "notes.txt", "readme"]);
    assert_eq!(found.queries, ["content:milk", "larger:4", "smaller:4"]);
    let found = fs.search(&["older:110", "newer:140"]).unwrap();
    assert_eq!(names(&found.nodes), ["draft", "readme"]);
    assert_eq!(found.queries, ["older:110", "newer:140"]);
    let found = fs.search(&[]).unwrap();
    assert!(found.nodes.is_empty() && found.queries.is_empty());
    let found = fs.search(&["name:"]).unwrap();
    assert_eq!(found.nodes.len(), 6);
}

#[test]
fn search_refuses_a_query_that_it_cannot_read() {
    let fs = tree();
    assert!(fs.search(&["name:o", "bigger:3"]).is_none());
    assert!(fs.search(&["larger:many"]).is_none());
    assert!(fs.search(&["name"]).is_none());
}

#[test]
fn a_condition_on_a_node_by_itself_wants_the_exact_name() {
    let q = parse_query("name:note", 0).unwrap();
    let f = file("notes", b"abc", 9);
    assert!(q.match_value(&Node::File(f.clone())));
    assert!(!q.match_file(&f));
    assert!(parse_query("name:notes", 0).unwrap().match_file(&f));
    assert!(parse_query("content:bc", 0).unwrap().match_file(&f));
    assert!(!parse_query("content:cb", 0).unwrap().match_file(&f));
    assert!(parse_query("larger:2", 0).unwrap().match_file(&f));
    assert!(!parse_query("larger:3", 0).unwrap().match_file(&f));
    assert!(parse_query("smaller:4", 0).unwrap().match_file(&f));
    assert!(parse_query("newer:8", 0).unwrap().match_file(&f));
    assert!(!parse_query("older:9", 0).unwrap().match_file(&f));
    let d = Dir::new_at("notes", 9);
    assert!(parse_query("name:notes", 0).unwrap().match_dir(&d));
    assert!(!q.match_dir(&d));
    assert!(!parse_query("smaller:4", 0).unwrap().match_dir(&d));
    assert!(parse_query("older:10", 0).unwrap().match_dir(&d));
    let mut queries = vec![(q, false), (parse_query("older:10", 1).unwrap(), false)];
    assert!(d.match_queries(&mut queries));
    assert_eq!((queries[0].1, queries[1].1), (false, true));
    assert!(f.match_queries(&mut queries));
    assert_eq!((queries[0].1, queries[1].1), (false, true));
    assert!(Node::File(f).match_queries(&mut queries));
    assert_eq!((queries[0].1, queries[1].1), (true, true));
}

#[test]
fn text_that_is_not_utf8_holds_nothing() {
    let bad = Node::File(file("bad", &[b'a', 0xff, b'b'], 0));
    assert!(!parse_query("content:a", 0).unwrap().match_value(&bad));
    assert!(!parse_query("content:", 0).unwrap().match_value(&bad));
    let good = Node::File(file("good", "caffè".as_bytes(), 0));
    assert!(parse_query("content:fè", 0).unwrap().match_value(&good));
    assert!(parse_query("content:", 0).unwrap().match_value(&good));
    assert!(!parse_query("content:e", 0).unwrap().match_value(&good));
}

#[test]
fn default_file_is_empty_and_binary() {
    let f = File::default();
    assert_eq!(f, File { name: String::new(), content: vec![], creation_time: 0, type_: FileType::Binary });
    assert_eq!(FileType::default(), FileType::Binary);
    FileSystem::from_dir("/anywhere");
}

#[test]
fn query_files_takes_each_file_by_itself() {
    let fs = tree();
    let mut queries = vec![
        (parse_query("name:draft", 0).unwrap(), false),
        (parse_query("name:o", 1).unwrap(), false),
        (parse_query("name:docs", 2).unwrap(), false),
        (parse_query("larger:16", 3).unwrap(), false),
    ];
    let found = fs.root().query_files(&mut queries);
    assert_eq!(names(&found), ["draft", "notes.txt"]);
    assert_eq!(queries.iter().map(|q| q.1).collect::<Vec<_>>(), [true, false, false, true]);
    let mut queries = vec![
        (parse_query("name:o", 0).unwrap(), false),
        (parse_query("name:docs", 1).unwrap(), false),
    ];
    let found = fs.root().query(&mut queries);
    assert_eq!(names(&found), ["docs", "old", "notes.txt"]);
    assert_eq!(queries.iter().map(|q| q.1).collect::<Vec<_>>(), [true, true]);
}

#[test]
fn get_file_from_root_reaches_files_of_the_root() {
    let fs = tree();
    assert_eq!(fs.get_file_from_root("/readme").unwrap().get_name(), "readme");
    assert_eq!(fs.get_file_from_root("/docs/old/draft").unwrap().get_name(), "draft");
    assert!(fs.get_file_from_root("/docs").is_none());
    assert!(fs.get_file_from_root("/").is_none());
    assert!(fs.get_file_from_root("readme").is_none());
    assert!(fs.get_file_from_root("/readme/x").is_none());
    assert!(fs.get_file_from_root("/docs/readme").is_none());
}

#[test]
fn try_new_file_refuses_a_name_that_is_taken() {
    let mut fs = tree();
    assert_eq!(fs.try_new_file("/docs", file("notes.txt", b"other", 1)), None);
    assert_eq!(fs.root().children[0].children_len(), 2);
    assert_eq!(fs.try_new_file("/docs", file("old", b"a file beside the directory", 1)), Some(true));
    assert_eq!(fs.try_new_file("/nowhere", file("notes.txt", b"", 1)), Some(false));
    assert_eq!(fs.try_new_file("/", file("readme", b"", 1)), None);
    assert_eq!(fs.try_new_file("/", file("docs", b"", 1)), Some(true));
}

#[test]
fn a_copy_is_a_tree_of_its_own() {
    let mut fs = tree();
    let copy = fs.clone();
    assert_eq!(copy.root(), fs.root());
    fs.mk_dir_at("/tmp/more", 1);
    fs.rm_dir("/readme");
    assert_ne!(copy.root(), fs.root());
    assert_eq!(copy.root().children.len(), 3);
    assert_eq!(copy.root().children[1].children_len(), 0);
    let q = parse_query("name:x", 7).unwrap();
    let again = q.clone();
    assert!(matches!(again, QueryParam::Name(s, 7) if s == "x"));
}
