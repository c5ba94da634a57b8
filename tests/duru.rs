use duru::list::{DuruFile, DuruList, IndentedString, SortOrder};
use duru::node::{join_path, DuruError, Entry, Node};

fn file(name: &str, size: u64) -> Entry {
    Entry { name: name.to_string(), is_dir: false, size }
}

fn dir(name: &str) -> Entry {
    Entry { name: name.to_string(), is_dir: true, size: 0 }
}

fn root(path: &str) -> Node {
    Node::Root { children: None, path: path.to_string() }
}

fn summary(list: &DuruList) -> Vec<(String, String, u64)> {
    list.files()
        .iter()
        .map(|f| (f.name().clone(), f.path().clone(), f.size()))
        .collect()
}

fn names(list: &DuruList) -> Vec<String> {
    list.files().iter().map(|f| f.name().clone()).collect()
}

fn sizes_text(list: &DuruList) -> Vec<String> {
    list.files().iter().map(|f| format!("{} B", f.size())).collect()
}

fn scanned_abc() -> DuruList {
    let mut r = root("/r");
    assert_eq!(r.pending_path(), Some("/r".to_string()));
    assert_eq!(r.recurse(Some(vec![file("a", 10), file("b", 20), file("c", 5)])), Ok(()));
    assert_eq!(r.pending_path(), None);
    DuruList::new(r.file_list().unwrap())
}

#[test]
fn three_files_sorted_descending_then_head() {
    let mut list = scanned_abc();
    assert_eq!(list.files().len(), 3);
    list.sort_by_size(SortOrder::Descending);
    assert_eq!(names(&list), vec!["b", "a", "c"]);
    let top = list.head(2);
    assert_eq!(
        summary(&top),
        vec![
            ("b".to_string(), "/r".to_string(), 20),
            ("a".to_string(), "/r".to_string(), 10)
        ]
    );
}

#[test]
fn empty_root_gives_empty_list_and_no_lines() {
    let mut r = root("/empty");
    assert_eq!(r.recurse(Some(vec![])), Ok(()));
    assert_eq!(r.pending_path(), None);
    let mut list = DuruList::new(r.file_list().unwrap());
    list.sort_by_size(SortOrder::Descending);
    let top = list.head(20);
    assert!(top.files().is_empty());
    assert!(top.name_size_lines(&vec![]).is_empty());
    assert!(top.path_size_lines(&vec![]).is_empty());
    assert_eq!(top.to_string(&vec![]), "");
}

#[test]
fn file_in_subdirectory_records_its_directory() {
    let mut r = root("/r");
    assert_eq!(r.recurse(Some(vec![dir("sub")])), Ok(()));
    assert_eq!(r.pending_path(), Some("/r/sub".to_string()));
    assert_eq!(r.recurse(Some(vec![file("x", 100)])), Ok(()));
    assert_eq!(r.pending_path(), None);
    let list = DuruList::new(r.file_list().unwrap());
    assert_eq!(summary(&list), vec![("x".to_string(), "/r/sub".to_string(), 100)]);
}

#[test]
fn full_rendering_shows_joined_paths() {
    let mut list = scanned_abc();
    list.sort_by_size(SortOrder::Descending);
    let sizes = sizes_text(&list);
    let lines = list.path_size_lines(&sizes);
    assert_eq!(lines, vec!["/r/b 20 B", "/r/a 10 B", "/r/c 5 B"]);
    let short = list.name_size_lines(&sizes);
    assert_eq!(short, vec!["b 20 B", "a 10 B", "c 5 B"]);
}

#[test]
fn equal_sizes_descending_reverse_listing_order() {
    let mut r = root("/r");
    assert_eq!(r.recurse(Some(vec![file("m", 50), file("n", 50)])), Ok(()));
    let mut list = DuruList::new(r.file_list().unwrap());
    list.sort_by_size(SortOrder::Descending);
    assert_eq!(names(&list), vec!["n", "m"]);
}

#[test]
fn equal_sizes_ascending_keep_listing_order() {
    let mut r = root("/r");
    let listing = vec![file("m", 50), file("big", 70), file("n", 50), file("s", 1)];
    assert_eq!(r.recurse(Some(listing)), Ok(()));
    let mut list = DuruList::new(r.file_list().unwrap());
    list.sort_by_size(SortOrder::Ascending);
    assert_eq!(names(&list), vec!["s", "m", "n", "big"]);
    let sizes: Vec<u64> = list.files().iter().map(|f| f.size()).collect();
    assert!(sizes.windows(2).all(|w| w[0] <= w[1]));
    list.sort_by_size(SortOrder::Descending);
    let sizes: Vec<u64> = list.files().iter().map(|f| f.size()).collect();
    assert!(sizes.windows(2).all(|w| w[0] >= w[1]));
}

#[test]
fn head_bounds_and_order() {
    let list = scanned_abc();
    assert_eq!(names(&list.head(10)), vec!["a", "b", "c"]);
    assert_eq!(names(&list.head(3)), vec!["a", "b", "c"]);
    assert_eq!(names(&list.head(1)), vec!["a"]);
    assert!(list.head(0).files().is_empty());
    assert_eq!(names(&list), vec!["a", "b", "c"]);
}

#[test]
fn size_column_is_aligned() {
    let list = DuruList::new(vec![
        DuruFile::new("a".to_string(), "/d".to_string(), 1),
        DuruFile::new("bbbb".to_string(), "/d".to_string(), 2),
        DuruFile::new("cc".to_string(), "/d".to_string(), 3),
    ]);
    let sizes = vec!["1 B".to_string(), "2 B".to_string(), "3 B".to_string()];
    let lines = list.name_size_lines(&sizes);
    assert_eq!(lines, vec!["a    1 B", "bbbb 2 B", "cc   3 B"]);
    for (line, size) in lines.iter().zip(sizes.iter()) {
        assert_eq!(line.find(size.as_str()), Some(5));
    }
    assert_eq!(list.to_string(&sizes), "a    1 B\nbbbb 2 B\ncc   3 B\n");
}

#[test]
fn unicode_labels_align_by_characters() {
    let list = DuruList::new(vec![
        DuruFile::new("é".to_string(), "/d".to_string(), 1),
        DuruFile::new("abc".to_string(), "/d".to_string(), 2),
    ]);
    let sizes = vec!["x".to_string(), "y".to_string()];
    assert_eq!(list.name_size_lines(&sizes), vec!["é   x", "abc y"]);
}

#[test]
fn lines_stop_at_the_shorter_input() {
    let list = scanned_abc();
    let lines = list.name_size_lines(&vec!["10 B".to_string()]);
    assert_eq!(lines, vec!["a 10 B"]);
}

#[test]
fn indented_strings_pad_to_widest_plus_one() {
    let r = DuruList::to_indented_string(vec!["ab".to_string(), "abcd".to_string(), "".to_string()]);
    let texts: Vec<String> = r.iter().map(|s| s.to_string()).collect();
    assert_eq!(texts, vec!["ab   ", "abcd ", "     "]);
    assert!(DuruList::to_indented_string(vec![]).is_empty());
    assert_eq!(IndentedString::new("v".to_string(), 3).to_string(), "v   ");
    assert_eq!(IndentedString::new("v".to_string(), 0).to_string(), "v");
}

#[test]
fn expanding_twice_adds_nothing() {
    let mut r = root("/r");
    assert_eq!(r.expand(Some(vec![file("a", 1)])), Ok(()));
    assert_eq!(r.expand(Some(vec![file("b", 2), file("c", 3)])), Ok(()));
    assert_eq!(r.expand(None), Ok(()));
    match &r {
        Node::Root { children: Some(c), .. } => assert_eq!(c.len(), 1),
        _ => panic!("root lost its children"),
    }
    let list = DuruList::new(r.file_list().unwrap());
    assert_eq!(names(&list), vec!["a"]);
}

#[test]
fn expand_makes_file_and_directory_nodes() {
    let mut d = Node::Dir { name: "d".to_string(), path: "/r/d".to_string(), size: None, children: None };
    assert_eq!(d.expand(Some(vec![file("f", 7), dir("e")])), Ok(()));
    match &d {
        Node::Dir { children: Some(c), .. } => {
            assert_eq!(c.len(), 2);
            match &c[0] {
                Node::File { name, path, size } => {
                    assert_eq!((name.as_str(), path.as_str(), *size), ("f", "/r/d", 7));
                }
                _ => panic!("expected a file"),
            }
            match &c[1] {
                Node::Dir { name, path, size, children } => {
                    assert_eq!((name.as_str(), path.as_str()), ("e", "/r/d/e"));
                    assert!(size.is_none() && children.is_none());
                }
                _ => panic!("expected a directory"),
            }
        }
        _ => panic!("directory not expanded"),
    }
}

#[test]
fn expand_errors() {
    let mut f = Node::File { name: "f".to_string(), path: "/r".to_string(), size: 1 };
    assert_eq!(f.expand(Some(vec![])), Err(DuruError::IsLeaf));
    let mut r = root("/r");
    assert_eq!(r.expand(None), Err(DuruError::DirectoryUnreadable));
    assert_eq!(r.pending_path(), Some("/r".to_string()));
}

#[test]
fn unreadable_directory_aborts_the_scan() {
    let mut r = root("/r");
    assert_eq!(r.recurse(Some(vec![dir("locked"), file("a", 1)])), Ok(()));
    assert_eq!(r.pending_path(), Some("/r/locked".to_string()));
    assert_eq!(r.recurse(None), Err(DuruError::DirectoryUnreadable));
    assert_eq!(r.pending_path(), Some("/r/locked".to_string()));
}

#[test]
fn recurse_goes_depth_first() {
    let mut r = root("/r");
    assert_eq!(r.recurse(Some(vec![dir("p"), file("top", 3), dir("q")])), Ok(()));
    assert_eq!(r.pending_path(), Some("/r/p".to_string()));
    assert_eq!(r.recurse(Some(vec![dir("deep"), file("p1", 4)])), Ok(()));
    assert_eq!(r.pending_path(), Some("/r/p/deep".to_string()));
    assert_eq!(r.recurse(Some(vec![file("d1", 5)])), Ok(()));
    assert_eq!(r.pending_path(), Some("/r/q".to_string()));
    assert_eq!(r.recurse(Some(vec![file("q1", 6)])), Ok(()));
    assert_eq!(r.pending_path(), None);
    assert_eq!(r.recurse(None), Ok(()));
    let list = DuruList::new(r.file_list().unwrap());
    assert_eq!(
        summary(&list),
        vec![
            ("d1".to_string(), "/r/p/deep".to_string(), 5),
            ("p1".to_string(), "/r/p".to_string(), 4),
            ("top".to_string(), "/r".to_string(), 3),
            ("q1".to_string(), "/r/q".to_string(), 6),
        ]
    );
}

#[test]
fn record_count_matches_leaves() {
    let mut r = root("/r");
    assert_eq!(r.recurse(Some(vec![dir("a"), file("f", 1), dir("b")])), Ok(()));
    assert_eq!(r.recurse(Some(vec![dir("aa"), file("g", 2)])), Ok(()));
    assert_eq!(r.recurse(Some(vec![file("h", 3), file("i", 4)])), Ok(()));
    assert_eq!(r.recurse(Some(vec![])), Ok(()));
    assert_eq!(r.pending_path(), None);
    assert_eq!(r.file_list().unwrap().len(), 4);
}

#[test]
fn nested_root_fails_flattening() {
    let inner = Node::Root { children: Some(vec![]), path: "/x".to_string() };
    let mut r = Node::Root {
        children: Some(vec![
            Node::File { name: "a".to_string(), path: "/r".to_string(), size: 1 },
            inner,
        ]),
        path: "/r".to_string(),
    };
    assert_eq!(r.file_list().unwrap_err(), DuruError::RootCantBeChild);
    let deep = Node::Dir {
        name: "d".to_string(),
        path: "/r/d".to_string(),
        size: None,
        children: Some(vec![Node::Root { children: None, path: "/y".to_string() }]),
    };
    let mut r2 = Node::Root { children: Some(vec![deep]), path: "/r".to_string() };
    assert_eq!(r2.file_list().unwrap_err(), DuruError::RootCantBeChild);
}

#[test]
fn file_list_errors() {
    let mut r = root("/r");
    assert_eq!(r.file_list().unwrap_err(), DuruError::NoChildren);
    let mut d = Node::Dir { name: "d".to_string(), path: "/d".to_string(), size: None, children: Some(vec![]) };
    assert_eq!(d.file_list().unwrap_err(), DuruError::NotRoot);
    let mut f = Node::File { name: "f".to_string(), path: "/d".to_string(), size: 1 };
    assert_eq!(f.file_list().unwrap_err(), DuruError::NotRoot);
}

#[test]
fn from_node_takes_files_only() {
    let f = DuruFile::from_node(Node::File { name: "f".to_string(), path: "/d".to_string(), size: 9 }).unwrap();
    assert_eq!((f.name().as_str(), f.path().as_str(), f.size()), ("f", "/d", 9));
    assert_eq!(DuruFile::from_node(root("/r")).unwrap_err(), DuruError::NotAFile);
    let d = Node::Dir { name: "d".to_string(), path: "/d".to_string(), size: None, children: None };
    assert_eq!(DuruFile::from_node(d).unwrap_err(), DuruError::NotAFile);
}

#[test]
fn create_nodes_follows_the_listing() {
    assert!(Node::create_nodes(&"/r".to_string(), None).is_none());
    let c = Node::create_nodes(&"/r".to_string(), Some(vec![file("a", 1), dir("b")])).unwrap();
    assert_eq!(c.len(), 2);
    let c2 = Node::to_nodes(vec![dir("z")], &"/".to_string());
    match &c2[0] {
        Node::Dir { path, .. } => assert_eq!(path, "/z"),
        _ => panic!("expected a directory"),
    }
}

#[test]
fn join_path_puts_one_separator() {
    let j = |p: &str, n: &str| join_path(&p.to_string(), &n.to_string());
    assert_eq!(j("/r", "a"), "/r/a");
    assert_eq!(j("/r/", "a"), "/r/a");
    assert_eq!(j("", "a"), "a");
    assert_eq!(j("rel/dir", "é"), "rel/dir/é");
}
