use doorstop_rs::doorstop::document::{
    DocumentConfig, DocumentFile, DocumentSettings, FileContent, Item, ItemFile,
};
use doorstop_rs::doorstop::document_tree::{
    build_doc_tree, build_doctree_index, find_document_yml, DocumentTree, LoadError, LoadErrorKind,
};
use doorstop_rs::doorstop::file::DirEntry;

fn item_file(dir: &str, name: &str, level: &str) -> ItemFile {
    ItemFile {
        path: format!("{}/{}", dir, name),
        file_name: Some(name.to_string()),
        content: FileContent::Parsed(Item {
            id: None,
            active: Some(true),
            derived: Some(false),
            header: None,
            level: Some(level.to_string()),
            normative: Some(true),
            reviewed: None,
            text: None,
        }),
    }
}

fn descriptor(dir: &str, prefix: &str, parent: Option<&str>, items: usize) -> DocumentFile {
    let mut item_files = Vec::new();
    for n in 1..=items {
        item_files.push(item_file(dir, &format!("{}{:03}.yml", prefix, n), &format!("1.{}", n)));
    }
    DocumentFile {
        path: format!("{}/.doorstop.yml", dir),
        content: FileContent::Parsed(DocumentConfig {
            settings: DocumentSettings {
                digits: 3,
                parent: parent.map(|p| p.to_string()),
                prefix: prefix.to_string(),
                sep: String::new(),
            },
            attributes: None,
        }),
        item_files,
    }
}

/// The three documents under `resources/reqs`.
fn reqs() -> Vec<DocumentFile> {
    vec![
        descriptor("resources/reqs", "REQ", None, 18),
        descriptor("resources/reqs/tutorial", "TUT", Some("REQ"), 4),
        descriptor("resources/reqs/ext", "EXT", Some("REQ"), 2),
    ]
}

fn entry(path: &str, name: &str, is_dir: bool) -> DirEntry {
    DirEntry {
        path: path.to_string(),
        file_name: Some(name.to_string()),
        is_dir,
        is_file: !is_dir,
    }
}

fn prefixes(tree: &doorstop_rs::doorstop::document_tree::TreeHandle, nodes: &[usize]) -> Vec<String> {
    nodes.iter().map(|n| tree.node(*n).unwrap().document.config.settings.prefix.clone()).collect()
}

#[test]
fn test_find_document_yml() {
    let entries = vec![
        entry("resources/reqs", "reqs", true),
        entry("resources/reqs/.doorstop.yml", ".doorstop.yml", false),
        entry("resources/reqs/REQ001.yml", "REQ001.yml", false),
        entry("resources/reqs/tutorial", "tutorial", true),
        entry("resources/reqs/tutorial/.doorstop.yml", ".doorstop.yml", false),
        entry("resources/reqs/tutorial/TUT001.yml", "TUT001.yml", false),
        entry("resources/reqs/ext", "ext", true),
        entry("resources/reqs/ext/.doorstop.yml", ".doorstop.yml", false),
    ];
    let ymls = find_document_yml(&entries);
    assert_eq!(3, ymls.len());
}

#[test]
fn document_tree_test_build_tree() {
    let document_tree = DocumentTree::load("resources/reqs", reqs()).unwrap();
    let document_tree = document_tree.root_node();

    assert_eq!(
        String::from("REQ"),
        document_tree.document.config.settings.prefix,
        "testing REQ is the root prefix"
    );

    assert_eq!(2, document_tree.children.len(), "Wrong amount of children");
}

#[test]
fn get_document_by_index() {
    let document_tree = DocumentTree::load("resources/reqs", reqs()).unwrap();

    let doc = document_tree.get("TUT");
    assert_eq!(
        String::from("TUT"),
        doc.unwrap().document.config.settings.prefix,
        "testing REQ is the root prefix"
    );
}

#[test]
fn test_err_build_tree() {
    let document_tree = DocumentTree::load("nonexistent-resources/reqs", Vec::new());
    assert!(document_tree.is_err());
}

#[test]
fn descriptors_are_found_in_the_order_of_the_walk() {
    let entries = vec![
        entry("a/.doorstop.yml", ".doorstop.yml", false),
        entry("a/.doorstop.yaml", ".doorstop.yaml", false),
        entry("a/doorstop.yml", "doorstop.yml", false),
        entry("a/b/.doorstop.yml", ".doorstop.yml", true),
        DirEntry { path: "a/c".to_string(), file_name: None, is_dir: false, is_file: true },
        entry("a/d/.doorstop.yml", ".doorstop.yml", false),
    ];
    assert_eq!(
        find_document_yml(&entries),
        vec!["a/.doorstop.yml", "a/b/.doorstop.yml", "a/d/.doorstop.yml"]
    );
    assert!(find_document_yml(&Vec::new()).is_empty());
}

#[test]
fn root_with_two_children() {
    let tree = DocumentTree::load("resources/reqs", reqs()).unwrap();
    assert_eq!(tree.len(), 3);
    assert_eq!(tree.root(), 0);
    let root = tree.root_node();
    assert_eq!(root.document.config.settings.parent, None);
    assert_eq!(prefixes(&tree, &root.children), vec!["TUT", "EXT"]);
    for prefix in ["REQ", "TUT", "EXT"] {
        let at = tree.position(prefix).unwrap();
        let node = tree.node(at).unwrap();
        assert_eq!(node.document.config.settings.prefix, prefix);
        assert_eq!(tree.get(prefix).unwrap().document.root_path, node.document.root_path);
        assert!(at == tree.root() || root.children.contains(&at));
    }
    assert!(tree.get("TUT").unwrap().children.is_empty());
    assert_eq!(tree.get("TUT").unwrap().document.items.len(), 4);
    assert!(tree.get("NONE").is_none());
    assert!(tree.position("").is_none());
    assert!(tree.node(3).is_none());
}

#[test]
fn root_need_not_come_first() {
    let files = vec![
        descriptor("r/low", "LLT", Some("HLT"), 1),
        descriptor("r/high", "HLT", Some("REQ"), 1),
        descriptor("r", "REQ", None, 1),
        descriptor("r/tut", "TUT", Some("REQ"), 0),
        descriptor("r/other", "OTH", Some("HLT"), 0),
    ];
    let tree = DocumentTree::load("r", files).unwrap();
    assert_eq!(tree.root(), 2);
    assert_eq!(tree.root_node().document.config.settings.prefix, "REQ");
    assert_eq!(prefixes(&tree, &tree.root_node().children), vec!["HLT", "TUT"]);
    assert_eq!(prefixes(&tree, &tree.get("HLT").unwrap().children), vec!["LLT", "OTH"]);
    assert!(tree.get("LLT").unwrap().children.is_empty());
}

#[test]
fn single_document_is_the_root() {
    let tree = DocumentTree::load("r", vec![descriptor("r", "REQ", None, 2)]).unwrap();
    assert_eq!(tree.len(), 1);
    assert_eq!(tree.root(), 0);
    assert!(tree.root_node().children.is_empty());
}

fn error_of(path: &str, files: Vec<DocumentFile>) -> LoadError {
    DocumentTree::load(path, files).unwrap_err()
}

#[test]
fn no_descriptor_is_a_discovery_error() {
    let e = error_of("some/where", Vec::new());
    assert_eq!(e.kind, LoadErrorKind::DiscoveryError);
    assert_eq!(e.subject, "some/where");
    assert_eq!(e.message(), "No documents found in some/where");
}

#[test]
fn unknown_parent_is_a_dangling_parent_error() {
    let files = vec![
        descriptor("r", "REQ", None, 1),
        descriptor("r/tut", "TUT", Some("REQS"), 1),
        descriptor("r/ext", "EXT", Some("NONE"), 1),
    ];
    let e = error_of("r", files);
    assert_eq!(e.kind, LoadErrorKind::DanglingParentError);
    assert_eq!(e.subject, "r/tut/.doorstop.yml");
    assert_eq!(e.message(), "Unknown parent named by r/tut/.doorstop.yml");
}

#[test]
fn own_prefix_as_parent_is_a_cyclic_parent_error() {
    let files = vec![descriptor("r", "REQ", None, 1), descriptor("r/tut", "TUT", Some("TUT"), 1)];
    let e = error_of("r", files);
    assert_eq!(e.kind, LoadErrorKind::CyclicParentError);
    assert_eq!(e.subject, "r/tut/.doorstop.yml");
    assert_eq!(e.message(), "Own prefix named as parent by r/tut/.doorstop.yml");
}

#[test]
fn first_wrong_parent_decides_the_error() {
    let files = vec![
        descriptor("r/a", "A", Some("A"), 0),
        descriptor("r/b", "B", Some("NONE"), 0),
    ];
    assert_eq!(error_of("r", files).kind, LoadErrorKind::CyclicParentError);
    let files = vec![
        descriptor("r/b", "B", Some("NONE"), 0),
        descriptor("r/a", "A", Some("A"), 0),
    ];
    assert_eq!(error_of("r", files).kind, LoadErrorKind::DanglingParentError);
}

#[test]
fn second_root_is_an_ambiguous_root_error() {
    let files = vec![
        descriptor("r/a", "A", None, 0),
        descriptor("r/b", "B", Some("A"), 0),
        descriptor("r/c", "C", None, 0),
        descriptor("r/d", "D", None, 0),
    ];
    let e = error_of("r", files);
    assert_eq!(e.kind, LoadErrorKind::AmbiguousRootError);
    assert_eq!(e.subject, "r/c/.doorstop.yml");
    assert_eq!(e.message(), "Second document without a parent: r/c/.doorstop.yml");
}

#[test]
fn wrong_parent_comes_before_a_second_root() {
    let files = vec![
        descriptor("r/a", "A", None, 0),
        descriptor("r/c", "C", None, 0),
        descriptor("r/b", "B", Some("NONE"), 0),
    ];
    assert_eq!(error_of("r", files).kind, LoadErrorKind::DanglingParentError);
}

#[test]
fn ring_of_parents_is_a_missing_root_error() {
    let files = vec![descriptor("r/a", "A", Some("B"), 0), descriptor("r/b", "B", Some("A"), 0)];
    let e = error_of("r", files);
    assert_eq!(e.kind, LoadErrorKind::MissingRootError);
    assert_eq!(e.subject, "r");
    assert_eq!(e.message(), "No document without a parent in r");
}

#[test]
fn ring_beside_the_root_is_left_alone() {
    let files = vec![
        descriptor("r", "REQ", None, 0),
        descriptor("r/a", "A", Some("B"), 0),
        descriptor("r/b", "B", Some("A"), 0),
    ];
    let tree = DocumentTree::load("r", files).unwrap();
    assert!(tree.root_node().children.is_empty());
    assert_eq!(prefixes(&tree, &tree.get("A").unwrap().children), vec!["B"]);
    assert_eq!(prefixes(&tree, &tree.get("B").unwrap().children), vec!["A"]);
}

#[test]
fn load_error_comes_before_everything_else() {
    let files = vec![
        descriptor("r/a", "A", Some("NONE"), 0),
        DocumentFile {
            path: "r/b/.doorstop.yml".to_string(),
            content: FileContent::Unreadable,
            item_files: Vec::new(),
        },
        DocumentFile {
            path: "r/c/.doorstop.yml".to_string(),
            content: FileContent::Malformed,
            item_files: Vec::new(),
        },
    ];
    let e = error_of("r", files);
    assert_eq!(e.kind, LoadErrorKind::ReadError);
    assert_eq!(e.subject, "r/b/.doorstop.yml");
}

#[test]
fn bad_item_file_stops_the_tree() {
    let mut tut = descriptor("r/tut", "TUT", Some("REQ"), 2);
    tut.item_files.push(ItemFile {
        path: "r/tut/TUT003.yml".to_string(),
        file_name: None,
        content: FileContent::Parsed(Item {
            id: None,
            active: None,
            derived: None,
            header: None,
            level: None,
            normative: None,
            reviewed: None,
            text: None,
        }),
    });
    let e = error_of("r", vec![descriptor("r", "REQ", None, 1), tut]);
    assert_eq!(e.kind, LoadErrorKind::NamingError);
    assert_eq!(e.subject, "r/tut/TUT003.yml");
}

#[test]
fn later_document_takes_the_place_of_its_prefix() {
    let files = vec![
        descriptor("r", "REQ", None, 0),
        descriptor("r/one", "TUT", Some("REQ"), 1),
        descriptor("r/ext", "EXT", Some("TUT"), 0),
        descriptor("r/two", "TUT", Some("REQ"), 2),
    ];
    let tree = DocumentTree::load("r", files).unwrap();
    assert_eq!(tree.len(), 3);
    let tut = tree.get("TUT").unwrap();
    assert_eq!(tut.document.root_path, "r/two/.doorstop.yml");
    assert_eq!(tut.document.items.len(), 2);
    assert_eq!(prefixes(&tree, &tree.root_node().children), vec!["TUT"]);
    assert_eq!(prefixes(&tree, &tut.children), vec!["EXT"]);
}

#[test]
fn later_root_takes_the_place_of_its_prefix() {
    let files = vec![descriptor("r/one", "REQ", None, 0), descriptor("r/two", "REQ", None, 0)];
    let tree = DocumentTree::load("r", files).unwrap();
    assert_eq!(tree.len(), 1);
    assert_eq!(tree.root_node().document.root_path, "r/two/.doorstop.yml");
}

#[test]
fn index_holds_one_node_for_each_prefix() {
    let files = vec![
        descriptor("r", "REQ", None, 0),
        descriptor("r/one", "TUT", Some("REQ"), 0),
        descriptor("r/two", "TUT", Some("NONE"), 0),
    ];
    let nodes = build_doctree_index(files).unwrap();
    assert_eq!(nodes.len(), 2);
    assert_eq!(nodes[0].document.config.settings.prefix, "REQ");
    assert_eq!(nodes[1].document.root_path, "r/two/.doorstop.yml");
    assert!(nodes.iter().all(|n| n.children.is_empty()));
    assert!(build_doctree_index(Vec::new()).unwrap().is_empty());
}

#[test]
fn tree_of_no_documents_has_no_root() {
    let e = build_doc_tree("r", Vec::new()).unwrap_err();
    assert_eq!(e.kind, LoadErrorKind::MissingRootError);
    let tree = build_doc_tree("r", reqs()).unwrap();
    assert_eq!(tree.root_node().children.len(), 2);
}
