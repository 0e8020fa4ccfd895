//! The document tree: every document found under one directory, linked to
//! the parent that it names.

use vstd::prelude::*;
use crate::doorstop::document::{load_document, Document, DocumentFile, DocumentView};
use crate::doorstop::file::{config_paths, is_doorstop_config, path_views, DirEntry};

verus! {

/// Why loading stopped.
#[derive(Debug, Clone, Copy, PartialEq, Eq, Structural)]
pub enum LoadErrorKind {
    /// A file could not be read.
    ReadError,
    /// A file does not hold what was expected of it.
    FormatError,
    /// A path has no file name that an identifier could be taken from.
    NamingError,
    /// No document was found.
    DiscoveryError,
    /// A document names a parent that no document has as its prefix.
    DanglingParentError,
    /// A document names itself as its parent.
    CyclicParentError,
    /// More than one document names no parent.
    AmbiguousRootError,
    /// Every document names a parent.
    MissingRootError,
}

/// An error of loading: its kind, and the path that it is about.
#[derive(Debug)]
pub struct LoadError {
    pub kind: LoadErrorKind,
    pub subject: String,
}

/// A `LoadError` with its subject as a sequence of characters.
pub struct LoadErrorView {
    pub kind: LoadErrorKind,
    pub subject: Seq<char>,
}

impl View for LoadError {
    type V = LoadErrorView;

    open spec fn view(&self) -> LoadErrorView {
        LoadErrorView { kind: self.kind, subject: self.subject@ }
    }
}

impl LoadErrorKind {
    /// The words that a message of this kind begins with.
    pub open spec fn lead(self) -> Seq<char> {
        match self {
            LoadErrorKind::ReadError => "Cannot read "@,
            LoadErrorKind::FormatError => "Unexpected content in "@,
            LoadErrorKind::NamingError => "No usable file name in "@,
            LoadErrorKind::DiscoveryError => "No documents found in "@,
            LoadErrorKind::DanglingParentError => "Unknown parent named by "@,
            LoadErrorKind::CyclicParentError => "Own prefix named as parent by "@,
            LoadErrorKind::AmbiguousRootError => "Second document without a parent: "@,
            LoadErrorKind::MissingRootError => "No document without a parent in "@,
        }
    }

    /// The words that a message of this kind begins with.
    pub fn lead_text(self) -> (text: &'static str)
        ensures
            text@ == self.lead(),
    {
        match self {
            LoadErrorKind::ReadError => "Cannot read ",
            LoadErrorKind::FormatError => "Unexpected content in ",
            LoadErrorKind::NamingError => "No usable file name in ",
            LoadErrorKind::DiscoveryError => "No documents found in ",
            LoadErrorKind::DanglingParentError => "Unknown parent named by ",
            LoadErrorKind::CyclicParentError => "Own prefix named as parent by ",
            LoadErrorKind::AmbiguousRootError => "Second document without a parent: ",
            LoadErrorKind::MissingRootError => "No document without a parent in ",
        }
    }
}

impl LoadError {
    /// An error of the given kind about `subject`.
    pub fn new(kind: LoadErrorKind, subject: &str) -> (e: LoadError)
        ensures
            e@ == (LoadErrorView { kind, subject: subject@ }),
    {
        LoadError { kind, subject: subject.to_owned() }
    }

    /// The message for the user: what went wrong, then the path it went
    /// wrong on.
    pub fn message(&self) -> (msg: String)
        ensures
            msg@ == self.kind.lead() + self.subject@,
    {
        let mut msg = self.kind.lead_text().to_owned();
        msg.append(self.subject.as_str());
        msg
    }
}

/// A node of the tree: a document, and the nodes of the documents that
/// name it as their parent. A node is known by its position among the
/// nodes of the tree.
#[derive(Debug)]
pub struct DocumentTree {
    pub document: Document,
    pub children: Vec<usize>,
}

/// A node as it is seen in contracts.
pub struct NodeView {
    pub document: DocumentView,
    pub children: Seq<usize>,
}

impl View for DocumentTree {
    type V = NodeView;

    open spec fn view(&self) -> NodeView {
        NodeView { document: self.document@, children: self.children@ }
    }
}

/// A tree as it is seen in contracts: its nodes, and the position of the
/// root among them.
pub struct TreeView {
    pub nodes: Seq<NodeView>,
    pub root: int,
}

/// The nodes as they are seen in contracts.
pub open spec fn node_views(nodes: Seq<DocumentTree>) -> Seq<NodeView> {
    nodes.map_values(|node: DocumentTree| node@)
}

/// The document of each node.
pub open spec fn docs_of(nodes: Seq<NodeView>) -> Seq<DocumentView> {
    nodes.map_values(|node: NodeView| node.document)
}

/// A node without children for each document.
pub open spec fn bare_nodes(docs: Seq<DocumentView>) -> Seq<NodeView> {
    docs.map_values(|document: DocumentView| NodeView { document, children: Seq::empty() })
}

/// The documents that the descriptors give, in their order, or the error
/// of the first one that gives none.
pub open spec fn load_documents(files: Seq<DocumentFile>) -> Result<Seq<DocumentView>, LoadErrorView>
    decreases files.len(),
{
    if files.len() == 0 {
        Ok(Seq::empty())
    } else {
        match load_documents(files.drop_last()) {
            Ok(docs) => match load_document(files.last()) {
                Ok(document) => Ok(docs.push(document)),
                Err(e) => Err(e),
            },
            Err(e) => Err(e),
        }
    }
}

/// The position of the first document that has the given prefix.
pub open spec fn prefix_position(docs: Seq<DocumentView>, prefix: Seq<char>) -> Option<int>
    decreases docs.len(),
{
    if docs.len() == 0 {
        None
    } else {
        match prefix_position(docs.drop_last(), prefix) {
            Some(j) => Some(j),
            None => if docs.last().prefix() == prefix {
                Some(docs.len() - 1)
            } else {
                None
            },
        }
    }
}

/// The documents as the index by prefix holds them, put in one after
/// another: a document takes the place of the earlier one with the same
/// prefix, and else the place after the last.
pub open spec fn index_of(docs: Seq<DocumentView>) -> Seq<DocumentView>
    decreases docs.len(),
{
    if docs.len() == 0 {
        Seq::empty()
    } else {
        let earlier = index_of(docs.drop_last());
        match prefix_position(earlier, docs.last().prefix()) {
            Some(j) => earlier.update(j, docs.last()),
            None => earlier.push(docs.last()),
        }
    }
}

/// Whether no two of the documents have the same prefix.
pub open spec fn distinct_prefixes(docs: Seq<DocumentView>) -> bool {
    forall|i: int, j: int|
        0 <= i < j < docs.len() ==> (#[trigger] docs[i]).prefix() != (#[trigger] docs[j]).prefix()
}

/// The nodes of the index by prefix that the descriptors give, none with
/// a child yet, or the error of the first descriptor that gives no
/// document.
pub open spec fn build_index(files: Seq<DocumentFile>) -> Result<Seq<NodeView>, LoadErrorView> {
    match load_documents(files) {
        Ok(docs) => Ok(bare_nodes(index_of(docs))),
        Err(e) => Err(e),
    }
}

/// The outcome of building the index, with the views of what it holds.
pub open spec fn index_result_view(r: Result<Vec<DocumentTree>, LoadError>) -> Result<
    Seq<NodeView>,
    LoadErrorView,
> {
    match r {
        Ok(nodes) => Ok(node_views(nodes@)),
        Err(e) => Err(e@),
    }
}

/// Once the first `i` descriptors end in an error, all of them end in it.
pub proof fn lemma_load_documents_error_stays(files: Seq<DocumentFile>, i: int)
    requires
        0 <= i <= files.len(),
        load_documents(files.take(i)) is Err,
    ensures
        load_documents(files) == load_documents(files.take(i)),
    decreases files.len() - i,
{
    if i < files.len() {
        assert(files.take(i + 1).drop_last() =~= files.take(i));
        lemma_load_documents_error_stays(files, i + 1);
    } else {
        assert(files.take(i) =~= files);
    }
}

/// What `prefix_position` finds is the first document with the prefix,
/// and it finds one whenever there is one.
pub proof fn lemma_prefix_position(docs: Seq<DocumentView>, prefix: Seq<char>)
    ensures
        match prefix_position(docs, prefix) {
            Some(j) => 0 <= j < docs.len() && docs[j].prefix() == prefix && forall|k: int|
                0 <= k < j ==> (#[trigger] docs[k]).prefix() != prefix,
            None => forall|k: int| 0 <= k < docs.len() ==> (#[trigger] docs[k]).prefix() != prefix,
        },
    decreases docs.len(),
{
    if docs.len() > 0 {
        let front = docs.drop_last();
        lemma_prefix_position(front, prefix);
        match prefix_position(front, prefix) {
            Some(j) => {
                assert(front[j] == docs[j]);
                assert forall|k: int| 0 <= k < j implies (#[trigger] docs[k]).prefix() != prefix by {
                    assert(front[k] == docs[k]);
                }
            },
            None => {
                assert forall|k: int| 0 <= k < docs.len() - 1 implies (#[trigger] docs[k]).prefix()
                    != prefix by {
                    assert(front[k] == docs[k]);
                }
            },
        }
    }
}

/// No two documents of the index by prefix have the same prefix.
pub proof fn lemma_index_distinct(docs: Seq<DocumentView>)
    ensures
        distinct_prefixes(index_of(docs)),
    decreases docs.len(),
{
    if docs.len() > 0 {
        let earlier = index_of(docs.drop_last());
        let last = docs.last();
        lemma_index_distinct(docs.drop_last());
        lemma_prefix_position(earlier, last.prefix());
        let index = index_of(docs);
        assert forall|i: int, j: int| 0 <= i < j < index.len() implies (#[trigger] index[i]).prefix()
            != (#[trigger] index[j]).prefix() by {
            match prefix_position(earlier, last.prefix()) {
                Some(at) => {
                    if i != at && j != at {
                        assert(earlier[i].prefix() != earlier[j].prefix());
                    } else if i == at {
                        assert(earlier[i].prefix() != earlier[j].prefix());
                    } else {
                        assert(earlier[i].prefix() != earlier[j].prefix());
                    }
                },
                None => {
                    if j < earlier.len() {
                        assert(earlier[i].prefix() != earlier[j].prefix());
                    } else {
                        assert(earlier[i].prefix() != last.prefix());
                    }
                },
            }
        }
    }
}

/// The position of the first node whose document has the given prefix.
fn find_prefix(nodes: &Vec<DocumentTree>, prefix: &String) -> (r: Option<usize>)
    ensures
        match r {
            Some(j) => prefix_position(docs_of(node_views(nodes@)), prefix@) == Some(j as int),
            None => prefix_position(docs_of(node_views(nodes@)), prefix@) is None,
        },
{
    let ghost docs = docs_of(node_views(nodes@));
    proof {
        lemma_prefix_position(docs, prefix@);
    }
    let mut j: usize = 0;
    while j < nodes.len()
        invariant
            j <= nodes.len(),
            docs == docs_of(node_views(nodes@)),
            forall|k: int| 0 <= k < j ==> (#[trigger] docs[k]).prefix() != prefix@,
        decreases nodes.len() - j,
    {
        assert(docs[j as int].prefix() == nodes[j as int].document.config.settings.prefix@);
        if nodes[j].document.config.settings.prefix.eq(prefix) {
            proof {
                lemma_prefix_position(docs, prefix@);
            }
            return Some(j);
        }
        j = j + 1;
    }
    proof {
        lemma_prefix_position(docs, prefix@);
    }
    None
}

/// The paths of the descriptors among the entries of a walk.
pub fn find_document_yml(entries: &Vec<DirEntry>) -> (paths: Vec<String>)
    ensures
        path_views(paths@) == config_paths(entries@),
{
    let mut paths: Vec<String> = Vec::new();
    let mut i: usize = 0;
    assert(entries@.take(0) =~= Seq::<DirEntry>::empty());
    assert(path_views(paths@) =~= Seq::<Seq<char>>::empty());
    while i < entries.len()
        invariant
            i <= entries.len(),
            path_views(paths@) == config_paths(entries@.take(i as int)),
        decreases entries.len() - i,
    {
        let ghost before = path_views(paths@);
        assert(entries@.take(i + 1).drop_last() =~= entries@.take(i as int));
        if is_doorstop_config(&entries[i]) {
            paths.push(entries[i].path.clone());
            assert(path_views(paths@) =~= before.push(entries[i as int].path@));
        }
        i = i + 1;
    }
    assert(entries@.take(entries.len() as int) =~= entries@);
    paths
}

/// Loads the document of each descriptor and puts it into the index by
/// prefix, where it replaces an earlier document with the same prefix.
pub fn build_doctree_index(files: Vec<DocumentFile>) -> (r: Result<Vec<DocumentTree>, LoadError>)
    ensures
        index_result_view(r) == build_index(files@),
{
    broadcast use vstd::std_specs::vec::axiom_spec_into_iter;

    let ghost all = files@;
    let ghost mut docs: Seq<DocumentView> = Seq::empty();
    let mut nodes: Vec<DocumentTree> = Vec::new();
    assert(all.take(0) =~= Seq::<DocumentFile>::empty());
    assert(node_views(nodes@) =~= bare_nodes(index_of(docs)));
    for file in it: files
        invariant
            it.seq() == all,
            load_documents(all.take(it.index())) == Ok::<Seq<DocumentView>, LoadErrorView>(docs),
            node_views(nodes@) == bare_nodes(index_of(docs)),
    {
        let ghost i = it.index();
        assert(all.take(i + 1).drop_last() =~= all.take(i));
        assert(all.take(i + 1).last() == file);
        match Document::new(file) {
            Ok(document) => {
                let ghost earlier = index_of(docs);
                let ghost before = node_views(nodes@);
                assert(docs_of(before) =~= earlier);
                let slot = find_prefix(&nodes, &document.config.settings.prefix);
                let node = DocumentTree { document, children: Vec::new() };
                let ghost added = node@;
                proof {
                    assert(added.children =~= Seq::<usize>::empty());
                    assert(docs.push(added.document).drop_last() =~= docs);
                    docs = docs.push(added.document);
                    lemma_prefix_position(earlier, added.document.prefix());
                }
                match slot {
                    Some(j) => {
                        nodes.set(j, node);
                        assert(node_views(nodes@) =~= before.update(j as int, added));
                        assert(index_of(docs) == earlier.update(j as int, added.document));
                        assert(bare_nodes(earlier.update(j as int, added.document)) =~= bare_nodes(
                            earlier,
                        ).update(j as int, added));
                    },
                    None => {
                        nodes.push(node);
                        assert(node_views(nodes@) =~= before.push(added));
                        assert(index_of(docs) == earlier.push(added.document));
                        assert(bare_nodes(earlier.push(added.document)) =~= bare_nodes(earlier).push(
                            added,
                        ));
                    },
                }
                assert(node_views(nodes@) =~= bare_nodes(index_of(docs)));
            },
            Err(e) => {
                proof {
                    lemma_load_documents_error_stays(all, i + 1);
                }
                return Err(e);
            },
        }
    }
    assert(all.take(all.len() as int) =~= all);
    Ok(nodes)
}

/// What is wrong with the parent that document `i` names, if anything: it
/// is the document itself, or no document has it as its prefix.
pub open spec fn fault_at(docs: Seq<DocumentView>, i: int) -> Option<LoadErrorKind> {
    match docs[i].parent() {
        Some(parent) => if parent == docs[i].prefix() {
            Some(LoadErrorKind::CyclicParentError)
        } else if prefix_position(docs, parent) is None {
            Some(LoadErrorKind::DanglingParentError)
        } else {
            None
        },
        None => None,
    }
}

/// The error of the first document, from position `from` on, that names a
/// parent with which something is wrong.
pub open spec fn first_fault(docs: Seq<DocumentView>, from: int) -> Option<LoadErrorView>
    decreases docs.len() - from,
{
    if from < 0 || from >= docs.len() {
        None
    } else {
        match fault_at(docs, from) {
            Some(kind) => Some(LoadErrorView { kind, subject: docs[from].root_path }),
            None => first_fault(docs, from + 1),
        }
    }
}

/// The positions, in ascending order, of the documents before position
/// `n` that name no parent.
pub open spec fn roots_upto(docs: Seq<DocumentView>, n: int) -> Seq<usize>
    decreases n,
{
    if n <= 0 {
        Seq::empty()
    } else if docs[n - 1].parent() is None {
        roots_upto(docs, n - 1).push((n - 1) as usize)
    } else {
        roots_upto(docs, n - 1)
    }
}

/// The positions, in ascending order, of the documents before position
/// `n` that name document `j` as their parent.
pub open spec fn children_upto(docs: Seq<DocumentView>, j: int, n: int) -> Seq<usize>
    decreases n,
{
    if n <= 0 {
        Seq::empty()
    } else if docs[n - 1].parent() == Some(docs[j].prefix()) {
        children_upto(docs, j, n - 1).push((n - 1) as usize)
    } else {
        children_upto(docs, j, n - 1)
    }
}

/// The positions of the documents that name no parent.
pub open spec fn roots(docs: Seq<DocumentView>) -> Seq<usize> {
    roots_upto(docs, docs.len() as int)
}

/// The positions of the documents that name document `j` as their parent.
pub open spec fn children_of(docs: Seq<DocumentView>, j: int) -> Seq<usize> {
    children_upto(docs, j, docs.len() as int)
}

/// A node for each document, with the documents that name it as its
/// children.
pub open spec fn linked_nodes(docs: Seq<DocumentView>) -> Seq<NodeView> {
    Seq::new(
        docs.len(),
        |j: int| NodeView { document: docs[j], children: children_of(docs, j) },
    )
}

/// The tree of the documents of an index by prefix, or the error that
/// linking them ends in: that of the first document whose parent is the
/// document itself or does not exist; else that there is no root, or a
/// second one. `path` is where the documents were looked for.
pub open spec fn assemble(path: Seq<char>, docs: Seq<DocumentView>) -> Result<
    TreeView,
    LoadErrorView,
> {
    match first_fault(docs, 0) {
        Some(e) => Err(e),
        None => if roots(docs).len() == 0 {
            Err(LoadErrorView { kind: LoadErrorKind::MissingRootError, subject: path })
        } else if roots(docs).len() > 1 {
            Err(
                LoadErrorView {
                    kind: LoadErrorKind::AmbiguousRootError,
                    subject: docs[roots(docs)[1] as int].root_path,
                },
            )
        } else {
            Ok(TreeView { nodes: linked_nodes(docs), root: roots(docs)[0] as int })
        },
    }
}

/// The tree that the descriptors give, or the error that building it ends
/// in: that of loading, else that of linking.
pub open spec fn build_tree(path: Seq<char>, files: Seq<DocumentFile>) -> Result<
    TreeView,
    LoadErrorView,
> {
    match load_documents(files) {
        Ok(docs) => assemble(path, index_of(docs)),
        Err(e) => Err(e),
    }
}

/// The tree of the descriptors found under `path`, or the error that
/// loading ends in; with no descriptor, that none was found.
pub open spec fn load_tree(path: Seq<char>, files: Seq<DocumentFile>) -> Result<
    TreeView,
    LoadErrorView,
> {
    if files.len() == 0 {
        Err(LoadErrorView { kind: LoadErrorKind::DiscoveryError, subject: path })
    } else {
        build_tree(path, files)
    }
}

impl TreeView {
    /// The documents of the tree, in the order of its nodes.
    pub open spec fn docs(self) -> Seq<DocumentView> {
        docs_of(self.nodes)
    }

    /// What holds of every tree: no two documents have the same prefix;
    /// every parent that is named exists, and is not the document that
    /// names it; the root is the one document that names no parent; and the
    /// children of a node are the documents that name it as their parent,
    /// in the order of the nodes.
    pub open spec fn wf(self) -> bool {
        &&& 0 <= self.root < self.nodes.len() <= usize::MAX
        &&& distinct_prefixes(self.docs())
        &&& first_fault(self.docs(), 0) is None
        &&& roots(self.docs()) == seq![self.root as usize]
        &&& self.nodes == linked_nodes(self.docs())
    }
}

/// Which positions `children_upto` holds: those before `n` of the
/// documents that name document `j` as their parent, each once, in
/// ascending order.
pub proof fn lemma_children_upto(docs: Seq<DocumentView>, j: int, n: int)
    requires
        0 <= n <= docs.len() <= usize::MAX,
    ensures
        forall|x: usize| #[trigger]
            children_upto(docs, j, n).contains(x) <==> x < n && docs[x as int].parent() == Some(
                docs[j].prefix(),
            ),
        forall|a: int, b: int|
            0 <= a < b < children_upto(docs, j, n).len() ==> children_upto(docs, j, n)[a]
                < children_upto(docs, j, n)[b],
    decreases n,
{
    if n > 0 {
        let earlier = children_upto(docs, j, n - 1);
        let now = children_upto(docs, j, n);
        let last = (n - 1) as usize;
        lemma_children_upto(docs, j, n - 1);
        if docs[n - 1].parent() == Some(docs[j].prefix()) {
            assert(now == earlier.push(last));
            assert forall|x: usize| #[trigger] now.contains(x) <==> x < n && docs[x as int].parent()
                == Some(docs[j].prefix()) by {
                if now.contains(x) {
                    let a = choose|a: int| 0 <= a < now.len() && now[a] == x;
                    if a < earlier.len() {
                        assert(earlier[a] == x);
                        assert(earlier.contains(x));
                    }
                }
                if x < n && docs[x as int].parent() == Some(docs[j].prefix()) {
                    if x == last {
                        assert(now[now.len() - 1] == x);
                    } else {
                        assert(earlier.contains(x));
                        let a = choose|a: int| 0 <= a < earlier.len() && earlier[a] == x;
                        assert(now[a] == x);
                    }
                }
            }
            assert forall|a: int, b: int| 0 <= a < b < now.len() implies now[a] < now[b] by {
                assert(earlier.contains(earlier[a]));
            }
        } else {
            assert forall|x: usize| #[trigger] now.contains(x) <==> x < n && docs[x as int].parent()
                == Some(docs[j].prefix()) by {
                assert(earlier.contains(x) <==> x < n - 1 && docs[x as int].parent() == Some(
                    docs[j].prefix(),
                ));
            }
        }
    }
}

/// Which positions `roots_upto` holds: those before `n` of the documents
/// that name no parent, each once, in ascending order.
pub proof fn lemma_roots_upto(docs: Seq<DocumentView>, n: int)
    requires
        0 <= n <= docs.len() <= usize::MAX,
    ensures
        forall|x: usize| #[trigger]
            roots_upto(docs, n).contains(x) <==> x < n && docs[x as int].parent() is None,
        forall|a: int, b: int|
            0 <= a < b < roots_upto(docs, n).len() ==> roots_upto(docs, n)[a] < roots_upto(docs, n)[b],
    decreases n,
{
    if n > 0 {
        let earlier = roots_upto(docs, n - 1);
        let now = roots_upto(docs, n);
        let last = (n - 1) as usize;
        lemma_roots_upto(docs, n - 1);
        if docs[n - 1].parent() is None {
            assert(now == earlier.push(last));
            assert forall|x: usize| #[trigger] now.contains(x) <==> x < n && docs[x as int].parent()
                is None by {
                if now.contains(x) {
                    let a = choose|a: int| 0 <= a < now.len() && now[a] == x;
                    if a < earlier.len() {
                        assert(earlier[a] == x);
                        assert(earlier.contains(x));
                    }
                }
                if x < n && docs[x as int].parent() is None {
                    if x == last {
                        assert(now[now.len() - 1] == x);
                    } else {
                        assert(earlier.contains(x));
                        let a = choose|a: int| 0 <= a < earlier.len() && earlier[a] == x;
                        assert(now[a] == x);
                    }
                }
            }
            assert forall|a: int, b: int| 0 <= a < b < now.len() implies now[a] < now[b] by {
                assert(earlier.contains(earlier[a]));
            }
        } else {
            assert forall|x: usize| #[trigger] now.contains(x) <==> x < n && docs[x as int].parent()
                is None by {
                assert(earlier.contains(x) <==> x < n - 1 && docs[x as int].parent() is None);
            }
        }
    }
}

/// Where no document from `from` on names a wrong parent, none of them
/// does.
pub proof fn lemma_no_fault(docs: Seq<DocumentView>, from: int)
    requires
        0 <= from,
        first_fault(docs, from) is None,
    ensures
        forall|i: int| from <= i < docs.len() ==> fault_at(docs, i) is None,
    decreases docs.len() - from,
{
    if from < docs.len() {
        lemma_no_fault(docs, from + 1);
    }
}

/// Where document `i` names a wrong parent, the first error from position
/// `from` on is one of a wrong parent; it is that of document `i` where no
/// document between the two names a wrong parent.
pub proof fn lemma_first_fault(docs: Seq<DocumentView>, from: int, i: int)
    requires
        0 <= from <= i < docs.len(),
        fault_at(docs, i) is Some,
    ensures
        first_fault(docs, from) matches Some(e) && (e.kind == LoadErrorKind::DanglingParentError
            || e.kind == LoadErrorKind::CyclicParentError),
        (forall|k: int| from <= k < i ==> fault_at(docs, k) is None) ==> first_fault(docs, from)
            == Some(LoadErrorView { kind: fault_at(docs, i)->0, subject: docs[i].root_path }),
    decreases i - from,
{
    if from < i {
        lemma_first_fault(docs, from + 1, i);
    }
}

/// Documents of which one names a parent that none of them has as its
/// prefix, or names itself, are not linked into a tree: linking ends in
/// the error of a dangling or a cyclic parent, and in that of this
/// document where it is the first to name a wrong parent.
pub proof fn lemma_wrong_parent_fails(path: Seq<char>, docs: Seq<DocumentView>, i: int)
    requires
        0 <= i < docs.len(),
        fault_at(docs, i) is Some,
    ensures
        assemble(path, docs) matches Err(e) && (e.kind == LoadErrorKind::DanglingParentError
            || e.kind == LoadErrorKind::CyclicParentError),
        (forall|k: int| 0 <= k < i ==> fault_at(docs, k) is None) ==> assemble(path, docs) == Err::<
            TreeView,
            LoadErrorView,
        >(LoadErrorView { kind: fault_at(docs, i)->0, subject: docs[i].root_path }),
{
    lemma_first_fault(docs, 0, i);
}

/// The index by prefix has no more documents than were put into it, and
/// as many documents were loaded as there are descriptors.
pub proof fn lemma_index_len(files: Seq<DocumentFile>)
    ensures
        load_documents(files) matches Ok(docs) ==> docs.len() == files.len() && index_of(docs).len()
            <= docs.len(),
    decreases files.len(),
{
    if files.len() > 0 {
        lemma_index_len(files.drop_last());
        if let Ok(docs) = load_documents(files) {
            let earlier = load_documents(files.drop_last())->Ok_0;
            assert(docs.drop_last() =~= earlier);
            lemma_prefix_position(index_of(earlier), docs.last().prefix());
        }
    }
}

/// What holds of a tree: the root is the one node whose document names
/// no parent; the index by prefix leads to each node by the prefix of its
/// document; a node is a child of another one exactly when its document
/// names the other's prefix as its parent, and then it stands among the
/// children once; and every node but the root is a child of a node other
/// than itself.
pub proof fn lemma_tree_structure(tree: TreeView)
    requires
        tree.wf(),
    ensures
        forall|i: int|
            0 <= i < tree.nodes.len() ==> ((#[trigger] tree.docs()[i]).parent() is None <==> i
                == tree.root),
        forall|i: int|
            0 <= i < tree.nodes.len() ==> prefix_position(
                tree.docs(),
                (#[trigger] tree.docs()[i]).prefix(),
            ) == Some(i),
        forall|i: int, j: int|
            0 <= i < tree.nodes.len() && 0 <= j < tree.nodes.len() ==> ((#[trigger] tree.nodes[j]).children.contains(
                i as usize,
            ) <==> (#[trigger] tree.docs()[i]).parent() == Some(tree.docs()[j].prefix())),
        forall|j: int, a: int, b: int|
            0 <= j < tree.nodes.len() && 0 <= a < b < tree.nodes[j].children.len()
                ==> #[trigger] tree.nodes[j].children[a] < #[trigger] tree.nodes[j].children[b],
        forall|i: int|
            0 <= i < tree.nodes.len() && i != tree.root ==> ({
                &&& (#[trigger] tree.docs()[i]).parent() matches Some(parent)
                &&& prefix_position(tree.docs(), parent) matches Some(j)
                &&& 0 <= j < tree.nodes.len()
                &&& j != i
                &&& tree.nodes[j].children.contains(i as usize)
            }),
{
    let docs = tree.docs();
    let n = tree.nodes.len() as int;
    assert(docs.len() == n);
    lemma_roots_upto(docs, n);
    lemma_no_fault(docs, 0);
    assert forall|i: int| 0 <= i < n implies ((#[trigger] docs[i]).parent() is None <==> i
        == tree.root) by {
        let rs = roots(docs);
        assert(rs[0] == tree.root as usize);
        if docs[i].parent() is None {
            assert(rs.contains(i as usize));
            let a = choose|a: int| 0 <= a < rs.len() && rs[a] == i as usize;
        }
        if i == tree.root {
            assert(rs.contains(i as usize));
        }
    }
    assert forall|i: int| 0 <= i < n implies prefix_position(docs, (#[trigger] docs[i]).prefix())
        == Some(i) by {
        lemma_prefix_position(docs, docs[i].prefix());
        let at = prefix_position(docs, docs[i].prefix())->0;
        if at < i {
            assert(docs[at].prefix() != docs[i].prefix());
        }
    }
    assert forall|i: int, j: int| 0 <= i < n && 0 <= j < n implies ((#[trigger] tree.nodes[j]).children.contains(
        i as usize,
    ) <==> (#[trigger] docs[i]).parent() == Some(docs[j].prefix())) by {
        lemma_children_upto(docs, j, n);
        assert(tree.nodes[j].children == children_of(docs, j));
    }
    assert forall|j: int, a: int, b: int|
        0 <= j < n && 0 <= a < b < tree.nodes[j].children.len() implies #[trigger] tree.nodes[j].children[a]
        < #[trigger] tree.nodes[j].children[b] by {
        lemma_children_upto(docs, j, n);
        assert(tree.nodes[j].children == children_of(docs, j));
    }
    assert forall|i: int| 0 <= i < n && i != tree.root implies ({
        &&& (#[trigger] docs[i]).parent() matches Some(parent)
        &&& prefix_position(docs, parent) matches Some(j)
        &&& 0 <= j < n
        &&& j != i
        &&& tree.nodes[j].children.contains(i as usize)
    }) by {
        assert(docs[i].parent() is Some);
        let parent = docs[i].parent()->0;
        assert(fault_at(docs, i) is None);
        lemma_prefix_position(docs, parent);
        let j = prefix_position(docs, parent)->0;
        lemma_children_upto(docs, j, n);
        assert(tree.nodes[j].children == children_of(docs, j));
        assert(tree.nodes[j].children.contains(i as usize));
    }
}

/// The tree that building gives has all that holds of a tree.
pub proof fn lemma_built_tree_is_a_tree(path: Seq<char>, files: Seq<DocumentFile>)
    requires
        files.len() <= usize::MAX,
    ensures
        build_tree(path, files) matches Ok(tree) ==> tree.wf(),
        load_tree(path, files) matches Ok(tree) ==> tree.wf(),
{
    if let Ok(tree) = build_tree(path, files) {
        let loaded = load_documents(files)->Ok_0;
        let docs = index_of(loaded);
        lemma_index_len(files);
        lemma_index_distinct(loaded);
        lemma_roots_upto(docs, docs.len() as int);
        assert(docs_of(linked_nodes(docs)) =~= docs);
        let rs = roots(docs);
        assert(rs =~= seq![rs[0]]);
        assert(rs.contains(rs[0]));
    }
}

/// The documents of a tree, in an index by prefix, each with its place in
/// the tree.
#[derive(Debug)]
pub struct TreeHandle {
    nodes: Vec<DocumentTree>,
    root: usize,
}

impl View for TreeHandle {
    type V = TreeView;

    closed spec fn view(&self) -> TreeView {
        TreeView { nodes: node_views(self.nodes@), root: self.root as int }
    }
}

/// The outcome of building a tree, with the views of what it holds.
pub open spec fn tree_result_view(r: Result<TreeHandle, LoadError>) -> Result<
    TreeView,
    LoadErrorView,
> {
    match r {
        Ok(tree) => Ok(tree@),
        Err(e) => Err(e@),
    }
}

/// What the index by prefix says of the parent that a document names.
enum ParentSlot {
    /// The document names no parent.
    Root,
    /// No document has the prefix that the document names.
    Missing,
    /// The document at this position has the prefix that the document names.
    Found(usize),
}

/// Looks up the parent that the document of node `i` names.
fn parent_slot(nodes: &Vec<DocumentTree>, i: usize) -> (slot: ParentSlot)
    requires
        i < nodes.len(),
    ensures
        match slot {
            ParentSlot::Root => docs_of(node_views(nodes@))[i as int].parent() is None,
            ParentSlot::Missing => docs_of(node_views(nodes@))[i as int].parent() matches Some(p)
                && prefix_position(docs_of(node_views(nodes@)), p) is None,
            ParentSlot::Found(j) => docs_of(node_views(nodes@))[i as int].parent() matches Some(p)
                && prefix_position(docs_of(node_views(nodes@)), p) == Some(j as int),
        },
{
    match &nodes[i].document.config.settings.parent {
        None => ParentSlot::Root,
        Some(parent) => match find_prefix(nodes, parent) {
            None => ParentSlot::Missing,
            Some(j) => ParentSlot::Found(j),
        },
    }
}

/// Links the documents of the descriptors into one tree.
pub fn build_doc_tree(path: &str, files: Vec<DocumentFile>) -> (r: Result<TreeHandle, LoadError>)
    ensures
        tree_result_view(r) == build_tree(path@, files@),
        r matches Ok(tree) ==> tree@.wf(),
{
    let ghost loaded = load_documents(files@);
    let ghost goal = build_tree(path@, files@);
    let mut nodes = match build_doctree_index(files) {
        Ok(nodes) => nodes,
        Err(e) => {
            return Err(e);
        },
    };
    let ghost docs = docs_of(node_views(nodes@));
    proof {
        lemma_index_distinct(loaded->Ok_0);
        assert(docs =~= index_of(loaded->Ok_0));
        assert forall|j: int| 0 <= j < nodes.len() implies (#[trigger] nodes[j]).children@
            == children_upto(docs, j, 0) by {
            assert(node_views(nodes@)[j] == nodes[j]@);
            assert(bare_nodes(docs)[j].children == Seq::<usize>::empty());
        }
    }
    let n: usize = nodes.len();
    let mut first: Option<usize> = None;
    let mut second: Option<usize> = None;
    let mut i: usize = 0;
    while i < n
        invariant
            i <= n,
            n == nodes.len(),
            goal == build_tree(path@, files@),
            goal == assemble(path@, docs),
            docs_of(node_views(nodes@)) == docs,
            distinct_prefixes(docs),
            first_fault(docs, 0) == first_fault(docs, i as int),
            forall|j: int| 0 <= j < n ==> (#[trigger] nodes[j]).children@ == children_upto(docs, j, i as int),
            first is None <==> roots_upto(docs, i as int).len() == 0,
            second is None <==> roots_upto(docs, i as int).len() <= 1,
            first matches Some(f) ==> f < n && roots_upto(docs, i as int)[0] == f,
            second matches Some(s) ==> s < n && roots_upto(docs, i as int)[1] == s,
        decreases n - i,
    {
        let ghost before = nodes@;
        assert(docs[i as int] == nodes[i as int].document@);
        match parent_slot(&nodes, i) {
            ParentSlot::Root => {
                if first.is_none() {
                    first = Some(i);
                } else if second.is_none() {
                    second = Some(i);
                }
            },
            ParentSlot::Missing => {
                proof {
                    lemma_prefix_position(docs, docs[i as int].parent()->0);
                    assert(docs[i as int].prefix() != docs[i as int].parent()->0);
                    assert(fault_at(docs, i as int) == Some(LoadErrorKind::DanglingParentError));
                }
                return Err(
                    LoadError::new(
                        LoadErrorKind::DanglingParentError,
                        nodes[i].document.root_path.as_str(),
                    ),
                );
            },
            ParentSlot::Found(j) => {
                proof {
                    lemma_prefix_position(docs, docs[i as int].parent()->0);
                }
                if j == i {
                    assert(fault_at(docs, i as int) == Some(LoadErrorKind::CyclicParentError));
                    return Err(
                        LoadError::new(
                            LoadErrorKind::CyclicParentError,
                            nodes[i].document.root_path.as_str(),
                        ),
                    );
                }
                assert(fault_at(docs, i as int) is None) by {
                    if j < i {
                        assert(docs[j as int].prefix() != docs[i as int].prefix());
                    } else {
                        assert(docs[i as int].prefix() != docs[j as int].prefix());
                    }
                }
                nodes[j].add_child(i);
                proof {
                    assert(docs_of(node_views(nodes@)) =~= docs);
                    assert forall|k: int| 0 <= k < n implies (#[trigger] nodes[k]).children@
                        == children_upto(docs, k, i + 1) by {
                        if k != j {
                            assert(nodes[k] == before[k]);
                            if j < k {
                                assert(docs[j as int].prefix() != docs[k].prefix());
                            } else {
                                assert(docs[k].prefix() != docs[j as int].prefix());
                            }
                        }
                    }
                }
            },
        }
        i = i + 1;
    }
    match first {
        None => Err(LoadError::new(LoadErrorKind::MissingRootError, path)),
        Some(root) => match second {
            Some(other) => Err(
                LoadError::new(
                    LoadErrorKind::AmbiguousRootError,
                    nodes[other].document.root_path.as_str(),
                ),
            ),
            None => {
                proof {
                    assert(roots(docs) =~= seq![root]);
                    assert(node_views(nodes@) =~= linked_nodes(docs));
                }
                Ok(TreeHandle { nodes, root })
            },
        },
    }
}

impl DocumentTree {
    /// Adds the node at position `child` as the last child.
    fn add_child(&mut self, child: usize)
        ensures
            final(self).document == old(self).document,
            final(self).children@ == old(self).children@.push(child),
    {
        self.children.push(child);
    }

    /// Makes the tree of the documents whose descriptors were found under
    /// `path`.
    pub fn load(path: &str, files: Vec<DocumentFile>) -> (r: Result<TreeHandle, LoadError>)
        ensures
            tree_result_view(r) == load_tree(path@, files@),
            r matches Ok(tree) ==> tree@.wf(),
    {
        if files.len() == 0 {
            return Err(LoadError::new(LoadErrorKind::DiscoveryError, path));
        }
        build_doc_tree(path, files)
    }
}

impl TreeHandle {
    #[verifier::type_invariant]
    closed spec fn inv(self) -> bool {
        self.root < self.nodes.len() && self@.wf()
    }

    /// The number of nodes.
    pub fn len(&self) -> (n: usize)
        ensures
            n == self@.nodes.len(),
            self@.wf(),
    {
        proof {
            use_type_invariant(self);
        }
        self.nodes.len()
    }

    /// The position of the root.
    pub fn root(&self) -> (root: usize)
        ensures
            root == self@.root,
            self@.wf(),
    {
        proof {
            use_type_invariant(self);
        }
        self.root
    }

    /// The node of the root.
    pub fn root_node(&self) -> (node: &DocumentTree)
        ensures
            node@ == self@.nodes[self@.root],
            self@.wf(),
    {
        proof {
            use_type_invariant(self);
        }
        &self.nodes[self.root]
    }

    /// The node at position `at`, if there is one.
    pub fn node(&self, at: usize) -> (r: Option<&DocumentTree>)
        ensures
            match r {
                Some(node) => at < self@.nodes.len() && node@ == self@.nodes[at as int],
                None => at >= self@.nodes.len(),
            },
    {
        if at < self.nodes.len() {
            Some(&self.nodes[at])
        } else {
            None
        }
    }

    /// The position of the node whose document has the given prefix.
    pub fn position(&self, prefix: &str) -> (r: Option<usize>)
        ensures
            match r {
                Some(j) => prefix_position(self@.docs(), prefix@) == Some(j as int) && j
                    < self@.nodes.len(),
                None => prefix_position(self@.docs(), prefix@) is None,
            },
    {
        let wanted = prefix.to_owned();
        proof {
            lemma_prefix_position(self@.docs(), prefix@);
        }
        find_prefix(&self.nodes, &wanted)
    }

    /// The node whose document has the given prefix.
    pub fn get(&self, prefix: &str) -> (r: Option<&DocumentTree>)
        ensures
            match r {
                Some(node) => prefix_position(self@.docs(), prefix@) matches Some(j) && node@
                    == self@.nodes[j],
                None => prefix_position(self@.docs(), prefix@) is None,
            },
    {
        match self.position(prefix) {
            Some(j) => Some(&self.nodes[j]),
            None => None,
        }
    }
}

} // verus!
