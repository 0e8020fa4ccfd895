//! Items and the documents that hold them.

use vstd::prelude::*;
use crate::doorstop::document_tree::{LoadError, LoadErrorKind, LoadErrorView};
use crate::doorstop::file::{is_yml_with_prefix, item_paths, path_views, DirEntry};
use crate::doorstop::index::{
    ascending, find_rank, key_views, lemma_ascending_insert, lemma_ascending_replace,
    lemma_represents_empty, lemma_represents_insert, lemma_represents_replace, represents,
};
use crate::doorstop::level::{
    depth_of, key_lt, lemma_key_len_bound, lemma_key_lt_asymmetric, lemma_strip_trailing_zeros,
    level_key, parse_level_key, strip_trailing_zeros, stripped_len,
};
use crate::doorstop::text::{file_stem, lemma_file_stem, stem_of};

verus! {

/// The settings of a document, as its descriptor gives them.
#[derive(Debug, PartialEq)]
pub struct DocumentSettings {
    pub digits: i32,
    pub parent: Option<String>,
    pub prefix: String,
    pub sep: String,
}

/// The attributes that a descriptor may add to the settings.
#[derive(Debug, PartialEq)]
pub struct Attributes {
    pub publish: Option<Vec<String>>,
}

/// What a descriptor holds.
#[derive(Debug, PartialEq)]
pub struct DocumentConfig {
    pub settings: DocumentSettings,
    pub attributes: Option<Attributes>,
}

/// One requirement.
#[derive(Debug, PartialEq)]
pub struct Item {
    pub id: Option<String>,
    pub active: Option<bool>,
    pub derived: Option<bool>,
    pub header: Option<String>,
    pub level: Option<String>,
    pub normative: Option<bool>,
    pub reviewed: Option<String>,
    pub text: Option<String>,
}

/// An item, with each text as a sequence of characters.
pub struct ItemView {
    pub id: Option<Seq<char>>,
    pub active: Option<bool>,
    pub derived: Option<bool>,
    pub header: Option<Seq<char>>,
    pub level: Option<Seq<char>>,
    pub normative: Option<bool>,
    pub reviewed: Option<Seq<char>>,
    pub text: Option<Seq<char>>,
}

/// The characters of a text that may be absent.
pub open spec fn text_view(text: Option<String>) -> Option<Seq<char>> {
    match text {
        Some(s) => Some(s@),
        None => None,
    }
}

impl View for Item {
    type V = ItemView;

    open spec fn view(&self) -> ItemView {
        ItemView {
            id: text_view(self.id),
            active: self.active,
            derived: self.derived,
            header: text_view(self.header),
            level: text_view(self.level),
            normative: self.normative,
            reviewed: text_view(self.reviewed),
            text: text_view(self.text),
        }
    }
}

impl ItemView {
    /// The level of the item: the one it gives, and `1` where it gives none.
    pub open spec fn level_text(self) -> Seq<char> {
        match self.level {
            Some(s) => s,
            None => seq!['1'],
        }
    }

    /// The key of the item's level.
    pub open spec fn key(self) -> Seq<i32> {
        level_key(self.level_text())
    }

    /// The nesting depth of the item.
    pub open spec fn depth(self) -> int {
        depth_of(self.key())
    }
}

/// How the level of one item stands to that of another.
#[derive(Debug, Clone, Copy, PartialEq, Eq, Structural)]
pub enum LevelRelation {
    /// Both are nested equally deep.
    SameLevel,
    /// The other one is nested deeper, by so many levels.
    OutLevel(i32),
    /// The other one is nested less deep, by so many levels.
    InLevel(i32),
}

/// The relation of key `a` to key `b`: only the numbers of segments count
/// that are left without the trailing zeros.
pub open spec fn relation_of(a: Seq<i32>, b: Seq<i32>) -> LevelRelation {
    let la = strip_trailing_zeros(a).len() as int;
    let lb = strip_trailing_zeros(b).len() as int;
    if la < lb {
        LevelRelation::OutLevel((lb - la) as i32)
    } else if la == lb {
        LevelRelation::SameLevel
    } else {
        LevelRelation::InLevel((la - lb) as i32)
    }
}

/// Whether the difference in depth between the two keys fits the number
/// that a `LevelRelation` holds.
pub open spec fn gap_fits(a: Seq<i32>, b: Seq<i32>) -> bool {
    let la = strip_trailing_zeros(a).len() as int;
    let lb = strip_trailing_zeros(b).len() as int;
    la - lb <= i32::MAX && lb - la <= i32::MAX
}

/// Seen from the other item the relation is the opposite one, by the same
/// number of levels: out for in and in for out, and the same level for the
/// same level.
pub proof fn lemma_relation_turns_round(a: ItemView, b: ItemView)
    ensures
        match relation_of(a.key(), b.key()) {
            LevelRelation::SameLevel => relation_of(b.key(), a.key()) == LevelRelation::SameLevel,
            LevelRelation::OutLevel(n) => relation_of(b.key(), a.key()) == LevelRelation::InLevel(n),
            LevelRelation::InLevel(n) => relation_of(b.key(), a.key()) == LevelRelation::OutLevel(n),
        },
{
}

/// Where the difference fits, the number of levels in a relation is the
/// difference between the numbers of segments that the two keys have
/// without their trailing zeros, and it is not 0.
pub proof fn lemma_relation_counts_levels(a: ItemView, b: ItemView)
    requires
        gap_fits(a.key(), b.key()),
    ensures
        match relation_of(a.key(), b.key()) {
            LevelRelation::SameLevel => strip_trailing_zeros(a.key()).len() == strip_trailing_zeros(
                b.key(),
            ).len(),
            LevelRelation::OutLevel(n) => n > 0 && n == strip_trailing_zeros(b.key()).len()
                - strip_trailing_zeros(a.key()).len(),
            LevelRelation::InLevel(n) => n > 0 && n == strip_trailing_zeros(a.key()).len()
                - strip_trailing_zeros(b.key()).len(),
        },
{
}

/// The depth of an item fits 32 bits when its level has no more
/// characters than the largest 32-bit number.
pub proof fn lemma_depth_fits(item: ItemView)
    requires
        item.level_text().len() <= i32::MAX,
    ensures
        0 <= item.depth() <= i32::MAX,
{
    lemma_key_len_bound(item.level_text());
    lemma_strip_trailing_zeros(item.key());
}

/// The difference in depth of two items fits 32 bits when neither level
/// has more characters than the largest 32-bit number.
pub proof fn lemma_gap_fits(a: ItemView, b: ItemView)
    requires
        a.level_text().len() <= i32::MAX,
        b.level_text().len() <= i32::MAX,
    ensures
        gap_fits(a.key(), b.key()),
{
    lemma_key_len_bound(a.level_text());
    lemma_key_len_bound(b.level_text());
    lemma_strip_trailing_zeros(a.key());
    lemma_strip_trailing_zeros(b.key());
}

/// What came of reading a file and taking it apart.
#[derive(Debug)]
pub enum FileContent<T> {
    /// The record that the file holds.
    Parsed(T),
    /// The file could not be opened or read.
    Unreadable,
    /// The file does not hold a record of the shape asked for.
    Malformed,
}

/// An item file as it was found and read.
#[derive(Debug)]
pub struct ItemFile {
    /// Where the file is.
    pub path: String,
    /// The last component of the path, where it has one.
    pub file_name: Option<String>,
    /// What the file holds.
    pub content: FileContent<Item>,
}

/// The item that an item file gives, or the error that it ends in. The
/// identifier is the stem of the file name, whatever the file's content
/// says of it.
pub open spec fn load_item(file: ItemFile) -> Result<ItemView, LoadErrorView> {
    match file.content {
        FileContent::Unreadable => Err(
            LoadErrorView { kind: LoadErrorKind::ReadError, subject: file.path@ },
        ),
        FileContent::Malformed => Err(
            LoadErrorView { kind: LoadErrorKind::FormatError, subject: file.path@ },
        ),
        FileContent::Parsed(record) => match file.file_name {
            Some(name) => if name@.len() > 0 {
                Ok(ItemView { id: Some(file_stem(name@)), ..record@ })
            } else {
                Err(LoadErrorView { kind: LoadErrorKind::NamingError, subject: file.path@ })
            },
            None => Err(
                LoadErrorView { kind: LoadErrorKind::NamingError, subject: file.path@ },
            ),
        },
    }
}

/// An item that was loaded has an identifier, and not the empty one.
pub proof fn lemma_loaded_item_has_id(file: ItemFile)
    ensures
        load_item(file) matches Ok(item) ==> item.id matches Some(id) && id.len() > 0,
{
    if let Some(name) = file.file_name {
        lemma_file_stem(name@);
    }
}

/// The outcome of loading an item, with the views of what it holds.
pub open spec fn item_result_view(r: Result<Item, LoadError>) -> Result<ItemView, LoadErrorView> {
    match r {
        Ok(item) => Ok(item@),
        Err(e) => Err(e@),
    }
}

impl Item {
    /// How the level of `self` stands to that of `other`.
    pub fn level_relation(&self, other: &Self) -> (relation: LevelRelation)
        requires
            gap_fits(self@.key(), other@.key()),
        ensures
            relation == relation_of(self@.key(), other@.key()),
    {
        let self_len = stripped_len(&self.get_level_key());
        let other_len = stripped_len(&other.get_level_key());
        if self_len < other_len {
            LevelRelation::OutLevel((other_len - self_len) as i32)
        } else if self_len == other_len {
            LevelRelation::SameLevel
        } else {
            LevelRelation::InLevel((self_len - other_len) as i32)
        }
    }

    /// The nesting depth, counted from 0. Trailing zeros do not count: they
    /// mark a heading.
    pub fn get_depth(&self) -> (depth: i32)
        requires
            self@.depth() <= i32::MAX,
        ensures
            depth == self@.depth(),
            depth >= 0,
    {
        let len = stripped_len(&self.get_level_key());
        if len == 0 {
            0
        } else {
            (len - 1) as i32
        }
    }

    /// Makes the item of an item file.
    pub fn new(file: ItemFile) -> (r: Result<Item, LoadError>)
        ensures
            item_result_view(r) == load_item(file),
    {
        match file.content {
            FileContent::Unreadable => Err(
                LoadError::new(LoadErrorKind::ReadError, file.path.as_str()),
            ),
            FileContent::Malformed => Err(
                LoadError::new(LoadErrorKind::FormatError, file.path.as_str()),
            ),
            FileContent::Parsed(record) => {
                match file.file_name {
                    Some(name) => {
                        if name.as_str().is_empty() {
                            Err(LoadError::new(LoadErrorKind::NamingError, file.path.as_str()))
                        } else {
                            Ok(
                                Item {
                                    id: Some(stem_of(name.as_str())),
                                    active: record.active,
                                    derived: record.derived,
                                    header: record.header,
                                    level: record.level,
                                    normative: record.normative,
                                    reviewed: record.reviewed,
                                    text: record.text,
                                },
                            )
                        }
                    },
                    None => Err(LoadError::new(LoadErrorKind::NamingError, file.path.as_str())),
                }
            },
        }
    }

    /// The level of the item: the one it gives, and `1` where it gives none.
    pub fn get_level(&self) -> (level: &str)
        ensures
            level@ == self@.level_text(),
    {
        match &self.level {
            Some(s) => s.as_str(),
            None => {
                proof {
                    reveal_strlit("1");
                    assert("1"@ =~= seq!['1']);
                }
                "1"
            },
        }
    }

    /// The key of the item's level.
    pub fn get_level_key(&self) -> (key: Vec<i32>)
        ensures
            key@ == self@.key(),
            forall|k: int| 0 <= k < key.len() ==> #[trigger] key[k] >= 0,
    {
        parse_level_key(self.get_level())
    }
}

/// The identifier that an item is indexed under (the empty one where it
/// has none).
pub open spec fn id_of(item: ItemView) -> Seq<char> {
    match item.id {
        Some(id) => id,
        None => Seq::empty(),
    }
}

/// The index by identifier of the items, put in one after another: an
/// item replaces the earlier one with the same identifier.
pub open spec fn id_index(items: Seq<ItemView>) -> Map<Seq<char>, ItemView>
    decreases items.len(),
{
    if items.len() == 0 {
        Map::empty()
    } else {
        id_index(items.drop_last()).insert(id_of(items.last()), items.last())
    }
}

/// The index by level key of the items, put in one after another: an item
/// replaces the earlier one with the same key.
pub open spec fn level_index(items: Seq<ItemView>) -> Map<Seq<i32>, ItemView>
    decreases items.len(),
{
    if items.len() == 0 {
        Map::empty()
    } else {
        level_index(items.drop_last()).insert(items.last().key(), items.last())
    }
}

/// The items as they are seen in contracts.
spec fn views_of(items: Seq<Item>) -> Seq<ItemView> {
    items.map_values(|item: Item| item@)
}

/// The identifier of each item.
pub open spec fn ids_of(items: Seq<ItemView>) -> Seq<Seq<char>> {
    items.map_values(|item: ItemView| id_of(item))
}

/// The level key of each item.
pub open spec fn keys_of(items: Seq<ItemView>) -> Seq<Seq<i32>> {
    items.map_values(|item: ItemView| item.key())
}

/// Each index holds the identifiers, or the level keys, that occur among
/// the items, and no others.
pub proof fn lemma_index_domains(items: Seq<ItemView>)
    ensures
        id_index(items).dom() == ids_of(items).to_set(),
        level_index(items).dom() == keys_of(items).to_set(),
        id_index(items).dom().finite(),
        level_index(items).dom().finite(),
    decreases items.len(),
{
    broadcast use vstd::seq_lib::seq_to_set_is_finite;

    if items.len() == 0 {
        assert(id_index(items).dom() =~= ids_of(items).to_set());
        assert(level_index(items).dom() =~= keys_of(items).to_set());
    } else {
        let front = items.drop_last();
        let last = items.last();
        lemma_index_domains(front);
        assert(ids_of(items) =~= ids_of(front).push(id_of(last)));
        assert(keys_of(items) =~= keys_of(front).push(last.key()));
        ids_of(front).lemma_push_to_set_commute(id_of(last));
        keys_of(front).lemma_push_to_set_commute(last.key());
        assert(id_index(items).dom() =~= ids_of(items).to_set());
        assert(level_index(items).dom() =~= keys_of(items).to_set());
    }
}

/// What an index holds under a key is one of the items, and one that has
/// this key.
pub proof fn lemma_index_values(items: Seq<ItemView>)
    ensures
        forall|id: Seq<char>| #[trigger]
            id_index(items).dom().contains(id) ==> items.contains(id_index(items)[id]) && id_of(
                id_index(items)[id],
            ) == id,
        forall|key: Seq<i32>| #[trigger]
            level_index(items).dom().contains(key) ==> items.contains(level_index(items)[key])
                && level_index(items)[key].key() == key,
    decreases items.len(),
{
    if items.len() > 0 {
        let front = items.drop_last();
        let last = items.last();
        lemma_index_values(front);
        assert(items[items.len() - 1] == last);
        assert forall|id: Seq<char>| #[trigger]
            id_index(items).dom().contains(id) implies items.contains(id_index(items)[id])
            && id_of(id_index(items)[id]) == id by {
            if id != id_of(last) {
                let p = choose|p: int| 0 <= p < front.len() && front[p] == id_index(front)[id];
                assert(items[p] == front[p]);
            }
        }
        assert forall|key: Seq<i32>| #[trigger]
            level_index(items).dom().contains(key) implies items.contains(level_index(items)[key])
            && level_index(items)[key].key() == key by {
            if key != last.key() {
                let p = choose|p: int| 0 <= p < front.len() && front[p] == level_index(front)[key];
                assert(items[p] == front[p]);
            }
        }
    }
}

/// Every item that the index by level holds is found in the index by
/// identifier under its identifier; and the two indexes hold equally many
/// items whenever there are as many different identifiers among the items
/// as different level keys.
pub proof fn lemma_round_trip(items: Seq<ItemView>)
    ensures
        forall|key: Seq<i32>| #[trigger]
            level_index(items).dom().contains(key) ==> id_index(items).dom().contains(
                id_of(level_index(items)[key]),
            ),
        ids_of(items).to_set().len() == keys_of(items).to_set().len() ==> id_index(
            items,
        ).dom().len() == level_index(items).dom().len(),
{
    lemma_index_domains(items);
    lemma_index_values(items);
    assert forall|key: Seq<i32>| #[trigger]
        level_index(items).dom().contains(key) implies id_index(items).dom().contains(
        id_of(level_index(items)[key]),
    ) by {
        let item = level_index(items)[key];
        let p = choose|p: int| 0 <= p < items.len() && items[p] == item;
        assert(ids_of(items)[p] == id_of(item));
    }
}

/// Where no two items have the same identifier and no two the same level
/// key, each index holds all the items, and the item found under a level
/// key is the one found under its identifier.
pub proof fn lemma_round_trip_without_collisions(items: Seq<ItemView>)
    requires
        ids_of(items).no_duplicates(),
        keys_of(items).no_duplicates(),
    ensures
        id_index(items).dom().len() == items.len(),
        level_index(items).dom().len() == items.len(),
        forall|key: Seq<i32>| #[trigger]
            level_index(items).dom().contains(key) ==> id_index(items)[id_of(
                level_index(items)[key],
            )] == level_index(items)[key],
{
    lemma_index_domains(items);
    lemma_index_values(items);
    lemma_round_trip(items);
    ids_of(items).unique_seq_to_set();
    keys_of(items).unique_seq_to_set();
    assert forall|key: Seq<i32>| #[trigger]
        level_index(items).dom().contains(key) implies id_index(items)[id_of(
        level_index(items)[key],
    )] == level_index(items)[key] by {
        let item = level_index(items)[key];
        let found = id_index(items)[id_of(item)];
        let p = choose|p: int| 0 <= p < items.len() && items[p] == item;
        let q = choose|q: int| 0 <= q < items.len() && items[q] == found;
        assert(ids_of(items)[p] == id_of(item));
        assert(ids_of(items)[q] == id_of(found));
    }
}

/// The items of a document with their two indexes. The items stand in
/// the order in which they were loaded; each index is a list of positions
/// among them.
#[derive(Debug)]
pub struct ItemStore {
    items: Vec<Item>,
    keys: Vec<Vec<i32>>,
    by_id: Vec<usize>,
    by_level: Vec<usize>,
}

/// What holds of the four parts of an `ItemStore`: the level key of each
/// item is kept beside it, each index stands for the map that it is named
/// after, and the index by level is in the order of the keys.
spec fn store_inv(
    items: Seq<Item>,
    keys: Seq<Vec<i32>>,
    by_id: Seq<usize>,
    by_level: Seq<usize>,
) -> bool {
    let views = views_of(items);
    &&& key_views(keys) == keys_of(views)
    &&& represents(by_id, ids_of(views), views, id_index(views))
    &&& represents(by_level, keys_of(views), views, level_index(views))
    &&& ascending(by_level, keys_of(views))
}

/// The identifier of `item` as a string of its own.
fn id_text(item: &Item) -> (id: String)
    ensures
        id@ == id_of(item@),
{
    match &item.id {
        Some(s) => s.clone(),
        None => String::new(),
    }
}

/// The position in `by_id` that points at an item with the identifier `id`.
fn find_id(by_id: &Vec<usize>, items: &Vec<Item>, id: &String) -> (r: Option<usize>)
    requires
        forall|a: int| 0 <= a < by_id.len() ==> (#[trigger] by_id[a]) < items.len(),
    ensures
        match r {
            Some(a) => a < by_id.len() && id_of(items[by_id[a as int] as int]@) == id@,
            None => forall|a: int|
                0 <= a < by_id.len() ==> id_of(items[#[trigger] by_id[a] as int]@) != id@,
        },
{
    let mut a: usize = 0;
    while a < by_id.len()
        invariant
            a <= by_id.len(),
            forall|b: int| 0 <= b < by_id.len() ==> (#[trigger] by_id[b]) < items.len(),
            forall|b: int| 0 <= b < a ==> id_of(items[#[trigger] by_id[b] as int]@) != id@,
        decreases by_id.len() - a,
    {
        let item = &items[by_id[a]];
        let same = match &item.id {
            Some(s) => s.eq(id),
            None => id.as_str().is_empty(),
        };
        if same {
            assert(id_of(item@) =~= id@);
            return Some(a);
        }
        a = a + 1;
    }
    None
}

impl View for ItemStore {
    type V = Seq<ItemView>;

    closed spec fn view(&self) -> Seq<ItemView> {
        views_of(self.items@)
    }
}

impl ItemStore {
    #[verifier::type_invariant]
    closed spec fn inv(self) -> bool {
        store_inv(self.items@, self.keys@, self.by_id@, self.by_level@)
    }

    /// A store without items.
    pub fn new() -> (store: ItemStore)
        ensures
            store@ == Seq::<ItemView>::empty(),
    {
        let items: Vec<Item> = Vec::new();
        let keys: Vec<Vec<i32>> = Vec::new();
        proof {
            let views = views_of(items@);
            assert(views =~= Seq::<ItemView>::empty());
            assert(ids_of(views) =~= Seq::<Seq<char>>::empty());
            assert(keys_of(views) =~= Seq::<Seq<i32>>::empty());
            assert(key_views(keys@) =~= Seq::<Seq<i32>>::empty());
            lemma_represents_empty::<Seq<char>, ItemView>();
            lemma_represents_empty::<Seq<i32>, ItemView>();
        }
        ItemStore { items, keys, by_id: Vec::new(), by_level: Vec::new() }
    }

    /// Puts `item` into both indexes, where it replaces the item that has
    /// its identifier, and the item that has its level key.
    pub fn insert(self, item: Item) -> (store: ItemStore)
        ensures
            store@ == self@.push(item@),
    {
        proof {
            use_type_invariant(&self);
        }
        let ItemStore { mut items, mut keys, mut by_id, mut by_level } = self;
        let ghost views = views_of(items@);
        let ghost old_keys = keys@;
        let ghost old_by_id = by_id@;
        let ghost old_by_level = by_level@;
        let key = item.get_level_key();
        let id = id_text(&item);
        let ghost v = item@;
        let slot = find_id(&by_id, &items, &id);
        let (rank, found) = find_rank(&by_level, &keys, &key);
        proof {
            assert forall|b: int| 0 <= b < by_id.len() implies ids_of(views)[#[trigger] by_id[b] as int]
                == id_of(items[by_id[b] as int]@) by {}
            assert forall|b: int| 0 <= b < by_level.len() implies keys_of(views)[#[trigger] by_level[
                b
            ] as int] == keys[by_level[b] as int]@ by {
                assert(key_views(keys@)[by_level[b] as int] == keys[by_level[b] as int]@);
            }
        }
        items.push(item);
        keys.push(key);
        let last: usize = items.len() - 1;
        proof {
            let views2 = views_of(items@);
            assert(views2 =~= views.push(v));
            assert(views2.drop_last() =~= views);
            assert(ids_of(views2) =~= ids_of(views).push(id_of(v)));
            assert(keys_of(views2) =~= keys_of(views).push(v.key()));
            assert(key_views(keys@) =~= key_views(old_keys).push(v.key()));
            assert(id_index(views2) == id_index(views).insert(id_of(v), v));
            assert(level_index(views2) == level_index(views).insert(v.key(), v));
        }
        match slot {
            Some(a) => {
                by_id.set(a, last);
                proof {
                    lemma_represents_replace(
                        old_by_id,
                        ids_of(views),
                        views,
                        id_index(views),
                        a as int,
                        id_of(v),
                        v,
                    );
                }
            },
            None => {
                by_id.push(last);
                proof {
                    lemma_represents_insert(
                        old_by_id,
                        ids_of(views),
                        views,
                        id_index(views),
                        old_by_id.len() as int,
                        id_of(v),
                        v,
                    );
                    assert(by_id@ =~= old_by_id.insert(old_by_id.len() as int, last));
                }
            },
        }
        if found {
            by_level.set(rank, last);
            proof {
                lemma_represents_replace(
                    old_by_level,
                    keys_of(views),
                    views,
                    level_index(views),
                    rank as int,
                    v.key(),
                    v,
                );
                lemma_ascending_replace(old_by_level, keys_of(views), rank as int, v.key());
            }
        } else {
            by_level.insert(rank, last);
            proof {
                lemma_ascending_insert(old_by_level, keys_of(views), rank as int, v.key());
                lemma_represents_insert(
                    old_by_level,
                    keys_of(views),
                    views,
                    level_index(views),
                    rank as int,
                    v.key(),
                    v,
                );
            }
        }
        ItemStore { items, keys, by_id, by_level }
    }

    /// The number of items in the index by identifier.
    pub fn len(&self) -> (n: usize)
        ensures
            n == id_index(self@).dom().len(),
    {
        proof {
            use_type_invariant(self);
        }
        self.by_id.len()
    }

    /// The item that the index by identifier holds under `id`.
    pub fn get(&self, id: &str) -> (r: Option<&Item>)
        ensures
            match r {
                Some(item) => id_index(self@).dom().contains(id@) && id_index(self@)[id@] == item@,
                None => !id_index(self@).dom().contains(id@),
            },
    {
        proof {
            use_type_invariant(self);
        }
        let ghost views = views_of(self.items@);
        let wanted = id.to_owned();
        match find_id(&self.by_id, &self.items, &wanted) {
            Some(a) => {
                assert(ids_of(views)[self.by_id[a as int] as int] == id@);
                Some(&self.items[self.by_id[a]])
            },
            None => {
                proof {
                    if id_index(views).dom().contains(id@) {
                        let a = choose|a: int|
                            0 <= a < self.by_id.len() && ids_of(views)[#[trigger] self.by_id[a] as int]
                                == id@;
                        assert(id_of(self.items[self.by_id[a] as int]@) == id@);
                    }
                }
                None
            },
        }
    }

    /// The number of items in the index by level.
    pub fn by_level_len(&self) -> (n: usize)
        ensures
            n == level_index(self@).dom().len(),
    {
        proof {
            use_type_invariant(self);
        }
        self.by_level.len()
    }

    /// The items of the index by level, in the order of their keys.
    pub fn sorted_by_level(&self) -> (r: Vec<&Item>)
        ensures
            r.len() == level_index(self@).dom().len(),
            forall|i: int|
                0 <= i < r.len() ==> level_index(self@).dom().contains((#[trigger] r[i])@.key())
                    && level_index(self@)[r[i]@.key()] == r[i]@,
            forall|i: int, j: int|
                0 <= i < j < r.len() ==> key_lt((#[trigger] r[i])@.key(), (#[trigger] r[j])@.key()),
            forall|i: int, j: int|
                0 <= i < j < r.len() ==> !key_lt((#[trigger] r[j])@.key(), (#[trigger] r[i])@.key()),
    {
        proof {
            use_type_invariant(self);
        }
        let ghost views = views_of(self.items@);
        let mut r: Vec<&Item> = Vec::new();
        let mut a: usize = 0;
        while a < self.by_level.len()
            invariant
                a <= self.by_level.len(),
                views == views_of(self.items@),
                represents(self.by_level@, keys_of(views), views, level_index(views)),
                r.len() == a,
                forall|i: int| 0 <= i < a ==> (#[trigger] r[i])@ == views[self.by_level[i] as int],
            decreases self.by_level.len() - a,
        {
            assert(self.by_level[a as int] < views.len());
            r.push(&self.items[self.by_level[a]]);
            a = a + 1;
        }
        proof {
            assert forall|i: int| 0 <= i < r.len() implies level_index(self@).dom().contains(
                (#[trigger] r[i])@.key(),
            ) && level_index(self@)[r[i]@.key()] == r[i]@ by {
                assert(keys_of(views)[self.by_level[i] as int] == r[i]@.key());
            }
            assert forall|i: int, j: int| 0 <= i < j < r.len() implies key_lt(
                (#[trigger] r[i])@.key(),
                (#[trigger] r[j])@.key(),
            ) && !key_lt(r[j]@.key(), r[i]@.key()) by {
                assert(keys_of(views)[self.by_level[i] as int] == r[i]@.key());
                assert(keys_of(views)[self.by_level[j] as int] == r[j]@.key());
                lemma_key_lt_asymmetric(r[i]@.key(), r[j]@.key());
            }
        }
        r
    }
}

/// A document: what its descriptor holds, where the descriptor is, and
/// the items found beside it.
#[derive(Debug)]
pub struct Document {
    pub config: DocumentConfig,
    pub root_path: String,
    pub items: ItemStore,
}

/// A document as it is seen in contracts: its items are those that were
/// loaded, in the order in which they were loaded.
pub struct DocumentView {
    pub config: DocumentConfig,
    pub root_path: Seq<char>,
    pub items: Seq<ItemView>,
}

impl View for Document {
    type V = DocumentView;

    open spec fn view(&self) -> DocumentView {
        DocumentView { config: self.config, root_path: self.root_path@, items: self.items@ }
    }
}

impl DocumentView {
    /// The prefix of the document.
    pub open spec fn prefix(self) -> Seq<char> {
        self.config.settings.prefix@
    }

    /// The prefix of the parent that the document names, if it names one.
    pub open spec fn parent(self) -> Option<Seq<char>> {
        text_view(self.config.settings.parent)
    }
}

/// A descriptor as it was found and read, with the item files that were
/// found for it.
#[derive(Debug)]
pub struct DocumentFile {
    /// Where the descriptor is.
    pub path: String,
    /// What the descriptor holds.
    pub content: FileContent<DocumentConfig>,
    /// The item files of the document, in the order in which they were
    /// found.
    pub item_files: Vec<ItemFile>,
}

/// The items that the item files give, in their order, or the error of the
/// first file that gives none.
pub open spec fn load_items(files: Seq<ItemFile>) -> Result<Seq<ItemView>, LoadErrorView>
    decreases files.len(),
{
    if files.len() == 0 {
        Ok(Seq::empty())
    } else {
        match load_items(files.drop_last()) {
            Ok(items) => match load_item(files.last()) {
                Ok(item) => Ok(items.push(item)),
                Err(e) => Err(e),
            },
            Err(e) => Err(e),
        }
    }
}

/// The document that a descriptor and its item files give, or the error
/// that loading ends in: that of the descriptor, else that of the first
/// item file that has one.
pub open spec fn load_document(file: DocumentFile) -> Result<DocumentView, LoadErrorView> {
    match file.content {
        FileContent::Unreadable => Err(
            LoadErrorView { kind: LoadErrorKind::ReadError, subject: file.path@ },
        ),
        FileContent::Malformed => Err(
            LoadErrorView { kind: LoadErrorKind::FormatError, subject: file.path@ },
        ),
        FileContent::Parsed(config) => match load_items(file.item_files@) {
            Ok(items) => Ok(DocumentView { config, root_path: file.path@, items }),
            Err(e) => Err(e),
        },
    }
}

/// The outcome of loading a document, with the views of what it holds.
pub open spec fn document_result_view(r: Result<Document, LoadError>) -> Result<
    DocumentView,
    LoadErrorView,
> {
    match r {
        Ok(document) => Ok(document@),
        Err(e) => Err(e@),
    }
}

/// Once the first `i` item files end in an error, all of them end in it.
pub proof fn lemma_load_items_error_stays(files: Seq<ItemFile>, i: int)
    requires
        0 <= i <= files.len(),
        load_items(files.take(i)) is Err,
    ensures
        load_items(files) == load_items(files.take(i)),
    decreases files.len() - i,
{
    if i < files.len() {
        assert(files.take(i + 1).drop_last() =~= files.take(i));
        lemma_load_items_error_stays(files, i + 1);
    } else {
        assert(files.take(i) =~= files);
    }
}

impl Document {
    /// The paths of the item files of a document with the settings of
    /// `config`, among the entries of a walk through its directory.
    pub fn get_items_files(config: &DocumentConfig, entries: &Vec<DirEntry>) -> (paths: Vec<String>)
        ensures
            path_views(paths@) == item_paths(entries@, config.settings.prefix@),
    {
        let prefix = config.settings.prefix.as_str();
        let mut paths: Vec<String> = Vec::new();
        let mut i: usize = 0;
        assert(entries@.take(0) =~= Seq::<DirEntry>::empty());
        assert(path_views(paths@) =~= Seq::<Seq<char>>::empty());
        while i < entries.len()
            invariant
                i <= entries.len(),
                prefix@ == config.settings.prefix@,
                path_views(paths@) == item_paths(entries@.take(i as int), prefix@),
            decreases entries.len() - i,
        {
            let ghost before = path_views(paths@);
            assert(entries@.take(i + 1).drop_last() =~= entries@.take(i as int));
            if is_yml_with_prefix(&entries[i], prefix) {
                paths.push(entries[i].path.clone());
                assert(path_views(paths@) =~= before.push(entries[i as int].path@));
            }
            i = i + 1;
        }
        assert(entries@.take(entries.len() as int) =~= entries@);
        paths
    }

    /// Makes the document of a descriptor and its item files. One file
    /// that gives no item is enough for no document to be made.
    pub fn new(file: DocumentFile) -> (r: Result<Document, LoadError>)
        ensures
            document_result_view(r) == load_document(file),
    {
        broadcast use vstd::std_specs::vec::axiom_spec_into_iter;

        let DocumentFile { path, content, item_files } = file;
        let config = match content {
            FileContent::Unreadable => {
                return Err(LoadError::new(LoadErrorKind::ReadError, path.as_str()));
            },
            FileContent::Malformed => {
                return Err(LoadError::new(LoadErrorKind::FormatError, path.as_str()));
            },
            FileContent::Parsed(config) => config,
        };
        let ghost files = item_files@;
        let mut store = ItemStore::new();
        assert(files.take(0) =~= Seq::<ItemFile>::empty());
        for item_file in it: item_files
            invariant
                it.seq() == files,
                file.item_files@ == files,
                file.content is Parsed,
                load_items(files.take(it.index())) == Ok::<Seq<ItemView>, LoadErrorView>(store@),
        {
            let ghost i = it.index();
            assert(files.take(i + 1).drop_last() =~= files.take(i));
            assert(files.take(i + 1).last() == item_file);
            match Item::new(item_file) {
                Ok(item) => {
                    store = store.insert(item);
                },
                Err(e) => {
                    proof {
                        lemma_load_items_error_stays(files, i + 1);
                    }
                    return Err(e);
                },
            }
        }
        assert(files.take(files.len() as int) =~= files);
        Ok(Document { config, root_path: path, items: store })
    }
}

} // verus!
