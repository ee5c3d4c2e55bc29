//! The storage engine: a B-tree of `u64` keys and values kept in a page file, with the
//! root page named by the metadata page.
use vstd::prelude::*;

use crate::engine::check::pages_consistent;
use crate::engine::disk::{disk_page, Pager};
use crate::engine::insert::{
    entries_put, insert_done, lemma_entries_put_len, lemma_pages_added_bound, lemma_halves_done, pages_added, splits, lemma_leaf_insert_done, lemma_leaf_split_done,
    lemma_merge_split, lemma_merge_unsplit, lemma_merged_written, merged_ok, search_result, updated_lookup,
};
use crate::engine::meta::{
    lemma_meta_round_trip, meta_page, meta_root, read_metadata, write_metadata, INITIAL_ROOT_PAGE_ID,
    META_PAGE_ID,
};
use crate::engine::node::{
    encode_node, lemma_capacities, lemma_node_round_trip, read_node, write_node, InternalNode, LeafEntry,
    LeafNode, Node, NodeView, INTERNAL_CAPACITY, LEAF_CAPACITY,
};
use crate::engine::search::{route_index, search_entries};
use crate::engine::tree::{
    children_ok, children_wf, leaf_lookup, lemma_decoded_internal, lemma_height_free, lemma_leaf_lookup_at,
    lemma_route, lemma_tree_frame, lemma_tree_pages_in_file, agree_on, lookup, max_key, node_at, route,
    tree_pages, tree_wf,
};
use crate::error::DatabaseError;
use crate::storage::page::zero_page;
use crate::storage::pager::file_page;

verus! {

/// The key/value pairs of the tree rooted at `root`.
pub open spec fn tree_contents(disk: Seq<Seq<u8>>, root: u32, h: nat) -> Map<u64, u64> {
    Map::new(|k: u64| lookup(disk, root, k, h) is Some, |k: u64| lookup(disk, root, k, h)->Some_0)
}

/// The pages of a file image.
pub open spec fn image_pages(file: Seq<u8>) -> Seq<Seq<u8>> {
    Seq::new((file.len() / 4096) as nat, |n: int| file_page(file, n))
}

/// The root page that the metadata page of `disk` names.
pub open spec fn disk_root(disk: Seq<Seq<u8>>) -> u32 {
    meta_root(disk_page(disk, 0))->Some_0
}

/// Whether `h` bounds the height of a valid tree under the root of `disk`, with no more
/// levels than pages.
pub open spec fn valid_height(disk: Seq<Seq<u8>>, h: nat) -> bool {
    h <= disk.len() && tree_wf(disk, disk_root(disk), h, true)
}

/// The pages hold a valid engine: a tagged metadata page naming the root of a valid tree.
pub open spec fn valid_disk(disk: Seq<Seq<u8>>) -> bool {
    &&& meta_root(disk_page(disk, 0)) is Some
    &&& exists|h: nat| valid_height(disk, h)
}

/// The key/value pairs a valid page file holds.
pub open spec fn disk_contents(disk: Seq<Seq<u8>>) -> Map<u64, u64> {
    tree_contents(disk, disk_root(disk), choose|h: nat| valid_height(disk, h))
}

/// The number of children of the node at `p`, counting a leaf as 339: a node splits only
/// once it holds 341 children, and a leaf that splits leaves a root with 2, so the count
/// together with 339 per level rises by at most 2 for each insertion.
pub open spec fn fanout(disk: Seq<Seq<u8>>, p: u32) -> nat {
    match node_at(disk, p) {
        Some(NodeView::Internal(children, max_keys)) => children.len(),
        _ => 339,
    }
}

/// The value stored under `key`, if any.
pub open spec fn map_get(m: Map<u64, u64>, key: u64) -> Option<u64> {
    if m.dom().contains(key) {
        Some(m[key])
    } else {
        None
    }
}

/// Disk-backed B-tree storage engine for `u64` keys and values.
pub struct BTreeEngine {
    pager: Pager,
    root_page: u32,
    height: Ghost<nat>,
}

impl View for BTreeEngine {
    type V = Map<u64, u64>;

    /// The key/value pairs the engine holds.
    closed spec fn view(&self) -> Map<u64, u64> {
        tree_contents(self.pager@, self.root_page, self.height@)
    }
}

impl BTreeEngine {
    /// The metadata page names the root of a valid tree whose height is tracked.
    pub closed spec fn wf(&self) -> bool {
        &&& self.pager.wf()
        &&& meta_root(disk_page(self.pager@, 0)) == Some(self.root_page)
        &&& tree_wf(self.pager@, self.root_page, self.height@, true)
        &&& self.height@ <= self.pager@.len()
    }

    /// The engine's pager holds whole pages and its root is the one the metadata page
    /// names, as `open` leaves it; the tree under the root may still be malformed.
    pub closed spec fn opened(&self) -> bool {
        &&& self.pager.wf()
        &&& meta_root(disk_page(self.pager@, 0)) == Some(self.root_page)
    }

    /// The pages of the engine's file.
    pub closed spec fn pages(&self) -> Seq<Seq<u8>> {
        self.pager@
    }

    /// The number of pages an insertion of `key` adds: one for every node on the way down
    /// that splits (a node splits only when it is full and must take one more item), plus
    /// a new root when the root splits. An insertion that splits nothing adds no page.
    pub closed spec fn insert_growth(&self, key: u64) -> nat {
        pages_added(self.pager@, self.root_page, self.height@, key) + if splits(
            self.pager@,
            self.root_page,
            self.height@,
            key,
        ) {
            1nat
        } else {
            0nat
        }
    }

    /// The number of levels below the root that the engine allows for: 0 for a new
    /// database, and one more each time the root splits.
    pub closed spec fn height(&self) -> nat {
        self.height@
    }

    /// 339 for each level the engine allows for, plus the root's `fanout`. It rises by at
    /// most 2 per insertion, so it bounds the height, and with it the pages an insertion
    /// adds, by the number of insertions made.
    pub closed spec fn split_measure(&self) -> nat {
        339 * self.height@ + fanout(self.pager@, self.root_page)
    }

    /// The height is at most a 339th of the split measure.
    pub proof fn lemma_height_below_measure(&self)
        ensures
            339 * self.height() <= self.split_measure(),
    {
    }

    /// A well-formed engine has no more levels than its file has pages.
    pub proof fn lemma_height_within_pages(&self)
        requires
            self.wf(),
        ensures
            self.height() <= self.pages().len(),
    {
    }

    /// The engine's file image.
    pub closed spec fn file_image(&self) -> Seq<u8> {
        self.pager.file_image()
    }

    /// An insertion can add its pages without running out of `u32` page numbers or of
    /// `usize` file offsets: it adds at most one page per level and a new root, and a
    /// tree has no more levels than the file has pages.
    pub open spec fn has_room(&self) -> bool {
        &&& 2 * self.pages().len() + 3 <= u32::MAX
        &&& (2 * self.pages().len() + 3) * 4096 <= usize::MAX
    }

    /// Open a database file image; an empty image is a new database, which gets a
    /// metadata page and an empty root leaf.
    ///
    /// An image that is not a whole number of pages, or whose metadata page lacks the
    /// tag, gives `CorruptDatabase`.
    pub fn open(file: Vec<u8>) -> (result: Result<BTreeEngine, DatabaseError>)
        requires
            file@.len() / 4096 + 2 <= u32::MAX,
        ensures
            result is Err <==> file@.len() % 4096 != 0 || (file@.len() > 0 && meta_root(
                disk_page(image_pages(file@), 0),
            ) is None),
            result matches Err(e) ==> e is CorruptDatabase,
            result matches Ok(engine) ==> engine.opened(),
            file@.len() == 0 ==> (result matches Ok(engine) ==> engine.wf() && engine@ == Map::<u64, u64>::empty()
                && engine.height() == 0 && engine.split_measure() == 339 && engine.pages() == seq![meta_page(1), encode_node(NodeView::Leaf(Seq::empty()))]),
            file@.len() > 0 ==> (result matches Ok(engine) ==> engine.pages() == image_pages(file@) && (valid_disk(
                image_pages(file@),
            ) ==> engine.wf() && engine@ == disk_contents(image_pages(file@)))),
    {
        let is_new = file.len() == 0;
        let mut pager = match Pager::open(file) {
            Ok(pager) => pager,
            Err(e) => return Err(e),
        };
        if pager.page_count() == 0 {
            pager.allocate_page();
            pager.allocate_page();
            let root = Node::Leaf(LeafNode { entries: Vec::new() });
            match write_node(&mut pager, INITIAL_ROOT_PAGE_ID, &root) {
                Ok(()) => {},
                Err(e) => return Err(e),
            }
            write_metadata(&mut pager, INITIAL_ROOT_PAGE_ID);
            proof {
                lemma_meta_round_trip(1);
                lemma_node_round_trip(NodeView::Leaf(Seq::empty()));
                assert(pager@ =~= seq![meta_page(1), encode_node(NodeView::Leaf(Seq::empty()))]);
                assert(node_at(pager@, 1) == Some(NodeView::Leaf(Seq::<LeafEntry>::empty())));
            }
        }
        let root_page = match read_metadata(&pager) {
            Ok(root) => root,
            Err(e) => return Err(e),
        };
        let ghost disk = pager@;
        let engine = BTreeEngine {
            pager,
            root_page,
            height: Ghost(
                if is_new {
                    0
                } else {
                    choose|h: nat| valid_height(disk, h)
                },
            ),
        };
        proof {
            if is_new {
                assert(tree_wf(disk, 1, 0, true));
                assert(engine@ =~= Map::<u64, u64>::empty());
            }
        }
        Ok(engine)
    }

    /// Checks that the pages hold a valid engine, a tagged metadata page naming the root of
    /// a well-formed tree, so that `insert` and `get` may work on it; an image read from
    /// disk needs this check before either.
    pub fn is_consistent(&mut self) -> (ok: bool)
        requires
            old(self).opened(),
        ensures
            ok == valid_disk(old(self).pages()),
            final(self).opened(),
            final(self).pages() == old(self).pages(),
            final(self).file_image() == old(self).file_image(),
            ok ==> final(self).wf() && final(self)@ == disk_contents(old(self).pages()),
    {
        let ok = pages_consistent(&self.pager);
        if ok {
            self.height = Ghost(choose|h: nat| valid_height(self.pager@, h));
        }
        ok
    }

    /// Whether the engine `has_room` for another insertion.
    pub fn room_to_grow(&self) -> (room: bool)
        ensures
            room == self.has_room(),
    {
        let pages = self.pager.page_count() as u64;
        pages * 2 + 3 <= u32::MAX as u64 && (pages * 2 + 3) <= (usize::MAX / 4096) as u64
    }

    /// The number of pages in the engine's file.
    pub fn page_count(&self) -> (count: u32)
        ensures
            count == self.pages().len(),
    {
        self.pager.page_count()
    }

    /// Insert or overwrite a key/value pair.
    pub fn insert(&mut self, key: u64, value: u64) -> (result: Result<(), DatabaseError>)
        requires
            old(self).wf(),
            old(self).has_room(),
        ensures
            result is Ok,
            final(self).wf(),
            final(self)@ == old(self)@.insert(key, value),
            final(self).pages().len() == old(self).pages().len() + old(self).insert_growth(key),
            old(self).insert_growth(key) <= old(self).height() + 2,
            final(self).pages().len() <= old(self).pages().len() + old(self).height() + 2,
            final(self).height() <= old(self).height() + 1,
            final(self).split_measure() <= old(self).split_measure() + 2,
    {
        proof {
            lemma_pages_added_bound(self.pager@, self.root_page, self.height@, key);
        }
        let ghost old_disk = self.pager@;
        let ghost h = self.height@;
        let root = self.root_page;
        let maybe_right = match self.insert_recursive(root, key, value, Ghost(h), Ghost(true)) {
            Ok(split) => split,
            Err(e) => return Err(e),
        };
        let ghost d1 = self.pager@;
        proof {
            lemma_tree_pages_in_file(old_disk, root, h, true);
            assert(agree_at_meta(old_disk, d1)) by {
                assert(!tree_pages(old_disk, root, h).contains(0u32));
                assert(crate::engine::tree::agree_at(old_disk, d1, 0u32));
            }
        }
        match maybe_right {
            None => {
                proof {
                    assert(self@ =~= old(self)@.insert(key, value)) by {
                        assert forall|k: u64| #[trigger] lookup(d1, root, k, h) == updated_lookup(
                            old_disk,
                            root,
                            h,
                            key,
                            value,
                            k,
                        ) by {}
                    }
                }
            },
            Some(right_page) => {
                let new_root = self.pager.allocate_page();
                let ghost d2 = self.pager@;
                proof {
                    lemma_tree_pages_in_file(d1, root, h, false);
                    lemma_tree_pages_in_file(d1, right_page, h, false);
                    assert(agree_on(d1, d2, tree_pages(d1, root, h)));
                    lemma_tree_frame(d1, d2, root, h, false);
                }
                let left_max = match self.max_key_of_page(root, Ghost(h)) {
                    Ok(m) => m,
                    Err(e) => return Err(e),
                };
                let mut children: Vec<u32> = Vec::new();
                children.push(root);
                children.push(right_page);
                let mut max_keys: Vec<u64> = Vec::new();
                max_keys.push(left_max);
                assert(children@ =~= seq![root, right_page]);
                assert(max_keys@ =~= seq![left_max]);
                let node = Node::Internal(InternalNode { children, max_keys });
                match write_node(&mut self.pager, new_root, &node) {
                    Ok(()) => {},
                    Err(e) => return Err(e),
                }
                self.root_page = new_root;
                self.height = Ghost(h + 1);
                write_metadata(&mut self.pager, new_root);
                proof {
                    let d4 = self.pager@;
                    assert(d4 == d2.update(
                        new_root as int,
                        encode_node(NodeView::Internal(seq![root, right_page], seq![left_max])),
                    ).update(0, meta_page(new_root)));
                    lemma_grow_root(old_disk, d1, d4, root, right_page, new_root, left_max, h, key, value);
                    lemma_node_round_trip(NodeView::Internal(seq![root, right_page], seq![left_max]));
                    assert(node_at(d4, new_root) == Some(NodeView::Internal(seq![root, right_page], seq![left_max])));
                    lemma_decoded_internal(disk_page(old_disk, root as int));
                    assert(fanout(old_disk, root) >= 339);
                    assert(self@ =~= old(self)@.insert(key, value)) by {
                        assert forall|k: u64| #[trigger] lookup(d4, new_root, k, h + 1) == updated_lookup(
                            old_disk,
                            root,
                            h,
                            key,
                            value,
                            k,
                        ) by {}
                    }
                }
            },
        }
        Ok(())
    }

    /// The image a valid engine flushes is a non-empty whole number of pages that holds
    /// a valid engine with the same contents: opening it again gives back what was
    /// stored.
    pub proof fn lemma_flushed_image(&self)
        requires
            self.wf(),
        ensures
            self.file_image().len() % 4096 == 0,
            self.file_image().len() > 0,
            image_pages(self.file_image()) == self.pages(),
            valid_disk(self.pages()),
            disk_contents(self.pages()) == self@,
    {
        let disk = self.pager@;
        let file = self.file_image();
        let n = disk.len();
        self.pager.lemma_pages();
        assert(file.len() / 4096 == n && file.len() % 4096 == 0) by (nonlinear_arith)
            requires
                file.len() == n * 4096,
        ;
        assert(image_pages(file) =~= disk);
        assert(valid_height(disk, self.height@));
        let h2 = choose|h: nat| valid_height(disk, h);
        assert(valid_height(disk, h2));
        if h2 <= self.height@ {
            lemma_height_free(disk, self.root_page, h2, self.height@, true);
        } else {
            lemma_height_free(disk, self.root_page, self.height@, h2, true);
        }
        assert(disk_contents(disk) =~= self@);
    }

    /// Retrieve a value by key.
    pub fn get(&mut self, key: u64) -> (result: Result<Option<u64>, DatabaseError>)
        requires
            old(self).wf(),
        ensures
            *final(self) == *old(self),
            result == Ok::<Option<u64>, DatabaseError>(map_get(old(self)@, key)),
    {
        let root = self.root_page;
        let found = self.get_recursive(root, key, Ghost(self.height@), Ghost(true));
        proof {
            assert(map_get(self@, key) == lookup(self.pager@, root, key, self.height@));
        }
        found
    }

    /// The engine's file image, to be written out to disk.
    pub fn flush(&self) -> (image: Vec<u8>)
        ensures
            image@ == self.file_image(),
    {
        self.pager.flush()
    }

    /// Inserts `key` with `value` below `page_id`; when the node there overflows it is
    /// split, and the new right sibling's page is returned.
    #[verifier::spinoff_prover]
    #[verifier::rlimit(40)]
    fn insert_recursive(
        &mut self,
        page_id: u32,
        key: u64,
        value: u64,
        Ghost(h): Ghost<nat>,
        Ghost(allow_empty): Ghost<bool>,
    ) -> (result: Result<Option<u32>, DatabaseError>)
        requires
            old(self).pager.wf(),
            tree_wf(old(self).pager@, page_id, h, allow_empty),
            old(self).pager@.len() + h + 2 <= u32::MAX,
            (old(self).pager@.len() + h + 2) * 4096 <= usize::MAX,
        ensures
            final(self).pager.wf(),
            final(self).root_page == old(self).root_page,
            final(self).height == old(self).height,
            result matches Ok(split) && insert_done(old(self).pager@, final(self).pager@, page_id, h, allow_empty, key, value, split),
            result matches Ok(split) ==> (split is Some <==> splits(old(self).pager@, page_id, h, key)),
            result is Ok ==> final(self).pager@.len() == old(self).pager@.len() + pages_added(
                old(self).pager@,
                page_id,
                h,
                key,
            ),
            result matches Ok(None) ==> fanout(final(self).pager@, page_id) <= fanout(old(self).pager@, page_id) + 1,
        decreases h,
    {
        let ghost old_disk = self.pager@;
        proof {
            lemma_capacities();
            lemma_decoded_internal(disk_page(old_disk, page_id as int));
        }
        match read_node(&self.pager, page_id) {
            Err(e) => Err(e),
            Ok(Node::Leaf(leaf)) => {
                let mut entries = leaf.entries;
                let ghost old_entries = entries@;
                let found = search_entries(&entries, key);
                match found {
                    Ok(index) => {
                        entries.set(index, LeafEntry { key, value });
                    },
                    Err(index) => {
                        entries.insert(index, LeafEntry { key, value });
                    },
                }
                proof {
                    assert(search_result(old_entries, key, found));
                    assert(entries@ == entries_put(old_entries, key, value, found));
                    lemma_entries_put_len(old_entries, key, value, found);
                }
                if entries.len() <= LEAF_CAPACITY {
                    let ghost put = entries@;
                    match write_node(&mut self.pager, page_id, &Node::Leaf(LeafNode { entries })) {
                        Ok(()) => {},
                        Err(e) => return Err(e),
                    }
                    proof {
                        lemma_leaf_insert_done(old_disk, page_id, h, allow_empty, key, value, old_entries, found);
                        lemma_node_round_trip(NodeView::Leaf(put));
                        assert(node_at(self.pager@, page_id) == Some(NodeView::Leaf(put)));
                    }
                    return Ok(None);
                }
                let split_index = entries.len() / 2;
                let right_entries = entries.split_off(split_index);
                let right_page = self.pager.allocate_page();
                match write_node(&mut self.pager, page_id, &Node::Leaf(LeafNode { entries })) {
                    Ok(()) => {},
                    Err(e) => return Err(e),
                }
                match write_node(&mut self.pager, right_page, &Node::Leaf(LeafNode { entries: right_entries })) {
                    Ok(()) => {},
                    Err(e) => return Err(e),
                }
                proof {
                    lemma_leaf_split_done(
                        old_disk,
                        page_id,
                        h,
                        allow_empty,
                        key,
                        value,
                        old_entries,
                        found,
                        right_page,
                        zero_page(),
                        128,
                    );
                }
                Ok(Some(right_page))
            },
            Ok(Node::Internal(internal)) => {
                let mut children = internal.children;
                let max_keys = internal.max_keys;
                let ghost cs = children@;
                let ghost ms = max_keys@;
                let ghost hc = (h - 1) as nat;
                let target_idx = route_index(&max_keys, key);
                let target_child = children[target_idx];
                proof {
                    assert(tree_wf(old_disk, target_child, hc, false));
                }
                let maybe_right = match self.insert_recursive(target_child, key, value, Ghost(hc), Ghost(false)) {
                    Ok(split) => split,
                    Err(e) => return Err(e),
                };
                let ghost d1 = self.pager@;
                if let Some(new_right_child) = maybe_right {
                    children.insert(target_idx + 1, new_right_child);
                }
                let ghost expected = Seq::new((children@.len() - 1) as nat, |i: int| max_key(d1, children@[i], hc));
                proof {
                    match maybe_right {
                        None => lemma_merge_unsplit(old_disk, d1, page_id, h, allow_empty, key, value, expected),
                        Some(nr) => lemma_merge_split(old_disk, d1, page_id, h, allow_empty, key, value, nr, expected),
                    }
                    assert(merged_ok(old_disk, d1, page_id, h, key, value, children@, expected));
                }
                let new_max_keys = match self.compute_max_keys(children.as_slice(), Ghost(hc)) {
                    Ok(keys) => keys,
                    Err(e) => return Err(e),
                };
                assert(new_max_keys@ =~= expected);
                if new_max_keys.len() <= INTERNAL_CAPACITY {
                    match write_node(
                        &mut self.pager,
                        page_id,
                        &Node::Internal(InternalNode { children, max_keys: new_max_keys }),
                    ) {
                        Ok(()) => {},
                        Err(e) => return Err(e),
                    }
                    proof {
                        lemma_merged_written(old_disk, d1, page_id, h, allow_empty, key, value, children@, expected);
                        lemma_node_round_trip(NodeView::Internal(children@, expected));
                        assert(node_at(self.pager@, page_id) == Some(NodeView::Internal(children@, expected)));
                        assert(children@.len() <= cs.len() + 1);
                    }
                    return Ok(None);
                }
                let ghost cs2 = children@;
                let split_child_index = children.len() / 2;
                let right_children = children.split_off(split_child_index);
                proof {
                    assert(children_wf(d1, children@, hc)) by {
                        assert forall|i: int| 0 <= i < children@.len() implies tree_wf(d1, #[trigger] children@[i], hc, false) by {
                            assert(children@[i] == cs2[i]);
                        }
                    }
                    assert(children_wf(d1, right_children@, hc)) by {
                        assert forall|i: int| 0 <= i < right_children@.len() implies tree_wf(d1, #[trigger] right_children@[i], hc, false) by {
                            assert(right_children@[i] == cs2[i + split_child_index]);
                        }
                    }
                }
                let left_max_keys = match self.compute_max_keys(children.as_slice(), Ghost(hc)) {
                    Ok(keys) => keys,
                    Err(e) => return Err(e),
                };
                let right_max_keys = match self.compute_max_keys(right_children.as_slice(), Ghost(hc)) {
                    Ok(keys) => keys,
                    Err(e) => return Err(e),
                };
                let ghost left_ms = left_max_keys@;
                let ghost right_ms = right_max_keys@;
                proof {
                    assert forall|i: int| 0 <= i < left_ms.len() implies #[trigger] left_ms[i] == max_key(d1, cs2[i], hc) by {
                        assert(children@[i] == cs2[i]);
                    }
                    assert forall|i: int| 0 <= i < right_ms.len() implies #[trigger] right_ms[i] == max_key(
                        d1,
                        cs2[i + cs2.len() / 2],
                        hc,
                    ) by {
                        assert(right_children@[i] == cs2[i + split_child_index]);
                    }
                }
                let right_page = self.pager.allocate_page();
                match write_node(
                    &mut self.pager,
                    page_id,
                    &Node::Internal(InternalNode { children, max_keys: left_max_keys }),
                ) {
                    Ok(()) => {},
                    Err(e) => return Err(e),
                }
                match write_node(
                    &mut self.pager,
                    right_page,
                    &Node::Internal(InternalNode { children: right_children, max_keys: right_max_keys }),
                ) {
                    Ok(()) => {},
                    Err(e) => return Err(e),
                }
                proof {
                    lemma_halves_done(
                        old_disk,
                        d1,
                        page_id,
                        h,
                        allow_empty,
                        key,
                        value,
                        cs2,
                        expected,
                        left_ms,
                        right_ms,
                        right_page,
                        zero_page(),
                    );
                }
                Ok(Some(right_page))
            },
        }
    }

    /// Looks `key` up below `page_id`.
    fn get_recursive(&self, page_id: u32, key: u64, Ghost(h): Ghost<nat>, Ghost(allow_empty): Ghost<bool>) -> (result: Result<Option<u64>, DatabaseError>)
        requires
            self.pager.wf(),
            tree_wf(self.pager@, page_id, h, allow_empty),
        ensures
            result == Ok::<Option<u64>, DatabaseError>(lookup(self.pager@, page_id, key, h)),
        decreases h,
    {
        proof {
            lemma_decoded_internal(disk_page(self.pager@, page_id as int));
        }
        match read_node(&self.pager, page_id) {
            Err(e) => Err(e),
            Ok(Node::Leaf(leaf)) => {
                match search_entries(&leaf.entries, key) {
                    Ok(index) => {
                        proof {
                            lemma_leaf_lookup_at(leaf.entries@, key, index as int);
                        }
                        Ok(Some(leaf.entries[index].value))
                    },
                    Err(index) => {
                        proof {
                            if exists|j: int| 0 <= j < leaf.entries@.len() && leaf.entries@[j].key == key {
                                let j = choose|j: int| 0 <= j < leaf.entries@.len() && leaf.entries@[j].key == key;
                                if j < index {
                                    assert(leaf.entries@[j].key < key);
                                } else {
                                    assert(leaf.entries@[j].key > key);
                                }
                            }
                        }
                        Ok(None)
                    },
                }
            },
            Ok(Node::Internal(internal)) => {
                let idx = route_index(&internal.max_keys, key);
                let child = internal.children[idx];
                proof {
                    assert(tree_wf(self.pager@, child, (h - 1) as nat, false));
                }
                self.get_recursive(child, key, Ghost((h - 1) as nat), Ghost(false))
            },
        }
    }

    /// The greatest key below `page_id`: the last key of its rightmost leaf.
    fn max_key_of_page(&self, page_id: u32, Ghost(h): Ghost<nat>) -> (result: Result<u64, DatabaseError>)
        requires
            self.pager.wf(),
            tree_wf(self.pager@, page_id, h, false),
        ensures
            result == Ok::<u64, DatabaseError>(max_key(self.pager@, page_id, h)),
        decreases h,
    {
        proof {
            lemma_decoded_internal(disk_page(self.pager@, page_id as int));
        }
        match read_node(&self.pager, page_id) {
            Err(e) => Err(e),
            Ok(Node::Leaf(leaf)) => {
                let count = leaf.entries.len();
                if count == 0 {
                    return Err(DatabaseError::corrupt("leaf node unexpectedly empty"));
                }
                Ok(leaf.entries[count - 1].key)
            },
            Ok(Node::Internal(internal)) => {
                let count = internal.children.len();
                if count == 0 {
                    return Err(DatabaseError::corrupt("internal node has no children"));
                }
                let last = internal.children[count - 1];
                proof {
                    assert(tree_wf(self.pager@, last, (h - 1) as nat, false));
                }
                self.max_key_of_page(last, Ghost((h - 1) as nat))
            },
        }
    }

    /// The separator keys for a run of children: the greatest key of each child but the
    /// last.
    fn compute_max_keys(&self, children: &[u32], Ghost(h): Ghost<nat>) -> (result: Result<Vec<u64>, DatabaseError>)
        requires
            self.pager.wf(),
            children_wf(self.pager@, children@, h),
        ensures
            result matches Ok(keys) && keys@.len() == (if children@.len() == 0 {
                0
            } else {
                children@.len() - 1
            }) && forall|i: int| 0 <= i < keys@.len() ==> #[trigger] keys@[i] == max_key(self.pager@, children@[i], h),
    {
        if children.len() <= 1 {
            return Ok(Vec::new());
        }
        let mut max_keys: Vec<u64> = Vec::with_capacity(children.len() - 1);
        let mut i: usize = 0;
        while i < children.len() - 1
            invariant
                self.pager.wf(),
                children_wf(self.pager@, children@, h),
                children@.len() > 1,
                i <= children@.len() - 1,
                max_keys@.len() == i,
                forall|j: int| 0 <= j < i ==> #[trigger] max_keys@[j] == max_key(self.pager@, children@[j], h),
            decreases children@.len() - 1 - i,
        {
            proof {
                assert(tree_wf(self.pager@, children@[i as int], h, false));
            }
            let m = match self.max_key_of_page(children[i], Ghost(h)) {
                Ok(m) => m,
                Err(e) => return Err(e),
            };
            max_keys.push(m);
            i = i + 1;
        }
        Ok(max_keys)
    }
}

/// After a root split into `root` and `right_page`, a new root page over the two halves,
/// named by the metadata page, is a valid tree one level higher that holds the old
/// contents with `key` set.
proof fn lemma_grow_root(
    old_disk: Seq<Seq<u8>>,
    d1: Seq<Seq<u8>>,
    d4: Seq<Seq<u8>>,
    root: u32,
    right_page: u32,
    new_root: u32,
    left_max: u64,
    h: nat,
    key: u64,
    value: u64,
)
    requires
        tree_wf(d1, root, h, false),
        tree_wf(d1, right_page, h, false),
        tree_pages(d1, root, h).disjoint(tree_pages(d1, right_page, h)),
        max_key(d1, root, h) < crate::engine::tree::min_key(d1, right_page, h),
        forall|k: u64| #[trigger] updated_lookup(old_disk, root, h, key, value, k) == if k <= max_key(d1, root, h) {
            lookup(d1, root, k, h)
        } else {
            lookup(d1, right_page, k, h)
        },
        new_root == d1.len(),
        left_max == max_key(d1, root, h),
        d4 == d1.push(zero_page()).update(
            new_root as int,
            encode_node(NodeView::Internal(seq![root, right_page], seq![left_max])),
        ).update(0, meta_page(new_root)),
    ensures
        tree_wf(d4, new_root, h + 1, true),
        meta_root(disk_page(d4, 0)) == Some(new_root),
        forall|k: u64| #[trigger] lookup(d4, new_root, k, h + 1) == updated_lookup(old_disk, root, h, key, value, k),
{
    let node = NodeView::Internal(seq![root, right_page], seq![left_max]);
    let d3 = d1.push(zero_page()).update(new_root as int, encode_node(node));
    lemma_capacities();
    lemma_node_round_trip(node);
    lemma_meta_round_trip(new_root);
    lemma_tree_pages_in_file(d1, root, h, false);
    lemma_tree_pages_in_file(d1, right_page, h, false);
    assert(node_at(d4, new_root) == Some(node)) by {
        assert(disk_page(d4, new_root as int) == disk_page(d3, new_root as int));
    }
    assert(agree_on(d1, d4, tree_pages(d1, root, h)));
    assert(agree_on(d1, d4, tree_pages(d1, right_page, h)));
    lemma_tree_frame(d1, d4, root, h, false);
    lemma_tree_frame(d1, d4, right_page, h, false);
    let cs = seq![root, right_page];
    let ms = seq![left_max];
    assert(children_wf(d4, cs, h));
    assert(children_ok(d4, new_root, cs, ms, h));
    assert(tree_wf(d4, new_root, h + 1, true));
    assert forall|k: u64| #[trigger] lookup(d4, new_root, k, h + 1) == updated_lookup(old_disk, root, h, key, value, k) by {
        lemma_route(ms, k, 0);
        assert(updated_lookup(old_disk, root, h, key, value, k) == if k <= max_key(d1, root, h) {
            lookup(d1, root, k, h)
        } else {
            lookup(d1, right_page, k, h)
        });
        if k <= left_max {
            assert(route(ms, k) == 0);
            assert(cs[0] == root);
            assert(lookup(d4, new_root, k, h + 1) == lookup(d4, root, k, h));
            assert(lookup(d4, root, k, h) == lookup(d1, root, k, h));
        } else {
            assert(route(ms, k) == 1);
            assert(cs[1] == right_page);
            assert(lookup(d4, new_root, k, h + 1) == lookup(d4, right_page, k, h));
            assert(lookup(d4, right_page, k, h) == lookup(d1, right_page, k, h));
        }
    }
}

/// A read gives back the last write of its key, and only of its key: after `key` is set
/// to `value`, a read of `key` finds `value` and a read of any other key finds what it
/// found before.
pub proof fn lemma_read_after_write(before: Map<u64, u64>, key: u64, value: u64, other: u64)
    ensures
        map_get(before.insert(key, value), key) == Some(value),
        other != key ==> map_get(before.insert(key, value), other) == map_get(before, other),
{
}

/// `d1` holds the same metadata page as `old`.
pub open spec fn agree_at_meta(old: Seq<Seq<u8>>, d1: Seq<Seq<u8>>) -> bool {
    0 < old.len() && 0 < d1.len() && d1[0] == old[0]
}

} // verus!
