//! The partition of a stream of documents by file name key.
use crate::key::{derive_key, key_of, key_of_hash, name_of};
use crate::node::{field, str_field};
use crate::node::Node;
use vstd::prelude::*;

verus! {

/// The map from key to document (by its index in the stream) that the
/// documents give: each document with a key is entered in turn, so a later
/// document replaces an earlier one with the same key, and a document
/// without a key is left out.
pub open spec fn grouped(docs: Seq<Node>) -> Map<Seq<char>, int>
    decreases docs.len(),
{
    if docs.len() == 0 {
        Map::empty()
    } else {
        let before = grouped(docs.drop_last());
        match key_of(docs.last()) {
            Some(k) => before.insert(k, docs.len() - 1),
            None => before,
        }
    }
}

/// The map that a list of distinct keys and their documents stands for.
pub open spec fn entries_map(entries: Seq<(String, usize)>) -> Map<Seq<char>, int>
    decreases entries.len(),
{
    if entries.len() == 0 {
        Map::empty()
    } else {
        entries_map(entries.drop_last()).insert(
            entries.last().0@,
            entries.last().1 as int,
        )
    }
}

/// A map from file name key to the index of one document of the stream.
pub struct Grouping {
    entries: Vec<(String, usize)>,
}

impl View for Grouping {
    type V = Map<Seq<char>, int>;

    closed spec fn view(&self) -> Map<Seq<char>, int> {
        entries_map(self.entries@)
    }
}

proof fn lemma_entries_map_keys(entries: Seq<(String, usize)>)
    ensures
        forall|k: Seq<char>|
            entries_map(entries).contains_key(k) <==> exists|i: int|
                0 <= i < entries.len() && #[trigger] entries[i].0@ == k,
    decreases entries.len(),
{
    if entries.len() > 0 {
        let init = entries.drop_last();
        lemma_entries_map_keys(init);
        assert forall|k: Seq<char>| #[trigger] entries_map(entries).contains_key(k) implies
            exists|i: int| 0 <= i < entries.len() && #[trigger] entries[i].0@ == k by {
            if k == entries.last().0@ {
                assert(entries[entries.len() - 1].0@ == k);
            } else {
                assert(entries_map(init).contains_key(k));
                let i = choose|i: int| 0 <= i < init.len() && #[trigger] init[i].0@ == k;
                assert(entries[i].0@ == k);
            }
        }
        assert forall|i: int| 0 <= i < entries.len() implies entries_map(
            entries,
        ).contains_key(#[trigger] entries[i].0@) by {
            if i < entries.len() - 1 {
                assert(init[i].0@ == entries[i].0@);
            }
        }
    }
}

proof fn lemma_entries_map_at(entries: Seq<(String, usize)>, i: int)
    requires
        0 <= i < entries.len(),
        forall|a: int, b: int|
            0 <= a < b < entries.len() ==> entries[a].0@ != entries[b].0@,
    ensures
        entries_map(entries).contains_key(entries[i].0@),
        entries_map(entries)[entries[i].0@] == entries[i].1 as int,
    decreases entries.len(),
{
    lemma_entries_map_keys(entries);
    if i < entries.len() - 1 {
        lemma_entries_map_at(entries.drop_last(), i);
    }
}

proof fn lemma_entries_map_len(entries: Seq<(String, usize)>)
    requires
        forall|a: int, b: int|
            0 <= a < b < entries.len() ==> entries[a].0@ != entries[b].0@,
    ensures
        entries_map(entries).dom().finite(),
        entries_map(entries).len() == entries.len(),
    decreases entries.len(),
{
    if entries.len() > 0 {
        let init = entries.drop_last();
        lemma_entries_map_len(init);
        lemma_entries_map_keys(init);
        assert(!entries_map(init).contains_key(entries.last().0@));
    }
}

impl Grouping {
    /// The keys of the entries are distinct.
    pub closed spec fn wf(&self) -> bool {
        forall|a: int, b: int|
            0 <= a < b < self.entries@.len() ==> self.entries@[a].0@ != self.entries@[b].0@
    }

    /// An empty map.
    pub fn new() -> (r: Grouping)
        ensures
            r.wf(),
            r@ == Map::<Seq<char>, int>::empty(),
    {
        Grouping { entries: Vec::new() }
    }

    /// Enters `doc` under `key`, replacing what the key held before.
    pub fn insert(&mut self, key: String, doc: usize)
        requires
            old(self).wf(),
        ensures
            final(self).wf(),
            final(self)@ == old(self)@.insert(key@, doc as int),
    {
        let ghost before = self.entries@;
        let mut i: usize = 0;
        while i < self.entries.len()
            invariant
                0 <= i <= self.entries@.len(),
                self.entries@ == before,
                old(self).entries@ == before,
                self.wf(),
                forall|j: int| 0 <= j < i ==> self.entries@[j].0@ != key@,
            decreases self.entries@.len() - i,
        {
            if self.entries[i].0 == key {
                proof {
                    lemma_entries_map_keys(before);
                    lemma_entries_map_at(before, i as int);
                }
                self.entries.set(i, (key, doc));
                proof {
                    let after = self.entries@;
                    lemma_entries_map_keys(after);
                    assert forall|k: Seq<char>| #[trigger]
                        entries_map(after).contains_key(k) implies entries_map(after)[k]
                        == entries_map(before).insert(key@, doc as int)[k] by {
                        let m = choose|m: int| 0 <= m < after.len() && #[trigger] after[m].0@ == k;
                        lemma_entries_map_at(after, m);
                        if m != i {
                            assert(before[m] == after[m]);
                            lemma_entries_map_at(before, m);
                        }
                    }
                    assert forall|k: Seq<char>|
                        entries_map(before).insert(key@, doc as int).contains_key(k) implies
                        #[trigger] entries_map(after).contains_key(k) by {
                        if k != key@ {
                            let m = choose|m: int| 0 <= m < before.len() && #[trigger] before[m].0@ == k;
                            assert(after[m].0@ == k);
                        } else {
                            assert(after[i as int].0@ == k);
                        }
                    }
                    assert(entries_map(after) =~= entries_map(before).insert(key@, doc as int));
                }
                return;
            }
            i = i + 1;
        }
        self.entries.push((key, doc));
        assert(self.entries@.drop_last() =~= before);
    }

    /// The document held under `key`, if any.
    pub fn get(&self, key: &str) -> (r: Option<usize>)
        requires
            self.wf(),
        ensures
            match r {
                Some(d) => self@.contains_key(key@) && self@[key@] == d as int,
                None => !self@.contains_key(key@),
            },
    {
        let wanted = String::from_str(key);
        let mut i: usize = 0;
        while i < self.entries.len()
            invariant
                0 <= i <= self.entries@.len(),
                wanted@ == key@,
                self.wf(),
                forall|j: int| 0 <= j < i ==> self.entries@[j].0@ != key@,
            decreases self.entries@.len() - i,
        {
            if self.entries[i].0 == wanted {
                proof {
                    lemma_entries_map_at(self.entries@, i as int);
                }
                return Some(self.entries[i].1);
            }
            i = i + 1;
        }
        proof {
            lemma_entries_map_keys(self.entries@);
        }
        None
    }

    /// The number of keys.
    pub fn len(&self) -> (r: usize)
        requires
            self.wf(),
        ensures
            r == self@.len(),
    {
        proof {
            lemma_entries_map_len(self.entries@);
        }
        self.entries.len()
    }

    /// The entries as pairs of key and document, each key once.
    pub fn into_entries(self) -> (r: Vec<(String, usize)>)
        requires
            self.wf(),
        ensures
            entries_map(r@) == self@,
            forall|a: int, b: int| 0 <= a < b < r@.len() ==> r@[a].0@ != r@[b].0@,
    {
        self.entries
    }
}

/// Every key of the grouping is the key of some document, and every key of
/// a document is in the grouping.
pub proof fn lemma_grouped_keys(docs: Seq<Node>)
    ensures
        forall|k: Seq<char>|
            grouped(docs).contains_key(k) <==> exists|i: int|
                0 <= i < docs.len() && #[trigger] key_of(docs[i]) == Some(k),
    decreases docs.len(),
{
    if docs.len() > 0 {
        let init = docs.drop_last();
        lemma_grouped_keys(init);
        assert forall|k: Seq<char>| #[trigger] grouped(docs).contains_key(k) implies exists|i: int|
            0 <= i < docs.len() && #[trigger] key_of(docs[i]) == Some(k) by {
            if key_of(docs.last()) == Some(k) {
                assert(key_of(docs[docs.len() - 1]) == Some(k));
            } else {
                assert(grouped(init).contains_key(k));
                let i = choose|i: int| 0 <= i < init.len() && #[trigger] key_of(init[i]) == Some(k);
                assert(key_of(docs[i]) == Some(k));
            }
        }
        assert forall|i: int| 0 <= i < docs.len() && #[trigger] key_of(docs[i]) is Some implies grouped(
            docs,
        ).contains_key(key_of(docs[i])->0) by {
            let k = key_of(docs[i])->0;
            if i < docs.len() - 1 {
                assert(key_of(init[i]) == Some(k));
                assert(grouped(init).contains_key(k));
            } else {
                assert(docs.last() == docs[i]);
            }
        }
    }
}

/// The document that the grouping holds under a key has that key, and no
/// later document has it.
pub proof fn lemma_grouped_last(docs: Seq<Node>)
    ensures
        forall|k: Seq<char>| #[trigger]
            grouped(docs).contains_key(k) ==> {
                let d = grouped(docs)[k];
                &&& 0 <= d < docs.len()
                &&& key_of(docs[d]) == Some(k)
                &&& forall|j: int| d < j < docs.len() ==> key_of(#[trigger] docs[j]) != Some(k)
            },
    decreases docs.len(),
{
    if docs.len() > 0 {
        let init = docs.drop_last();
        lemma_grouped_last(init);
        assert forall|k: Seq<char>| #[trigger] grouped(docs).contains_key(k) implies {
            let d = grouped(docs)[k];
            &&& 0 <= d < docs.len()
            &&& key_of(docs[d]) == Some(k)
            &&& forall|j: int| d < j < docs.len() ==> key_of(#[trigger] docs[j]) != Some(k)
        } by {
            if key_of(docs.last()) != Some(k) {
                let d = grouped(init)[k];
                assert(grouped(init).contains_key(k));
                assert(key_of(init[d]) == key_of(docs[d]));
                assert forall|j: int| d < j < docs.len() implies key_of(#[trigger] docs[j]) != Some(k) by {
                    if j < docs.len() - 1 {
                        assert(init[j] == docs[j]);
                    }
                }
            }
        }
    }
}

/// A document without a key is held under no key of the grouping.
pub proof fn lemma_keyless_left_out(docs: Seq<Node>, i: int)
    requires
        0 <= i < docs.len(),
        key_of(docs[i]) is None,
    ensures
        forall|k: Seq<char>| #[trigger] grouped(docs).contains_key(k) ==> grouped(docs)[k] != i,
{
    lemma_grouped_last(docs);
}

/// A document whose top level is not a mapping has no key and is left out
/// of the grouping, without an error.
pub proof fn lemma_non_mapping_left_out(docs: Seq<Node>, i: int)
    requires
        0 <= i < docs.len(),
        !(docs[i] is Hash),
    ensures
        key_of(docs[i]) is None,
        forall|k: Seq<char>| #[trigger] grouped(docs).contains_key(k) ==> grouped(docs)[k] != i,
{
    lemma_keyless_left_out(docs, i);
}

/// A mapping without `metadata` has no key and is left out of the grouping.
pub proof fn lemma_missing_metadata_left_out(docs: Seq<Node>, i: int)
    requires
        0 <= i < docs.len(),
        docs[i] matches Node::Hash(hash) && field(hash@, "metadata"@) is None,
    ensures
        key_of(docs[i]) is None,
        forall|k: Seq<char>| #[trigger] grouped(docs).contains_key(k) ==> grouped(docs)[k] != i,
{
    lemma_keyless_left_out(docs, i);
}

/// Of two documents with the same key, the later one in the stream wins:
/// the grouping holds that key once, under the later one or one after it.
pub proof fn lemma_later_duplicate_wins(docs: Seq<Node>, i: int, j: int)
    requires
        0 <= i < j < docs.len(),
        key_of(docs[i]) is Some,
        key_of(docs[i]) == key_of(docs[j]),
    ensures
        grouped(docs).contains_key(key_of(docs[j])->0),
        grouped(docs)[key_of(docs[j])->0] >= j,
        grouped(docs)[key_of(docs[j])->0] != i,
{
    let k = key_of(docs[j])->0;
    lemma_grouped_keys(docs);
    lemma_grouped_last(docs);
    assert(grouped(docs).contains_key(k));
}

/// An empty stream gives an empty grouping.
pub proof fn lemma_empty_stream()
    ensures
        grouped(Seq::<Node>::empty()) == Map::<Seq<char>, int>::empty(),
{
}

/// Groups the documents of a stream by file name key: each key maps to the
/// last document that has it, and documents without a key are left out.
pub fn split_to_files(docs: &Vec<Node>) -> (r: Grouping)
    ensures
        r.wf(),
        r@ == grouped(docs@),
        forall|k: Seq<char>|
            r@.contains_key(k) <==> exists|i: int|
                0 <= i < docs@.len() && #[trigger] key_of(docs@[i]) == Some(k),
        forall|k: Seq<char>| #[trigger]
            r@.contains_key(k) ==> {
                let d = r@[k];
                &&& 0 <= d < docs@.len()
                &&& key_of(docs@[d]) == Some(k)
                &&& forall|j: int| d < j < docs@.len() ==> key_of(#[trigger] docs@[j]) != Some(k)
            },
{
    let mut r = Grouping::new();
    let mut i: usize = 0;
    while i < docs.len()
        invariant
            0 <= i <= docs@.len(),
            r.wf(),
            r@ == grouped(docs@.subrange(0, i as int)),
        decreases docs@.len() - i,
    {
        assert(docs@.subrange(0, i + 1).drop_last() =~= docs@.subrange(0, i as int));
        match derive_key(&docs[i]) {
            Some(k) => r.insert(k, i),
            None => {},
        }
        i = i + 1;
    }
    assert(docs@.subrange(0, docs@.len() as int) =~= docs@);
    proof {
        lemma_grouped_keys(docs@);
        lemma_grouped_last(docs@);
    }
    r
}

} // verus!
