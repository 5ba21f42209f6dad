//! The archive: a document store and a reverse index from words to the
//! identifiers of the documents that contain them.
use vstd::prelude::*;
use crate::multimap::ConcurrentMultiMap;

verus! {

/// The number of shards of the reverse index.
pub const BUCKETS: usize = 128;

/// The words of a text, as `str::split_whitespace` yields them.
pub uninterp spec fn words_of(s: Seq<char>) -> Seq<Seq<char>>;

/// Relies on `str::split_whitespace`: the words of a text, in order, depend
/// on its characters alone.
#[verifier::external_body]
fn split_words(text: &str) -> (r: Vec<String>)
    ensures
        r@.map_values(|w: String| w@) == words_of(text@),
{
    text.split_whitespace().map(|w| w.to_string()).collect()
}

/// The identifiers, in increasing order, of the documents among `docs` whose
/// words include `w`.
pub open spec fn ids_with(docs: Seq<Seq<char>>, w: Seq<char>) -> Seq<usize>
    decreases docs.len(),
{
    if docs.len() == 0 {
        seq![]
    } else {
        let earlier = ids_with(docs.drop_last(), w);
        if words_of(docs.last()).contains(w) {
            earlier.push((docs.len() - 1) as usize)
        } else {
            earlier
        }
    }
}

proof fn lemma_ids_with_below(docs: Seq<Seq<char>>, w: Seq<char>)
    requires
        docs.len() <= usize::MAX,
    ensures
        forall|t: int| 0 <= t < ids_with(docs, w).len() ==> #[trigger] ids_with(docs, w)[t] < docs.len(),
    decreases docs.len(),
{
    if docs.len() > 0 {
        let init = docs.drop_last();
        lemma_ids_with_below(init, w);
        let e = ids_with(init, w);
        assert forall|t: int| 0 <= t < ids_with(docs, w).len() implies #[trigger] ids_with(
            docs,
            w,
        )[t] < docs.len() by {
            if t < e.len() {
                assert(ids_with(docs, w)[t] == e[t]);
            }
        }
    }
}

/// A searchable archive of text documents.
pub struct Database {
    /// Each word maps to the identifiers of the documents that contain it.
    reverse_index: ConcurrentMultiMap,
    /// The documents; a document's identifier is its position.
    blob_store: Vec<String>,
}

impl Database {
    /// The texts of the documents, by identifier.
    pub closed spec fn docs(&self) -> Seq<Seq<char>> {
        self.blob_store@.map_values(|d: String| d@)
    }

    /// The reverse index holds, for every word, exactly the documents that contain it.
    pub closed spec fn wf(&self) -> bool {
        &&& self.reverse_index.wf()
        &&& forall|w: Seq<char>| #[trigger]
            self.reverse_index.values(w) == ids_with(self.docs(), w)
    }

    /// An empty archive.
    pub fn new() -> (r: Self)
        ensures
            r.wf(),
            r.docs() == Seq::<Seq<char>>::empty(),
    {
        let r = Database { reverse_index: ConcurrentMultiMap::new(BUCKETS), blob_store: Vec::new() };
        assert(r.docs() =~= Seq::<Seq<char>>::empty());
        assert forall|w: Seq<char>| #[trigger]
            r.reverse_index.values(w) == ids_with(r.docs(), w) by {}
        r
    }

    /// Stores `doc` under the next identifier, indexes its words, and returns
    /// the identifier.
    pub fn publish(&mut self, doc: String) -> (id: usize)
        requires
            old(self).wf(),
        ensures
            final(self).wf(),
            id == old(self).docs().len(),
            final(self).docs() == old(self).docs().push(doc@),
    {
        let id = self.blob_store.len();
        let words = split_words(doc.as_str());
        let ghost old_docs = self.docs();
        let ghost new_docs = old_docs.push(doc@);
        let ghost ws = words@.map_values(|w: String| w@);
        proof {
            assert forall|w: Seq<char>| !(#[trigger] ids_with(old_docs, w)).contains(id) by {
                lemma_ids_with_below(old_docs, w);
            }
        }
        let mut j: usize = 0;
        while j < words.len()
            invariant
                self.reverse_index.wf(),
                self.docs() == old_docs,
                id == old_docs.len(),
                ws == words@.map_values(|w: String| w@),
                j <= words@.len(),
                forall|w: Seq<char>| !(#[trigger] ids_with(old_docs, w)).contains(id),
                forall|w: Seq<char>| #[trigger]
                    self.reverse_index.values(w) == if ws.subrange(0, j as int).contains(w) {
                        ids_with(old_docs, w).push(id)
                    } else {
                        ids_with(old_docs, w)
                    },
            decreases words@.len() - j,
        {
            let word = words[j].clone();
            let ghost before = self.reverse_index;
            self.reverse_index.set(word, id);
            j = j + 1;
            proof {
                assert forall|w: Seq<char>| #[trigger]
                    self.reverse_index.values(w) == if ws.subrange(0, j as int).contains(w) {
                        ids_with(old_docs, w).push(id)
                    } else {
                        ids_with(old_docs, w)
                    } by {
                    let pre = ws.subrange(0, j - 1);
                    let cur = ws.subrange(0, j as int);
                    assert(cur =~= pre.push(ws[j - 1]));
                    assert(before.values(w) == self.reverse_index.values(w) || w == ws[j - 1]);
                    if w == ws[j - 1] {
                        assert(cur[j - 1] == w);
                        let p = ids_with(old_docs, w).push(id);
                        assert(p[p.len() - 1] == id);
                    } else {
                        if cur.contains(w) {
                            let t = choose|t: int| 0 <= t < cur.len() && cur[t] == w;
                            assert(pre[t] == w);
                        }
                        if pre.contains(w) {
                            let t = choose|t: int| 0 <= t < pre.len() && pre[t] == w;
                            assert(cur[t] == w);
                        }
                    }
                }
            }
        }
        self.blob_store.push(doc);
        proof {
            assert(self.docs() =~= new_docs);
            assert(ws.subrange(0, ws.len() as int) =~= ws);
            assert forall|w: Seq<char>| #[trigger]
                self.reverse_index.values(w) == ids_with(self.docs(), w) by {
                assert(new_docs.drop_last() =~= old_docs);
            }
        }
        id
    }

    /// The identifiers of the documents that contain `word`, in increasing order.
    pub fn search(&self, word: &str) -> (r: Vec<usize>)
        requires
            self.wf(),
        ensures
            r@ == ids_with(self.docs(), word@),
    {
        self.reverse_index.get(word)
    }

    /// The document with identifier `id`, or `None` when there is none.
    pub fn retrieve(&self, id: usize) -> (r: Option<String>)
        ensures
            match r {
                Some(d) => id < self.docs().len() && d@ == self.docs()[id as int],
                None => id >= self.docs().len(),
            },
    {
        if id < self.blob_store.len() {
            Some(self.blob_store[id].clone())
        } else {
            None
        }
    }
}

/// Every identifier of a document that contains `w` is among the search results for `w`.
pub proof fn lemma_search_finds_document(db: Database, w: Seq<char>, i: usize)
    requires
        i < db.docs().len(),
        words_of(db.docs()[i as int]).contains(w),
    ensures
        ids_with(db.docs(), w).contains(i),
{
    assert(db.blob_store.len() == db.docs().len());
    lemma_ids_with_contains(db.docs(), w, i as int);
}

proof fn lemma_ids_with_contains(docs: Seq<Seq<char>>, w: Seq<char>, i: int)
    requires
        0 <= i < docs.len(),
        docs.len() <= usize::MAX,
        words_of(docs[i]).contains(w),
    ensures
        ids_with(docs, w).contains(i as usize),
    decreases docs.len(),
{
    let init = docs.drop_last();
    let r = ids_with(docs, w);
    if i == docs.len() - 1 {
        assert(r[r.len() - 1] == i as usize);
    } else {
        assert(init[i] == docs[i]);
        lemma_ids_with_contains(init, w, i);
        let e = ids_with(init, w);
        let t = choose|t: int| 0 <= t < e.len() && e[t] == i as usize;
        assert(r[t] == e[t]);
    }
}

/// A word that no document contains has no search results.
pub proof fn lemma_search_unknown_word(db: Database, w: Seq<char>)
    requires
        forall|i: int| 0 <= i < db.docs().len() ==> !(#[trigger] words_of(db.docs()[i])).contains(w),
    ensures
        ids_with(db.docs(), w) == Seq::<usize>::empty(),
{
    lemma_ids_with_none(db.docs(), w);
}

proof fn lemma_ids_with_none(docs: Seq<Seq<char>>, w: Seq<char>)
    requires
        forall|i: int| 0 <= i < docs.len() ==> !(#[trigger] words_of(docs[i])).contains(w),
    ensures
        ids_with(docs, w) == Seq::<usize>::empty(),
    decreases docs.len(),
{
    if docs.len() > 0 {
        let init = docs.drop_last();
        assert forall|i: int| 0 <= i < init.len() implies !(#[trigger] words_of(init[i])).contains(w) by {
            assert(init[i] == docs[i]);
        }
        lemma_ids_with_none(init, w);
        assert(!words_of(docs[docs.len() - 1]).contains(w));
    }
}

proof fn lemma_publish_prefix(states: Seq<Database>, docs: Seq<Seq<char>>, ids: Seq<usize>, k: int)
    requires
        states.len() == ids.len() + 1,
        docs.len() == ids.len(),
        states[0].docs().len() == 0,
        forall|i: int|
            0 <= i < ids.len() ==> ids[i] == (#[trigger] states[i]).docs().len()
                && states[i + 1].docs() == states[i].docs().push(docs[i]),
        0 <= k <= ids.len(),
    ensures
        states[k].docs() == docs.subrange(0, k),
    decreases k,
{
    if k == 0 {
        assert(states[0].docs() =~= docs.subrange(0, 0));
    } else {
        lemma_publish_prefix(states, docs, ids, k - 1);
        assert(states[k - 1].docs() == docs.subrange(0, k - 1));
        assert(states[k].docs() =~= docs.subrange(0, k));
    }
}

/// Publishing documents one after another into an empty archive hands out the
/// identifiers 0, 1, 2, ... in order, and each identifier then retrieves the
/// text that was published under it.
pub proof fn lemma_publish_sequence(states: Seq<Database>, docs: Seq<Seq<char>>, ids: Seq<usize>)
    requires
        states.len() == ids.len() + 1,
        docs.len() == ids.len(),
        states[0].docs().len() == 0,
        forall|i: int|
            0 <= i < ids.len() ==> ids[i] == (#[trigger] states[i]).docs().len()
                && states[i + 1].docs() == states[i].docs().push(docs[i]),
    ensures
        forall|i: int| 0 <= i < ids.len() ==> #[trigger] ids[i] == i,
        states.last().docs() == docs,
        forall|i: int| 0 <= i < ids.len() ==> states.last().docs()[#[trigger] ids[i] as int] == docs[i],
{
    assert forall|i: int| 0 <= i < ids.len() implies #[trigger] ids[i] == i by {
        lemma_publish_prefix(states, docs, ids, i);
        assert(states[i].docs().len() == i);
    }
    lemma_publish_prefix(states, docs, ids, ids.len() as int);
    assert(docs.subrange(0, ids.len() as int) =~= docs);
}

} // verus!
