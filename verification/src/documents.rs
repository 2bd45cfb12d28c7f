//! A document cache that counts accesses, a document manager that answers
//! lookups from its cache before searching its documents, and a processor that
//! cross-references a manager with documents of its own.
use vstd::prelude::*;
use crate::str_map::StrMap;
use crate::text::str_eq;

verus! {

/// A text document with its metadata.
#[derive(Debug, Clone)]
pub struct Document {
    pub id: String,
    pub title: String,
    pub content: String,
    pub author: String,
}

/// A document's fields as char sequences.
pub struct DocumentModel {
    pub id: Seq<char>,
    pub title: Seq<char>,
    pub content: Seq<char>,
    pub author: Seq<char>,
}

impl View for Document {
    type V = DocumentModel;

    open spec fn view(&self) -> DocumentModel {
        DocumentModel { id: self.id@, title: self.title@, content: self.content@, author: self.author@ }
    }
}

/// A copy of `doc` with the same fields.
pub fn copy_document(doc: &Document) -> (d: Document)
    ensures
        d@ == doc@,
{
    Document {
        id: doc.id.clone(),
        title: doc.title.clone(),
        content: doc.content.clone(),
        author: doc.author.clone(),
    }
}

/// What a cache holds: for each document id, the document and how often it
/// has been looked up since it was inserted.
pub type CacheModel = Map<Seq<char>, (DocumentModel, u32)>;

/// Each cached document is filed under its own id.
pub open spec fn cache_wf(c: CacheModel) -> bool {
    forall|id: Seq<char>| #[trigger] c.contains_key(id) ==> c[id].0.id == id
}

/// The cache after inserting `d`: filed under its id, with no accesses yet.
pub open spec fn cache_insert(c: CacheModel, d: DocumentModel) -> CacheModel {
    c.insert(d.id, (d, 0))
}

/// A lookup of `id`: the cached document, if any, whose access count goes up by one.
pub open spec fn cache_get(c: CacheModel, id: Seq<char>) -> (CacheModel, Option<DocumentModel>) {
    if c.contains_key(id) {
        (c.insert(id, (c[id].0, (c[id].1 + 1) as u32)), Some(c[id].0))
    } else {
        (c, None)
    }
}

/// A lookup of `id` can count one more access without overflow.
pub open spec fn cache_can_count(c: CacheModel, id: Seq<char>) -> bool {
    c.contains_key(id) ==> c[id].1 < u32::MAX
}

/// `d` is a cached document whose access count no other cached document exceeds.
pub open spec fn is_most_accessed(c: CacheModel, d: DocumentModel) -> bool {
    exists|id: Seq<char>|
        #[trigger] c.contains_key(id) && c[id].0 == d && forall|other: Seq<char>|
            #[trigger] c.contains_key(other) ==> c[other].1 <= c[id].1
}

/// A cache of documents by id that counts how often each is looked up.
pub struct DocumentCache {
    documents: StrMap<Document>,
    access_count: StrMap<u32>,
}

impl DocumentCache {
    /// The two maps are well formed, have the same keys, and file each
    /// document under its own id.
    pub closed spec fn wf(&self) -> bool {
        &&& self.documents.wf()
        &&& self.access_count.wf()
        &&& self.documents@.dom() == self.access_count@.dom()
        &&& forall|id: Seq<char>| #[trigger]
            self.documents@.contains_key(id) ==> self.documents@[id]@.id == id
    }

    /// An empty cache.
    pub fn new() -> (cache: DocumentCache)
        ensures
            cache.wf(),
            cache@ == CacheModel::empty(),
    {
        let cache = DocumentCache { documents: StrMap::new(), access_count: StrMap::new() };
        assert(cache@ =~= CacheModel::empty());
        cache
    }

    /// Files a copy of `doc` under its id, replacing any document of that id,
    /// with an access count of zero.
    pub fn insert(&mut self, doc: &Document)
        requires
            old(self).wf(),
        ensures
            final(self).wf(),
            final(self)@ == cache_insert(old(self)@, doc@),
    {
        let ghost old_self = *self;
        self.documents.insert(doc.id.clone(), copy_document(doc));
        self.access_count.insert(doc.id.clone(), 0);
        assert(self.documents@.dom() =~= self.access_count@.dom());
        assert(self@ =~= cache_insert(old_self@, doc@));
    }

    /// A document is filed under `id`.
    pub fn contains(&self, id: &str) -> (r: bool)
        requires
            self.wf(),
        ensures
            r == self@.contains_key(id@),
    {
        self.documents.contains_key(id)
    }

    /// The document filed under `id`, if any, without counting an access.
    pub fn peek(&self, id: &str) -> (r: Option<&Document>)
        requires
            self.wf(),
        ensures
            match r {
                Some(d) => self@.contains_key(id@) && d@ == self@[id@].0,
                None => !self@.contains_key(id@),
            },
    {
        self.documents.get(id)
    }

    /// The document filed under `id`, if any; a hit counts one more access.
    pub fn get(&mut self, id: &str) -> (r: Option<&Document>)
        requires
            old(self).wf(),
            cache_can_count(old(self)@, id@),
        ensures
            final(self).wf(),
            final(self)@ == cache_get(old(self)@, id@).0,
            match r {
                Some(d) => cache_get(old(self)@, id@).1 == Some(d@),
                None => cache_get(old(self)@, id@).1 is None,
            },
    {
        let ghost old_self = *self;
        if self.documents.contains_key(id) {
            let count = *self.access_count.get(id).unwrap();
            self.access_count.insert(id.to_owned(), count + 1);
            assert(self.documents@.dom() =~= self.access_count@.dom());
            assert(self@ =~= cache_get(old_self@, id@).0);
            self.documents.get(id)
        } else {
            None
        }
    }

    /// A document with the highest access count, or none when the cache is empty.
    pub fn get_most_accessed(&self) -> (r: Option<&Document>)
        requires
            self.wf(),
        ensures
            r is None <==> self@.len() == 0,
            match r {
                Some(d) => is_most_accessed(self@, d@),
                None => true,
            },
    {
        proof {
            self.access_count.lemma_entries();
            self.documents.lemma_entries();
        }
        let n = self.access_count.len();
        assert(self@.dom() =~= self.access_count@.dom());
        let mut best: Option<usize> = None;
        let mut best_count: u32 = 0;
        let mut i: usize = 0;
        while i < n
            invariant
                n == self.access_count.keys().len(),
                i <= n,
                match best {
                    Some(b) => b < i && best_count == self.access_count.value_seq()[b as int]
                        && forall|j: int|
                        0 <= j < i ==> #[trigger] self.access_count.value_seq()[j] <= best_count,
                    None => i == 0,
                },
            decreases n - i,
        {
            let c = *self.access_count.value_at(i);
            if best.is_none() || c >= best_count {
                best = Some(i);
                best_count = c;
            }
            i += 1;
        }
        match best {
            Some(b) => {
                let key = self.access_count.key_at(b);
                let ghost kb = self.access_count.keys()[b as int];
                assert(self.access_count@.contains_key(kb));
                assert(self@.contains_key(kb));
                let r = self.documents.get(key.as_str());
                proof {
                    assert forall|other: Seq<char>| #[trigger]
                        self@.contains_key(other) implies self@[other].1 <= self@[kb].1 by {
                        assert(self.access_count.keys().contains(other));
                        let j = choose|j: int|
                            0 <= j < self.access_count.keys().len() && self.access_count.keys()[j]
                                == other;
                        assert(self.access_count@[self.access_count.keys()[j]]
                            == self.access_count.value_seq()[j]);
                    }
                    assert(self@[kb].0 == r.unwrap()@);
                }
                r
            },
            None => {
                assert(self.access_count@.dom() =~= Set::<Seq<char>>::empty());
                None
            },
        }
    }
}

impl View for DocumentCache {
    type V = CacheModel;

    closed spec fn view(&self) -> CacheModel {
        Map::new(
            |id: Seq<char>| self.documents@.contains_key(id),
            |id: Seq<char>| (self.documents@[id]@, self.access_count@[id]),
        )
    }
}

/// The first position at or after `i` of a document with id `id`.
pub open spec fn find_doc_from(docs: Seq<DocumentModel>, id: Seq<char>, i: int) -> Option<int>
    decreases docs.len() - i,
{
    if i < 0 || i >= docs.len() {
        None
    } else if docs[i].id == id {
        Some(i)
    } else {
        find_doc_from(docs, id, i + 1)
    }
}

/// What `find_doc_from` returns: the first document with the id at or after
/// `i`, or none at all.
pub proof fn lemma_find_doc_from(docs: Seq<DocumentModel>, id: Seq<char>, i: int)
    requires
        0 <= i,
    ensures
        match find_doc_from(docs, id, i) {
            Some(j) => i <= j < docs.len() && docs[j].id == id && forall|k: int|
                i <= k < j ==> #[trigger] docs[k].id != id,
            None => forall|k: int| i <= k < docs.len() ==> #[trigger] docs[k].id != id,
        },
    decreases docs.len() - i,
{
    if i < docs.len() && docs[i].id != id {
        lemma_find_doc_from(docs, id, i + 1);
    }
}

/// What a manager holds: its documents in the order they were added, and its cache.
pub struct ManagerModel {
    pub documents: Seq<DocumentModel>,
    pub cache: CacheModel,
}

/// The cache files documents by id, and every cached document is one of the
/// manager's documents.
pub open spec fn manager_wf(m: ManagerModel) -> bool {
    &&& cache_wf(m.cache)
    &&& forall|id: Seq<char>| #[trigger]
        m.cache.contains_key(id) ==> m.documents.contains(m.cache[id].0)
}

/// The manager after adding `d`: appended to the documents and inserted into the cache.
pub open spec fn manager_add(m: ManagerModel, d: DocumentModel) -> ManagerModel {
    ManagerModel { documents: m.documents.push(d), cache: cache_insert(m.cache, d) }
}

/// A lookup of `id`: a cache hit (counted), or else the first document with
/// that id, which then enters the cache, or else nothing.
pub open spec fn manager_find(m: ManagerModel, id: Seq<char>) -> (ManagerModel, Option<
    DocumentModel,
>) {
    if m.cache.contains_key(id) {
        let (c, r) = cache_get(m.cache, id);
        (ManagerModel { documents: m.documents, cache: c }, r)
    } else {
        match find_doc_from(m.documents, id, 0) {
            Some(i) => (
                ManagerModel {
                    documents: m.documents,
                    cache: cache_insert(m.cache, m.documents[i]),
                },
                Some(m.documents[i]),
            ),
            None => (m, None),
        }
    }
}

/// Documents with a cache of the ones looked up.
pub struct DocumentManager {
    documents: Vec<Document>,
    cache: DocumentCache,
}

impl DocumentManager {
    /// The cache is well formed, and holds only the manager's documents.
    pub closed spec fn wf(&self) -> bool {
        self.cache.wf() && manager_wf(self@)
    }

    /// A manager with no documents.
    pub fn new() -> (m: DocumentManager)
        ensures
            m.wf(),
            m@.documents == Seq::<DocumentModel>::empty(),
            m@.cache == CacheModel::empty(),
    {
        let m = DocumentManager { documents: Vec::new(), cache: DocumentCache::new() };
        assert(m@.documents =~= Seq::<DocumentModel>::empty());
        m
    }

    /// Appends `doc` to the documents and caches it.
    pub fn add_document(&mut self, doc: Document)
        requires
            old(self).wf(),
        ensures
            final(self).wf(),
            final(self)@ == manager_add(old(self)@, doc@),
    {
        let ghost old_m = self@;
        self.documents.push(doc);
        let last = &self.documents[self.documents.len() - 1];
        self.cache.insert(last);
        proof {
            assert(self@.documents =~= old_m.documents.push(doc@));
            assert forall|id: Seq<char>| #[trigger]
                self@.cache.contains_key(id) implies self@.documents.contains(self@.cache[id].0) by {
                if id == doc@.id {
                    assert(self@.documents[self@.documents.len() - 1] == doc@);
                } else {
                    let k = choose|k: int|
                        0 <= k < old_m.documents.len() && old_m.documents[k] == old_m.cache[id].0;
                    assert(self@.documents[k] == old_m.documents[k]);
                }
            }
        }
    }

    /// The document with id `id`: from the cache (counting the access), or
    /// else the first one added with that id, which then enters the cache.
    pub fn find_document(&mut self, id: &str) -> (r: Option<&Document>)
        requires
            old(self).wf(),
            cache_can_count(old(self)@.cache, id@),
        ensures
            final(self).wf(),
            final(self)@ == manager_find(old(self)@, id@).0,
            match r {
                Some(d) => manager_find(old(self)@, id@).1 == Some(d@),
                None => manager_find(old(self)@, id@).1 is None,
            },
    {
        let ghost old_m = self@;
        if self.cache.contains(id) {
            proof {
                lemma_find_preserves_manager_wf(old_m, id@);
            }
            return self.cache.get(id);
        }
        proof {
            lemma_find_doc_from(old_m.documents, id@, 0);
            lemma_find_preserves_manager_wf(old_m, id@);
        }
        let mut i: usize = 0;
        let mut found: Option<usize> = None;
        while i < self.documents.len()
            invariant_except_break
                found is None,
                i <= old_m.documents.len(),
                find_doc_from(old_m.documents, id@, 0) == find_doc_from(
                    old_m.documents,
                    id@,
                    i as int,
                ),
            invariant
                self@ == old_m,
            ensures
                match found {
                    Some(j) => find_doc_from(old_m.documents, id@, 0) == Some(j as int),
                    None => find_doc_from(old_m.documents, id@, 0) is None,
                },
            decreases old_m.documents.len() - i,
        {
            if str_eq(self.documents[i].id.as_str(), id) {
                found = Some(i);
                break;
            }
            assert(old_m.documents[i as int].id != id@);
            i += 1;
        }
        match found {
            Some(j) => {
                self.cache.insert(&self.documents[j]);
                assert(self@ == manager_find(old_m, id@).0);
                Some(&self.documents[j])
            },
            None => None,
        }
    }
}

impl View for DocumentManager {
    type V = ManagerModel;

    closed spec fn view(&self) -> ManagerModel {
        ManagerModel { documents: self.documents@.map_values(|d: Document| d@), cache: self.cache@ }
    }
}

/// What a processor holds: a manager, documents of its own, and a cache of
/// the documents it has cross-referenced.
pub struct ProcessorModel {
    pub primary: ManagerModel,
    pub secondary: Seq<DocumentModel>,
    pub temp_cache: CacheModel,
}

/// A cross-reference of `id`: the manager's answer if it has one, or else the
/// first of the processor's own documents with that id; whatever is found
/// enters the processor's cache.
pub open spec fn processor_cross_reference(p: ProcessorModel, id: Seq<char>) -> (
    ProcessorModel,
    Option<DocumentModel>,
) {
    let (pm, found) = manager_find(p.primary, id);
    match found {
        Some(d) => (
            ProcessorModel {
                primary: pm,
                secondary: p.secondary,
                temp_cache: cache_insert(p.temp_cache, d),
            },
            Some(d),
        ),
        None => match find_doc_from(p.secondary, id, 0) {
            Some(i) => (
                ProcessorModel {
                    primary: pm,
                    secondary: p.secondary,
                    temp_cache: cache_insert(p.temp_cache, p.secondary[i]),
                },
                Some(p.secondary[i]),
            ),
            None => (ProcessorModel { primary: pm, secondary: p.secondary, temp_cache: p.temp_cache }, None),
        },
    }
}

/// Looks documents up in a manager and in documents of its own.
pub struct DocumentProcessor {
    primary_manager: DocumentManager,
    secondary_docs: Vec<Document>,
    temp_cache: DocumentCache,
}

impl DocumentProcessor {
    /// The manager and the cache are well formed.
    pub closed spec fn wf(&self) -> bool {
        self.primary_manager.wf() && self.temp_cache.wf()
    }

    /// A processor over `primary`, with no documents of its own and an empty cache.
    pub fn new(primary: DocumentManager) -> (p: DocumentProcessor)
        requires
            primary.wf(),
        ensures
            p.wf(),
            p@.primary == primary@,
            p@.secondary == Seq::<DocumentModel>::empty(),
            p@.temp_cache == CacheModel::empty(),
    {
        let p = DocumentProcessor {
            primary_manager: primary,
            secondary_docs: Vec::new(),
            temp_cache: DocumentCache::new(),
        };
        assert(p@.secondary =~= Seq::<DocumentModel>::empty());
        p
    }

    /// The document with id `id` from the manager, or else from the
    /// processor's own documents; a document found enters the processor's cache.
    pub fn cross_reference(&mut self, id: &str) -> (r: Option<&Document>)
        requires
            old(self).wf(),
            cache_can_count(old(self)@.primary.cache, id@),
        ensures
            final(self).wf(),
            final(self)@ == processor_cross_reference(old(self)@, id@).0,
            match r {
                Some(d) => processor_cross_reference(old(self)@, id@).1 == Some(d@),
                None => processor_cross_reference(old(self)@, id@).1 is None,
            },
    {
        let ghost old_p = self@;
        proof {
            lemma_find_result(old_p.primary, id@);
        }
        let found = match self.primary_manager.find_document(id) {
            Some(doc) => {
                self.temp_cache.insert(doc);
                true
            },
            None => false,
        };
        if found {
            return self.temp_cache.peek(id);
        }
        proof {
            lemma_find_doc_from(old_p.secondary, id@, 0);
        }
        let mut i: usize = 0;
        let mut hit: Option<usize> = None;
        while i < self.secondary_docs.len()
            invariant_except_break
                hit is None,
                i <= old_p.secondary.len(),
                find_doc_from(old_p.secondary, id@, 0) == find_doc_from(
                    old_p.secondary,
                    id@,
                    i as int,
                ),
            invariant
                self.secondary_docs@.map_values(|d: Document| d@) == old_p.secondary,
            ensures
                match hit {
                    Some(j) => find_doc_from(old_p.secondary, id@, 0) == Some(j as int),
                    None => find_doc_from(old_p.secondary, id@, 0) is None,
                },
            decreases old_p.secondary.len() - i,
        {
            if str_eq(self.secondary_docs[i].id.as_str(), id) {
                hit = Some(i);
                break;
            }
            assert(old_p.secondary[i as int].id != id@);
            i += 1;
        }
        match hit {
            Some(j) => {
                assert(old_p.secondary[j as int] == self.secondary_docs[j as int]@);
                self.temp_cache.insert(&self.secondary_docs[j]);
                Some(&self.secondary_docs[j])
            },
            None => None,
        }
    }
}

impl View for DocumentProcessor {
    type V = ProcessorModel;

    closed spec fn view(&self) -> ProcessorModel {
        ProcessorModel {
            primary: self.primary_manager@,
            secondary: self.secondary_docs@.map_values(|d: Document| d@),
            temp_cache: self.temp_cache@,
        }
    }
}

/// A lookup keeps the manager well formed.
pub proof fn lemma_find_preserves_manager_wf(m: ManagerModel, id: Seq<char>)
    requires
        manager_wf(m),
    ensures
        manager_wf(manager_find(m, id).0),
{
    let m2 = manager_find(m, id).0;
    if m.cache.contains_key(id) {
        assert forall|k: Seq<char>| #[trigger] m2.cache.contains_key(k) implies m2.documents.contains(
            m2.cache[k].0,
        ) && m2.cache[k].0.id == k by {
            assert(m.cache.contains_key(k));
        }
    } else {
        lemma_find_doc_from(m.documents, id, 0);
        if let Some(i) = find_doc_from(m.documents, id, 0) {
            assert forall|k: Seq<char>| #[trigger] m2.cache.contains_key(k) implies m2.documents.contains(
                m2.cache[k].0,
            ) && m2.cache[k].0.id == k by {
                if k == id {
                    assert(m2.documents[i] == m2.cache[k].0);
                } else {
                    assert(m.cache.contains_key(k));
                }
            }
        }
    }
}

/// A lookup in a well-formed manager finds a document exactly when one of its
/// documents has the id, and what it finds is such a document.
pub proof fn lemma_find_result(m: ManagerModel, id: Seq<char>)
    requires
        manager_wf(m),
    ensures
        manager_find(m, id).1 is Some <==> exists|i: int|
            0 <= i < m.documents.len() && #[trigger] m.documents[i].id == id,
        match manager_find(m, id).1 {
            Some(d) => d.id == id && m.documents.contains(d),
            None => true,
        },
{
    lemma_find_doc_from(m.documents, id, 0);
    if m.cache.contains_key(id) {
        let d = m.cache[id].0;
        assert(m.documents.contains(d));
        let i = choose|i: int| 0 <= i < m.documents.len() && m.documents[i] == d;
        assert(m.documents[i].id == id);
    }
}

/// A lookup right after an insert finds the inserted document, and counts
/// one access for it.
pub proof fn lemma_cache_get_after_insert(c: CacheModel, d: DocumentModel)
    ensures
        cache_get(cache_insert(c, d), d.id).1 == Some(d),
        cache_get(cache_insert(c, d), d.id).0[d.id] == (d, 1u32),
{
}

/// A lookup changes no cached document and no other document's count: only
/// the looked-up document's count goes up by one.
pub proof fn lemma_cache_get_counts_one_access(c: CacheModel, id: Seq<char>, other: Seq<char>)
    requires
        c.contains_key(id),
        cache_can_count(c, id),
        c.contains_key(other),
        other != id,
    ensures
        cache_get(c, id).0.dom() == c.dom(),
        cache_get(c, id).0[id].0 == c[id].0,
        cache_get(c, id).0[id].1 == c[id].1 + 1,
        cache_get(c, id).0[other] == c[other],
{
    assert(cache_get(c, id).0.dom() =~= c.dom());
}

/// Adding a document keeps a manager well formed.
pub proof fn lemma_add_preserves_manager_wf(m: ManagerModel, d: DocumentModel)
    requires
        manager_wf(m),
    ensures
        manager_wf(manager_add(m, d)),
{
    let m2 = manager_add(m, d);
    assert forall|k: Seq<char>| #[trigger] m2.cache.contains_key(k) implies m2.documents.contains(
        m2.cache[k].0,
    ) && m2.cache[k].0.id == k by {
        if k == d.id {
            assert(m2.documents[m.documents.len() as int] == d);
        } else {
            let i = choose|i: int| 0 <= i < m.documents.len() && m.documents[i] == m.cache[k].0;
            assert(m2.documents[i] == m.documents[i]);
        }
    }
}

/// Looking up a document's id right after adding it finds that document.
pub proof fn lemma_find_after_add(m: ManagerModel, d: DocumentModel)
    ensures
        manager_find(manager_add(m, d), d.id).1 == Some(d),
{
}

/// A cross-reference finds a document exactly when the manager or the
/// processor's own documents hold one with the id, and what it finds has that id.
pub proof fn lemma_cross_reference_result(p: ProcessorModel, id: Seq<char>)
    requires
        manager_wf(p.primary),
    ensures
        processor_cross_reference(p, id).1 is Some <==> (exists|i: int|
            0 <= i < p.primary.documents.len() && #[trigger] p.primary.documents[i].id == id)
            || (exists|i: int| 0 <= i < p.secondary.len() && #[trigger] p.secondary[i].id == id),
        match processor_cross_reference(p, id).1 {
            Some(d) => d.id == id,
            None => true,
        },
{
    lemma_find_result(p.primary, id);
    lemma_find_doc_from(p.secondary, id, 0);
}

/// Cached documents are filed under their own ids.
pub proof fn lemma_cache_files_by_id(c: &DocumentCache)
    requires
        c.wf(),
    ensures
        cache_wf(c@),
{
}

/// A well-formed manager's model is well formed: its cache files documents
/// by id, and every cached document is one of its documents.
pub proof fn lemma_manager_model_wf(m: &DocumentManager)
    requires
        m.wf(),
    ensures
        manager_wf(m@),
{
}

/// A well-formed processor's manager model is well formed, and its own cache
/// files documents by id.
pub proof fn lemma_processor_model_wf(p: &DocumentProcessor)
    requires
        p.wf(),
    ensures
        manager_wf(p@.primary),
        cache_wf(p@.temp_cache),
{
}

/// Inserting a document files it under its id with no accesses yet, and
/// leaves every other cached document and its access count as they were.
pub proof fn lemma_insert_keeps_other_counts(c: CacheModel, d: DocumentModel)
    ensures
        cache_insert(c, d).contains_key(d.id),
        cache_insert(c, d)[d.id] == (d, 0u32),
        forall|k: Seq<char>|
            k != d.id ==> (#[trigger] cache_insert(c, d).contains_key(k) == c.contains_key(k)),
        forall|k: Seq<char>|
            k != d.id && c.contains_key(k) ==> #[trigger] cache_insert(c, d)[k] == c[k],
{
}

/// A cross-reference asks the manager first. When the manager finds a
/// document, that very document is the answer; only when it finds none do
/// the processor's own documents answer, with the first that has the id.
/// Whatever is found has the id asked for, is one of the documents held, and
/// is filed in the processor's cache with no accesses yet.
pub proof fn lemma_cross_reference_prefers_manager(p: ProcessorModel, id: Seq<char>)
    requires
        manager_wf(p.primary),
    ensures
        processor_cross_reference(p, id).0.primary == manager_find(p.primary, id).0,
        processor_cross_reference(p, id).0.secondary == p.secondary,
        manager_find(p.primary, id).1 is Some ==> processor_cross_reference(p, id).1
            == manager_find(p.primary, id).1,
        manager_find(p.primary, id).1 is None ==> match processor_cross_reference(p, id).1 {
            Some(d) => exists|i: int|
                0 <= i < p.secondary.len() && p.secondary[i] == d && d.id == id && forall|j: int|
                    0 <= j < i ==> #[trigger] p.secondary[j].id != id,
            None => forall|i: int| 0 <= i < p.secondary.len() ==> #[trigger] p.secondary[i].id != id,
        },
        processor_cross_reference(p, id).1 matches Some(d) ==> d.id == id && (
        p.primary.documents.contains(d) || p.secondary.contains(d))
            && processor_cross_reference(p, id).0.temp_cache.contains_key(id)
            && processor_cross_reference(p, id).0.temp_cache[id] == (d, 0u32),
        processor_cross_reference(p, id).1 is None ==> processor_cross_reference(p, id).0.temp_cache
            == p.temp_cache,
{
    lemma_find_result(p.primary, id);
    lemma_find_doc_from(p.secondary, id, 0);
    if let Some(i) = find_doc_from(p.secondary, id, 0) {
        assert(p.secondary.contains(p.secondary[i]));
    }
}

} // verus!
