use active_recall::documents::{Document, DocumentCache, DocumentManager, DocumentProcessor};

fn doc(id: &str, title: &str) -> Document {
    Document {
        id: id.to_string(),
        title: title.to_string(),
        content: "Content".to_string(),
        author: "Author".to_string(),
    }
}

#[test]
fn test_basic_cache() {
    let doc = Document {
        id: "1".to_string(),
        title: "Test".to_string(),
        content: "Content".to_string(),
        author: "Author".to_string(),
    };

    let mut cache = DocumentCache::new();
    cache.insert(&doc);
    let retrieved = cache.get("1").unwrap();
    assert_eq!(retrieved.title, "Test");
}

#[test]
fn test_document_manager() {
    let mut manager = DocumentManager::new();
    let doc = Document {
        id: "1".to_string(),
        title: "Test".to_string(),
        content: "Content".to_string(),
        author: "Author".to_string(),
    };

    manager.add_document(doc);
    let retrieved = manager.find_document("1").unwrap();
    assert_eq!(retrieved.title, "Test");
}

#[test]
fn cache_miss_is_none() {
    let mut cache = DocumentCache::new();
    assert!(cache.get("nope").is_none());
    cache.insert(&doc("1", "A"));
    assert!(cache.get("2").is_none());
    assert!(cache.contains("1"));
    assert!(!cache.contains("2"));
}

#[test]
fn cache_insert_replaces_same_id() {
    let mut cache = DocumentCache::new();
    cache.insert(&doc("1", "First"));
    cache.insert(&doc("1", "Second"));
    assert_eq!(cache.get("1").unwrap().title, "Second");
}

#[test]
fn most_accessed_follows_counts() {
    let mut cache = DocumentCache::new();
    assert!(cache.get_most_accessed().is_none());
    cache.insert(&doc("a", "A"));
    cache.insert(&doc("b", "B"));
    cache.get("b");
    cache.get("b");
    cache.get("a");
    assert_eq!(cache.get_most_accessed().unwrap().id, "b");
    cache.get("a");
    cache.get("a");
    assert_eq!(cache.get_most_accessed().unwrap().id, "a");
}

#[test]
fn reinsert_resets_count() {
    let mut cache = DocumentCache::new();
    cache.insert(&doc("a", "A"));
    cache.insert(&doc("b", "B"));
    cache.get("a");
    cache.insert(&doc("a", "A2"));
    cache.get("b");
    assert_eq!(cache.get_most_accessed().unwrap().id, "b");
    assert_eq!(cache.peek("a").unwrap().title, "A2");
}

#[test]
fn manager_finds_only_added_documents() {
    let mut manager = DocumentManager::new();
    assert!(manager.find_document("1").is_none());
    manager.add_document(doc("1", "One"));
    manager.add_document(doc("2", "Two"));
    assert_eq!(manager.find_document("2").unwrap().title, "Two");
    assert_eq!(manager.find_document("1").unwrap().title, "One");
    assert!(manager.find_document("3").is_none());
}

#[test]
fn manager_later_add_of_same_id_wins() {
    let mut manager = DocumentManager::new();
    manager.add_document(doc("1", "Old"));
    manager.add_document(doc("1", "New"));
    assert_eq!(manager.find_document("1").unwrap().title, "New");
}

#[test]
fn processor_cross_references_the_manager() {
    let mut manager = DocumentManager::new();
    manager.add_document(doc("7", "Seven"));
    let mut processor = DocumentProcessor::new(manager);
    assert_eq!(processor.cross_reference("7").unwrap().title, "Seven");
    assert_eq!(processor.cross_reference("7").unwrap().content, "Content");
    assert!(processor.cross_reference("8").is_none());
}
