use active_recall::documents::{copy_document, Document};
use active_recall::memory::LeakyProcessor;
use active_recall::str_map::StrMap;
use active_recall::text::find_char_from;

#[test]
fn str_map_keeps_one_entry_per_key() {
    let mut m: StrMap<u32> = StrMap::new();
    m.insert("a".to_string(), 1);
    m.insert("b".to_string(), 2);
    m.insert("a".to_string(), 3);
    assert_eq!(m.len(), 2);
    assert!(m.contains_key("a"));
    assert!(!m.contains_key("c"));
    assert_eq!(m.get("a"), Some(&3));
    assert_eq!(m.key_at(0), "a");
    assert_eq!(*m.value_at(0), 3);
    assert_eq!(m.key_at(1), "b");
    assert_eq!(*m.value_at(1), 2);
    m.remove("a");
    assert_eq!(m.len(), 1);
    assert_eq!(m.get("a"), None);
    assert_eq!(m.get("b"), Some(&2));
    m.remove("zzz");
    assert_eq!(m.len(), 1);
    m.clear();
    assert_eq!(m.len(), 0);
    assert!(!m.contains_key("b"));
}

#[test]
fn copied_document_has_the_same_fields() {
    let doc = Document {
        id: "7".to_string(),
        title: "T".to_string(),
        content: "C".to_string(),
        author: "A".to_string(),
    };
    let c = copy_document(&doc);
    assert_eq!(c.id, "7");
    assert_eq!(c.title, "T");
    assert_eq!(c.content, "C");
    assert_eq!(c.author, "A");
}

#[test]
fn find_char_from_finds_first_at_or_after_start() {
    assert_eq!(find_char_from("a,b,c", ',', 0), Some(1));
    assert_eq!(find_char_from("a,b,c", ',', 2), Some(3));
    assert_eq!(find_char_from("a,b,c", ',', 4), None);
    assert_eq!(find_char_from("", ',', 0), None);
}

#[test]
fn temporary_data_leaves_processor_unchanged() {
    let mut p = LeakyProcessor::new();
    p.process_data("k", &[1, 2]);
    let before = p.get_memory_stats();
    p.allocate_temporary_data();
    assert_eq!(p.get_memory_stats(), before);
    assert_eq!(before, (1, 1, 100));
}

#[test]
fn cleanup_keeps_the_most_recently_stored() {
    let mut p = LeakyProcessor::new();
    p.process_many(150);
    assert_eq!(p.get_memory_stats(), (150, 150, 15_000));
    assert!(p.is_cached("key_0") && p.is_cached("key_149"));
    p.process_data("key_10", &[7]);
    p.cleanup();
    assert_eq!(p.get_memory_stats(), (100, 0, 0));
    assert!(p.is_cached("key_10"));
    assert!(p.is_cached("key_51"));
    assert!(p.is_cached("key_149"));
    assert!(!p.is_cached("key_50"));
    assert!(!p.is_cached("key_0"));
    assert!(!p.is_cached("key_9"));
}

#[test]
fn cleanup_of_a_small_cache_keeps_it() {
    let mut p = LeakyProcessor::new();
    p.process_many(3);
    p.cleanup();
    assert_eq!(p.get_memory_stats(), (3, 0, 0));
    assert!(p.is_cached("key_0") && p.is_cached("key_2"));
}
