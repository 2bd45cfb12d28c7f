use active_recall::chunk_stream::MyStream;
use active_recall::memory::{decimal_string, numbered, sample_data, DataProcessor, LeakyProcessor};
use active_recall::random_work::{calculator, calculator_step, combat, fight_waves, WAVES};
use active_recall::text_tasks::{fetch_outcome, order_by_index, process_text, reversed_with_tag, str_contains};

#[test]
fn leaky_processor_keeps_everything() {
    let mut p = LeakyProcessor::new();
    assert_eq!(p.get_memory_stats(), (0, 0, 0));
    let r = p.process_data("k", &[1, 2, 3]);
    assert_eq!(*r, vec![1, 2, 3, 1, 2, 3]);
    assert_eq!(p.get_memory_stats(), (1, 1, 100));
    p.process_data("k", &[9]);
    assert_eq!(p.get_memory_stats(), (1, 2, 200));
    let r = p.process_item(3);
    assert_eq!(r.len(), 2000);
    assert_eq!(r[0], 0);
    assert_eq!(r[1000], 0);
    assert_eq!(r[999], (999 % 256) as u8);
    assert_eq!(p.get_memory_stats(), (2, 3, 300));
}

#[test]
fn cleanup_keeps_at_most_a_hundred_entries() {
    let mut p = LeakyProcessor::new();
    for i in 0..105 {
        p.process_data(&format!("key_{}", i), &[i as u8]);
    }
    assert_eq!(p.get_memory_stats(), (105, 105, 10500));
    p.cleanup();
    assert_eq!(p.get_memory_stats(), (100, 0, 0));
    let mut q = LeakyProcessor::new();
    q.process_data("a", &[]);
    q.cleanup();
    assert_eq!(q.get_memory_stats(), (1, 0, 0));
}

#[test]
fn decimal_strings() {
    assert_eq!(decimal_string(0), "0");
    assert_eq!(decimal_string(7), "7");
    assert_eq!(decimal_string(1234567890), "1234567890");
    assert_eq!(decimal_string(usize::MAX), usize::MAX.to_string());
    assert_eq!(numbered("key_", 42), "key_42");
    let d = sample_data();
    assert_eq!(d.len(), 1000);
    assert_eq!(d[256], 0);
    assert_eq!(d[257], 1);
}

#[test]
fn data_processor_doubles_and_caches() {
    let mut p = DataProcessor::new();
    let r1: Vec<u8> = p.process_data("test1", &[1, 2, 3, 4, 5]).to_vec();
    assert_eq!(r1, vec![2, 4, 6, 8, 10]);
    let r2 = p.process_data("test2", &[10, 20, 200]);
    assert_eq!(r2, &[20, 40, 144]);
    assert_eq!(r1, vec![2, 4, 6, 8, 10]);
}

#[test]
fn combat_loses_between_one_and_fourteen_per_wave() {
    let (before, after) = combat(5_000_000).unwrap();
    assert_eq!(before, 5_000_000);
    assert!(after <= 5_000_000 - WAVES as i32);
    assert!(after >= 5_000_000 - 14 * WAVES as i32);
    assert_eq!(fight_waves(100, &vec![1, 14, 5]), 80);
    assert_eq!(fight_waves(100, &vec![]), 100);
}

#[test]
fn calculator_step_wraps_then_truncates() {
    assert_eq!(calculator_step(10, 5, 3, 2), 22);
    assert_eq!(calculator_step(-10, 3, 1, 2), -3);
    assert_eq!(calculator_step(i64::MAX, 1, 1, 1), i64::MIN);
    assert_eq!(calculator_step(i64::MAX, 0, 2, 1), -2);
    let mut rng = rand::rng();
    let _ = calculator(1, &mut rng);
}

#[test]
fn text_tasks() {
    assert_eq!(process_text("Hello, Rust!"), "Processed: Hello, Rust!");
    assert_eq!(reversed_with_tag("abc", " [t]"), "cba [t]");
    assert_eq!(reversed_with_tag("héllo", ""), "olléh");
    assert_eq!(fetch_outcome("https://api.valid.com"), Ok("Data from https://api.valid.com".to_string()));
    assert_eq!(fetch_outcome("https://api.slow.com"), Err("Network error"));
    assert!(str_contains("abc", ""));
    assert!(!str_contains("va", "valid"));
}

#[test]
fn results_come_back_in_index_order() {
    let results = vec![(2, "c".to_string()), (0, "a".to_string()), (1, "b".to_string())];
    assert_eq!(
        order_by_index(results),
        vec![(0, "a".to_string()), (1, "b".to_string()), (2, "c".to_string())]
    );
    let ties = vec![(1, "x".to_string()), (0, "y".to_string()), (1, "z".to_string())];
    assert_eq!(
        order_by_index(ties),
        vec![(0, "y".to_string()), (1, "x".to_string()), (1, "z".to_string())]
    );
}

#[test]
fn stream_yields_two_chunks_then_ends() {
    let mut s = MyStream { step: 0 };
    assert_eq!(s.next_chunk(), Some(b"abcdef".to_vec()));
    assert_eq!(s.next_chunk(), Some(b"ghijkl".to_vec()));
    assert_eq!(s.next_chunk(), None);
    assert_eq!(s.next_chunk(), None);
    assert_eq!(s.step, 2);
}

#[test]
fn combat_reports_an_army_that_would_overflow() {
    assert_eq!(combat(i32::MIN + 5), None);
    assert!(combat(i32::MIN + 14 * WAVES as i32).is_some());
}
