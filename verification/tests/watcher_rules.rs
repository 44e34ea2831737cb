use docversion::watcher::{
    get_file_type, is_handled, is_supported_file, merge_events, should_embed, to_forward_slash_string,
    Debouncer, FileEventType,
};

#[test]
fn supported_extensions() {
    for p in ["a.txt", "b.md", "c.py", "d.js", "e.ts", "f.json", "g.yaml", "h.yml", "i.toml", "j.rs",
        "k.go", "l.java", "m.cpp", "n.c", "o.h", "p.html", "q.css"] {
        assert!(is_supported_file(p), "{}", p);
    }
    assert!(is_supported_file("dir/sub/README.MD"));
    assert!(is_supported_file("Main.RS"));
    assert!(!is_supported_file("image.png"));
    assert!(!is_supported_file("Makefile"));
    assert!(!is_supported_file("archive.tar.gz"));
    assert!(!is_supported_file(".txt"));
}

#[test]
fn file_types() {
    assert_eq!(get_file_type("notes/Todo.TXT"), "txt");
    assert_eq!(get_file_type("src/main.rs"), "rs");
    assert_eq!(get_file_type("Makefile"), "unknown");
    assert_eq!(get_file_type("a.tar.GZ"), "gz");
}

#[test]
fn forward_slashes() {
    assert_eq!(to_forward_slash_string("dir/sub/file.txt"), "dir/sub/file.txt");
}

#[test]
fn handled_events() {
    assert!(is_handled("a.md", FileEventType::Modified));
    assert!(is_handled("a.png", FileEventType::Removed));
    assert!(!is_handled("a.png", FileEventType::Created));
}

#[test]
fn embedding_only_for_new_text() {
    assert!(should_embed(true, "fn main() {}"));
    assert!(!should_embed(true, "  \n\t "));
    assert!(!should_embed(true, ""));
    assert!(!should_embed(false, "text"));
}

#[test]
fn merging_events() {
    assert_eq!(merge_events(FileEventType::Created, FileEventType::Modified), FileEventType::Created);
    assert_eq!(merge_events(FileEventType::Created, FileEventType::Removed), FileEventType::Removed);
    assert_eq!(merge_events(FileEventType::Modified, FileEventType::Created), FileEventType::Created);
    assert_eq!(merge_events(FileEventType::Removed, FileEventType::Modified), FileEventType::Modified);
}

#[test]
fn debounce_waits_for_quiet() {
    let mut d = Debouncer::new();
    d.record_event("a.txt".to_string(), FileEventType::Created, 1000);
    d.record_event("b.txt".to_string(), FileEventType::Modified, 1500);
    d.record_event("a.txt".to_string(), FileEventType::Modified, 1800);
    assert_eq!(d.len(), 2);
    // nothing has been quiet for a second yet
    assert!(d.take_ready(2000, 1000).is_empty());
    assert_eq!(d.len(), 2);
    // b.txt has; a.txt was seen again at 1800
    let out = d.take_ready(2600, 1000);
    assert_eq!(out, vec![("b.txt".to_string(), FileEventType::Modified)]);
    assert_eq!(d.len(), 1);
    let out = d.take_ready(2800, 1000);
    assert_eq!(out, vec![("a.txt".to_string(), FileEventType::Created)]);
    assert_eq!(d.len(), 0);
}

#[test]
fn debounce_clock_going_back_counts_as_no_time() {
    let mut d = Debouncer::new();
    d.record_event("x.md".to_string(), FileEventType::Modified, 5000);
    assert!(d.take_ready(4000, 1).is_empty());
    assert_eq!(d.take_ready(4000, 0), vec![("x.md".to_string(), FileEventType::Modified)]);
}

#[test]
fn debounce_drain_hands_out_everything_in_order() {
    let mut d = Debouncer::new();
    d.record_event("1".to_string(), FileEventType::Created, 1);
    d.record_event("2".to_string(), FileEventType::Removed, 2);
    d.record_event("1".to_string(), FileEventType::Removed, 3);
    let out = d.drain();
    assert_eq!(
        out,
        vec![("1".to_string(), FileEventType::Removed), ("2".to_string(), FileEventType::Removed)]
    );
    assert_eq!(d.len(), 0);
}
