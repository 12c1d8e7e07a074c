use mark_dir::dirmark::{Dirmark, Dirmarks};

fn seg(parts: &[&str]) -> Vec<String> {
    parts.iter().map(|s| s.to_string()).collect()
}

#[test]
fn with_value_holds_path() {
    let d = Dirmark::with_value("/home/u/proj1".to_string());
    assert_eq!(d.path, "/home/u/proj1");
}

#[test]
fn insert_then_get_returns_path() {
    let mut st = Dirmarks::new();
    let prev = st.insert(&seg(&["work", "proj1"]), "/home/u/proj1".to_string());
    assert!(prev.is_none());
    let got = st.get(&seg(&["work", "proj1"])).expect("key must be present");
    assert_eq!(got.path, "/home/u/proj1");
    // the composite key joins the segments with a dot
    let at = st.get_at("work.proj1").expect("composite key must be present");
    assert_eq!(at.path, "/home/u/proj1");
}

#[test]
fn insert_overwrites_and_returns_previous() {
    let mut st = Dirmarks::new();
    assert!(st.insert(&seg(&["k"]), "/p1".to_string()).is_none());
    let prev = st.insert(&seg(&["k"]), "/p2".to_string()).expect("previous record expected");
    assert_eq!(prev.path, "/p1");
    assert_eq!(st.get(&seg(&["k"])).unwrap().path, "/p2");
    assert_eq!(st.get_all().len(), 1);
}

#[test]
fn delete_returns_removed_record() {
    let mut st = Dirmarks::new();
    st.insert(&seg(&["a", "b"]), "/p".to_string());
    let removed = st.delete(&seg(&["a", "b"])).expect("record was present");
    assert_eq!(removed.path, "/p");
    assert!(st.get(&seg(&["a", "b"])).is_none());
    assert_eq!(st.get_all().len(), 0);
}

#[test]
fn delete_missing_returns_none_and_keeps_store() {
    let mut st = Dirmarks::new();
    st.insert(&seg(&["kept"]), "/p".to_string());
    assert!(st.delete(&seg(&["missing"])).is_none());
    assert_eq!(st.get_all().len(), 1);
    assert_eq!(st.get(&seg(&["kept"])).unwrap().path, "/p");
}

#[test]
fn get_all_is_sorted_by_key() {
    let mut st = Dirmarks::new();
    st.insert_at("ab", "/2".to_string());
    st.insert_at("a", "/1".to_string());
    st.insert_at("b", "/3".to_string());
    let keys: Vec<&str> = st.get_all().iter().map(|e| e.0.as_str()).collect();
    assert_eq!(keys, vec!["a", "ab", "b"]);
}

#[test]
fn dotted_segment_collides_with_joined_segments() {
    // joining is not escaped: ["a", "b"] and ["a.b"] name the same key
    let mut st = Dirmarks::new();
    st.insert(&seg(&["a", "b"]), "/first".to_string());
    let prev = st.insert(&seg(&["a.b"]), "/second".to_string()).expect("same composite key");
    assert_eq!(prev.path, "/first");
    assert_eq!(st.get_all().len(), 1);
    assert_eq!(st.get(&seg(&["a", "b"])).unwrap().path, "/second");
}

#[test]
fn empty_segment_sequence_joins_to_empty_key() {
    let mut st = Dirmarks::new();
    st.insert(&Vec::new(), "/root".to_string());
    assert_eq!(st.get_at("").unwrap().path, "/root");
}

#[test]
fn ordering_is_by_code_point() {
    let mut st = Dirmarks::new();
    st.insert_at("a", "/1".to_string());
    st.insert_at("Z", "/2".to_string());
    st.insert_at("a.b", "/3".to_string());
    st.insert_at("a-b", "/4".to_string());
    let keys: Vec<&str> = st.get_all().iter().map(|e| e.0.as_str()).collect();
    // 'Z' (0x5A) sorts before 'a' (0x61); '-' (0x2D) before '.' (0x2E)
    assert_eq!(keys, vec!["Z", "a", "a-b", "a.b"]);
}
