use mark_dir::cli::{
    add_dirmark, get_dirmark, list_dirmarks, remove_dirmark, reset_config, Cli, CliError,
};
use mark_dir::config::decode_config;
use mark_dir::dirmark::Dirmarks;

fn seg(parts: &[&str]) -> Vec<String> {
    parts.iter().map(|s| s.to_string()).collect()
}

fn request() -> Cli {
    Cli {
        dir: None,
        key: Vec::new(),
        list: false,
        get: Vec::new(),
        remove: Vec::new(),
        reset_config: false,
    }
}

#[test]
fn add_without_key_fails() {
    let cli = request();
    let mut st = Dirmarks::new();
    let r = add_dirmark(&cli, "/somewhere".to_string(), &mut st);
    assert_eq!(r.unwrap_err(), CliError::NoKeyGiven);
    assert_eq!(st.get_all().len(), 0);
}

#[test]
fn add_inserts_and_serializes() {
    let mut cli = request();
    cli.key = seg(&["work", "proj1"]);
    let mut st = Dirmarks::new();
    let text = add_dirmark(&cli, "/home/u/proj1".to_string(), &mut st).expect("add must succeed");
    assert_eq!(st.get_at("work.proj1").unwrap().path, "/home/u/proj1");
    let back = decode_config(&text).expect("saved config must decode");
    assert_eq!(back, st);
}

#[test]
fn get_finds_and_misses() {
    let mut cli = request();
    cli.get = seg(&["k"]);
    let mut st = Dirmarks::new();
    assert!(get_dirmark(&cli, &st).is_none());
    st.insert_at("k", "/p".to_string());
    assert_eq!(get_dirmark(&cli, &st).unwrap(), "/p");
}

#[test]
fn remove_missing_key_fails_and_keeps_store() {
    let mut cli = request();
    cli.remove = seg(&["missing"]);
    let mut st = Dirmarks::new();
    st.insert_at("kept", "/p".to_string());
    let r = remove_dirmark(&cli, &mut st);
    assert_eq!(r.unwrap_err(), CliError::KeyNotFound);
    assert_eq!(st.get_all().len(), 1);
}

#[test]
fn remove_deletes_and_serializes() {
    let mut cli = request();
    cli.remove = seg(&["k"]);
    let mut st = Dirmarks::new();
    st.insert_at("k", "/p".to_string());
    st.insert_at("other", "/q".to_string());
    let text = remove_dirmark(&cli, &mut st).expect("remove must succeed");
    assert!(st.get_at("k").is_none());
    let back = decode_config(&text).expect("saved config must decode");
    assert_eq!(back, st);
}

#[test]
fn reset_yields_empty_document() {
    let text = reset_config().expect("reset cannot fail here");
    assert_eq!(text, "{\n  \"dirmarks\": {}\n}");
    let back = decode_config(&text).expect("reset config must decode");
    assert_eq!(back.get_all().len(), 0);
}

#[test]
fn listing_aligns_keys_and_shows_dots_as_spaces() {
    let mut st = Dirmarks::new();
    st.insert_at("work.p", "/y".to_string());
    st.insert_at("a", "/x".to_string());
    let out = list_dirmarks(&st);
    assert_eq!(out, "a       =>  /x\nwork p  =>  /y\n");
}

#[test]
fn listing_of_empty_store_is_empty() {
    let st = Dirmarks::new();
    assert_eq!(list_dirmarks(&st), "");
}
