use terma::resume::{
    find_resume_dir_index, find_resume_image_index, get_resume_state, make_resume_state, save_resume_state,
    ResumeState, ResumeStore,
};

fn strings(v: &[&str]) -> Vec<String> {
    v.iter().map(|s| s.to_string()).collect()
}

fn state(name: &str, index: usize) -> ResumeState {
    ResumeState {
        image_name: name.to_string(),
        image_index: index,
        is_archive: false,
        cover_mode: true,
        reading_mode: false,
        dir_rel: None,
        dir_path: Some("/m/vol1".to_string()),
    }
}

fn same(a: &ResumeState, b: &ResumeState) -> bool {
    a.image_name == b.image_name
        && a.image_index == b.image_index
        && a.is_archive == b.is_archive
        && a.cover_mode == b.cover_mode
        && a.reading_mode == b.reading_mode
        && a.dir_rel == b.dir_rel
        && a.dir_path == b.dir_path
}

#[test]
fn store_gives_back_what_was_saved() {
    let mut store = ResumeStore::new();
    assert!(get_resume_state(&store, "/m").is_none());
    store.insert("/m".to_string(), state("p1.png", 1));
    store.insert("/n".to_string(), state("p9.png", 9));
    store.insert("/m".to_string(), state("p2.png", 2));
    assert_eq!(store.len(), 2);
    assert!(same(&get_resume_state(&store, "/m").unwrap(), &state("p2.png", 2)));
    assert!(same(&get_resume_state(&store, "/n").unwrap(), &state("p9.png", 9)));
    let (k, v) = store.entry(0);
    assert_eq!(k, "/m");
    assert_eq!(v.image_index, 2);
}

#[test]
fn saved_state_for_directory() {
    let images = strings(&["01.png", "02.png", "03.png"]);
    let s = make_resume_state(&images, 7, false, None, Some("/m/vol1"), true, false).unwrap();
    assert_eq!(s.image_name, "03.png");
    assert_eq!(s.image_index, 2);
    assert_eq!(s.dir_path.as_deref(), Some("/m/vol1"));
    assert_eq!(s.dir_rel, None);
    assert!(make_resume_state(&[], 0, false, None, None, true, true).is_none());
}

#[test]
fn saved_state_for_archive() {
    let images = strings(&["01.png"]);
    let s = make_resume_state(&images, 0, true, Some("/tmp/x"), Some("/tmp/x/ch2"), true, true).unwrap();
    assert_eq!(s.dir_rel.as_deref(), Some("ch2"));
    assert_eq!(s.dir_path, None);
    let s = make_resume_state(&images, 0, true, Some("/tmp/x"), Some("/elsewhere"), true, true).unwrap();
    assert_eq!(s.dir_rel.as_deref(), Some("."));
    let s = make_resume_state(&images, 0, true, Some("/tmp/x"), None, true, true).unwrap();
    assert_eq!(s.dir_rel.as_deref(), Some("."));
    let s = make_resume_state(&images, 0, true, None, Some("/tmp/x/ch2"), true, true).unwrap();
    assert_eq!(s.dir_rel, None);
}

#[test]
fn save_then_resume_page() {
    let images = strings(&["a.png", "b.png", "c.png", "d.png"]);
    let mut store = ResumeStore::new();
    let saved = save_resume_state(&mut store, "/key", &images, 2, false, None, Some("/m/vol1"), false, true).unwrap();
    let loaded = get_resume_state(&store, "/key").unwrap();
    assert!(same(&saved, &loaded));
    assert_eq!(find_resume_image_index(&images, &loaded), 2);
    assert!(save_resume_state(&mut store, "/other", &[], 0, false, None, None, true, true).is_none());
    assert!(get_resume_state(&store, "/other").is_none());
}

#[test]
fn resume_image_falls_back_to_index() {
    let images = strings(&["a.png", "b.png"]);
    assert_eq!(find_resume_image_index(&images, &state("b.png", 0)), 1);
    assert_eq!(find_resume_image_index(&images, &state("gone.png", 1)), 1);
    assert_eq!(find_resume_image_index(&images, &state("gone.png", 9)), 1);
    assert_eq!(find_resume_image_index(&[], &state("gone.png", 9)), 0);
}

#[test]
fn resume_directory_of_folder() {
    let dirs = vec![Some("/m/vol0".to_string()), None, Some("/m/vol1".to_string())];
    let s = state("x", 0);
    assert_eq!(find_resume_dir_index(&dirs, &s, false, None, None), Some(2));
    assert_eq!(find_resume_dir_index(&dirs, &s, false, None, Some("/m/vol0")), Some(0));
    let mut none = state("x", 0);
    none.dir_path = None;
    assert_eq!(find_resume_dir_index(&dirs, &none, false, None, None), None);
}

#[test]
fn resume_directory_in_archive() {
    let dirs = vec![Some("/tmp/x/ch1".to_string()), Some("/tmp/x/ch2".to_string())];
    let mut s = state("x", 0);
    s.is_archive = true;
    s.dir_rel = Some("ch2".to_string());
    assert_eq!(find_resume_dir_index(&dirs, &s, true, Some("/tmp/x"), None), Some(1));
    assert_eq!(find_resume_dir_index(&dirs, &s, true, None, None), None);
    s.dir_rel = Some("ch9".to_string());
    assert_eq!(find_resume_dir_index(&dirs, &s, true, Some("/tmp/x"), None), None);
}

#[test]
fn resume_finds_the_saved_folder_again() {
    let images = strings(&["a.png", "b.png"]);
    let saved = make_resume_state(&images, 1, false, None, Some("/m/vol2"), true, true).unwrap();
    let dirs = vec![Some("/m/vol1".to_string()), Some("/m/vol2".to_string()), Some("/m/vol2/".to_string())];
    assert_eq!(find_resume_dir_index(&dirs, &saved, false, None, Some("/m/vol2")), Some(1));
    assert_eq!(find_resume_dir_index(&dirs, &saved, false, None, None), Some(1));
    let dirs = vec![Some("/m/vol2/".to_string())];
    assert_eq!(find_resume_dir_index(&dirs, &saved, false, None, None), Some(0));
    assert_eq!(find_resume_image_index(&images, &saved), 1);
}

#[test]
fn resume_finds_the_saved_chapter_of_an_archive_again() {
    let images = strings(&["a.png", "b.png"]);
    let saved = make_resume_state(&images, 0, true, Some("/tmp/x"), Some("/tmp/x/vol/ch2"), true, true).unwrap();
    let dirs = vec![
        Some("/tmp/x/vol/ch1".to_string()),
        None,
        Some("/tmp/x/vol/ch2".to_string()),
    ];
    assert_eq!(find_resume_dir_index(&dirs, &saved, true, Some("/tmp/x"), None), Some(2));
}
