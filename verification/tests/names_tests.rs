use terma::names::{
    get_sorted_dirs, get_sorted_images, is_archive_file, is_image_file_name, is_nested_archive, is_rar_archive,
    natural_sort_key, sort_natural, split_file_name,
};

fn strings(v: &[&str]) -> Vec<String> {
    v.iter().map(|s| s.to_string()).collect()
}

#[test]
fn natural_key_pads_numbers_and_lowercases_text() {
    assert_eq!(natural_sort_key("page10"), strings(&["page", "00000000000000000010"]));
    assert_eq!(natural_sort_key("Page2.PNG"), strings(&["page", "00000000000000000002", ".png"]));
    assert_eq!(natural_sort_key(""), Vec::<String>::new());
    assert_eq!(natural_sort_key("007"), strings(&["00000000000000000007"]));
    assert_eq!(
        natural_sort_key("123456789012345678901234"),
        strings(&["123456789012345678901234"])
    );
    assert_eq!(natural_sort_key("a1b22"), strings(&["a", "00000000000000000001", "b", "00000000000000000022"]));
}

#[test]
fn natural_key_orders_page2_before_page10() {
    assert!(natural_sort_key("page2") < natural_sort_key("page10"));
    assert!(natural_sort_key("Chapter 9") < natural_sort_key("chapter 10"));
    assert!(natural_sort_key("p2.png") < natural_sort_key("p10.png"));
    assert!(natural_sort_key("vol 02 end") == natural_sort_key("vol 2 end"));
}

#[test]
fn natural_sort_orders_names() {
    let sorted = sort_natural(strings(&["page10.png", "page2.png", "Page1.png", "cover.jpg"]));
    assert_eq!(sorted, strings(&["cover.jpg", "Page1.png", "page2.png", "page10.png"]));
    assert_eq!(get_sorted_dirs(strings(&["vol 10", "vol 9", "Vol 1"])), strings(&["Vol 1", "vol 9", "vol 10"]));
    assert_eq!(sort_natural(vec![]), Vec::<String>::new());
}

#[test]
fn file_names_split_like_paths() {
    let c = |s: &str| s.chars().collect::<Vec<char>>();
    assert_eq!(split_file_name(&c("a.tar.gz")), (c("a.tar"), Some(c("gz"))));
    assert_eq!(split_file_name(&c(".png")), (c(".png"), None));
    assert_eq!(split_file_name(&c("noext")), (c("noext"), None));
    assert_eq!(split_file_name(&c("..")), (c(".."), None));
    assert_eq!(split_file_name(&c("a.")), (c("a"), Some(c(""))));
}

#[test]
fn sorted_images_keep_one_file_per_page() {
    let names = strings(&["a.png", "a.jpg", "b.gif", "notes.txt", "C.PNG", ".png", "b.webp", "d.bmp", "d.avif", "e.jpeg", "E.jpg"]);
    let images = get_sorted_images(&names);
    assert_eq!(images, strings(&["a.jpg", "b.gif", "C.PNG", "d.bmp", "e.jpeg"]));
    assert_eq!(get_sorted_images(&vec![]), Vec::<String>::new());
}

#[test]
fn image_names_are_recognised_case_insensitively() {
    assert!(is_image_file_name("x.JPG"));
    assert!(is_image_file_name("x.avif"));
    assert!(!is_image_file_name("x.tiff"));
    assert!(!is_image_file_name("jpg"));
}

#[test]
fn archive_files() {
    assert!(is_archive_file(true, "book.CBZ"));
    assert!(is_archive_file(true, "book.tar.gz"));
    assert!(is_archive_file(true, "x.txz"));
    assert!(!is_archive_file(false, "book.zip"));
    assert!(!is_archive_file(true, "book.pdf"));
    assert!(!is_archive_file(true, ".zip"));
    assert!(is_rar_archive("v.CBR"));
    assert!(is_rar_archive("v.rar"));
    assert!(!is_rar_archive("v.zip"));
    assert!(is_nested_archive("inner.Zip"));
    assert!(is_nested_archive("inner.cbr"));
    assert!(!is_nested_archive("inner.tar"));
}
