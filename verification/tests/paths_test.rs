use mdlive::paths::{
    guess_image_content_type, is_image_file, is_markdown_file, is_mdlive_path, is_supported_file,
    join_path, path_extension, path_file_name, path_file_stem,
};

#[test]
fn test_is_markdown_file() {
    assert!(is_markdown_file("test.md"));
    assert!(is_markdown_file("/path/to/file.md"));

    assert!(is_markdown_file("test.markdown"));
    assert!(is_markdown_file("/path/to/file.markdown"));

    assert!(is_markdown_file("test.MD"));
    assert!(is_markdown_file("test.Md"));
    assert!(is_markdown_file("test.MARKDOWN"));
    assert!(is_markdown_file("test.MarkDown"));

    assert!(!is_markdown_file("test.txt"));
    assert!(!is_markdown_file("test.rs"));
    assert!(!is_markdown_file("test.html"));
    assert!(!is_markdown_file("test"));
    assert!(!is_markdown_file("README"));
}

#[test]
fn test_is_image_file() {
    assert!(is_image_file("test.png"));
    assert!(is_image_file("test.jpg"));
    assert!(is_image_file("test.jpeg"));
    assert!(is_image_file("test.gif"));
    assert!(is_image_file("test.svg"));
    assert!(is_image_file("test.webp"));
    assert!(is_image_file("test.bmp"));
    assert!(is_image_file("test.ico"));

    assert!(is_image_file("test.PNG"));
    assert!(is_image_file("test.JPG"));
    assert!(is_image_file("test.JPEG"));

    assert!(is_image_file("/path/to/image.png"));
    assert!(is_image_file("./images/photo.jpg"));

    assert!(!is_image_file("test.txt"));
    assert!(!is_image_file("test.md"));
    assert!(!is_image_file("test.rs"));
    assert!(!is_image_file("test"));
}

#[test]
fn test_guess_image_content_type() {
    assert_eq!(guess_image_content_type("test.png"), "image/png");
    assert_eq!(guess_image_content_type("test.jpg"), "image/jpeg");
    assert_eq!(guess_image_content_type("test.jpeg"), "image/jpeg");
    assert_eq!(guess_image_content_type("test.gif"), "image/gif");
    assert_eq!(guess_image_content_type("test.svg"), "image/svg+xml");
    assert_eq!(guess_image_content_type("test.webp"), "image/webp");
    assert_eq!(guess_image_content_type("test.bmp"), "image/bmp");
    assert_eq!(guess_image_content_type("test.ico"), "image/x-icon");

    assert_eq!(guess_image_content_type("test.PNG"), "image/png");
    assert_eq!(guess_image_content_type("test.JPG"), "image/jpeg");

    assert_eq!(
        guess_image_content_type("test.xyz"),
        "application/octet-stream"
    );
    assert_eq!(guess_image_content_type("test"), "application/octet-stream");
}

#[test]
fn extension_follows_path_rules() {
    assert_eq!(path_extension("a/b.tar.gz"), Some("gz".to_string()));
    assert_eq!(path_extension(".md"), None);
    assert_eq!(path_extension("..md"), Some("md".to_string()));
    assert_eq!(path_extension("a."), Some("".to_string()));
    assert_eq!(path_extension("dir.md/"), Some("md".to_string()));
    assert_eq!(path_extension("notes.md/."), Some("md".to_string()));
    assert_eq!(path_extension("notes.md/.."), None);
    assert_eq!(path_extension("/"), None);
    assert_eq!(path_extension(""), None);
    assert!(!is_markdown_file(".md"));
    assert!(is_markdown_file("x/notes.md/."));
}

#[test]
fn file_name_and_stem() {
    assert_eq!(path_file_name("/a/b/c.md"), Some("c.md".to_string()));
    assert_eq!(path_file_name("/a/b/"), Some("b".to_string()));
    assert_eq!(path_file_name("."), None);
    assert_eq!(path_file_name("a/./."), Some("a".to_string()));
    assert_eq!(path_file_stem("/a/notes.md"), Some("notes".to_string()));
    assert_eq!(path_file_stem("/a/.hidden"), Some(".hidden".to_string()));
    assert_eq!(path_file_stem("/a/archive.tar.gz"), Some("archive.tar".to_string()));
    assert_eq!(path_file_stem("/a/README"), Some("README".to_string()));
    assert_eq!(path_file_stem("/"), None);
}

#[test]
fn supported_files_are_markdown_text_or_json() {
    assert!(is_supported_file("a.md"));
    assert!(is_supported_file("a.markdown"));
    assert!(is_supported_file("a.txt"));
    assert!(is_supported_file("a.JSON"));
    assert!(!is_supported_file("a.rs"));
    assert!(!is_supported_file("a.png"));
    assert!(!is_supported_file("json"));
}

#[test]
fn mdlive_directory_is_recognised_by_component() {
    assert!(is_mdlive_path("/w/.mdlive/history/a.md/1.md"));
    assert!(is_mdlive_path("/w/.mdlive"));
    assert!(is_mdlive_path(".mdlive/x"));
    assert!(!is_mdlive_path("/w/.mdlivex/a.md"));
    assert!(!is_mdlive_path("/w/x.mdlive/a.md"));
    assert!(!is_mdlive_path("/w/docs/a.md"));
}

#[test]
fn join_follows_path_rules() {
    assert_eq!(join_path("/base", "a.md"), "/base/a.md");
    assert_eq!(join_path("/base/", "a.md"), "/base/a.md");
    assert_eq!(join_path("/base", "/abs.md"), "/abs.md");
    assert_eq!(join_path("", "a.md"), "a.md");
    assert_eq!(join_path("x", ""), "x/");
}

#[test]
fn mdlive_component_of_a_join_comes_from_one_side() {
    for (base, rel) in [("/w", ".mdlive/history/a.md"), ("/w/.mdlive/", "x.md"), ("/w/x.mdlive", "a.md"), ("", "a/.mdlive2")] {
        let joined = join_path(base, rel);
        assert_eq!(is_mdlive_path(&joined), is_mdlive_path(base) || is_mdlive_path(rel));
    }
    assert!(is_mdlive_path(&join_path("/w", ".mdlive")));
    assert!(!is_mdlive_path(&join_path("/w/x.mdlive", ".mdlive2")));
}
