use calendar_fast::path::{has_adoc_extension, has_root, is_relative_path, join, parent};
use std::path::Path;

#[test]
fn a_path_is_rooted_where_it_starts_with_a_slash() {
    assert!(has_root("/"));
    assert!(has_root("/images"));
    assert!(has_root("//images"));
    assert!(!has_root(""));
    assert!(!has_root("images"));
    assert!(!has_root("./images"));
    assert!(!has_root("../images"));
    assert!(!has_root(" /images"));
}

#[test]
fn has_root_agrees_with_the_standard_library() {
    for p in ["", "/", "a", "/a", "a/", "./a", "../a", "//a", "a/b/c", "http://x", "C:/x"] {
        assert_eq!(has_root(p), Path::new(p).has_root(), "{:?}", p);
    }
}

#[test]
fn web_addresses_and_rooted_paths_are_not_relative() {
    assert!(is_relative_path("images"));
    assert!(is_relative_path("./images"));
    assert!(is_relative_path("../shared/images"));
    assert!(is_relative_path(""));
    assert!(!is_relative_path("/srv/images"));
    assert!(!is_relative_path("http://example.com/images"));
    assert!(!is_relative_path("https://example.com/images"));
    assert!(!is_relative_path("http://"));
    assert!(!is_relative_path("https://"));
}

#[test]
fn only_the_exact_schemes_make_a_web_address() {
    assert!(is_relative_path("http:/example.com"));
    assert!(is_relative_path("http:"));
    assert!(is_relative_path("https:/example.com"));
    assert!(is_relative_path("HTTP://example.com"));
    assert!(is_relative_path("ftp://example.com"));
    assert!(is_relative_path("xhttp://example.com"));
    assert!(is_relative_path("httpx://example.com"));
}

#[test]
fn the_parent_is_what_stands_before_the_last_slash() {
    assert_eq!(parent("docs/a.adoc"), "docs");
    assert_eq!(parent("docs/2024/a.adoc"), "docs/2024");
    assert_eq!(parent("a.adoc"), "");
    assert_eq!(parent("/a.adoc"), "/");
    assert_eq!(parent("/docs/a.adoc"), "/docs");
    assert_eq!(parent("./a.adoc"), ".");
    assert_eq!(parent("../a.adoc"), "..");
    assert_eq!(parent("docs//a.adoc"), "docs");
    assert_eq!(parent("//a.adoc"), "/");
    assert_eq!(parent("docs\\a.adoc"), "");
    assert_eq!(parent("dócs/ä.adoc"), "dócs");
}

#[test]
fn slashes_and_dots_at_the_end_name_nothing() {
    assert_eq!(parent("docs/sub/"), "docs");
    assert_eq!(parent("docs/sub/."), "docs");
    assert_eq!(parent("docs/sub/./"), "docs");
    assert_eq!(parent("docs/sub//"), "docs");
    assert_eq!(parent("docs/"), "");
    assert_eq!(parent("docs/."), "");
}

#[test]
fn slashes_and_dots_in_between_name_nothing() {
    assert_eq!(parent("docs/./a.adoc"), "docs");
    assert_eq!(parent("docs//./a.adoc"), "docs");
    assert_eq!(parent("docs/sub/./a.adoc"), "docs/sub");
    assert_eq!(parent("docs/./sub/a.adoc"), "docs/./sub");
    assert_eq!(parent("/./a.adoc"), "/");
    assert_eq!(parent("././a.adoc"), ".");
}

#[test]
fn two_dots_are_a_component_like_any_other() {
    assert_eq!(parent("docs/../a.adoc"), "docs/..");
    assert_eq!(parent("docs/.."), "docs");
    assert_eq!(parent(".."), "");
    assert_eq!(parent("/.."), "/");
}

#[test]
fn the_parent_of_what_has_none() {
    assert_eq!(parent(""), "");
    assert_eq!(parent("/"), "/");
    assert_eq!(parent("//"), "/");
    assert_eq!(parent("/."), "/");
    assert_eq!(parent("."), "");
}

fn short_paths(alphabet: &[char], upto: usize) -> Vec<String> {
    let mut all = vec![String::new()];
    let mut last = vec![String::new()];
    for _ in 0..upto {
        let mut next = Vec::new();
        for p in &last {
            for c in alphabet {
                let mut q = p.clone();
                q.push(*c);
                next.push(q);
            }
        }
        all.extend(next.iter().cloned());
        last = next;
    }
    all
}

#[test]
fn parent_agrees_with_the_standard_library_on_every_short_path() {
    let mut with_parent = 0;
    for p in short_paths(&['a', '.', '/'], 8) {
        match Path::new(&p).parent() {
            Some(expected) => {
                assert_eq!(Some(parent(&p)), expected.to_str(), "{:?}", p);
                with_parent += 1;
            }
            None => {
                let rootless = p.is_empty();
                assert_eq!(parent(&p), if rootless { "" } else { "/" }, "{:?}", p);
            }
        }
    }
    assert!(with_parent > 9000);
}

#[test]
fn has_root_agrees_with_the_standard_library_on_every_short_path() {
    for p in short_paths(&['a', '.', '/', ':'], 5) {
        assert_eq!(has_root(&p), Path::new(&p).has_root(), "{:?}", p);
    }
}

#[test]
fn join_agrees_with_the_standard_library_on_every_short_path() {
    let paths = short_paths(&['a', '.', '/'], 4);
    for d in &paths {
        for r in &paths {
            assert_eq!(Some(join(d, r).as_str()), Path::new(d).join(r).to_str(), "{:?} {:?}", d, r);
        }
    }
}

#[test]
fn the_extension_agrees_with_the_standard_library_on_every_short_path() {
    let mut with_extension = 0;
    for head in short_paths(&['a', '.', '/'], 4) {
        for tail in ["", ".adoc", ".adoc/", ".adoc/.", "adoc", ".adoc.", ".adoc/a", "/.adoc", ".ado"] {
            let p = format!("{}{}", head, tail);
            let expected = Path::new(&p).extension().and_then(|e| e.to_str()) == Some("adoc");
            assert_eq!(has_adoc_extension(&p), expected, "{:?}", p);
            if expected {
                with_extension += 1;
            }
        }
    }
    assert!(with_extension > 100);
}

#[test]
fn parent_agrees_with_the_standard_library_on_file_paths() {
    let sample = [
        "a.adoc",
        "docs/a.adoc",
        "docs/sub/a.adoc",
        "/a.adoc",
        "/docs/a.adoc",
        "./a.adoc",
        "../a.adoc",
        "docs//a.adoc",
        "docs///sub//a.adoc",
        "//a.adoc",
        "./docs/../a.adoc",
        "with space/a b.adoc",
        "dócs/ä.adoc",
    ];
    for p in sample {
        assert_eq!(Some(parent(p)), Path::new(p).parent().unwrap().to_str(), "{:?}", p);
    }
}

#[test]
fn join_puts_one_slash_between() {
    assert_eq!(join("docs", "images"), "docs/images");
    assert_eq!(join("docs/", "images"), "docs/images");
    assert_eq!(join("", "images"), "images");
    assert_eq!(join("/", "images"), "/images");
    assert_eq!(join("docs", "../images"), "docs/../images");
    assert_eq!(join("docs", ""), "docs/");
    assert_eq!(join("", ""), "");
    assert_eq!(join("docs", "/srv/images"), "/srv/images");
    assert_eq!(join("docs\\sub", "images"), "docs\\sub/images");
}

#[test]
fn join_agrees_with_the_standard_library() {
    let dirs = ["", "/", "docs", "docs/", "docs/sub", "/docs", ".", "..", "dócs"];
    let rels = ["", "images", "images/", "./images", "../images", "/srv/images", "a/b/c", "ä"];
    for d in dirs {
        for r in rels {
            assert_eq!(Some(join(d, r).as_str()), Path::new(d).join(r).to_str(), "{:?} {:?}", d, r);
        }
    }
}

#[test]
fn the_extension_is_what_follows_the_last_dot_of_the_name() {
    assert!(has_adoc_extension("a.adoc"));
    assert!(has_adoc_extension("docs/a.adoc"));
    assert!(has_adoc_extension("docs/a.b.adoc"));
    assert!(has_adoc_extension("docs.d/..adoc"));
    assert!(has_adoc_extension("ä.adoc"));
    assert!(!has_adoc_extension("a.adoc.txt"));
    assert!(!has_adoc_extension("a.ADOC"));
    assert!(!has_adoc_extension("a.adocx"));
    assert!(!has_adoc_extension("a.xadoc"));
    assert!(!has_adoc_extension("aadoc"));
    assert!(!has_adoc_extension("adoc"));
    assert!(!has_adoc_extension("a."));
    assert!(!has_adoc_extension("a"));
    assert!(!has_adoc_extension(""));
}

#[test]
fn a_name_that_is_all_extension_has_none() {
    assert!(!has_adoc_extension(".adoc"));
    assert!(!has_adoc_extension("docs/.adoc"));
}

#[test]
fn a_dot_in_a_directory_is_no_extension() {
    assert!(!has_adoc_extension("docs.adoc/readme"));
    assert!(!has_adoc_extension("a.adoc/b.txt"));
    assert!(has_adoc_extension("docs.adoc/"));
    assert!(has_adoc_extension("docs.adoc/."));
}

#[test]
fn the_extension_agrees_with_the_standard_library() {
    let sample = [
        "a.adoc",
        "docs/a.adoc",
        "docs/a.b.adoc",
        ".adoc",
        "docs/.adoc",
        "..adoc",
        "a.adoc.txt",
        "a.ADOC",
        "a.adocx",
        "adoc",
        "a.",
        "a",
        "docs.adoc/readme",
        "docs/..",
        "docs/.hidden.adoc",
        "/a.adoc",
        "./a.adoc",
        "dócs/ä.adoc",
    ];
    for p in sample {
        let expected = Path::new(p).extension().and_then(|e| e.to_str()) == Some("adoc");
        assert_eq!(has_adoc_extension(p), expected, "{:?}", p);
    }
}
