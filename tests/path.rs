use moss_trim::path::{html_file, local_path, rename_root, strip_scheme};

#[test]
fn local_path_strips_https() {
    assert_eq!(
        local_path("  https://moss.stanford.edu/results/1/234/ \n"),
        "moss.stanford.edu/results/1/234/"
    );
}

#[test]
fn local_path_strips_http() {
    assert_eq!(local_path("http://moss.stanford.edu/results/5"), "moss.stanford.edu/results/5");
}

#[test]
fn local_path_keeps_other_text() {
    assert_eq!(local_path("\tdir/index.html"), "dir/index.html");
    assert_eq!(local_path("ftp://x"), "ftp://x");
    assert_eq!(local_path("https:/"), "https:/");
    assert_eq!(local_path("   "), "");
}

#[test]
fn rename_root_replaces_host() {
    assert_eq!(
        rename_root("moss.stanford.edu/results/1/234/", "out"),
        "out/results/1/234/"
    );
    assert_eq!(
        rename_root("moss.stanford.edu/moss.stanford.edu", "a"),
        "a/a"
    );
    assert_eq!(rename_root("moss.stanford.ed", "a"), "moss.stanford.ed");
    assert_eq!(rename_root("", "a"), "");
}

#[test]
fn html_file_appends_extension() {
    assert_eq!(html_file("out/results/1/234/"), "out/results/1/234.html");
    assert_eq!(html_file("out/results/1/234"), "out/results/1/234.html");
    assert_eq!(html_file("a//"), "a/.html");
    assert_eq!(html_file(""), ".html");
}

#[test]
fn strip_scheme_takes_off_one_scheme() {
    assert_eq!(strip_scheme("https://a/b"), "a/b");
    assert_eq!(strip_scheme("http://a"), "a");
    assert_eq!(strip_scheme("http://https://a"), "https://a");
    assert_eq!(strip_scheme(" https://a"), " https://a");
    assert_eq!(strip_scheme("http:/"), "http:/");
}
