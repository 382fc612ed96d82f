use ftpdown::wildcard::{has_wildcard, split_str_exec, wildcard_plan};

fn strings(v: &[&str]) -> Vec<String> {
    v.iter().map(|s| s.to_string()).collect()
}

fn chars(s: &str) -> Vec<char> {
    s.chars().collect()
}

#[test]
fn split_str_follows_str_split() {
    let cases = [
        ("page(*).css", "(*)"),
        ("(*)", "(*)"),
        ("a(*)(*)b", "(*)"),
        ("abc", "(*)"),
        ("", "(*)"),
        ("aaa", "aa"),
        ("ab", ""),
        ("", ""),
    ];
    for (s, p) in cases.iter() {
        let expected: Vec<Vec<char>> = s.split(*p).map(chars).collect();
        assert_eq!(split_str_exec(&chars(s), &chars(p)), expected, "{:?} by {:?}", s, p);
    }
}

#[test]
fn has_wildcard_finds_the_marker() {
    assert!(has_wildcard(&"page(*).css".to_string()));
    assert!(!has_wildcard(&"page*.css".to_string()));
}

#[test]
fn same_names_keep_the_remote_names() {
    let listing = strings(&["page1.css", "index.html", "page2.css", "a.css"]);
    let f = "page(*).css".to_string();
    let p = wildcard_plan(&f, &f, &listing);
    assert_eq!(p.to_download, strings(&["page1.css", "page2.css"]));
    assert_eq!(p.client_names, strings(&["page1.css", "page2.css"]));
    assert!(!p.counts_differ);
}

#[test]
fn wildcard_part_is_carried_into_the_local_name() {
    let listing = strings(&["page12.css", "x.css", "pageA.css"]);
    let f = "page(*).css".to_string();
    let ns = "backup(*).css".to_string();
    let p = wildcard_plan(&f, &ns, &listing);
    assert_eq!(p.to_download, strings(&["page12.css", "pageA.css"]));
    assert_eq!(p.client_names, strings(&["backup12.css", "backupA.css"]));
}

#[test]
fn parts_must_come_in_order_at_the_ends() {
    let listing = strings(&[".css-page", "pagecss", "x.csspage", "page.css", "page1.css.bak"]);
    let f = "page(*).css".to_string();
    let p = wildcard_plan(&f, &f, &listing);
    assert_eq!(p.to_download, strings(&["page.css"]));
    assert_eq!(p.client_names, strings(&["page.css"]));
}

#[test]
fn readme_pattern_selects_the_pages() {
    let listing = strings(&["page.css", "page-main.css", "style.css", "page.css.bak", "mypage.css"]);
    let f = "page(*).css".to_string();
    let p = wildcard_plan(&f, &f, &listing);
    assert_eq!(p.to_download, strings(&["page.css", "page-main.css"]));
}

#[test]
fn inner_parts_are_taken_leftmost() {
    let listing = strings(&["a1b2b3c", "abc", "ac", "a1c2b"]);
    let f = "a(*)b(*)c".to_string();
    let ns = "x(*)y(*)z".to_string();
    let p = wildcard_plan(&f, &ns, &listing);
    assert_eq!(p.to_download, strings(&["a1b2b3c", "abc"]));
    assert_eq!(p.client_names, strings(&["x1y2b3z", "xyz"]));
    assert!(!p.counts_differ);
}

#[test]
fn empty_outer_parts_match_any_start_or_end() {
    let listing = strings(&["main.css", ".css", "main.js"]);
    let f = "(*).css".to_string();
    let ns = "old-(*).css".to_string();
    let p = wildcard_plan(&f, &ns, &listing);
    assert_eq!(p.to_download, strings(&["main.css", ".css"]));
    assert_eq!(p.client_names, strings(&["old-main.css", "old-.css"]));
}

#[test]
fn different_wildcard_counts_fetch_nothing() {
    let listing = strings(&["a1b2c"]);
    let f = "a(*)b(*)c".to_string();
    let ns = "x(*)y".to_string();
    let p = wildcard_plan(&f, &ns, &listing);
    assert!(p.counts_differ);
    assert_eq!(p.to_download, strings(&["a1b2c"]));
    assert!(p.client_names.is_empty());
}
