use ftpdown::paths::{get_dir, get_filename, is_dir, join_path};

#[test]
fn is_dir_checks_trailing_slash() {
    assert!(is_dir(&"/var/www/".to_string()));
    assert!(!is_dir(&"/var/www/index.html".to_string()));
    assert!(!is_dir(&String::new()));
}

#[test]
fn get_dir_cuts_after_last_slash() {
    assert_eq!(get_dir("/var/www/index.html".to_string()), "/var/www/");
    assert_eq!(get_dir("/var/www/".to_string()), "/var/www/");
    assert_eq!(get_dir("a/b".to_string()), "a/");
    assert_eq!(get_dir("/".to_string()), "/");
}

#[test]
fn get_dir_is_idempotent() {
    let d = get_dir("./downloads/x/file.bin".to_string());
    assert_eq!(get_dir(d.clone()), d);
    assert!(is_dir(&d));
}

#[test]
fn get_filename_takes_name_after_last_slash() {
    assert_eq!(get_filename(&"/var/www/index.html".to_string()), "index.html");
    assert_eq!(get_filename(&"d/ab".to_string()), "ab");
    assert_eq!(get_filename(&"/var/www/".to_string()), "");
    assert_eq!(get_filename(&"a/b".to_string()), "b");
}

#[test]
fn dir_and_name_rebuild_the_path() {
    let p = "/srv/ftp/pub/readme.txt".to_string();
    let name = get_filename(&p);
    assert_eq!(name, "readme.txt");
    assert_eq!(format!("{}{}", get_dir(p.clone()), name), p);
}

#[test]
fn join_path_adds_a_slash_only_where_needed() {
    assert_eq!(join_path(&"./webBackup/".to_string(), &"page1.css".to_string()), "./webBackup/page1.css");
    assert_eq!(join_path(&"./webBackup".to_string(), &"page1.css".to_string()), "./webBackup/page1.css");
    let p = join_path(&"/var/wow/".to_string(), &"Film.mkv".to_string());
    assert_eq!(get_filename(&p), "Film.mkv");
    assert_eq!(get_dir(p), "/var/wow/");
}
