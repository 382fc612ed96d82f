use ftpdown::config::Config;
use ftpdown::edit::add_entry_text;

fn fields(v: &[&str]) -> Vec<String> {
    v.iter().map(|s| s.to_string()).collect()
}

#[test]
fn entry_goes_after_last_brace() {
    let r = add_entry_text(&"x{a}y}z".to_string(), &fields(&["cfg", "r", "l", "n"]));
    assert_eq!(
        r,
        "x{a}y},\r\n{\r\n  remoteDir: r;\r\n  localDir: l;\r\n  name: n;\r\n  nameToSaveAs: n;\r\n}z"
    );
}

#[test]
fn entry_with_save_as_name() {
    let r = add_entry_text(&"[{}];".to_string(), &fields(&["cfg", "/r/", "./l/", "n", "s"]));
    assert_eq!(
        r,
        "[{},\r\n{\r\n  remoteDir: /r/;\r\n  localDir: ./l/;\r\n  name: n;\r\n  nameToSaveAs: s;\r\n}];"
    );
}

#[test]
fn added_entry_is_loaded_back() {
    let text = "host: h;\nuser: u;\npassword: p;\nremoteFiles:\n[{\n  remoteDir: /a/;\n  localDir: ./;\n  name: a.txt;\n}];\n";
    let added = add_entry_text(&text.to_string(), &fields(&["cfg", "/b/", "./b/", "b.txt", "c.txt"]));
    let mut buff = added.clone();
    assert!(Config::is_loadable(&buff));
    let c = Config::Config(&mut buff).unwrap();
    assert_eq!(c.remote_downloadable.len(), 2);
    assert_eq!(c.remote_downloadable[0].filename, "a.txt");
    let e = &c.remote_downloadable[1];
    assert_eq!(e.server_dir, "/b/");
    assert_eq!(e.client_dir, "./b/");
    assert_eq!(e.filename, "b.txt");
    assert_eq!(e.clientfile_namescheme, "c.txt");
}

#[test]
fn added_entry_extends_a_bare_list() {
    let text = "remoteFiles:\n[{\n  remoteDir: /a/;\n  localDir: ./;\n  name: a.txt;\n}];\n";
    let mut before = text.to_string();
    assert!(Config::can_break_remotefile(&before));
    let old = Config::break_remotefile(&mut before).unwrap();
    let added = add_entry_text(&text.to_string(), &fields(&["cfg", "/b/", "./b/", "b.txt"]));
    let mut after = added.clone();
    assert!(Config::can_break_remotefile(&after));
    let new = Config::break_remotefile(&mut after).unwrap();
    assert_eq!(new.len(), old.len() + 1);
    assert_eq!(new[0].filename, old[0].filename);
    assert_eq!(new[0].server_dir, old[0].server_dir);
    let e = &new[1];
    assert_eq!(e.server_dir, "/b/");
    assert_eq!(e.client_dir, "./b/");
    assert_eq!(e.filename, "b.txt");
    assert_eq!(e.clientfile_namescheme, "b.txt");
}
