use ftpdown::config::{Config, MissingFields};

const README_CONFIG: &str = "host: 192.168.1.48:1337; // Port is optional if using defualt ftp port
user: user;
password: apassword;
remoteFiles:
[{
  remoteDir: /var/wow/;
  localDir: ./;
  name: FilenameOnTheServer.mkv;
  nameToSaveAs: Localfsname.mkv; //Output Names can be changed with the optional namesToSaveAs:
},
{
  remoteDir: /var/www/;
  localDir: ./webBackup/;
  name: page(*).css; // (*) can be used to match anything with the strings alongside it.
}];
";

fn load(text: &str) -> Result<Config, MissingFields> {
    let mut buff = text.to_string();
    assert!(Config::is_loadable(&buff));
    let r = Config::Config(&mut buff);
    assert_eq!(buff, text);
    r
}

#[test]
fn readme_config_loads() {
    let c = load(README_CONFIG).unwrap();
    assert_eq!(c.host, "192.168.1.48");
    assert_eq!(c.port, 1337);
    assert_eq!(c.user, "user");
    assert_eq!(c.pass, "apassword");
    assert_eq!(c.remote_downloadable.len(), 2);
    let a = &c.remote_downloadable[0];
    assert_eq!(a.server_dir, "/var/wow/");
    assert_eq!(a.client_dir, "./");
    assert_eq!(a.filename, "FilenameOnTheServer.mkv");
    assert_eq!(a.clientfile_namescheme, "Localfsname.mkv");
    let b = &c.remote_downloadable[1];
    assert_eq!(b.server_dir, "/var/www/");
    assert_eq!(b.client_dir, "./webBackup/");
    assert_eq!(b.filename, "page(*).css");
    assert_eq!(b.clientfile_namescheme, "page(*).css");
}

#[test]
fn port_defaults_to_21() {
    let text = "host: ftp.example.org ;\nuser: anonymous;\npassword: guest;\nremoteFiles:\n[{ remoteDir: /pub/; localDir: ./; name: a.txt; }];";
    let c = load(text).unwrap();
    assert_eq!(c.host, "ftp.example.org");
    assert_eq!(c.port, 21);
    assert_eq!(c.user, "anonymous");
    assert_eq!(c.pass, "guest");
    assert_eq!(c.remote_downloadable.len(), 1);
    assert_eq!(c.remote_downloadable[0].clientfile_namescheme, "a.txt");
}

#[test]
fn port_between_first_and_second_colon() {
    let text = "host: h : +2121 :x;user: u;password: p;remoteFiles:[{remoteDir: r;localDir: l;name: n;}];";
    let c = load(text).unwrap();
    assert_eq!(c.host, "h");
    assert_eq!(c.port, 2121);
}

#[test]
fn unreadable_port_is_not_loadable() {
    let bad = [
        "host: h:abc;user: u;password: p;remoteFiles:[{remoteDir: r;localDir: l;name: n;}];",
        "host: h:70000;user: u;password: p;remoteFiles:[{remoteDir: r;localDir: l;name: n;}];",
        "host: h:;user: u;password: p;remoteFiles:[{remoteDir: r;localDir: l;name: n;}];",
        "host: h:+;user: u;password: p;remoteFiles:[{remoteDir: r;localDir: l;name: n;}];",
    ];
    for text in bad.iter() {
        assert!(!Config::is_loadable(&text.to_string()), "{}", text);
    }
    let max = "host: h:65535;user: u;password: p;remoteFiles:[{remoteDir: r;localDir: l;name: n;}];";
    assert_eq!(load(max).unwrap().port, 65535);
}

#[test]
fn missing_host_is_reported() {
    let m = load("user: u; password: p;").unwrap_err();
    assert_eq!(m, MissingFields { host: true, username: false, password: false });
    assert_eq!(m.message(), "Missing \"host\" \n");
}

#[test]
fn missing_everything_is_reported() {
    let m = load("nothing here").unwrap_err();
    assert_eq!(m, MissingFields { host: true, username: true, password: true });
    assert_eq!(m.message(), "Missing \"host\" \"username\" \"password\" \n");
}

#[test]
fn password_word_without_colon_is_not_reported() {
    let m = load("host: h; user: u; password p;").unwrap_err();
    assert_eq!(m, MissingFields { host: false, username: false, password: false });
    assert_eq!(m.message(), "Missing \n");
}

#[test]
fn no_remote_list_is_not_loadable() {
    assert!(!Config::is_loadable(&"host: h; user: u; password: p;".to_string()));
}

#[test]
fn list_without_entries_is_not_loadable() {
    let text = "host: h;user: u;password: p;remoteFiles:[{remoteDir: r;name: n;}];";
    assert!(!Config::is_loadable(&text.to_string()));
}

#[test]
fn value_without_semicolon_is_not_loadable() {
    assert!(!Config::is_loadable(&"host: h; user: u; password: p".to_string()));
}

#[test]
fn non_ascii_before_last_semicolon_is_not_loadable() {
    let text = "host: h;user: u;password: p;remoteFiles:[{remoteDir: r;localDir: l;name: n;}é;";
    assert!(!Config::is_loadable(&text.to_string()));
}

#[test]
fn break_line_reads_trimmed_value() {
    let mut s = "host:   example.org \t ; user: me;".to_string();
    assert_eq!(Config::break_line(&mut s, "host:"), Some("example.org".to_string()));
    assert_eq!(Config::break_line(&mut s, "user:"), Some("me".to_string()));
    assert_eq!(Config::break_line(&mut s, "password:"), None);
    assert_eq!(s, "host:   example.org \t ; user: me;");
}

#[test]
fn break_line_uses_first_occurrence() {
    let mut s = "a: one; a: two;".to_string();
    assert_eq!(Config::break_line(&mut s, "a:"), Some("one".to_string()));
    let mut e = "k:;".to_string();
    assert_eq!(Config::break_line(&mut e, "k:"), Some(String::new()));
}

#[test]
fn break_remotefile_skips_incomplete_pieces() {
    let mut s = "remoteFiles:[{remoteDir: r1;localDir: l1;name: n1;},{name: x;},{remoteDir: r2;localDir: l2;name: n2;nameToSaveAs: s2;}];".to_string();
    let v = Config::break_remotefile(&mut s).unwrap();
    assert_eq!(v.len(), 2);
    assert_eq!(v[0].server_dir, "r1");
    assert_eq!(v[0].clientfile_namescheme, "n1");
    assert_eq!(v[1].client_dir, "l2");
    assert_eq!(v[1].filename, "n2");
    assert_eq!(v[1].clientfile_namescheme, "s2");
}

#[test]
fn break_remotefile_without_entries_is_none() {
    let mut s = "remoteFiles:[{nothing;}];".to_string();
    assert!(Config::break_remotefile(&mut s).is_none());
}

#[test]
fn break_line_without_semicolon_is_none() {
    let mut s = "host: example.com".to_string();
    assert_eq!(Config::break_line(&mut s, "host:"), None);
    assert_eq!(s, "host: example.com");
}

#[test]
fn save_as_without_semicolon_falls_back_to_name() {
    let mut s = "remoteFiles:[{remoteDir: r;localDir: l;name: n;nameToSaveAs: s},{x}];".to_string();
    assert!(Config::can_break_remotefile(&s));
    let v = Config::break_remotefile(&mut s).unwrap();
    assert_eq!(v.len(), 1);
    assert_eq!(v[0].filename, "n");
    assert_eq!(v[0].clientfile_namescheme, "n");
}

#[test]
fn text_before_the_list_does_not_change_it() {
    let list = "remoteFiles:[{remoteDir: r;localDir: l;name: n;},{remoteDir: q;localDir: k;name: m;}];";
    let mut alone = list.to_string();
    let mut prefixed = format!("host: h;\nuser: u;\npassword: p;\n{}", list);
    let a = Config::break_remotefile(&mut alone).unwrap();
    let b = Config::break_remotefile(&mut prefixed).unwrap();
    assert_eq!(a.len(), b.len());
    for (x, y) in a.iter().zip(b.iter()) {
        assert_eq!(x.server_dir, y.server_dir);
        assert_eq!(x.client_dir, y.client_dir);
        assert_eq!(x.filename, y.filename);
        assert_eq!(x.clientfile_namescheme, y.clientfile_namescheme);
    }
}

#[test]
fn remote_list_len_counts_the_pieces() {
    assert_eq!(Config::remote_list_len(&README_CONFIG.to_string()), Some(2));
    assert_eq!(Config::remote_list_len(&"remoteFiles:[{a},{b},{c}];".to_string()), Some(3));
    assert_eq!(Config::remote_list_len(&"host: h;".to_string()), None);
    assert!(!Config::can_break_remotefile(&"host: h;".to_string()));
    assert!(Config::can_break_remotefile(&README_CONFIG.to_string()));
}
