use ftpdown::args::parse_args;

fn args(v: &[&str]) -> Vec<String> {
    v.iter().map(|s| s.to_string()).collect()
}

#[test]
fn no_flags() {
    let o = parse_args(&args(&["ftpdown"]));
    assert!(!o.dry_run);
    assert!(!o.should_add);
    assert!(o.add_to_config.is_empty());
    assert_eq!(o.incomplete_adds, 0);
}

#[test]
fn dry_run_flag() {
    let o = parse_args(&args(&["ftpdown", "-dr"]));
    assert!(o.dry_run);
    assert!(!o.should_add);
}

#[test]
fn add_with_four_fields() {
    let o = parse_args(&args(&["ftpdown", "-af", "cfg", "/remote/", "./local/", "file.txt"]));
    assert!(o.should_add);
    assert!(!o.dry_run);
    assert_eq!(o.add_to_config, args(&["cfg", "/remote/", "./local/", "file.txt"]));
}

#[test]
fn add_with_five_fields_after_dry_run() {
    let o = parse_args(&args(&["ftpdown", "-dr", "-af", "cfg", "/r/", "./l/", "f", "g"]));
    assert!(o.dry_run);
    assert!(o.should_add);
    assert_eq!(o.add_to_config, args(&["cfg", "/r/", "./l/", "f", "g"]));
}

#[test]
fn add_without_enough_fields() {
    let o = parse_args(&args(&["ftpdown", "-af", "cfg", "/r/"]));
    assert!(!o.should_add);
    assert!(o.add_to_config.is_empty());
    assert_eq!(o.incomplete_adds, 1);
}
