use md_parser::config::Config;

fn args(list: &[&str]) -> Vec<String> {
    list.iter().map(|s| s.to_string()).collect()
}

#[test]
fn missing_input_is_an_error() {
    assert_eq!(
        Config::build(args(&["prog"])).err(),
        Some("No markdown file specified")
    );
    assert!(Config::build(Vec::new()).is_err());
}

#[test]
fn output_defaults_to_html_beside_input() {
    let c = Config::build(args(&["prog", "notes.md"])).ok().unwrap();
    assert_eq!(c.md_path, "notes.md");
    assert_eq!(c.output_path, "notes.html");
    let c = Config::build(args(&["prog", "a.b.md"])).ok().unwrap();
    assert_eq!(c.output_path, "a.html");
    let c = Config::build(args(&["prog", "README"])).ok().unwrap();
    assert_eq!(c.output_path, "README.html");
}

#[test]
fn output_default_keeps_directories() {
    let c = Config::build(args(&["prog", "./notes.md"])).ok().unwrap();
    assert_eq!(c.output_path, "./notes.html");
    let c = Config::build(args(&["prog", "my.dir/notes.md"])).ok().unwrap();
    assert_eq!(c.output_path, "my.dir/notes.html");
    let c = Config::build(args(&["prog", "a/b.c/d.tar.gz"])).ok().unwrap();
    assert_eq!(c.output_path, "a/b.c/d.html");
}

#[test]
fn explicit_output_is_kept() {
    let c = Config::build(args(&["prog", "in.md", "out/page.htm", "extra"])).ok().unwrap();
    assert_eq!(c.md_path, "in.md");
    assert_eq!(c.output_path, "out/page.htm");
}
