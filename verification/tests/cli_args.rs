use sonara::cli::{assemble_lines, import_name, parse_build_args, OutputFormat};

fn args(v: &[&str]) -> Vec<String> {
    v.iter().map(|s| s.to_string()).collect()
}

#[test]
fn build_args_default_to_mp3() {
    let b = parse_build_args(&args(&["song.son"])).unwrap();
    assert_eq!(b.input, "song.son");
    assert_eq!(b.format, OutputFormat::Mp3);
}

#[test]
fn build_args_choose_format_last_wins() {
    let b = parse_build_args(&args(&["song.son", "--to=wav"])).unwrap();
    assert_eq!(b.format, OutputFormat::Wav);
    let b = parse_build_args(&args(&["song.son", "--to=wav", "--to=mp3"])).unwrap();
    assert_eq!(b.format, OutputFormat::Mp3);
}

#[test]
fn build_args_errors() {
    assert_eq!(parse_build_args(&args(&[])).err().unwrap(), "Usage: sonara build <file.son> [--to=mp3|wav]");
    assert_eq!(
        parse_build_args(&args(&["a.son", "--to=ogg"])).err().unwrap(),
        "unknown format 'ogg'. Options: wav, mp3"
    );
    assert_eq!(parse_build_args(&args(&["a.son", "-v"])).err().unwrap(), "unknown argument '-v'");
    assert_eq!(parse_build_args(&args(&["a.son", "--to"])).err().unwrap(), "unknown argument '--to'");
    assert_eq!(parse_build_args(&args(&["a.son", "--to="])).err().unwrap(), "unknown format ''. Options: wav, mp3");
}

#[test]
fn import_lines() {
    assert_eq!(import_name("import drums"), Some("drums".to_string()));
    assert_eq!(import_name("  import \"verse\"  "), Some("verse".to_string()));
    assert_eq!(import_name("import    spaced  "), Some("spaced".to_string()));
    assert_eq!(import_name("\timport x\r"), Some("x".to_string()));
    assert_eq!(import_name("import \"\"\""), Some("".to_string()));
    assert_eq!(import_name("imports x"), None);
    assert_eq!(import_name("import"), None);
    assert_eq!(import_name("tempo 120"), None);
    assert_eq!(import_name("// import x"), None);
}

#[test]
fn import_lines_agree_with_std_trimming() {
    for line in ["import a", " import  \"b\" ", "import\u{a0}c", "\u{2003}import d\u{2003}", "import \" e \""] {
        let expected = line.trim().strip_prefix("import ").map(|r| r.trim().trim_matches('"').to_string());
        assert_eq!(import_name(line), expected, "line {:?}", line);
    }
}

#[test]
fn assembled_lines_end_with_line_feeds() {
    let parts = vec![
        ("tempo 120".to_string(), None),
        ("import beats".to_string(), Some("section b {\n}\n".to_string())),
        ("".to_string(), None),
    ];
    assert_eq!(assemble_lines(&parts), "tempo 120\nsection b {\n}\n\n\n");
    assert_eq!(assemble_lines(&Vec::new()), "");
}

#[test]
fn import_lines_trim_ascii_whitespace() {
    assert_eq!(import_name("\u{b}\u{c}import beats\r"), Some("beats".to_string()));
    assert_eq!(import_name("\timport \"x y\"  "), Some("x y".to_string()));
    assert_eq!(import_name("imports"), None);
}
