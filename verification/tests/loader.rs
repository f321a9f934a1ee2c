use cosmic_oracle::loader::parse_from_csv;
use cosmic_oracle::loader::trim_bytes;

fn load(data: &[u8]) -> (Vec<String>, Vec<usize>) {
    let mut names: Vec<Vec<u8>> = Vec::new();
    let bad = parse_from_csv(data, &mut names);
    let names: Vec<String> = names.into_iter().map(|b| String::from_utf8(b).unwrap()).collect();
    (names, bad)
}

#[test]
fn loader_correctness() {
    let (names, bad) = load(b"Vega\n  Orion  \n\nPolaris");
    assert_eq!(names, vec!["Vega".to_string(), "Orion".to_string(), "Polaris".to_string()]);
    assert_eq!(bad, Vec::<usize>::new());
}

#[test]
fn loader_fault_tolerance() {
    let (names, bad) = load(b"\"Sirius\nRigel");
    assert_eq!(names, vec!["Rigel".to_string()]);
    assert_eq!(bad, vec![0]);
}

#[test]
fn loader_reports_each_bad_row() {
    let (names, bad) = load(b"\"Sirius\nVega\n\"Deneb");
    assert_eq!(names, vec!["Vega".to_string()]);
    assert_eq!(bad, vec![0, 2]);
}

#[test]
fn loader_takes_first_field_only() {
    let (names, bad) = load(b"Vega,second,third\nOrion,x");
    assert_eq!(names, vec!["Vega".to_string(), "Orion".to_string()]);
    assert_eq!(bad, Vec::<usize>::new());
}

#[test]
fn loader_quoted_field_keeps_comma() {
    let (names, bad) = load(b"\"Alpha, Beta\",ignored\nplain,x");
    assert_eq!(names, vec!["Alpha, Beta".to_string(), "plain".to_string()]);
    assert_eq!(bad, Vec::<usize>::new());
}

#[test]
fn loader_doubled_quote_is_literal() {
    let (names, bad) = load(b"\"He said \"\"hi\"\"\"");
    assert_eq!(names, vec!["He said \"hi\"".to_string()]);
    assert_eq!(bad, Vec::<usize>::new());
}

#[test]
fn loader_stray_bytes_after_quote_are_bad() {
    let (names, bad) = load(b"\"Vega\"x,y");
    assert_eq!(names, Vec::<String>::new());
    assert_eq!(bad, vec![0]);
}

#[test]
fn loader_handles_carriage_returns() {
    let (names, bad) = load(b"Vega\r\nOrion");
    assert_eq!(names, vec!["Vega".to_string(), "Orion".to_string()]);
    assert_eq!(bad, Vec::<usize>::new());
}

#[test]
fn loader_empty_block_yields_nothing() {
    let (names, bad) = load(b"");
    assert_eq!(names, Vec::<String>::new());
    assert_eq!(bad, Vec::<usize>::new());
}

#[test]
fn loader_whitespace_only_rows_are_silently_dropped() {
    let (names, bad) = load(b"   \n\t\nVega");
    assert_eq!(names, vec!["Vega".to_string()]);
    assert_eq!(bad, Vec::<usize>::new());
}

#[test]
fn loader_appends_to_existing_list() {
    let mut names: Vec<Vec<u8>> = vec![b"Existing".to_vec()];
    let bad = parse_from_csv(b"Vega", &mut names);
    assert_eq!(names, vec![b"Existing".to_vec(), b"Vega".to_vec()]);
    assert_eq!(bad, Vec::<usize>::new());
}

#[test]
fn trim_removes_ascii_whitespace_at_both_ends() {
    assert_eq!(trim_bytes(&b"  Vega \t".to_vec()), b"Vega".to_vec());
    assert_eq!(trim_bytes(&b"Alpha Centauri".to_vec()), b"Alpha Centauri".to_vec());
    assert_eq!(trim_bytes(&b" \t ".to_vec()), Vec::<u8>::new());
    assert_eq!(trim_bytes(&b"".to_vec()), Vec::<u8>::new());
}
