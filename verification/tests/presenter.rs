use cosmic_oracle::loader::parse_from_csv;
use cosmic_oracle::presenter::empty_list_message;
use cosmic_oracle::presenter::intro_line;
use cosmic_oracle::presenter::render;
use cosmic_oracle::presenter::render_decorated;
use cosmic_oracle::presenter::render_raw;
use cosmic_oracle::presenter::silent_message;
use cosmic_oracle::selector::select_name;

#[test]
fn raw_mode_is_exactly_the_name() {
    let out = render(&b"Vega".to_vec(), true);
    assert_eq!(out, b"Vega".to_vec());
    assert_eq!(render_raw(&b"Alpha Centauri".to_vec()), b"Alpha Centauri".to_vec());
}

#[test]
fn decorated_mode_exact_output() {
    let out = render(&b"Vega".to_vec(), false);
    let border = format!("+{}+\n", "-".repeat(41));
    let expected = format!("{}=> Vega <=\n{}", border, border);
    assert_eq!(String::from_utf8(out).unwrap(), expected);
    assert_eq!(render_decorated(&b"Vega".to_vec()), render(&b"Vega".to_vec(), false));
}

#[test]
fn decorated_mode_sets_name_on_its_own_line() {
    let mut full = intro_line();
    full.extend(render(&b"Vega".to_vec(), false));
    let text = String::from_utf8(full).unwrap();
    let intro = "Consulting the Cosmic Oracle for a name...";
    let lines: Vec<&str> = text.lines().collect();
    let intro_at = lines.iter().position(|l| *l == intro).unwrap();
    let name_at = lines.iter().position(|l| *l == "=> Vega <=").unwrap();
    assert!(intro_at < name_at);
    assert!(!lines[intro_at].contains("Vega"));
}

#[test]
fn empty_list_fatal_path() {
    // two empty source blocks: nothing parses, selection is never owed a name
    let mut names: Vec<Vec<u8>> = Vec::new();
    parse_from_csv(b"", &mut names);
    parse_from_csv(b"   \n", &mut names);
    assert!(names.is_empty());
    assert_eq!(select_name(&names), None);
    assert_eq!(
        String::from_utf8(empty_list_message()).unwrap(),
        "Error: the name list is empty.\n"
    );
}

#[test]
fn silent_failure_message_is_distinct() {
    let silent = String::from_utf8(silent_message()).unwrap();
    assert_eq!(silent, "Error: the stars have gone silent.\n");
    assert_ne!(silent, String::from_utf8(empty_list_message()).unwrap());
}

#[test]
fn intro_line_text() {
    assert_eq!(
        String::from_utf8(intro_line()).unwrap(),
        "\nConsulting the Cosmic Oracle for a name...\n"
    );
}
