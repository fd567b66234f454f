use colpick::validate_columns;
use colpick::Cli;

fn make_cli(
    keep_empty: bool,
    complement: bool,
    join_delimiter: &str,
    column: Vec<i64>,
    delimiter: Option<&str>,
) -> Cli {
    Cli {
        keep_empty,
        complement,
        join_delimiter: join_delimiter.to_string(),
        column,
        delimiter: delimiter.map(|d| d.to_string()),
    }
}

fn strings(words: &[&str]) -> Vec<String> {
    let mut out = Vec::new();
    for w in words {
        out.push(w.to_string());
    }
    out
}

#[test]
fn empty_spec_passes_all_fields_through() {
    let cli = make_cli(false, false, " ", vec![], None);
    let fields = strings(&["a", "b", "c"]);
    assert_eq!(cli.pick_columns(&fields), fields);
}

#[test]
fn empty_spec_with_complement_selects_nothing() {
    let cli = make_cli(false, true, " ", vec![], None);
    let fields = strings(&["a", "b", "c"]);
    assert_eq!(cli.pick_columns(&fields), Vec::<String>::new());
}

#[test]
fn direct_selection_follows_specification_order() {
    let cli = make_cli(false, false, " ", vec![3, 2, 1], None);
    let fields = strings(&["a", "b", "c"]);
    assert_eq!(cli.pick_columns(&fields), strings(&["c", "b", "a"]));
}

#[test]
fn duplicate_indices_duplicate_output() {
    let cli = make_cli(false, false, " ", vec![1, 1], None);
    let fields = strings(&["a", "b"]);
    assert_eq!(cli.pick_columns(&fields), strings(&["a", "a"]));
}

#[test]
fn complement_ignores_duplicates_and_order() {
    let fields = strings(&["1", "2", "3", "4", "5", "6", "7", "8", "9", "10"]);
    let expected = strings(&["1", "2", "4", "6", "7", "10"]);
    let cli = make_cli(false, true, " ", vec![9, 8, -3, 8, 5, 3], None);
    assert_eq!(cli.pick_columns(&fields), expected);
    let reordered = make_cli(false, true, " ", vec![3, 5, 8, 9], None);
    assert_eq!(reordered.pick_columns(&fields), expected);
}

#[test]
fn out_of_range_indices_are_dropped_silently() {
    let cli = make_cli(false, false, " ", vec![17], None);
    let fields = strings(&["a", "b"]);
    assert_eq!(cli.pick_columns(&fields), Vec::<String>::new());
    assert_eq!(cli.process_line("a b"), "");
}

#[test]
fn negative_indices_count_from_the_end() {
    let cli = make_cli(false, false, " ", vec![-1, -2], None);
    let fields = strings(&["a", "b", "c"]);
    assert_eq!(cli.pick_columns(&fields), strings(&["c", "b"]));
}

#[test]
fn whitespace_mode_never_yields_empty_fields() {
    let keep = make_cli(true, false, " ", vec![], None);
    let drop = make_cli(false, false, " ", vec![], None);
    let line = "  one \t two   three  ";
    let expected = strings(&["one", "two", "three"]);
    assert_eq!(keep.split_line(line), expected);
    assert_eq!(drop.split_line(line), expected);
}

#[test]
fn whitespace_mode_splits_on_tabs() {
    let cli = make_cli(false, false, " ", vec![], None);
    assert_eq!(cli.split_line("a\tb"), strings(&["a", "b"]));
}

#[test]
fn delimiter_mode_strips_empty_fields_in_order() {
    let first = make_cli(false, false, " ", vec![1], Some("."));
    assert_eq!(first.process_line("I'm................thinking"), "I'm");
    let second = make_cli(false, false, " ", vec![2], Some("."));
    assert_eq!(second.process_line("I'm................thinking"), "thinking");
}

#[test]
fn delimiter_mode_keeps_empty_fields_when_asked() {
    let cli = make_cli(true, false, " ", vec![], Some("."));
    assert_eq!(
        cli.split_line("a..b"),
        strings(&["a", "", "b"])
    );
    assert_eq!(cli.process_line("a..b"), "a  b");
}

#[test]
fn selected_empty_field_contributes_zero_width() {
    let cli = make_cli(true, false, "-", vec![2, 1], Some("."));
    assert_eq!(cli.process_line("a..b"), "-a");
}

#[test]
fn empty_line_yields_empty_output() {
    let stripped = make_cli(false, false, " ", vec![], Some("."));
    assert_eq!(stripped.process_line(""), "");
    let kept = make_cli(true, false, " ", vec![], Some("."));
    assert_eq!(kept.process_line(""), "");
    let ws = make_cli(false, false, " ", vec![], None);
    assert_eq!(ws.process_line(""), "");
}

#[test]
fn multi_character_delimiter_splits_on_whole_substring() {
    let cli = make_cli(true, false, " ", vec![], Some("ab"));
    assert_eq!(cli.split_line("xaby"), strings(&["x", "y"]));
    assert_eq!(cli.split_line("aab"), strings(&["a", ""]));
}

#[test]
fn validate_columns_accepts_non_zero_integers() {
    assert_eq!(validate_columns("5"), Ok(5));
    assert_eq!(validate_columns("-3"), Ok(-3));
    assert_eq!(validate_columns("+7"), Ok(7));
    assert_eq!(validate_columns("9223372036854775807"), Ok(i64::MAX));
    assert_eq!(validate_columns("-9223372036854775808"), Ok(i64::MIN));
}

#[test]
fn validate_columns_rejects_zero_with_message() {
    assert_eq!(
        validate_columns("0"),
        Err("The value \"0\" is not allowed".to_string())
    );
}

#[test]
fn validate_columns_rejects_non_integers() {
    assert_eq!(
        validate_columns("abc"),
        Err("The value \"abc\" is not allowed".to_string())
    );
    assert_eq!(
        validate_columns(""),
        Err("The value \"\" is not allowed".to_string())
    );
    assert_eq!(
        validate_columns("-"),
        Err("The value \"-\" is not allowed".to_string())
    );
    assert_eq!(
        validate_columns("1.5"),
        Err("The value \"1.5\" is not allowed".to_string())
    );
    assert_eq!(
        validate_columns(" 1"),
        Err("The value \" 1\" is not allowed".to_string())
    );
}

#[test]
fn validate_columns_rejects_out_of_range_values() {
    assert_eq!(
        validate_columns("9223372036854775808"),
        Err("The value \"9223372036854775808\" is not allowed".to_string())
    );
    assert_eq!(
        validate_columns("-9223372036854775809"),
        Err("The value \"-9223372036854775809\" is not allowed".to_string())
    );
}
