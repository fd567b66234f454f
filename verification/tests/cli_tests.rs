use colpick::Cli;

fn make_cli(
    keep_empty: bool,
    complement: bool,
    join_delimiter: &str,
    column: Vec<i64>,
    delimiter: Option<&str>,
) -> Cli {
    Cli {
        keep_empty,
        complement,
        join_delimiter: join_delimiter.to_string(),
        column,
        delimiter: delimiter.map(|d| d.to_string()),
    }
}

fn run(cli: &Cli, input: &str) -> String {
    let mut out = String::new();
    let mut first = true;
    for line in input.split('\n') {
        if !first {
            out.push('\n');
        }
        out.push_str(&cli.process_line(line));
        first = false;
    }
    out
}

#[test]
fn test_readme_example_strip_empty_elements() {
    let cli = make_cli(false, false, " ", vec![], Some("."));
    assert_eq!(run(&cli, "I'm................thinking"), "I'm thinking");
}

#[test]
fn test_readme_example_multi_char_join() {
    let cli = make_cli(false, false, "===", vec![1, 2, 3, 5, 6], None);
    assert_eq!(
        run(&cli, "How did that awk-command work again?"),
        "How===did===that===work===again?"
    );
}

#[test]
fn test_readme_example_multi_char_split() {
    let cli = make_cli(false, false, " ", vec![3, 4], Some("...like..."));
    assert_eq!(
        run(
            &cli,
            "I was...like...thinking...like...how did you...like...come up with that?"
        ),
        "how did you come up with that?"
    );
}

#[test]
fn test_readme_example_strip_empty_elements_with_id() {
    let cli = make_cli(false, false, " ", vec![2], Some("."));
    assert_eq!(run(&cli, "I'm................thinking"), "thinking");
}

#[test]
fn test_readme_example_keep_empty_elements_with_id() {
    let cli = make_cli(true, false, " ", vec![17], Some("."));
    assert_eq!(run(&cli, "I'm................thinking"), "thinking");
}

#[test]
fn test_readme_example_multi_line_replace() {
    let cli = make_cli(false, false, ": ", vec![1, -1], Some("."));
    assert_eq!(
        run(
            &cli,
            "Part1..................Something\nPart10.................Another\nPart100................Thing\nPart1000...............End"
        ),
        "Part1: Something\nPart10: Another\nPart100: Thing\nPart1000: End"
    );
}

#[test]
fn test_readme_example_change_order_with_id() {
    let cli = make_cli(false, false, " ", vec![3, 2, 1], None);
    assert_eq!(run(&cli, "1 2 3 4 5 6"), "3 2 1");
}

#[test]
fn test_complement_with_unordered_ids() {
    let cli = make_cli(false, true, " ", vec![9, 7, 8], None);
    assert_eq!(run(&cli, "1 2 3 4 5 6 7 8 9 10"), "1 2 3 4 5 6 10");
}

#[test]
fn test_complement_with_plusminus_ids() {
    let cli = make_cli(false, true, " ", vec![8, -3, 8], None);
    assert_eq!(run(&cli, "1 2 3 4 5 6 7 8 9 10"), "1 2 3 4 5 6 7 9 10");
}

#[test]
fn test_complement_with_double_ids() {
    let cli = make_cli(false, true, " ", vec![9, 8, -3, 8, 5, 3], None);
    assert_eq!(run(&cli, "1 2 3 4 5 6 7 8 9 10"), "1 2 4 6 7 10");
}

#[test]
fn test_complement_with_single_id() {
    let cli = make_cli(true, true, " ", vec![4], Some("."));
    assert_eq!(run(&cli, "I'm...thinking"), "I'm  ");
}

#[test]
fn test_complement_non_whitespace_unordered_ids() {
    let cli = make_cli(true, true, " ", vec![3, 2], Some("."));
    assert_eq!(run(&cli, "I'm...thinking"), "I'm thinking");
}
