use code2prompt::normalize::{shorten_long_base64_strings, wrap_code_block};

fn repeat(c: char, n: usize) -> String {
    std::iter::repeat(c).take(n).collect()
}

#[test]
fn long_run_is_elided_to_103_characters() {
    let input = repeat('A', 120);
    let shown = shorten_long_base64_strings(&input);
    assert_eq!(shown, format!("{}...{}", repeat('A', 50), repeat('A', 50)));
    assert_eq!(shown.chars().count(), 103);
}

#[test]
fn run_of_exactly_100_is_kept() {
    let input = repeat('b', 100);
    assert_eq!(shorten_long_base64_strings(&input), input);
}

#[test]
fn run_of_101_is_elided() {
    let input = format!("x {}{} y", repeat('a', 51), repeat('Z', 50));
    let expected = format!("x {}...{} y", repeat('a', 50), repeat('Z', 50));
    assert_eq!(shorten_long_base64_strings(&input), expected);
}

#[test]
fn short_runs_and_other_text_are_untouched() {
    let input = "fn main() { println!(\"hello\"); } // Zm9vYmFy==\n";
    assert_eq!(shorten_long_base64_strings(input), input);
    assert_eq!(shorten_long_base64_strings(""), "");
}

#[test]
fn two_long_runs_are_elided_separately() {
    let input = format!("{} {}", repeat('1', 150), repeat('/', 101));
    let expected = format!(
        "{}...{} {}...{}",
        repeat('1', 50),
        repeat('1', 50),
        repeat('/', 50),
        repeat('/', 50)
    );
    assert_eq!(shorten_long_base64_strings(&input), expected);
}

#[test]
fn elision_agrees_with_the_regular_expression() {
    let re = regex::Regex::new(r"[A-Za-z0-9+/=]{80,}").unwrap();
    let samples = vec![
        repeat('A', 79),
        repeat('A', 80),
        repeat('A', 101),
        format!("{}-{}", repeat('q', 200), repeat('=', 99)),
        format!("data:image/png;base64,{}\"", repeat('i', 4000)),
        format!("{}\u{e9}{}", repeat('x', 120), repeat('y', 120)),
    ];
    for sample in samples {
        let expected = re
            .replace_all(&sample, |caps: &regex::Captures| {
                let run = &caps[0];
                if run.len() > 100 {
                    format!("{}...{}", &run[..50], &run[run.len() - 50..])
                } else {
                    run.to_string()
                }
            })
            .to_string();
        assert_eq!(shorten_long_base64_strings(&sample), expected);
    }
}

#[test]
fn plain_block_is_fenced_with_extension() {
    assert_eq!(
        wrap_code_block("let x = 1;", "rs", false, false),
        "```rs\nlet x = 1;\n```"
    );
}

#[test]
fn block_without_extension_has_bare_fence() {
    assert_eq!(wrap_code_block("text", "", false, false), "```\ntext\n```");
}

#[test]
fn no_codeblock_returns_the_code() {
    assert_eq!(wrap_code_block("a\nb\n", "py", false, true), "a\nb\n");
}

#[test]
fn lines_are_numbered_in_four_columns() {
    assert_eq!(
        wrap_code_block("a\nb", "py", true, true),
        "   1 | a\n   2 | b\n"
    );
    assert_eq!(
        wrap_code_block("a\r\nb\n", "py", true, false),
        "```py\n   1 | a\n   2 | b\n\n```"
    );
}

#[test]
fn numbering_agrees_with_std_lines_and_format() {
    let samples = vec![
        "".to_string(),
        "\n".to_string(),
        "one".to_string(),
        "one\r".to_string(),
        "one\r\n\r\ntwo\rthree\n\n".to_string(),
        "x\n".repeat(1234),
    ];
    for sample in samples {
        let mut expected = String::new();
        for (i, line) in sample.lines().enumerate() {
            expected.push_str(&format!("{:4} | {}\n", i + 1, line));
        }
        assert_eq!(wrap_code_block(&sample, "", true, true), expected);
    }
}

#[test]
fn empty_file_renders_as_empty_block() {
    assert_eq!(wrap_code_block("", "rs", true, false), "```rs\n\n```");
    assert_eq!(wrap_code_block("", "rs", false, false), "```rs\n\n```");
    assert_eq!(wrap_code_block("", "rs", true, true), "");
}
