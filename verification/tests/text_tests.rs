use prettydiff::basic::DiffOp;
use prettydiff::text::{diff_chars, diff_lines, diff_words, split_lines, split_words};

#[test]
fn test_basic() {
    println!("diff_chars: {}", diff_chars("abefcd", "zadqwc").format());
    println!(
        "diff_chars: {}",
        diff_chars(
            "The quick brown fox jumps over the lazy dog",
            "The quick brown dog leaps over the lazy cat"
        )
        .format()
    );
    println!(
        "diff_chars: {}",
        diff_chars(
            "The red brown fox jumped over the rolling log",
            "The brown spotted fox leaped over the rolling log"
        )
        .format()
    );
    println!(
        "diff_chars: {}",
        diff_chars(
            "The red    brown fox jumped over the rolling log",
            "The brown spotted fox leaped over the rolling log"
        )
        .set_highlight_whitespace(true)
        .format()
    );
    println!(
        "diff_words: {}",
        diff_words(
            "The red brown fox jumped over the rolling log",
            "The brown spotted fox leaped over the rolling log"
        )
        .format()
    );
    println!(
        "diff_words: {}",
        diff_words(
            "The quick brown fox jumps over the lazy dog",
            "The quick, brown dog leaps over the lazy cat"
        )
        .format()
    );
}

#[test]
fn test_split_words() {
    assert_eq!(split_words("Hello World"), ["Hello", " ", "World"]);
    assert_eq!(split_words("Hello😋World"), ["Hello", "😋", "World"]);
    assert_eq!(
        split_words("The red brown fox\tjumped, over the rolling log"),
        [
            "The", " ", "red", " ", "brown", " ", "fox", "\t", "jumped", ",", " ", "over", " ",
            "the", " ", "rolling", " ", "log"
        ]
    );
}

#[test]
fn test_diff_lines() {
    let code1_a = r#"
void func1() {
    x += 1
}

void func2() {
    x += 2
}
    "#;
    let code1_b = r#"
void func1(a: u32) {
    x += 1
}

void functhreehalves() {
    x += 1.5
}

void func2() {
    x += 2
}

void func3(){}
"#;
    println!("diff_lines:");
    println!("{}", diff_lines(code1_a, code1_b).format());
    println!("====");
    let rows = diff_lines(code1_a, code1_b)
        .names("left", "right")
        .set_aling_new_lines(true)
        .prettytable_rows();
    for row in rows {
        println!("{} | {} | {} | {}", row.old_line, row.left, row.new_line, row.right);
    }
}

#[test]
fn test_diff_words_issue_1() {
    let d1 = diff_words(
        "und meine Unschuld beweisen!",
        "und ich werde meine Unschuld beweisen!",
    );
    println!("diff_words: {} {:?}", d1.format(), d1.diff());
    let d2 = diff_words(
        "Campaignings aus dem Ausland gegen meine Person ausfindig",
        "Campaignings ausfindig",
    );
    println!("diff_words: {} {:?}", d2.format(), d2.diff());
    let d3 = diff_words("des kriminellen Videos", "des kriminell erstellten Videos");
    println!("diff_words: {} {:?}", d3.format(), d3.diff());
}

fn op_texts(ops: &[DiffOp], old: &[String], new: &[String]) -> Vec<(String, String, String)> {
    let mut out = Vec::new();
    for op in ops {
        match *op {
            DiffOp::Equal {
                old_start, len, ..
            } => out.push(("equal".to_string(), old[old_start..old_start + len].concat(), String::new())),
            DiffOp::Remove {
                old_start, len, ..
            } => out.push(("remove".to_string(), old[old_start..old_start + len].concat(), String::new())),
            DiffOp::Insert {
                new_start, len, ..
            } => out.push(("insert".to_string(), String::new(), new[new_start..new_start + len].concat())),
            DiffOp::Replace {
                old_start,
                old_len,
                new_start,
                new_len,
            } => out.push((
                "replace".to_string(),
                old[old_start..old_start + old_len].concat(),
                new[new_start..new_start + new_len].concat(),
            )),
        }
    }
    out
}

#[test]
fn test_word_scenario() {
    let c = diff_words(
        "The quick brown fox jumps over the lazy dog",
        "The quick brown dog leaps over the lazy cat",
    );
    let ops = c.diff();
    let texts = op_texts(&ops, &c.old, &c.new);
    let equals: Vec<&str> = texts
        .iter()
        .filter(|t| t.0 == "equal")
        .map(|t| t.1.as_str())
        .collect();
    assert!(equals.contains(&"The quick brown "));
    assert!(equals.contains(&" over the lazy "));
    let removed: String = texts
        .iter()
        .filter(|t| t.0 == "remove" || t.0 == "replace")
        .map(|t| t.1.clone())
        .collect();
    let inserted: String = texts
        .iter()
        .filter(|t| t.0 == "insert" || t.0 == "replace")
        .map(|t| t.2.clone())
        .collect();
    assert_eq!(removed, "foxjumpsdog");
    assert_eq!(inserted, "dogleapscat");
}

#[test]
fn test_lines_scenario_standalone_insert() {
    let code1_a = "\nvoid func1() {\n    x += 1\n}\n\nvoid func2() {\n    x += 2\n}\n    ";
    let code1_b = "\nvoid func1(a: u32) {\n    x += 1\n}\n\nvoid functhreehalves() {\n    x += 1.5\n}\n\nvoid func2() {\n    x += 2\n}\n\nvoid func3(){}\n";
    let c = diff_lines(code1_a, code1_b);
    let ops = c.diff();
    let texts = op_texts(&ops, &c.old, &c.new);
    let mut found_insert_block = false;
    for (kind, _, new_text) in &texts {
        if new_text.contains("functhreehalves") {
            assert_eq!(kind, "insert");
            found_insert_block = true;
        }
    }
    assert!(found_insert_block);
}

#[test]
fn test_split_lines() {
    assert_eq!(split_lines("a\nb\nc"), ["a", "b", "c"]);
    assert_eq!(split_lines("a\r\nb\r\n"), ["a", "b"]);
    assert_eq!(split_lines(""), Vec::<String>::new());
    assert_eq!(split_lines("\n"), [""]);
    assert_eq!(split_lines("tail\r"), ["tail\r"]);
}

#[test]
fn test_line_format_escapes() {
    let c = diff_lines("a", "b");
    assert_eq!(
        c.format(),
        "\u{1b}[9;31ma\u{1b}[0m\n\u{1b}[32mb\u{1b}[0m"
    );
}

#[test]
fn test_inline_format_escapes() {
    let c = diff_chars("a", "b");
    assert_eq!(
        c.format(),
        "\u{1b}[9;31ma\u{1b}[0m\u{1b}[32mb\u{1b}[0m"
    );
}

#[test]
fn test_inline_format_whitespace_styles() {
    let c = diff_chars("x", " ");
    assert_eq!(
        c.format(),
        "\u{1b}[9;31mx\u{1b}[0m\u{1b}[42;37m \u{1b}[0m"
    );
    let plain = diff_chars("x", " ").set_highlight_whitespace(false);
    assert_eq!(
        plain.format(),
        "\u{1b}[9;31mx\u{1b}[0m\u{1b}[32m \u{1b}[0m"
    );
}

#[test]
fn test_prettytable_rows_trim_and_lines() {
    let c = diff_lines("\n\nkeep\nx\n", "\n\nkeep\ny\n").set_diff_only(true);
    let rows = c.prettytable_rows();
    assert_eq!(rows.len(), 1);
    let row = &rows[0];
    assert_eq!(row.old_line, 4);
    assert_eq!(row.new_line, 4);
    assert_eq!(row.left, "\u{1b}[31mx\u{1b}[0m");
    assert_eq!(row.right, "\u{1b}[32my\u{1b}[0m");
}

#[test]
fn test_prettytable_rows_tab_expansion() {
    let c = diff_lines("\ta", "") ;
    let rows = c.prettytable_rows();
    assert_eq!(rows.len(), 1);
    assert_eq!(rows[0].left, "\u{1b}[31m\ta\u{1b}[0m".replace('\t', "    "));
}

#[test]
fn test_replace_cells_word_recolor() {
    let rows = diff_lines("x = 1", "x = 2").prettytable_rows();
    assert_eq!(rows.len(), 1);
    assert_eq!(rows[0].old_line, 1);
    assert_eq!(rows[0].new_line, 1);
    assert_eq!(rows[0].left, "x = \u{1b}[31m1\u{1b}[0m");
    assert_eq!(rows[0].right, "x = \u{1b}[32m2\u{1b}[0m");
}
