use bridge::admin_commands;
use bridge::utils;
use bridge::utils::CommandResponse;

fn strings(parts: &[&str]) -> Vec<String> {
    parts.iter().map(|s| s.to_string()).collect()
}

#[test]
fn a_short_text_is_one_message() {
    let chunks = CommandResponse::Text("Hello *there*\nfriend  ".to_string()).render_chunks();
    assert_eq!(
        chunks,
        vec![(
            "Hello *there*\nfriend".to_string(),
            "<p>Hello <em>there</em><br />\nfriend</p>\n".to_string()
        )]
    );
}

#[test]
fn strikethrough_and_tables_are_understood() {
    let chunks = CommandResponse::chunk_text("~~gone~~", None);
    assert_eq!(chunks[0].1, "<p><del>gone</del></p>\n");
    let chunks = CommandResponse::chunk_text("a | b\n--|--\n1 | 2", None);
    assert!(chunks[0].1.contains("<table>"), "{}", chunks[0].1);
}

#[test]
fn yaml_and_terminal_output_stand_in_code_blocks() {
    let yaml = CommandResponse::Yaml("a: <b> & c".to_string()).render_chunks();
    assert_eq!(
        yaml[0].1,
        "<pre><code class=\"language-yaml\">a: &lt;b&gt; &amp; c</code></pre>"
    );
    let term = CommandResponse::Terminal("x".to_string()).render_chunks();
    assert_eq!(term[0].1, "<pre><code class=\"language-bash\">x</code></pre>");
}

#[test]
fn an_empty_text_gives_no_message() {
    assert!(CommandResponse::Text(String::new()).render_chunks().is_empty());
}

#[test]
fn lines_are_kept_together_up_to_the_limit() {
    let line = "x".repeat(9_999);
    let text = format!("{line}\n{line}\n{line}\nlast");
    let chunks = CommandResponse::chunk_text(&text, Some("yaml"));
    assert_eq!(chunks.len(), 2);
    assert_eq!(chunks[0].0, format!("{line}\n{line}\n{line}"));
    assert_eq!(chunks[1].0, "last");
}

#[test]
fn a_line_may_reach_the_limit_exactly() {
    let line = "x".repeat(utils::MAX_MESSAGE_SIZE);
    let chunks = CommandResponse::chunk_text(&line, Some("yaml"));
    assert_eq!(chunks.len(), 1);
    assert_eq!(chunks[0].0.len(), utils::MAX_MESSAGE_SIZE);
}

#[test]
fn a_long_line_is_cut_between_characters() {
    let line = "é".repeat(20_000) + "a";
    let chunks = CommandResponse::chunk_text(&format!("before\n{line}\nafter"), Some("yaml"));
    assert_eq!(chunks.len(), 3);
    assert_eq!(chunks[0].0, "before");
    assert_eq!(chunks[1].0, "é".repeat(15_000));
    assert_eq!(chunks[2].0, format!("{}a\nafter", "é".repeat(5_000)));
    let odd = "a".to_string() + &"é".repeat(15_000);
    let chunks = CommandResponse::chunk_text(&odd, Some("yaml"));
    assert_eq!(chunks[0].0.len(), 29_999);
    assert_eq!(chunks[1].0, "é");
}

#[test]
fn no_message_is_too_long_and_no_letter_is_lost() {
    let mut text = String::new();
    for i in 0..4_000 {
        text.push_str(&"word ".repeat(i % 37));
        text.push_str("ü\n");
    }
    let chunks = CommandResponse::chunk_text(&text, Some("bash"));
    assert!(chunks.len() > 1);
    for (plain, _) in &chunks {
        assert!(plain.len() <= utils::MAX_MESSAGE_SIZE);
    }
    let sent: String = chunks.iter().map(|(plain, _)| plain.replace('\n', "")).collect();
    assert_eq!(sent, text.replace('\n', ""));
}

#[test]
fn a_user_table_is_padded_by_bytes() {
    let response = CommandResponse::Table {
        headers: strings(&["Scope", "S"]),
        rows: vec![strings(&["Global", "Never bridge"]), strings(&["é", "x", "ignored"])],
        footer: Some("done".to_string()),
    };
    let chunks = response.render_chunks();
    assert_eq!(
        chunks[0].0,
        "Scope  | S           \n\
         -------|-------------\n\
         Global | Never bridge\n\
         é      | x           \n\
         \n\
         done"
    );
}

#[test]
fn an_empty_user_table_says_so() {
    let response = CommandResponse::Table { headers: vec![], rows: vec![], footer: None };
    assert_eq!(
        response.render_chunks(),
        vec![("Empty table".to_string(), "<p>Empty table</p>\n".to_string())]
    );
}

#[test]
fn an_administrators_table_is_html() {
    let response = admin_commands::CommandResponse::Table {
        headers: strings(&["A", "B"]),
        rows: vec![strings(&["1", "<2>"])],
        footer: Some("x & y".to_string()),
    };
    let chunks = response.render_chunks();
    assert_eq!(
        chunks,
        vec![(
            "A | B\n--- | ---\n1 | <2>\n\n\nx & y".to_string(),
            "<table><thead><tr><th>A</th><th>B</th></tr></thead><tbody>\
             <tr><td>1</td><td>&lt;2&gt;</td></tr></tbody></table><br><em>x &amp; y</em>"
                .to_string()
        )]
    );
}

#[test]
fn an_administrators_table_without_rows_says_so() {
    let response = admin_commands::CommandResponse::Table {
        headers: strings(&["A"]),
        rows: vec![],
        footer: Some("f".to_string()),
    };
    assert_eq!(response.render_chunks()[0].0, "No data to display.");
}

#[test]
fn rows_are_distributed_and_the_footer_comes_last() {
    let row = strings(&[&"r".repeat(14_980)]);
    let rows = vec![row.clone(), row.clone(), row.clone(), row.clone(), row];
    let chunks = admin_commands::CommandResponse::chunk_table(
        &strings(&["H"]),
        &rows,
        &Some("end".to_string()),
    );
    assert_eq!(chunks.len(), 3);
    let groups = admin_commands::group_rows(&rows);
    assert_eq!(groups.iter().map(|g| g.len()).collect::<Vec<usize>>(), vec![2, 2, 1]);
    assert!(!chunks[0].0.contains("end") && !chunks[1].0.contains("end"));
    assert!(chunks[2].0.ends_with("\n\nend"));
}

#[test]
fn a_row_that_is_too_long_stands_alone() {
    let rows = vec![strings(&["a"]), strings(&[&"r".repeat(40_000)]), strings(&["b"])];
    let groups = admin_commands::group_rows(&rows);
    assert_eq!(groups.iter().map(|g| g.len()).collect::<Vec<usize>>(), vec![1, 1, 1]);
}

#[test]
fn both_kinds_of_answers_cut_text_alike() {
    let text = "one\ntwo\n".repeat(10_000);
    assert_eq!(
        admin_commands::CommandResponse::Yaml(text.clone()).render_chunks(),
        CommandResponse::Yaml(text).render_chunks()
    );
    assert_eq!(
        admin_commands::CommandResponse::Terminal("t".to_string()).render_chunks(),
        CommandResponse::Terminal("t".to_string()).render_chunks()
    );
    assert_eq!(
        admin_commands::CommandResponse::Text("**t**".to_string()).render_chunks(),
        CommandResponse::Text("**t**".to_string()).render_chunks()
    );
}
