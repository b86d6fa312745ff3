use renlang::lexing::{find_tok_index, lex_line, tokenize_lines};

#[test]
fn lex_line_simple_words() {
    let toks = lex_line("program.ren", 3, "34 35 + .");
    assert_eq!(toks.len(), 4);
    let expected = [(0usize, "34"), (3, "35"), (6, "+"), (8, ".")];
    for (t, (col, word)) in toks.iter().zip(expected.iter()) {
        assert_eq!(t.path, "program.ren");
        assert_eq!(t.row, 3);
        assert_eq!(t.col, *col);
        assert_eq!(t.word, *word);
    }
}

#[test]
fn lex_line_runs_of_whitespace() {
    let toks = lex_line("f", 0, "  1\t\t22   333 ");
    assert_eq!(toks.len(), 3);
    assert_eq!((toks[0].col, toks[0].word.as_str()), (2, "1"));
    assert_eq!((toks[1].col, toks[1].word.as_str()), (5, "22"));
    assert_eq!((toks[2].col, toks[2].word.as_str()), (10, "333"));
}

#[test]
fn lex_line_empty_and_blank() {
    assert_eq!(lex_line("f", 0, "").len(), 0);
    assert_eq!(lex_line("f", 0, "   \t ").len(), 0);
}

#[test]
fn lex_line_columns_are_true_offsets_with_repeats() {
    // A word that is a substring of another word on the same line still gets
    // its true starting offsets, and only those.
    let toks = lex_line("f", 0, "1 12 1");
    assert_eq!(toks.len(), 3);
    assert_eq!((toks[0].col, toks[0].word.as_str()), (0, "1"));
    assert_eq!((toks[1].col, toks[1].word.as_str()), (2, "12"));
    assert_eq!((toks[2].col, toks[2].word.as_str()), (5, "1"));
}

#[test]
fn lex_line_unicode_whitespace_separates() {
    // No-break space and em-space separate words like ASCII spaces do, and
    // columns count characters, not bytes.
    let toks = lex_line("f", 0, "1\u{00A0}2\u{2003}3");
    assert_eq!(toks.len(), 3);
    assert_eq!((toks[0].col, toks[0].word.as_str()), (0, "1"));
    assert_eq!((toks[1].col, toks[1].word.as_str()), (2, "2"));
    assert_eq!((toks[2].col, toks[2].word.as_str()), (4, "3"));
}

#[test]
fn tokenize_lines_orders_by_row_then_column() {
    let lines = vec!["34 35".to_string(), "".to_string(), "+ .".to_string()];
    let toks = tokenize_lines("p", &lines);
    assert_eq!(toks.len(), 4);
    let expected = [(0usize, 0usize, "34"), (0, 3, "35"), (2, 0, "+"), (2, 2, ".")];
    for (t, (row, col, word)) in toks.iter().zip(expected.iter()) {
        assert_eq!(t.path, "p");
        assert_eq!(t.row, *row);
        assert_eq!(t.col, *col);
        assert_eq!(t.word, *word);
    }
    // Strictly ascending by (row, column).
    for w in toks.windows(2) {
        assert!(w[0].row < w[1].row || (w[0].row == w[1].row && w[0].col < w[1].col));
    }
}

#[test]
fn tokenize_lines_empty_file() {
    let lines: Vec<String> = Vec::new();
    assert_eq!(tokenize_lines("p", &lines).len(), 0);
}

#[test]
fn find_tok_index_reports_every_occurrence() {
    let toks = find_tok_index("f", 7, "1", "1 12 1");
    let cols: Vec<usize> = toks.iter().map(|t| t.col).collect();
    assert_eq!(cols, vec![0, 2, 5]);
    for t in &toks {
        assert_eq!(t.path, "f");
        assert_eq!(t.row, 7);
        assert_eq!(t.word, "1");
    }
}

#[test]
fn find_tok_index_matches_do_not_overlap() {
    let toks = find_tok_index("f", 0, "aa", "aaa");
    let cols: Vec<usize> = toks.iter().map(|t| t.col).collect();
    assert_eq!(cols, vec![0]);
}

#[test]
fn find_tok_index_absent_word() {
    assert_eq!(find_tok_index("f", 0, "zz", "1 2 3").len(), 0);
}
