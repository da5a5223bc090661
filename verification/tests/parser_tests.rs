use nonogram_solver::parser::{
    parse_html_table, parse_puzzle_text, FileSolverParser, HtmlTableSolverParser,
};

#[test]
fn plain_text_round_board() {
    let text = b"2 3\n1 2\n\n1\n1\n2\n".to_vec();
    let parsed = parse_puzzle_text(&text).unwrap();
    assert_eq!(parsed.board_size.row, 2);
    assert_eq!(parsed.board_size.column, 3);
    assert_eq!(parsed.row_hints, vec![vec![1, 2], vec![]]);
    assert_eq!(parsed.column_hints, vec![vec![1], vec![1], vec![2]]);
}

#[test]
fn plain_text_tolerates_byte_order_mark_and_carriage_returns() {
    let mut text = vec![0xef, 0xbb, 0xbf];
    text.extend_from_slice(b"1 1\r\n1\r\n1\r\n");
    let parsed = parse_puzzle_text(&text).unwrap();
    assert_eq!(parsed.board_size.row, 1);
    assert_eq!(parsed.board_size.column, 1);
    assert_eq!(parsed.row_hints, vec![vec![1]]);
    assert_eq!(parsed.column_hints, vec![vec![1]]);
}

#[test]
fn plain_text_rejects_bad_input() {
    assert!(parse_puzzle_text(&b"".to_vec()).is_err());
    assert!(parse_puzzle_text(&b"2\n".to_vec()).is_err());
    assert!(parse_puzzle_text(&b"1 1\n".to_vec()).is_err());
    assert!(parse_puzzle_text(&b"1 1\nx\n1\n".to_vec()).is_err());
}

#[test]
fn html_table_extracts_both_axes() {
    let mut html = String::new();
    html.push_str("<table><thead><tr>");
    html.push_str("<td data-row=\"-1\" data-col=\"0\"><span>1</span></td>");
    html.push_str("<td data-row=\"-1\" data-col=\"1\"><span>2</span><span>1</span></td>");
    html.push_str("</tr></thead><tbody>");
    html.push_str("<tr><td><div><span>3</span></div></td></tr>");
    html.push_str("<tr><td><div><span>1</span><span>1</span></div></td></tr>");
    html.push_str("</tbody></table>");
    let html = html.into_bytes();
    let parsed = parse_html_table(&html).unwrap();
    assert_eq!(parsed.column_hints, vec![vec![1], vec![2, 1]]);
    assert_eq!(parsed.row_hints, vec![vec![3], vec![1, 1]]);
    assert_eq!(parsed.board_size.row, 2);
    assert_eq!(parsed.board_size.column, 2);
}

#[test]
fn html_table_without_rows_is_rejected() {
    let html = b"<table><tbody></tbody></table>".to_vec();
    assert!(parse_html_table(&html).is_err());
}

#[test]
fn parser_types_hold_their_input() {
    let file_parser = FileSolverParser::new("puzzle.txt".to_string());
    assert_eq!(file_parser.file_path, "puzzle.txt");
    let html_parser = HtmlTableSolverParser::new(b"<table></table>".to_vec());
    assert!(html_parser.parse().is_err());
}
