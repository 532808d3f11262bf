use md_parser::ast::{run_ast, split_cells, Tree};
use md_parser::lexer::Token;
use md_parser::lexer::TokenType::{Literal, Prefix, Suffix};

fn tok(kind: md_parser::lexer::TokenType, value: &str) -> Token {
    Token {
        token_type: kind,
        value: String::from(value),
    }
}

fn render(tokens: Vec<Token>) -> String {
    let tree: Tree = run_ast(tokens);
    tree.to_string()
}

#[test]
fn cells_split_on_pipes() {
    assert_eq!(split_cells("a|b|c"), vec!["a", "b", "c"]);
    assert_eq!(split_cells("a|b|c").len(), 3);
}

#[test]
fn cells_drop_leading_and_trailing_empty_fields() {
    assert_eq!(split_cells("|a"), vec!["a"]);
    assert_eq!(split_cells("a|"), vec!["a"]);
    assert_eq!(split_cells("|3,1|3,2|"), vec!["3,1", "3,2"]);
}

#[test]
fn cells_keep_inner_whitespace() {
    assert_eq!(split_cells("Header1 |"), vec!["Header1 "]);
    assert_eq!(split_cells(" a | b "), vec![" a ", " b ", ]);
}

#[test]
fn cells_drop_empty_fields_between_pipes() {
    assert_eq!(split_cells("a||b"), vec!["a", "b"]);
    assert_eq!(split_cells("||"), Vec::<String>::new());
    assert_eq!(split_cells(""), Vec::<String>::new());
}

#[test]
fn empty_stream_gives_bare_root() {
    assert_eq!(render(vec![]), "<html>\n</html>");
}

#[test]
fn blank_line_closes_table() {
    let out = render(vec![
        tok(Literal, "A|B"),
        tok(Suffix, "table"),
        tok(Literal, "1|2"),
        tok(Suffix, "empty_line"),
        tok(Literal, "after"),
    ]);
    assert_eq!(
        out,
        "<html>
    <table>
        <tr>
            <th>A</th>
            <th>B</th>
        </tr>
        <tr>
            <td>1</td>
            <td>2</td>
        </tr>
    </table>
    <p>after</p>
</html>"
    );
}

#[test]
fn blank_line_outside_table_changes_nothing() {
    let with_blank = render(vec![
        tok(Literal, "x"),
        tok(Suffix, "empty_line"),
        tok(Literal, "y"),
    ]);
    let without = render(vec![tok(Literal, "x"), tok(Literal, "y")]);
    assert_eq!(with_blank, without);
    assert_eq!(with_blank, "<html>\n    <p>x</p>\n    <p>y</p>\n</html>");
}

#[test]
fn table_without_header_paragraph_has_empty_header_row() {
    let out = render(vec![tok(Suffix, "table"), tok(Literal, "a|b")]);
    assert_eq!(
        out,
        "<html>
    <table>
        <tr>
        </tr>
        <tr>
            <td>a</td>
            <td>b</td>
        </tr>
    </table>
</html>"
    );
}

#[test]
fn setext_marker_without_paragraph_is_ignored() {
    assert_eq!(render(vec![tok(Suffix, "h2")]), "<html>\n</html>");
    let out = render(vec![tok(Prefix, "h1"), tok(Literal, "T"), tok(Suffix, "h2")]);
    assert_eq!(out, "<html>\n    <h1>T</h1>\n</html>");
}

#[test]
fn setext_second_level_heading() {
    let out = render(vec![tok(Literal, "Title"), tok(Suffix, "h2")]);
    assert_eq!(out, "<html>\n    <h2>Title</h2>\n</html>");
}

#[test]
fn abandoned_prefix_is_replaced_by_next() {
    let out = render(vec![tok(Prefix, "h1"), tok(Prefix, "h2"), tok(Literal, "x")]);
    assert_eq!(out, "<html>\n    <h2>x</h2>\n</html>");
}

#[test]
fn prefix_then_suffix_emits_nothing() {
    let out = render(vec![tok(Prefix, "h1"), tok(Suffix, "empty_line"), tok(Literal, "x")]);
    assert_eq!(out, "<html>\n    <p>x</p>\n</html>");
}

#[test]
fn unknown_suffix_is_ignored() {
    let out = render(vec![tok(Literal, "x"), tok(Suffix, "code_block")]);
    assert_eq!(out, "<html>\n    <p>x</p>\n</html>");
}

#[test]
fn heading_after_paragraph_stays_separate() {
    let out = render(vec![tok(Literal, "para"), tok(Prefix, "h3"), tok(Literal, "Head")]);
    assert_eq!(out, "<html>\n    <p>para</p>\n    <h3>Head</h3>\n</html>");
}

#[test]
fn same_tokens_render_the_same() {
    let make = || {
        vec![
            tok(Literal, "H|I"),
            tok(Suffix, "table"),
            tok(Literal, "1|2|3"),
            tok(Suffix, "empty_line"),
            tok(Literal, "end"),
        ]
    };
    assert_eq!(render(make()), render(make()));
}

#[test]
fn rendered_tags_nest_by_indentation() {
    let out = render(vec![
        tok(Literal, "A|B"),
        tok(Suffix, "table"),
        tok(Literal, "1|2"),
    ]);
    let mut open: Vec<String> = Vec::new();
    for line in out.lines() {
        let body = line.trim_start_matches(' ');
        let depth = (line.len() - body.len()) / 4;
        if let Some(tag) = body.strip_prefix("</") {
            let top = open.pop().unwrap();
            assert_eq!(format!("{}", tag.trim_end_matches('>')), top);
            assert_eq!(depth, open.len());
        } else if body.ends_with('>') && !body.contains("</") {
            assert_eq!(depth, open.len());
            open.push(body[1..body.len() - 1].to_string());
        } else {
            assert_eq!(depth, open.len());
        }
    }
    assert!(open.is_empty());
}
