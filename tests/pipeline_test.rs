use md_parser::markdown_to_html;

#[test]
fn converts_a_small_document() {
    let text = "# Title\n\nSome text.\nSub\n---\nName|Age\n-|-\nAnn|31\nBob|\n\nEnd\n";
    assert_eq!(
        markdown_to_html(text),
        "<html>
    <h1>Title</h1>
    <p>Some text.</p>
    <h2>Sub</h2>
    <table>
        <tr>
            <th>Name</th>
            <th>Age</th>
        </tr>
        <tr>
            <td>Ann</td>
            <td>31</td>
        </tr>
        <tr>
            <td>Bob</td>
        </tr>
    </table>
    <p>End</p>
</html>"
    );
}

#[test]
fn setext_and_atx_headings_agree() {
    assert_eq!(markdown_to_html("text2\n==="), markdown_to_html("# text2"));
    assert_eq!(markdown_to_html("# text2"), "<html>\n    <h1>text2</h1>\n</html>");
}

#[test]
fn same_text_gives_same_output() {
    let text = "a|b\n--|--\n1|2\n\nafter";
    assert_eq!(markdown_to_html(text), markdown_to_html(text));
}

#[test]
fn empty_text_gives_bare_root() {
    assert_eq!(markdown_to_html(""), "<html>\n</html>");
}

#[test]
fn no_escaping_is_done() {
    assert_eq!(
        markdown_to_html("a <b> & c"),
        "<html>\n    <p>a <b> & c</p>\n</html>"
    );
}
