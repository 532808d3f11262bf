use md_parser::ast::{Content, Node, Tree};

#[test]
fn new_tree_is_root_alone() {
    let tree = Tree::build();
    assert_eq!(tree.get_curr_tag(), "html");
    assert_eq!(tree.to_string(), "<html>\n</html>");
}

#[test]
fn leaf_does_not_move_cursor() {
    let mut tree = Tree::build();
    let mut tag = String::from("p");
    let mut text = String::from("hello");
    tree.insert_leaf(&mut tag, &mut text);
    assert_eq!(tag, "");
    assert_eq!(text, "");
    assert_eq!(tree.get_curr_tag(), "html");
    let mut tag2 = String::from("p");
    let mut text2 = String::from("again");
    tree.insert_leaf(&mut tag2, &mut text2);
    assert_eq!(tree.to_string(), "<html>\n    <p>hello</p>\n    <p>again</p>\n</html>");
}

#[test]
fn branch_moves_cursor_and_curr_up_returns() {
    let mut tree = Tree::build();
    tree.insert_branch(&mut String::from("div"));
    assert_eq!(tree.get_curr_tag(), "div");
    tree.insert_leaf(&mut String::from("span"), &mut String::from("in"));
    tree.curr_up();
    assert_eq!(tree.get_curr_tag(), "html");
    tree.curr_up();
    assert_eq!(tree.get_curr_tag(), "html");
    assert_eq!(
        tree.to_string(),
        "<html>\n    <div>\n        <span>in</span>\n    </div>\n</html>"
    );
}

#[test]
fn leaf_with_empty_tag_renders_bare_text() {
    let mut tree = Tree::build();
    tree.insert_leaf(&mut String::new(), &mut String::from("bare"));
    assert_eq!(tree.to_string(), "<html>\n    bare\n</html>");
}

#[test]
fn retag_and_take_last_child() {
    let mut tree = Tree::build();
    tree.insert_leaf(&mut String::from("p"), &mut String::from("Title"));
    assert!(tree.last_child_is_paragraph());
    tree.retag_last_child(String::from("h1"));
    assert!(!tree.last_child_is_paragraph());
    assert_eq!(tree.to_string(), "<html>\n    <h1>Title</h1>\n</html>");
    assert_eq!(tree.take_last_child_text(), Some(String::from("Title")));
    assert_eq!(tree.take_last_child_text(), None);
    assert_eq!(tree.to_string(), "<html>\n</html>");
}

#[test]
fn take_last_child_keeps_container() {
    let mut tree = Tree::build();
    tree.insert_branch(&mut String::from("table"));
    tree.curr_up();
    assert_eq!(tree.take_last_child_text(), None);
    assert_eq!(tree.to_string(), "<html>\n    <table>\n    </table>\n</html>");
}

#[test]
fn set_curr_tag_and_check() {
    let mut tree = Tree::build();
    let mut t = String::from("body");
    tree.set_curr_tag(&mut t);
    assert_eq!(t, "");
    assert!(tree.curr_tag_is("body"));
    assert!(!tree.curr_tag_is("html"));
    assert_eq!(tree.to_string(), "<body>\n</body>");
}

#[test]
fn append_curr_literal_leaves_container_cursor_unchanged() {
    let mut tree = Tree::build();
    tree.insert_leaf(&mut String::from("p"), &mut String::from("ab"));
    let mut more = String::from("cd");
    tree.append_curr_literal(&mut more);
    assert_eq!(more, "cd");
    assert_eq!(tree.get_curr_tag(), "html");
    assert_eq!(tree.to_string(), "<html>\n    <p>ab</p>\n</html>");
}

#[test]
fn insert_node_leaf_and_branch() {
    let mut tree = Tree::build();
    let mut leaf = Node::build_leaf();
    leaf.set_tag(&mut String::from("em"));
    leaf.set_value(Content::Inline(String::from("x")));
    tree.insert_node(leaf);
    assert_eq!(tree.get_curr_tag(), "html");
    let mut branch = Node::build_branch();
    branch.set_tag(&mut String::from("ul"));
    tree.insert_node(branch);
    assert_eq!(tree.get_curr_tag(), "ul");
    assert_eq!(
        tree.to_string(),
        "<html>\n    <em>x</em>\n    <ul>\n    </ul>\n</html>"
    );
}

#[test]
fn node_accessors() {
    let mut leaf = Node::build_leaf();
    assert_eq!(leaf.get_tag(), "");
    assert_eq!(leaf.get_literal(), Some(String::new()));
    let mut tag = String::from("td");
    leaf.set_tag(&mut tag);
    assert_eq!(tag, "");
    assert_eq!(leaf.get_tag(), "td");
    let mut more = String::from("abc");
    leaf.append_literal(&mut more);
    assert_eq!(more, "abc");
    assert_eq!(leaf.get_literal(), Some(String::from("abc")));

    let mut branch = Node::build_branch();
    assert_eq!(branch.get_literal(), None);
    branch.append_literal(&mut String::from("ignored"));
    assert_eq!(branch.get_literal(), None);
    branch.set_value(Content::Inline(String::from("now text")));
    assert_eq!(branch.get_literal(), Some(String::from("now text")));
}
