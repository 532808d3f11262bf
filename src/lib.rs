pub mod ast;
pub mod config;
pub mod html;
pub mod lexer;
pub mod text;

use vstd::prelude::*;

use crate::ast::{document_of, run_ast};
use crate::html::html_of;
use crate::lexer::{classify, tokens_of};

verus! {

/// The HTML that a markdown text converts to.
pub open spec fn html_of_text(text: Seq<char>) -> Seq<char> {
    html_of(document_of(tokens_of(text)))
}

/// Converts a markdown text to indented HTML: classifies its lines, builds the
/// document from the tokens, and renders it.
pub fn markdown_to_html(text: &str) -> (r: String)
    ensures
        r@ == html_of_text(text@),
{
    let tokens = classify(text);
    let tree = run_ast(tokens);
    tree.to_string()
}

/// The conversion depends on the text alone: the same text always gives the same HTML.
pub proof fn lemma_conversion_deterministic(a: Seq<char>, b: Seq<char>)
    requires
        a == b,
    ensures
        html_of_text(a) == html_of_text(b),
{
}

} // verus!
