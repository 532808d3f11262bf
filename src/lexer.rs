use vstd::prelude::*;

use crate::text::{chars_between, chars_of, lemma_pieces_len, piece_bounds, pieces, string_of};

verus! {

/// What a token stands for: an opening marker that the next literal belongs to,
/// a marker whose meaning depends on what came before it, or plain text.
#[derive(Clone, Copy, PartialEq, Eq, Structural, Debug)]
pub enum TokenType {
    Prefix,
    Suffix,
    Literal,
}

/// One classified piece of a line.
pub struct Token {
    pub token_type: TokenType,
    pub value: String,
}

impl View for Token {
    type V = (TokenType, Seq<char>);

    open spec fn view(&self) -> (TokenType, Seq<char>) {
        (self.token_type, self.value@)
    }
}

/// The views of a sequence of tokens.
pub open spec fn token_views(ts: Seq<Token>) -> Seq<(TokenType, Seq<char>)> {
    ts.map_values(|t: Token| t@)
}

/// The characters that separate words on a line.
pub open spec fn is_blank(c: char) -> bool {
    c == ' ' || c == '\t'
}

/// The first position at or after `i` that does not hold a blank (or the end of `l`).
pub open spec fn skip_blanks(l: Seq<char>, i: int) -> int
    decreases l.len() - i,
{
    if 0 <= i < l.len() && is_blank(l[i]) {
        skip_blanks(l, i + 1)
    } else {
        i
    }
}

/// The first position at or after `i` that holds a blank (or the end of `l`).
pub open spec fn skip_word(l: Seq<char>, i: int) -> int
    decreases l.len() - i,
{
    if 0 <= i < l.len() && !is_blank(l[i]) {
        skip_word(l, i + 1)
    } else {
        i
    }
}

/// Every character of `l` is `c`.
pub open spec fn all_are(l: Seq<char>, c: char) -> bool {
    forall|i: int| 0 <= i < l.len() ==> l[i] == c
}

/// Every character of `l` is `-` or `|`.
pub open spec fn dashes_and_pipes(l: Seq<char>) -> bool {
    forall|i: int| 0 <= i < l.len() ==> l[i] == '-' || l[i] == '|'
}

/// Where the first word of `l` starts, where it ends, and where the next word starts.
pub open spec fn word_bounds(l: Seq<char>) -> (int, int, int) {
    let a = skip_blanks(l, 0);
    let b = skip_word(l, a);
    (a, b, skip_blanks(l, b))
}

/// The level of an ATX heading line: the number of `#` in a first word made of
/// `#` alone, when it is between one and six and a second word follows; else zero.
pub open spec fn atx_level(l: Seq<char>) -> int {
    let (a, b, c) = word_bounds(l);
    if c < l.len() && 1 <= b - a <= 6 && all_are(l.subrange(a, b), '#') {
        b - a
    } else {
        0
    }
}

/// The tag of a heading of level `n` (one to six).
pub open spec fn heading_tag(n: int) -> Seq<char> {
    if n == 1 {
        "h1"@
    } else if n == 2 {
        "h2"@
    } else if n == 3 {
        "h3"@
    } else if n == 4 {
        "h4"@
    } else if n == 5 {
        "h5"@
    } else {
        "h6"@
    }
}

/// The tokens of one line, by the first rule that applies.
pub open spec fn line_tokens(l: Seq<char>) -> Seq<(TokenType, Seq<char>)> {
    if l.len() == 0 {
        seq![(TokenType::Suffix, "empty_line"@)]
    } else if all_are(l, '=') {
        seq![(TokenType::Suffix, "h1"@)]
    } else if all_are(l, '-') {
        seq![(TokenType::Suffix, "h2"@)]
    } else if dashes_and_pipes(l) {
        seq![(TokenType::Suffix, "table"@)]
    } else if atx_level(l) > 0 {
        seq![
            (TokenType::Prefix, heading_tag(atx_level(l))),
            (TokenType::Literal, l.subrange(word_bounds(l).2, l.len() as int)),
        ]
    } else {
        seq![(TokenType::Literal, l)]
    }
}

/// A line without the carriage return of a `\r\n` line break.
pub open spec fn strip_cr(l: Seq<char>) -> Seq<char> {
    if l.len() > 0 && l.last() == '\r' {
        l.drop_last()
    } else {
        l
    }
}

/// The lines of a text: the pieces between newlines, each without the carriage
/// return of a `\r\n` break; a text that ends with a newline has no empty line after it.
pub open spec fn lines_of(s: Seq<char>) -> Seq<Seq<char>> {
    let p = pieces(s, '\n');
    let closed = p.drop_last().map_values(|l: Seq<char>| strip_cr(l));
    if p.last().len() == 0 {
        closed
    } else {
        closed.push(p.last())
    }
}

/// The tokens of the lines `ls`, line after line.
pub open spec fn tokens_of_lines(ls: Seq<Seq<char>>) -> Seq<(TokenType, Seq<char>)>
    decreases ls.len(),
{
    if ls.len() == 0 {
        Seq::empty()
    } else {
        tokens_of_lines(ls.drop_last()) + line_tokens(ls.last())
    }
}

/// The tokens of a whole text.
pub open spec fn tokens_of(text: Seq<char>) -> Seq<(TokenType, Seq<char>)> {
    tokens_of_lines(lines_of(text))
}

fn blanks_end(l: &Vec<char>, i: usize) -> (r: usize)
    requires
        i <= l@.len(),
    ensures
        r == skip_blanks(l@, i as int),
        i <= r <= l@.len(),
{
    let mut j = i;
    while j < l.len() && (l[j] == ' ' || l[j] == '\t')
        invariant
            i <= j <= l@.len(),
            skip_blanks(l@, j as int) == skip_blanks(l@, i as int),
        decreases l@.len() - j,
    {
        j = j + 1;
    }
    j
}

fn word_end(l: &Vec<char>, i: usize) -> (r: usize)
    requires
        i <= l@.len(),
    ensures
        r == skip_word(l@, i as int),
        i <= r <= l@.len(),
{
    let mut j = i;
    while j < l.len() && !(l[j] == ' ' || l[j] == '\t')
        invariant
            i <= j <= l@.len(),
            skip_word(l@, j as int) == skip_word(l@, i as int),
        decreases l@.len() - j,
    {
        j = j + 1;
    }
    j
}

/// Whether every character of `l[from..to]` is `c`.
fn all_same(l: &Vec<char>, from: usize, to: usize, c: char) -> (r: bool)
    requires
        from <= to <= l@.len(),
    ensures
        r == all_are(l@.subrange(from as int, to as int), c),
{
    let mut j = from;
    while j < to
        invariant
            from <= j <= to <= l@.len(),
            all_are(l@.subrange(from as int, j as int), c),
        decreases to - j,
    {
        if l[j] != c {
            assert(l@.subrange(from as int, to as int)[j - from] != c);
            return false;
        }
        j = j + 1;
    }
    assert(l@.subrange(from as int, j as int) =~= l@.subrange(from as int, to as int));
    true
}

fn only_dashes_and_pipes(l: &Vec<char>) -> (r: bool)
    ensures
        r == dashes_and_pipes(l@),
{
    let mut j: usize = 0;
    while j < l.len()
        invariant
            j <= l@.len(),
            forall|k: int| 0 <= k < j ==> l@[k] == '-' || l@[k] == '|',
        decreases l@.len() - j,
    {
        if l[j] != '-' && l[j] != '|' {
            return false;
        }
        j = j + 1;
    }
    true
}

fn heading_tag_string(n: usize) -> (r: String)
    requires
        1 <= n <= 6,
    ensures
        r@ == heading_tag(n as int),
{
    if n == 1 {
        String::from_str("h1")
    } else if n == 2 {
        String::from_str("h2")
    } else if n == 3 {
        String::from_str("h3")
    } else if n == 4 {
        String::from_str("h4")
    } else if n == 5 {
        String::from_str("h5")
    } else {
        String::from_str("h6")
    }
}

fn suffix(value: &str) -> (r: Token)
    ensures
        r@ == (TokenType::Suffix, value@),
{
    Token { token_type: TokenType::Suffix, value: String::from_str(value) }
}

/// Appends the tokens of one line to `out`.
pub fn classify_line(l: &Vec<char>, out: &mut Vec<Token>)
    ensures
        token_views(final(out)@) == token_views(old(out)@) + line_tokens(l@),
{
    let ghost start = token_views(out@);
    let n = l.len();
    if n == 0 {
        out.push(suffix("empty_line"));
    } else if all_same(l, 0, n, '=') {
        assert(l@.subrange(0, n as int) =~= l@);
        out.push(suffix("h1"));
    } else if all_same(l, 0, n, '-') {
        assert(l@.subrange(0, n as int) =~= l@);
        out.push(suffix("h2"));
    } else if only_dashes_and_pipes(l) {
        assert(l@.subrange(0, n as int) =~= l@);
        out.push(suffix("table"));
    } else {
        assert(l@.subrange(0, n as int) =~= l@);
        let a = blanks_end(l, 0);
        let b = word_end(l, a);
        let c = blanks_end(l, b);
        if c < n && 1 <= b - a && b - a <= 6 && all_same(l, a, b, '#') {
            out.push(Token { token_type: TokenType::Prefix, value: heading_tag_string(b - a) });
            out.push(Token { token_type: TokenType::Literal, value: string_of(l, c, n) });
        } else {
            out.push(Token { token_type: TokenType::Literal, value: string_of(l, 0, n) });
        }
    }
    assert(token_views(out@) =~= start + line_tokens(l@));
}

/// Classifies every line of `text`, in order.
pub fn classify(text: &str) -> (r: Vec<Token>)
    ensures
        token_views(r@) == tokens_of(text@),
{
    let cs = chars_of(text);
    let bounds = piece_bounds(&cs, '\n');
    let ghost p = pieces(cs@, '\n');
    proof {
        lemma_pieces_len(cs@, '\n');
    }
    let last = bounds.len() - 1;
    let mut out: Vec<Token> = Vec::new();
    let mut k: usize = 0;
    while k < last
        invariant
            last + 1 == bounds@.len() == p.len(),
            k <= last,
            p == pieces(cs@, '\n'),
            forall|j: int|
                #![trigger bounds@[j]]
                0 <= j < bounds@.len() ==> {
                    &&& bounds@[j].0 <= bounds@[j].1 <= cs@.len()
                    &&& cs@.subrange(bounds@[j].0 as int, bounds@[j].1 as int) == p[j]
                },
            token_views(out@) == tokens_of_lines(
                p.take(k as int).map_values(|l: Seq<char>| strip_cr(l)),
            ),
        decreases last - k,
    {
        let (a, b) = bounds[k];
        let end = if a < b && cs[b - 1] == '\r' {
            b - 1
        } else {
            b
        };
        let line = chars_between(&cs, a, end);
        assert(line@ == strip_cr(p[k as int]));
        classify_line(&line, &mut out);
        let ghost done = p.take(k as int).map_values(|l: Seq<char>| strip_cr(l));
        k = k + 1;
        assert(p.take(k as int).map_values(|l: Seq<char>| strip_cr(l)) =~= done.push(line@));
        assert(done.push(line@).drop_last() =~= done);
    }
    let (a, b) = bounds[last];
    let ghost closed = p.drop_last().map_values(|l: Seq<char>| strip_cr(l));
    assert(p.take(last as int) =~= p.drop_last());
    if a < b {
        let line = chars_between(&cs, a, b);
        classify_line(&line, &mut out);
        assert(closed.push(line@).drop_last() =~= closed);
    }
    out
}

} // verus!
