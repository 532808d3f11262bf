use vstd::prelude::*;
use vstd::std_specs::iter::IteratorSpec;

verus! {

/// Relies on `String::push`: appends one character to the end of the string.
#[verifier::external_body]
pub(crate) fn push_char(s: &mut String, c: char)
    ensures
        final(s)@ == old(s)@.push(c),
{
    s.push(c)
}

/// The characters of `s`, in order.
pub fn chars_of(s: &str) -> (r: Vec<char>)
    ensures
        r@ == s@,
{
    broadcast use vstd::string::group_string_axioms;

    let mut out: Vec<char> = Vec::new();
    let mut it = s.chars();
    let ghost n = s@.len();
    loop
        invariant
            it.obeys_prophetic_iter_laws(),
            out@.len() + it.remaining().len() == n,
            out@ + it.remaining() == s@,
        ensures
            out@ == s@,
        decreases n - out@.len(),
    {
        match it.next() {
            Some(c) => {
                out.push(c);
            },
            None => {
                break;
            },
        }
    }
    out
}

/// `s` cut at every occurrence of `sep`: the pieces between the separators, in order.
/// There is always one more piece than there are separators.
pub open spec fn pieces(s: Seq<char>, sep: char) -> Seq<Seq<char>>
    decreases s.len(),
{
    if s.len() == 0 {
        seq![Seq::<char>::empty()]
    } else {
        let p = pieces(s.drop_last(), sep);
        if s.last() == sep {
            p.push(Seq::<char>::empty())
        } else {
            p.update(p.len() - 1, p.last().push(s.last()))
        }
    }
}

/// Cutting always gives at least one piece.
pub proof fn lemma_pieces_len(s: Seq<char>, sep: char)
    ensures
        pieces(s, sep).len() >= 1,
    decreases s.len(),
{
    if s.len() > 0 {
        lemma_pieces_len(s.drop_last(), sep);
    }
}

/// The bounds of the pieces of `cs` between occurrences of `sep`: piece `k` is
/// `cs[r[k].0 .. r[k].1]`.
pub fn piece_bounds(cs: &Vec<char>, sep: char) -> (r: Vec<(usize, usize)>)
    ensures
        r@.len() == pieces(cs@, sep).len(),
        forall|k: int|
            #![trigger r@[k]]
            0 <= k < r@.len() ==> {
                &&& r@[k].0 <= r@[k].1 <= cs@.len()
                &&& cs@.subrange(r@[k].0 as int, r@[k].1 as int) == pieces(cs@, sep)[k]
            },
{
    let mut out: Vec<(usize, usize)> = Vec::new();
    let mut start: usize = 0;
    let mut i: usize = 0;
    while i < cs.len()
        invariant
            start <= i <= cs@.len(),
            pieces(cs@.take(i as int), sep).len() == out@.len() + 1,
            forall|k: int|
                #![trigger out@[k]]
                0 <= k < out@.len() ==> {
                    &&& out@[k].0 <= out@[k].1 <= i
                    &&& cs@.subrange(out@[k].0 as int, out@[k].1 as int) == pieces(
                        cs@.take(i as int),
                        sep,
                    )[k]
                },
            pieces(cs@.take(i as int), sep)[out@.len() as int] == cs@.subrange(start as int, i as int),
        decreases cs@.len() - i,
    {
        let ghost p = pieces(cs@.take(i as int), sep);
        assert(cs@.take(i + 1).drop_last() =~= cs@.take(i as int));
        if cs[i] == sep {
            out.push((start, i));
            start = i + 1;
        } else {
            assert(cs@.subrange(start as int, i + 1) =~= cs@.subrange(start as int, i as int).push(
                cs@[i as int],
            ));
        }
        i = i + 1;
        let ghost q = pieces(cs@.take(i as int), sep);
        assert forall|k: int| #![trigger out@[k]] 0 <= k < out@.len() implies {
            &&& out@[k].0 <= out@[k].1 <= i
            &&& cs@.subrange(out@[k].0 as int, out@[k].1 as int) == q[k]
        } by {
            assert(q[k] == p[k]);
        }
        assert(cs@.subrange(start as int, i as int) =~= q[out@.len() as int]);
    }
    assert(cs@.take(i as int) =~= cs@);
    out.push((start, i));
    out
}

/// A copy of the characters `cs[from..to]`.
pub fn chars_between(cs: &Vec<char>, from: usize, to: usize) -> (r: Vec<char>)
    requires
        from <= to <= cs@.len(),
    ensures
        r@ == cs@.subrange(from as int, to as int),
{
    let mut r: Vec<char> = Vec::new();
    let mut i: usize = from;
    while i < to
        invariant
            from <= i <= to <= cs@.len(),
            r@ == cs@.subrange(from as int, i as int),
        decreases to - i,
    {
        r.push(cs[i]);
        i = i + 1;
        assert(r@ =~= cs@.subrange(from as int, i as int));
    }
    r
}

/// The string made of the characters `cs[from..to]`.
pub fn string_of(cs: &Vec<char>, from: usize, to: usize) -> (r: String)
    requires
        from <= to <= cs@.len(),
    ensures
        r@ == cs@.subrange(from as int, to as int),
{
    let mut r = String::new();
    let mut i: usize = from;
    while i < to
        invariant
            from <= i <= to <= cs@.len(),
            r@ == cs@.subrange(from as int, i as int),
        decreases to - i,
    {
        push_char(&mut r, cs[i]);
        i = i + 1;
        assert(r@ =~= cs@.subrange(from as int, i as int));
    }
    r
}

/// The string `s` held; `s` is left empty.
pub fn take_string(s: &mut String) -> (r: String)
    ensures
        r@ == old(s)@,
        final(s)@ == Seq::<char>::empty(),
{
    let mut r = String::new();
    std::mem::swap(&mut r, s);
    r
}

/// Whether `a` holds exactly the characters of `b`.
pub fn same_text(a: &String, b: &str) -> (r: bool)
    ensures
        r == (a@ == b@),
{
    *a == String::from_str(b)
}

} // verus!
