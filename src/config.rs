use vstd::prelude::*;

use crate::text::{chars_between, chars_of, lemma_pieces_len, piece_bounds, pieces, string_of};

verus! {

/// Where to read the markdown and where to write the HTML.
pub struct Config {
    pub md_path: String,
    pub output_path: String,
}

/// Where the file name of a path starts: just after its last `/`, or at the start.
pub open spec fn name_start(path: Seq<char>) -> int
    decreases path.len(),
{
    if path.len() == 0 {
        0
    } else if path.last() == '/' {
        path.len() as int
    } else {
        name_start(path.drop_last())
    }
}

/// The output path that goes with an input path: its directories as they are,
/// then the part of its file name before the first `.`, then `.html`.
pub open spec fn default_output(md_path: Seq<char>) -> Seq<char> {
    let start = name_start(md_path);
    md_path.take(start) + pieces(md_path.skip(start), '.')[0] + ".html"@
}

/// Where the file name of `cs` starts.
fn file_name_start(cs: &Vec<char>) -> (r: usize)
    ensures
        r == name_start(cs@),
        r <= cs@.len(),
{
    let mut start: usize = 0;
    let mut i: usize = 0;
    while i < cs.len()
        invariant
            start <= i <= cs@.len(),
            start == name_start(cs@.take(i as int)),
        decreases cs@.len() - i,
    {
        assert(cs@.take(i + 1).drop_last() =~= cs@.take(i as int));
        if cs[i] == '/' {
            start = i + 1;
        }
        i = i + 1;
    }
    assert(cs@.take(i as int) =~= cs@);
    start
}

impl Config {
    /// Reads the program's arguments (the program itself first, then the input
    /// path and an optional output path).
    pub fn build(args: Vec<String>) -> (r: Result<Config, &'static str>)
        ensures
            r is Err <==> args@.len() < 2,
            r matches Err(e) ==> e@ == "No markdown file specified"@,
            r matches Ok(c) ==> {
                &&& c.md_path@ == args@[1]@
                &&& c.output_path@ == if args@.len() > 2 {
                    args@[2]@
                } else {
                    default_output(args@[1]@)
                }
            },
    {
        if args.len() < 2 {
            return Err("No markdown file specified");
        }
        let md_path = args[1].clone();
        let output_path = if args.len() > 2 {
            args[2].clone()
        } else {
            let cs = chars_of(md_path.as_str());
            let start = file_name_start(&cs);
            let file_name = chars_between(&cs, start, cs.len());
            assert(file_name@ =~= cs@.skip(start as int));
            let bounds = piece_bounds(&file_name, '.');
            proof {
                lemma_pieces_len(file_name@, '.');
            }
            let (a, b) = bounds[0];
            let mut out = string_of(&cs, 0, start);
            let stem = string_of(&file_name, a, b);
            out.append(stem.as_str());
            out.append(".html");
            assert(out@ =~= default_output(cs@));
            out
        };
        Ok(Config { md_path, output_path })
    }
}

} // verus!
