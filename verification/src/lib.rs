//! A small declarative configuration language in the nginx style:
//! whitespace-separated directives terminated by `;`, nested blocks
//! delimited by `{` and `}`, and `#` line comments. The tokenizer turns
//! raw text into a stream of typed tokens; the directive-tree builder
//! consumes that stream and assembles a tree of directive nodes.

use vstd::prelude::*;

pub mod directive;
pub mod token_stream;

verus! {

pub use crate::directive::Directive;

use crate::directive::{BuildOutcome, DirTree, ParseError, outcome_roots, spec_build};
use crate::token_stream::spec_tokens;

/// A parsed configuration document: the synthetic root directive that
/// owns every top-level statement and block.
pub struct Conf<'a> {
    pub root: Directive<'a>,
}

impl<'a> Conf<'a> {
    /// Parses a whole document. Returns the finished tree under a
    /// synthetic root named `root` with no arguments, or the
    /// unbalanced-block error when a `}` arrives with no open block.
    pub fn parse(buf: &'a str) -> (r: Result<Conf<'a>, ParseError>)
        ensures
            ({
                let outcome = spec_build(spec_tokens(buf@, 0));
                match r {
                    Ok(c) => outcome is Finished && c.root.tree() == (DirTree {
                        name: "root"@,
                        args: Seq::<Seq<char>>::empty(),
                        children: outcome_roots(outcome),
                    }),
                    Err(e) => outcome is Unbalanced && e == ParseError::UnbalancedBlock,
                }
            }),
    {
        let mut root = Directive::new("root");
        let res = root.parse(buf);
        proof {
            assert(Seq::<DirTree>::empty() + outcome_roots(spec_build(spec_tokens(buf@, 0)))
                =~= outcome_roots(spec_build(spec_tokens(buf@, 0))));
        }
        match res {
            Ok(_) => Ok(Conf { root }),
            Err(e) => Err(e),
        }
    }
}

} // verus!
