//! From a line of text to an expression tree.

use vstd::prelude::*;
use vstd::string::*;
use crate::climb::{build, lemma_well_formed_builds, parse_expr};
use crate::failure::ParseFailure;
use crate::grammar::{grammar, lemma_grammar_well_formed, CalculatorParser};
use crate::node::nodes_view;
use crate::tree::Expr;

verus! {

/// The expression tree of a line: the tree that the nodes of the grammar
/// build, or the first failure on the way.  A line that is no expression is
/// a syntax error whatever its literals hold.
pub open spec fn parse_line(line: Seq<u8>) -> Result<Expr, ParseFailure> {
    match grammar(line) {
        Ok(nodes) => build(nodes),
        Err(f) => Err(f),
    }
}

/// Parsing a line never ends in an internal fault: the grammar always hands
/// the tree builder a sequence of the shape that the builder relies on.
pub proof fn lemma_parse_never_faults(line: Seq<u8>)
    requires
        line.len() <= usize::MAX,
    ensures
        !(parse_line(line) matches Err(ParseFailure::Internal { .. })),
{
    lemma_grammar_well_formed(line);
    if let Ok(nodes) = grammar(line) {
        lemma_well_formed_builds(nodes);
    }
}

/// Parses one line into an expression tree.
///
/// Nothing is kept from one call to the next.
pub fn parse(line: &str) -> (r: Result<Expr, ParseFailure>)
    ensures
        r == parse_line(line.spec_bytes()),
        !(r matches Err(ParseFailure::Internal { .. })),
{
    match CalculatorParser::parse(line) {
        Ok(nodes) => {
            proof {
                lemma_well_formed_builds(nodes_view(nodes@));
            }
            parse_expr(&nodes)
        },
        Err(f) => Err(f),
    }
}

} // verus!
