//! The tree builder: precedence climbing over a sequence of syntax nodes.
//!
//! The tree of a sequence is stated directly: it splits at the last operator
//! among those of the lowest tier.  The builder reads the sequence once,
//! from left to right, and is proved to produce that tree.

use vstd::prelude::*;
use crate::failure::{Fault, ParseFailure};
use crate::literal::{is_digit, literal_result, literal_value, parse_literal};
use crate::node::{nodes_view, well_formed, well_formed_operand, Node, SyntaxNode};
use crate::tree::{tier_of, Expr, Op};

verus! {

/// The tier of the operator at position `p`; zero where no operator stands.
pub open spec fn tier_at(nodes: Seq<Node>, p: int) -> nat {
    match nodes[p] {
        Node::Operator(op) => tier_of(op),
        _ => 0,
    }
}

/// The operator at position `p`.
pub open spec fn op_at(nodes: Seq<Node>, p: int) -> Op {
    match nodes[p] {
        Node::Operator(op) => op,
        _ => Op::Add,
    }
}

/// The first fault of an operand, if it has one.
pub open spec fn atom_fault(node: Node) -> Option<ParseFailure>
    decreases node, 0int,
{
    match node {
        Node::Integer { offset, text } => match literal_result(text, offset) {
            Ok(_) => None,
            Err(f) => Some(f),
        },
        Node::UnaryMinus(inner) => fault_in(inner, 0, inner.len() as int),
        Node::Group(inner) => fault_in(inner, 0, inner.len() as int),
        Node::Operator(_) => Some(ParseFailure::Internal { fault: Fault::ExpectedAtom }),
    }
}

/// The first fault met when positions `lo..hi` are read from left to right.
/// An operand is due at every even position and an operator at every odd
/// one, and the last position must hold an operand.
pub open spec fn fault_in(nodes: Seq<Node>, lo: int, hi: int) -> Option<ParseFailure>
    decreases nodes, hi - lo,
{
    if lo < 0 || lo >= hi || hi > nodes.len() {
        if lo % 2 == 0 {
            Some(ParseFailure::Internal { fault: Fault::ExpectedAtom })
        } else {
            None
        }
    } else if lo % 2 == 0 {
        match atom_fault(nodes[lo]) {
            Some(f) => Some(f),
            None => fault_in(nodes, lo + 1, hi),
        }
    } else if nodes[lo] is Operator {
        fault_in(nodes, lo + 1, hi)
    } else {
        Some(ParseFailure::Internal { fault: Fault::ExpectedOperator })
    }
}

/// The first fault of a whole sequence.
pub open spec fn first_fault(nodes: Seq<Node>) -> Option<ParseFailure> {
    fault_in(nodes, 0, nodes.len() as int)
}

/// The position at which positions `lo..hi` split: that of the last
/// operator among those of the lowest tier.  The operators of such a range
/// stand at `lo + 1`, `lo + 3`, and so on up to `hi - 2`.
pub open spec fn root_in(nodes: Seq<Node>, lo: int, hi: int) -> int
    decreases hi - lo,
{
    if hi - lo <= 3 {
        lo + 1
    } else {
        let before = root_in(nodes, lo, hi - 2);
        if tier_at(nodes, hi - 2) <= tier_at(nodes, before) {
            hi - 2
        } else {
            before
        }
    }
}

/// The split position lies strictly inside the range, on an operator's place.
pub proof fn lemma_root_in_range(nodes: Seq<Node>, lo: int, hi: int)
    requires
        hi - lo >= 3,
    ensures
        lo < root_in(nodes, lo, hi) < hi - 1,
        (hi - lo) % 2 == 1 ==> (root_in(nodes, lo, hi) - lo) % 2 == 1,
    decreases hi - lo,
{
    if hi - lo >= 5 {
        lemma_root_in_range(nodes, lo, hi - 2);
    } else if hi - lo == 4 {
        assert(root_in(nodes, lo, hi - 2) == lo + 1);
    }
}

/// No operator of the range is of a lower tier than the one at the split
/// position, and all operators on its right are of a higher tier.
pub proof fn lemma_root_is_last_lowest(nodes: Seq<Node>, lo: int, hi: int)
    requires
        hi - lo >= 3,
        (hi - lo) % 2 == 1,
    ensures
        forall|p: int|
            lo < p < hi && (p - lo) % 2 == 1 ==> #[trigger] tier_at(nodes, p) >= tier_at(
                nodes,
                root_in(nodes, lo, hi),
            ),
        forall|p: int|
            root_in(nodes, lo, hi) < p < hi && (p - lo) % 2 == 1 ==> #[trigger] tier_at(nodes, p)
                > tier_at(nodes, root_in(nodes, lo, hi)),
    decreases hi - lo,
{
    if hi - lo > 3 {
        lemma_root_is_last_lowest(nodes, lo, hi - 2);
        lemma_root_in_range(nodes, lo, hi - 2);
    }
}

/// The tree of an operand.
pub open spec fn atom_tree(node: Node) -> Expr
    decreases node, 0int,
{
    match node {
        Node::Integer { offset, text } => Expr::Integer(literal_value(text) as i32),
        Node::UnaryMinus(inner) => Expr::UnaryMinus(
            Box::new(tree_in(inner, 0, inner.len() as int)),
        ),
        Node::Group(inner) => tree_in(inner, 0, inner.len() as int),
        Node::Operator(_) => Expr::Integer(0),
    }
}

/// The tree of positions `lo..hi`: a lone operand's own tree; otherwise the
/// operator at the split position over the trees of what stands on its left
/// and on its right.
pub open spec fn tree_in(nodes: Seq<Node>, lo: int, hi: int) -> Expr
    decreases nodes, hi - lo,
{
    if lo < 0 || hi > nodes.len() || hi - lo < 3 {
        if 0 <= lo < nodes.len() {
            atom_tree(nodes[lo])
        } else {
            Expr::Integer(0)
        }
    } else {
        let k = root_in(nodes, lo, hi);
        proof {
            lemma_root_in_range(nodes, lo, hi);
        }
        Expr::BinOp {
            lhs: Box::new(tree_in(nodes, lo, k)),
            op: op_at(nodes, k),
            rhs: Box::new(tree_in(nodes, k + 1, hi)),
        }
    }
}

/// The tree of a whole sequence.
pub open spec fn tree_of(nodes: Seq<Node>) -> Expr {
    tree_in(nodes, 0, nodes.len() as int)
}

/// What building the tree of a sequence gives: its first fault, or its tree
/// when it has none.
pub open spec fn build(nodes: Seq<Node>) -> Result<Expr, ParseFailure> {
    match first_fault(nodes) {
        Some(f) => Err(f),
        None => Ok(tree_of(nodes)),
    }
}

/// What resolving one operand gives.
pub open spec fn atom_result(node: Node) -> Result<Expr, ParseFailure> {
    match atom_fault(node) {
        Some(f) => Err(f),
        None => Ok(atom_tree(node)),
    }
}

/// Where a climb that takes only operators of tier `min` or higher stops:
/// the first position among `p`, `p + 2`, ... that holds an operator of a
/// lower tier, or the length of the sequence.
pub open spec fn run_end(nodes: Seq<Node>, p: int, min: nat) -> int
    decreases nodes.len() + 1 - p,
{
    if p < 0 || p >= nodes.len() {
        nodes.len() as int
    } else if nodes[p] is Operator && tier_at(nodes, p) < min {
        p
    } else {
        run_end(nodes, p + 2, min)
    }
}

/// What a climb from the operand at `start` gives when it takes only
/// operators of tier `min` or higher: the first fault or the tree of the
/// positions up to where it stops, and that position.
pub open spec fn climb_result(nodes: Seq<Node>, start: int, min: nat) -> Result<
    (Expr, usize),
    ParseFailure,
> {
    let end = run_end(nodes, start + 1, min);
    match fault_in(nodes, start, end) {
        Some(f) => Err(f),
        None => Ok((tree_in(nodes, start, end), end as usize)),
    }
}

/// Positions `lo..hi` hold what is due at each of them.
pub open spec fn clean(nodes: Seq<Node>, lo: int, hi: int) -> bool {
    forall|p: int|
        lo <= p < hi ==> if p % 2 == 0 {
            atom_fault(#[trigger] nodes[p]) is None
        } else {
            nodes[p] is Operator
        }
}

proof fn lemma_run_end_range(nodes: Seq<Node>, p: int, min: nat)
    requires
        0 <= p <= nodes.len(),
    ensures
        p <= run_end(nodes, p, min) <= nodes.len(),
        run_end(nodes, p, min) < nodes.len() ==> {
            &&& (run_end(nodes, p, min) - p) % 2 == 0
            &&& nodes[run_end(nodes, p, min)] is Operator
            &&& tier_at(nodes, run_end(nodes, p, min)) < min
        },
    decreases nodes.len() + 1 - p,
{
    if p < nodes.len() && !(nodes[p] is Operator && tier_at(nodes, p) < min) {
        if p + 2 <= nodes.len() {
            lemma_run_end_range(nodes, p + 2, min);
        }
    }
}

proof fn lemma_run_end_skip(nodes: Seq<Node>, p: int, q: int, min: nat)
    requires
        0 <= p <= q,
        (q - p) % 2 == 0,
        forall|k: int|
            p <= k < q && k < nodes.len() && (k - p) % 2 == 0 ==> !(nodes[k] is Operator
                && tier_at(nodes, k) < min),
    ensures
        run_end(nodes, p, min) == run_end(nodes, q, min),
    decreases q - p,
{
    if p < q {
        if p < nodes.len() {
            lemma_run_end_skip(nodes, p + 2, q, min);
        }
    }
}

proof fn lemma_run_end_before(nodes: Seq<Node>, p: int, min: nat, k: int)
    requires
        0 <= p <= k < run_end(nodes, p, min),
        (k - p) % 2 == 0,
        k < nodes.len(),
    ensures
        !(nodes[k] is Operator && tier_at(nodes, k) < min),
    decreases k - p,
{
    if p < k {
        lemma_run_end_before(nodes, p + 2, min, k);
    }
}

proof fn lemma_run_end_monotone(nodes: Seq<Node>, p: int, min: nat, higher: nat)
    requires
        0 <= p,
        min <= higher,
    ensures
        run_end(nodes, p, higher) <= run_end(nodes, p, min),
    decreases nodes.len() + 1 - p,
{
    if p < nodes.len() {
        if nodes[p] is Operator && tier_at(nodes, p) < higher {
            lemma_run_end_range(nodes, p, min);
        } else {
            lemma_run_end_monotone(nodes, p + 2, min, higher);
        }
    }
}

proof fn lemma_fault_skip(nodes: Seq<Node>, lo: int, mid: int, hi: int)
    requires
        0 <= lo <= mid <= hi <= nodes.len(),
        clean(nodes, lo, mid),
    ensures
        fault_in(nodes, lo, hi) == fault_in(nodes, mid, hi),
    decreases mid - lo,
{
    if lo < mid {
        assert(if lo % 2 == 0 {
            atom_fault(nodes[lo]) is None
        } else {
            nodes[lo] is Operator
        });
        lemma_fault_skip(nodes, lo + 1, mid, hi);
    }
}

proof fn lemma_fault_none(nodes: Seq<Node>, lo: int, hi: int)
    requires
        0 <= lo <= hi <= nodes.len(),
        fault_in(nodes, lo, hi) is None,
    ensures
        clean(nodes, lo, hi),
        hi % 2 == 1,
    decreases hi - lo,
{
    if lo < hi {
        lemma_fault_none(nodes, lo + 1, hi);
    }
}

proof fn lemma_fault_extend(nodes: Seq<Node>, lo: int, hi: int, further: int)
    requires
        0 <= lo <= hi <= further <= nodes.len(),
        fault_in(nodes, lo, hi) is Some,
        hi % 2 == 1,
    ensures
        fault_in(nodes, lo, further) == fault_in(nodes, lo, hi),
    decreases hi - lo,
{
    if lo < hi {
        if lo % 2 == 0 {
            if atom_fault(nodes[lo]) is None {
                lemma_fault_extend(nodes, lo + 1, hi, further);
            }
        } else if nodes[lo] is Operator {
            lemma_fault_extend(nodes, lo + 1, hi, further);
        }
    }
}

/// The split position is the one operator that has no operator of a lower
/// tier on its left and only operators of a higher tier on its right.
pub proof fn lemma_root_is(nodes: Seq<Node>, lo: int, hi: int, k: int)
    requires
        hi - lo >= 3,
        (hi - lo) % 2 == 1,
        lo < k < hi - 1,
        (k - lo) % 2 == 1,
        forall|p: int|
            lo < p < k && (p - lo) % 2 == 1 ==> tier_at(nodes, p) >= tier_at(nodes, k),
        forall|p: int| k < p < hi && (p - lo) % 2 == 1 ==> tier_at(nodes, p) > tier_at(nodes, k),
    ensures
        root_in(nodes, lo, hi) == k,
    decreases hi - lo,
{
    if hi - lo > 3 {
        lemma_root_in_range(nodes, lo, hi - 2);
        if k < hi - 2 {
            lemma_root_is(nodes, lo, hi - 2, k);
        }
    }
}

/// One round of the climb that ends well: the operator at `i` joins the
/// tree on its left with the tree of the run on its right.
proof fn lemma_step_taken(v: Seq<Node>, start: int, i: int, min: nat, inner_end: int)
    requires
        0 <= start < i < v.len(),
        start % 2 == 0,
        i % 2 == 1,
        fault_in(v, start, i) is None,
        v[i] is Operator,
        tier_at(v, i) >= min,
        forall|p: int| start < p < i && p % 2 == 1 ==> tier_at(v, p) >= tier_at(v, i),
        inner_end == run_end(v, i + 2, tier_at(v, i) + 1),
        fault_in(v, i + 1, inner_end) is None,
    ensures
        i + 1 < inner_end <= v.len(),
        inner_end % 2 == 1,
        fault_in(v, start, inner_end) is None,
        tree_in(v, start, inner_end) == (Expr::BinOp {
            lhs: Box::new(tree_in(v, start, i)),
            op: op_at(v, i),
            rhs: Box::new(tree_in(v, i + 1, inner_end)),
        }),
        run_end(v, inner_end, min) == run_end(v, i, min),
        inner_end < v.len() && v[inner_end] is Operator ==> forall|p: int|
            start < p < inner_end && p % 2 == 1 ==> tier_at(v, p) >= tier_at(v, inner_end),
{
    let t = tier_at(v, i);
    lemma_fault_none(v, start, i);
    if i + 2 <= v.len() {
        lemma_run_end_range(v, i + 2, t + 1);
    }
    lemma_fault_none(v, i + 1, inner_end);
    assert(clean(v, start, inner_end));
    lemma_fault_skip(v, start, inner_end, inner_end);
    assert forall|p: int| i < p < inner_end && p % 2 == 1 implies tier_at(v, p) > t by {
        lemma_run_end_before(v, i + 2, t + 1, p);
        assert(v[p] is Operator);
    }
    lemma_root_is(v, start, inner_end, i);
    lemma_run_end_skip(v, i + 2, inner_end, min);
}

/// One round of the climb that fails on the right of the operator at `i`.
proof fn lemma_step_failed(v: Seq<Node>, start: int, i: int, min: nat, f: ParseFailure)
    requires
        0 <= start < i < v.len(),
        start % 2 == 0,
        i % 2 == 1,
        fault_in(v, start, i) is None,
        v[i] is Operator,
        tier_at(v, i) >= min,
        fault_in(v, i + 1, run_end(v, i + 2, tier_at(v, i) + 1)) == Some(f),
    ensures
        fault_in(v, start, run_end(v, i, min)) == Some(f),
{
    let t = tier_at(v, i);
    let inner_end = run_end(v, i + 2, t + 1);
    let end = run_end(v, i, min);
    lemma_fault_none(v, start, i);
    assert(clean(v, start, i + 1));
    lemma_run_end_monotone(v, i + 2, min, t + 1);
    if i + 2 <= v.len() {
        lemma_run_end_range(v, i + 2, t + 1);
        lemma_run_end_range(v, i + 2, min);
    }
    lemma_fault_skip(v, start, i + 1, end);
    if inner_end < end {
        lemma_fault_extend(v, i + 1, inner_end, end);
    }
}

/// The climb meets an operand where an operator is due.
proof fn lemma_step_no_operator(v: Seq<Node>, start: int, i: int, min: nat)
    requires
        0 <= start < i < v.len(),
        start % 2 == 0,
        i % 2 == 1,
        fault_in(v, start, i) is None,
        !(v[i] is Operator),
    ensures
        fault_in(v, start, run_end(v, i, min)) == Some(
            ParseFailure::Internal { fault: Fault::ExpectedOperator },
        ),
{
    let end = run_end(v, i, min);
    lemma_fault_none(v, start, i);
    if i + 2 <= v.len() {
        lemma_run_end_range(v, i + 2, min);
    } else {
        assert(run_end(v, i + 2, min) == v.len());
    }
    lemma_fault_skip(v, start, i, end);
}

/// Whether a failure is a numeric overflow.
pub open spec fn is_overflow(f: ParseFailure) -> bool {
    f is NumericOverflow
}

proof fn lemma_operand_never_faults(node: Node)
    requires
        well_formed_operand(node),
    ensures
        atom_fault(node) matches Some(f) ==> is_overflow(f),
    decreases node, 0int,
{
    match node {
        Node::Integer { offset, text } => {
            assert(is_digit(text[0]));
        },
        Node::UnaryMinus(inner) => {
            lemma_window_never_faults(inner, 0);
        },
        Node::Group(inner) => {
            lemma_window_never_faults(inner, 0);
        },
        Node::Operator(_) => {},
    }
}

proof fn lemma_window_never_faults(nodes: Seq<Node>, lo: int)
    requires
        well_formed(nodes),
        0 <= lo <= nodes.len(),
    ensures
        fault_in(nodes, lo, nodes.len() as int) matches Some(f) ==> is_overflow(f),
    decreases nodes, nodes.len() - lo,
{
    if lo < nodes.len() {
        if lo % 2 == 0 {
            assert(well_formed_operand(nodes[lo]));
            lemma_operand_never_faults(nodes[lo]);
        } else {
            assert(nodes[lo] is Operator);
        }
        lemma_window_never_faults(nodes, lo + 1);
    }
}

/// A well-formed sequence always builds a tree, unless one of its literals
/// is out of range.
pub proof fn lemma_well_formed_builds(nodes: Seq<Node>)
    requires
        well_formed(nodes),
    ensures
        build(nodes) matches Err(f) ==> is_overflow(f),
{
    lemma_window_never_faults(nodes, 0);
}

/// Resolves one operand: a literal to its value, a group to the tree of
/// the sequence inside it.
fn resolve(node: &SyntaxNode) -> (r: Result<Expr, ParseFailure>)
    ensures
        r == atom_result(node@),
    decreases node, 0nat,
{
    match node {
        SyntaxNode::Integer { offset, text } => {
            match parse_literal(text.as_slice(), *offset) {
                Ok(v) => Ok(Expr::Integer(v)),
                Err(f) => Err(f),
            }
        },
        SyntaxNode::UnaryMinus(inner) => {
            match parse_expr(inner) {
                Ok(e) => Ok(Expr::UnaryMinus(Box::new(e))),
                Err(f) => Err(f),
            }
        },
        SyntaxNode::Group(inner) => parse_expr(inner),
        SyntaxNode::Operator(_) => Err(ParseFailure::Internal { fault: Fault::ExpectedAtom }),
    }
}

/// Climbs from the operand at `start`, taking operators of tier `min_tier`
/// or higher, each with the operand on its right and the run of
/// higher-tier operators that follows that operand.
fn climb(nodes: &Vec<SyntaxNode>, start: usize, min_tier: u8) -> (r: Result<
    (Expr, usize),
    ParseFailure,
>)
    requires
        start <= nodes.len(),
        start % 2 == 0,
    ensures
        r == climb_result(nodes_view(nodes@), start as int, min_tier as nat),
    decreases nodes, nodes.len() - start,
{
    let n = nodes.len();
    let ghost v = nodes_view(nodes@);
    let ghost min = min_tier as nat;
    let ghost end = run_end(v, start + 1, min);
    if start >= n {
        return Err(ParseFailure::Internal { fault: Fault::ExpectedAtom });
    }
    proof {
        lemma_run_end_range(v, start + 1, min);
        assert(v[start as int] == nodes@[start as int]@);
    }
    let mut lhs = match resolve(&nodes[start]) {
        Ok(e) => e,
        Err(f) => {
            return Err(f);
        },
    };
    let mut i: usize = start + 1;
    proof {
        assert(fault_in(v, start + 1, start + 1) is None);
    }
    loop
        invariant
            n == nodes.len(),
            v == nodes_view(nodes@),
            v.len() == n,
            min == min_tier as nat,
            start % 2 == 0,
            start < i <= n,
            i % 2 == 1,
            end == run_end(v, start + 1, min),
            end == run_end(v, i as int, min),
            fault_in(v, start as int, i as int) is None,
            lhs == tree_in(v, start as int, i as int),
            i < n && v[i as int] is Operator ==> forall|p: int|
                start < p < i && p % 2 == 1 ==> tier_at(v, p) >= tier_at(v, i as int),
        ensures
            i == end,
            i <= n,
            fault_in(v, start as int, end) is None,
            lhs == tree_in(v, start as int, end),
        decreases n - i,
    {
        if i >= n {
            break ;
        }
        proof {
            assert(v[i as int] == nodes@[i as int]@);
        }
        let op = match &nodes[i] {
            SyntaxNode::Operator(op) => *op,
            _ => {
                proof {
                    lemma_step_no_operator(v, start as int, i as int, min);
                }
                return Err(ParseFailure::Internal { fault: Fault::ExpectedOperator });
            },
        };
        let t = op.tier();
        if t < min_tier {
            break ;
        }
        match climb(nodes, i + 1, t + 1) {
            Err(f) => {
                proof {
                    lemma_step_failed(v, start as int, i as int, min, f);
                }
                return Err(f);
            },
            Ok((rhs, next)) => {
                proof {
                    lemma_step_taken(v, start as int, i as int, min, next as int);
                }
                lhs = Expr::BinOp { lhs: Box::new(lhs), op, rhs: Box::new(rhs) };
                i = next;
            },
        }
    }
    Ok((lhs, i))
}

/// Builds the expression tree of a sequence of syntax nodes.
///
/// The sequence is read once from left to right.  Operators of one tier
/// group to the left, and an operator of a higher tier is applied before
/// one of a lower tier beside it.  A sequence that the grammar cannot
/// produce is reported as an internal fault, and a literal that does not
/// fit in an `i32` as a numeric overflow; where there are several such
/// places, the leftmost is reported.
pub fn parse_expr(nodes: &Vec<SyntaxNode>) -> (r: Result<Expr, ParseFailure>)
    ensures
        r == build(nodes_view(nodes@)),
    decreases nodes, nodes.len() + 1,
{
    let ghost v = nodes_view(nodes@);
    proof {
        let past = if v.len() % 2 == 1 {
            v.len() as int
        } else {
            v.len() as int + 1
        };
        lemma_run_end_skip(v, 1, past, 0);
    }
    match climb(nodes, 0, 0) {
        Ok((tree, _)) => Ok(tree),
        Err(f) => Err(f),
    }
}

} // verus!
