//! Concrete syntax trees: the nodes that the parser produces.
use vstd::prelude::*;
use vstd::string::StrSliceExecFns;
use vstd::string::StringExecFns;

use crate::grammar::Rule;

verus! {

/// Mathematical model of a parse-tree node: its rule, the span of input
/// characters it covers (`start..end`), and its child nodes in order.
pub struct SPair {
    pub rule: Rule,
    pub start: int,
    pub end: int,
    pub children: Seq<SPair>,
}

/// A node of the concrete syntax tree. `start` and `end` are character
/// positions in the parsed text; the node's text is `text[start..end]`.
pub struct Pair {
    pub rule: Rule,
    pub start: usize,
    pub end: usize,
    pub children: Vec<Pair>,
}

pub open spec fn leaf(rule: Rule, start: int, end: int) -> SPair {
    SPair { rule, start, end, children: Seq::empty() }
}

pub open spec fn node(rule: Rule, start: int, end: int, children: Seq<SPair>) -> SPair {
    SPair { rule, start, end, children }
}

/// The text that a node covers in `s` (empty when its span does not lie in `s`).
pub open spec fn text_of(s: Seq<char>, n: SPair) -> Seq<char> {
    if 0 <= n.start <= n.end <= s.len() {
        s.subrange(n.start, n.end)
    } else {
        Seq::empty()
    }
}

/// The model of a concrete node.
pub open spec fn pair_view(p: Pair) -> SPair
    decreases p,
{
    SPair {
        rule: p.rule,
        start: p.start as int,
        end: p.end as int,
        children: Seq::new(
            p.children@.len(),
            |i: int|
                if 0 <= i < p.children@.len() {
                    pair_view(p.children@[i])
                } else {
                    leaf(p.rule, 0, 0)
                },
        ),
    }
}

/// The models of a sequence of concrete nodes.
pub open spec fn pairs_view(v: Seq<Pair>) -> Seq<SPair> {
    Seq::new(v.len(), |i: int| pair_view(v[i]))
}

pub proof fn lemma_pair_view_children(p: Pair)
    ensures
        pair_view(p).children == pairs_view(p.children@),
{
    assert(pair_view(p).children =~= pairs_view(p.children@));
}

pub proof fn lemma_pairs_view_push(v: Seq<Pair>, x: Pair)
    ensures
        pairs_view(v.push(x)) == pairs_view(v).push(pair_view(x)),
{
    assert(pairs_view(v.push(x)) =~= pairs_view(v).push(pair_view(x)));
}

impl Pair {
    /// A node without children.
    pub fn leaf(rule: Rule, start: usize, end: usize) -> (p: Pair)
        ensures
            pair_view(p) == leaf(rule, start as int, end as int),
    {
        let p = Pair { rule, start, end, children: Vec::new() };
        assert(pair_view(p).children =~= Seq::<SPair>::empty());
        p
    }

    /// A node with the given children.
    pub fn node(rule: Rule, start: usize, end: usize, children: Vec<Pair>) -> (p: Pair)
        ensures
            pair_view(p) == node(rule, start as int, end as int, pairs_view(children@)),
    {
        let p = Pair { rule, start, end, children };
        proof {
            lemma_pair_view_children(p);
        }
        p
    }

    /// The text of this node in `input`, the text it was parsed from.
    pub fn as_str<'a>(&self, input: &'a str) -> (r: &'a str)
        ensures
            r@ == text_of(input@, pair_view(*self)),
    {
        let n = input.unicode_len();
        if self.start <= self.end && self.end <= n {
            input.substring_char(self.start, self.end)
        } else {
            input.substring_char(0, 0)
        }
    }

    /// The text of this node in `input`, as an owned string.
    pub fn text(&self, input: &str) -> (r: String)
        ensures
            r@ == text_of(input@, pair_view(*self)),
    {
        String::from_str(self.as_str(input))
    }

    /// The rule that produced this node.
    pub fn as_rule(&self) -> (r: Rule)
        ensures
            r == pair_view(*self).rule,
    {
        self.rule
    }
}

} // verus!
