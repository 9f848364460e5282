//! Rendering parse trees as indented text.
use vstd::prelude::*;
use vstd::string::StringExecFns;

use crate::grammar::Rule;
use crate::tree::{Pair, SPair, lemma_pair_view_children, pair_view, pairs_view, text_of};

verus! {

/// The name of a rule, as written in the grammar.
pub open spec fn rule_name(r: Rule) -> Seq<char> {
    match r {
        Rule::EOI => "EOI"@,
        Rule::program => "program"@,
        Rule::function => "function"@,
        Rule::signature => "signature"@,
        Rule::lifetime_preorder => "lifetime_preorder"@,
        Rule::lifetime_le => "lifetime_le"@,
        Rule::lifetime_neq => "lifetime_neq"@,
        Rule::param_list => "param_list"@,
        Rule::param => "param"@,
        Rule::ty => "ty"@,
        Rule::bool_ty => "bool_ty"@,
        Rule::qbit_ty => "qbit_ty"@,
        Rule::unit_ty => "unit_ty"@,
        Rule::product_ty => "product_ty"@,
        Rule::ref_ty => "ref_ty"@,
        Rule::unique_ty => "unique_ty"@,
        Rule::lifetime => "lifetime"@,
        Rule::lifetime_static => "lifetime_static"@,
        Rule::lifetime_empty => "lifetime_empty"@,
        Rule::lifetime_var => "lifetime_var"@,
        Rule::block => "block"@,
        Rule::stmt => "stmt"@,
        Rule::let_stmt => "let_stmt"@,
        Rule::borrow_stmt => "borrow_stmt"@,
        Rule::newlft_stmt => "newlft_stmt"@,
        Rule::endlft_stmt => "endlft_stmt"@,
        Rule::expr_stmt => "expr_stmt"@,
        Rule::expr => "expr"@,
        Rule::if_expr => "if_expr"@,
        Rule::qif_expr => "qif_expr"@,
        Rule::lit_bool => "lit_bool"@,
        Rule::lit_unit => "lit_unit"@,
        Rule::tuple_expr => "tuple_expr"@,
        Rule::meas_expr => "meas_expr"@,
        Rule::unitary_expr => "unitary_expr"@,
        Rule::gate => "gate"@,
        Rule::lifted_expr => "lifted_expr"@,
        Rule::qstate => "qstate"@,
        Rule::call_expr => "call_expr"@,
        Rule::arg_list => "arg_list"@,
        Rule::ident => "ident"@,
    }
}

impl Rule {
    /// The name of the rule, as written in the grammar.
    pub fn name(&self) -> (r: &'static str)
        ensures
            r@ == rule_name(*self),
    {
        match self {
            Rule::EOI => "EOI",
            Rule::program => "program",
            Rule::function => "function",
            Rule::signature => "signature",
            Rule::lifetime_preorder => "lifetime_preorder",
            Rule::lifetime_le => "lifetime_le",
            Rule::lifetime_neq => "lifetime_neq",
            Rule::param_list => "param_list",
            Rule::param => "param",
            Rule::ty => "ty",
            Rule::bool_ty => "bool_ty",
            Rule::qbit_ty => "qbit_ty",
            Rule::unit_ty => "unit_ty",
            Rule::product_ty => "product_ty",
            Rule::ref_ty => "ref_ty",
            Rule::unique_ty => "unique_ty",
            Rule::lifetime => "lifetime",
            Rule::lifetime_static => "lifetime_static",
            Rule::lifetime_empty => "lifetime_empty",
            Rule::lifetime_var => "lifetime_var",
            Rule::block => "block",
            Rule::stmt => "stmt",
            Rule::let_stmt => "let_stmt",
            Rule::borrow_stmt => "borrow_stmt",
            Rule::newlft_stmt => "newlft_stmt",
            Rule::endlft_stmt => "endlft_stmt",
            Rule::expr_stmt => "expr_stmt",
            Rule::expr => "expr",
            Rule::if_expr => "if_expr",
            Rule::qif_expr => "qif_expr",
            Rule::lit_bool => "lit_bool",
            Rule::lit_unit => "lit_unit",
            Rule::tuple_expr => "tuple_expr",
            Rule::meas_expr => "meas_expr",
            Rule::unitary_expr => "unitary_expr",
            Rule::gate => "gate",
            Rule::lifted_expr => "lifted_expr",
            Rule::qstate => "qstate",
            Rule::call_expr => "call_expr",
            Rule::arg_list => "arg_list",
            Rule::ident => "ident",
        }
    }
}

/// How Rust's `Debug` writes a string: quoted, with escapes.
pub uninterp spec fn debug_str(s: Seq<char>) -> Seq<char>;

/// Writes `text` as Rust's `Debug` formatting of a string does (`format!("{:?}")`).
#[verifier::external_body]
fn debug_quote(text: &str) -> (r: String)
    ensures
        r@ == debug_str(text@),
{
    format!("{:?}", text)
}

/// A node rendered at indentation `indent`: a leaf as its rule's name and its
/// quoted text on one line; an inner node as its rule's name on a line, then
/// its children, each indented two more spaces.
pub open spec fn spec_format_pair(s: Seq<char>, n: SPair, indent: Seq<char>) -> Seq<char>
    decreases n,
{
    if n.children.len() == 0 {
        indent + rule_name(n.rule) + seq![' '] + debug_str(text_of(s, n)) + seq!['\n']
    } else {
        indent + rule_name(n.rule) + seq!['\n'] + spec_format_pairs(
            s,
            n.children,
            indent + seq![' ', ' '],
        )
    }
}

/// Nodes rendered one after the other.
pub open spec fn spec_format_pairs(s: Seq<char>, ns: Seq<SPair>, indent: Seq<char>) -> Seq<char>
    decreases ns,
{
    if ns.len() == 0 {
        Seq::empty()
    } else {
        spec_format_pairs(s, ns.drop_last(), indent) + spec_format_pair(s, ns.last(), indent)
    }
}

/// Each node of a list is rendered, at the list's indentation, somewhere in
/// the rendering of the list.
proof fn lemma_format_pairs_holds_each(s: Seq<char>, ns: Seq<SPair>, indent: Seq<char>, i: int)
    requires
        0 <= i < ns.len(),
    ensures
        exists|a: Seq<char>, z: Seq<char>|
            spec_format_pairs(s, ns, indent) == a + spec_format_pair(s, ns[i], indent) + z,
    decreases ns.len(),
{
    let d = ns.drop_last();
    let last = spec_format_pair(s, ns.last(), indent);
    if i == ns.len() - 1 {
        let a = spec_format_pairs(s, d, indent);
        assert(spec_format_pairs(s, ns, indent) == a + spec_format_pair(s, ns[i], indent) + Seq::<char>::empty());
    } else {
        lemma_format_pairs_holds_each(s, d, indent, i);
        let (a, z) = choose|a: Seq<char>, z: Seq<char>|
            spec_format_pairs(s, d, indent) == a + spec_format_pair(s, d[i], indent) + z;
        assert(d[i] == ns[i]);
        assert(spec_format_pairs(s, ns, indent) == a + spec_format_pair(s, ns[i], indent) + (z + last));
    }
}

/// In the rendering of a node, its own line comes first: its indentation
/// and its rule's name. Each of its children is rendered, whole, indented two
/// spaces more than the node, so that a node at depth `d` below the top has
/// `2 * d` more spaces before its name; and the first child comes right after
/// the node's own line.
pub proof fn law_children_are_indented_two_more(s: Seq<char>, n: SPair, indent: Seq<char>)
    ensures
        spec_format_pair(s, n, indent).take((indent.len() + rule_name(n.rule).len()) as int) == indent + rule_name(
            n.rule,
        ),
        forall|i: int|
            #![trigger n.children[i]]
            0 <= i < n.children.len() ==> child_rendered_within(s, n, indent, i),
        n.children.len() > 0 ==> exists|z: Seq<char>|
            spec_format_pair(s, n, indent) =~= indent + rule_name(n.rule) + seq!['\n'] + spec_format_pair(
                s,
                n.children[0],
                indent + seq![' ', ' '],
            ) + z,
{
    assert forall|i: int| 0 <= i < n.children.len() implies #[trigger] child_rendered_within(s, n, indent, i) by {
        lemma_child_rendered(s, n, indent, i);
    }
    let out = spec_format_pair(s, n, indent);
    let head = indent + rule_name(n.rule);
    if n.children.len() == 0 {
        assert(out.take(head.len() as int) =~= head);
    } else {
        let ind2 = indent + seq![' ', ' '];
        let rest = spec_format_pairs(s, n.children, ind2);
        assert(out == head + seq!['\n'] + rest);
        assert(out.take(head.len() as int) =~= head);
        lemma_format_pairs_first(s, n.children, ind2);
        let z = choose|z: Seq<char>| rest == spec_format_pair(s, n.children[0], ind2) + z;
        assert(out =~= head + seq!['\n'] + spec_format_pair(s, n.children[0], ind2) + z);
    }
}

/// The rendering of the node at indentation `indent` holds, whole, the
/// rendering of its child `i` indented two spaces more.
pub open spec fn child_rendered_within(s: Seq<char>, n: SPair, indent: Seq<char>, i: int) -> bool {
    exists|a: Seq<char>, z: Seq<char>|
        spec_format_pair(s, n, indent) =~= a + spec_format_pair(s, n.children[i], indent + seq![' ', ' ']) + z
}

proof fn lemma_child_rendered(s: Seq<char>, n: SPair, indent: Seq<char>, i: int)
    requires
        0 <= i < n.children.len(),
    ensures
        child_rendered_within(s, n, indent, i),
{
    let ind2 = indent + seq![' ', ' '];
    let head = indent + rule_name(n.rule) + seq!['\n'];
    let rest = spec_format_pairs(s, n.children, ind2);
    assert(spec_format_pair(s, n, indent) == head + rest);
    lemma_format_pairs_holds_each(s, n.children, ind2, i);
    let (a, z) = choose|a: Seq<char>, z: Seq<char>|
        spec_format_pairs(s, n.children, ind2) == a + spec_format_pair(s, n.children[i], ind2) + z;
    let a2 = head + a;
    assert(spec_format_pair(s, n, indent) =~= a2 + spec_format_pair(s, n.children[i], ind2) + z);
}

/// A list of nodes is rendered starting with its first node.
proof fn lemma_format_pairs_first(s: Seq<char>, ns: Seq<SPair>, indent: Seq<char>)
    requires
        ns.len() > 0,
    ensures
        exists|z: Seq<char>| spec_format_pairs(s, ns, indent) == spec_format_pair(s, ns[0], indent) + z,
    decreases ns.len(),
{
    let d = ns.drop_last();
    let last = spec_format_pair(s, ns.last(), indent);
    if ns.len() == 1 {
        assert(d.len() == 0);
        assert(spec_format_pairs(s, d, indent) == Seq::<char>::empty());
        assert(spec_format_pairs(s, ns, indent) =~= spec_format_pair(s, ns[0], indent) + Seq::<char>::empty());
    } else {
        lemma_format_pairs_first(s, d, indent);
        let z = choose|z: Seq<char>| spec_format_pairs(s, d, indent) == spec_format_pair(s, d[0], indent) + z;
        assert(d[0] == ns[0]);
        assert(spec_format_pairs(s, ns, indent) =~= spec_format_pair(s, ns[0], indent) + (z + last));
    }
}

/// Appends the rendering of `pair` at indentation `indent` to `out`.
#[verifier::loop_isolation(false)]
fn format_pair(pair: &Pair, indent: &String, input: &str, out: &mut String)
    ensures
        final(out)@ == old(out)@ + spec_format_pair(input@, pair_view(*pair), indent@),
    decreases pair_view(*pair),
{
    proof {
        lemma_pair_view_children(*pair);
        reveal_strlit(" ");
        reveal_strlit("\n");
        reveal_strlit("  ");
    }
    let ghost s = input@;
    let ghost n = pair_view(*pair);
    let ghost start = out@;
    out.append(indent.as_str());
    out.append(pair.rule.name());
    if pair.children.len() == 0 {
        out.append(" ");
        let quoted = debug_quote(pair.as_str(input));
        out.append(quoted.as_str());
        out.append("\n");
        proof {
            assert(out@ =~= start + (indent@ + rule_name(n.rule) + seq![' '] + debug_str(
                text_of(s, n),
            ) + seq!['\n']));
        }
    } else {
        out.append("\n");
        let mut child_indent = indent.clone();
        child_indent.append("  ");
        let ghost head = out@;
        let ghost cs = n.children;
        let mut i: usize = 0;
        proof {
            assert(cs.take(0) =~= Seq::<SPair>::empty());
            assert(out@ =~= head + spec_format_pairs(s, cs.take(0), child_indent@));
        }
        while i < pair.children.len()
            invariant
                i <= pair.children@.len(),
                out@ == head + spec_format_pairs(s, cs.take(i as int), child_indent@),
            decreases pair.children@.len() - i,
        {
            let ghost before = out@;
            format_pair(&pair.children[i], &child_indent, input, out);
            proof {
                assert(cs.take(i + 1).drop_last() =~= cs.take(i as int));
                assert(cs.take(i + 1).last() == pair_view(pair.children@[i as int]));
                assert(out@ =~= head + spec_format_pairs(s, cs.take(i + 1), child_indent@));
            }
            i = i + 1;
        }
        proof {
            assert(cs.take(cs.len() as int) =~= cs);
            assert(child_indent@ == indent@ + seq![' ', ' ']);
            assert(out@ =~= start + (indent@ + rule_name(n.rule) + seq!['\n'] + spec_format_pairs(
                s,
                cs,
                child_indent@,
            )));
        }
    }
}

/// The parse tree `pairs` of `input` as indented text: per node, its rule
/// and, for a leaf, its quoted text.
pub fn format_parse_tree(pairs: &Vec<Pair>, input: &str) -> (r: String)
    ensures
        r@ == spec_format_pairs(input@, pairs_view(pairs@), Seq::empty()),
{
    let mut out = String::new();
    let indent = String::new();
    let ghost ps = pairs_view(pairs@);
    let mut i: usize = 0;
    proof {
        assert(ps.take(0) =~= Seq::<SPair>::empty());
    }
    while i < pairs.len()
        invariant
            i <= pairs@.len(),
            ps == pairs_view(pairs@),
            indent@ == Seq::<char>::empty(),
            out@ == spec_format_pairs(input@, ps.take(i as int), Seq::empty()),
        decreases pairs@.len() - i,
    {
        format_pair(&pairs[i], &indent, input, &mut out);
        proof {
            assert(ps.take(i + 1).drop_last() =~= ps.take(i as int));
            assert(ps.take(i + 1).last() == pair_view(pairs@[i as int]));
        }
        i = i + 1;
    }
    proof {
        assert(ps.take(ps.len() as int) =~= ps);
    }
    out
}

} // verus!
