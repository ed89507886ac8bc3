//! Textual form of nodes and trees: one line per node, two spaces of
//! indentation per level, each line showing the element and — for terminal
//! nodes — the end-of-path mark.

use vstd::prelude::*;

use crate::node::Node;
use crate::tree::UBTree;
use vstd::string::StringExecFns;

verus! {

/// The decimal digit character for `d`.
pub open spec fn digit_char(d: int) -> char {
    if d == 0 {
        '0'
    } else if d == 1 {
        '1'
    } else if d == 2 {
        '2'
    } else if d == 3 {
        '3'
    } else if d == 4 {
        '4'
    } else if d == 5 {
        '5'
    } else if d == 6 {
        '6'
    } else if d == 7 {
        '7'
    } else if d == 8 {
        '8'
    } else {
        '9'
    }
}

/// Decimal digits of a non-negative number, most significant first.
pub open spec fn dec_chars(n: int) -> Seq<char>
    decreases n,
{
    if n < 10 {
        seq![digit_char(n)]
    } else {
        dec_chars(n / 10).push(digit_char(n % 10))
    }
}

/// Decimal form of an integer, with a leading minus sign when negative.
pub open spec fn int_chars(v: int) -> Seq<char> {
    if v < 0 {
        seq!['-'] + dec_chars(-v)
    } else {
        dec_chars(v)
    }
}

/// The one-node label: `(value)`, or `(value; EoP)` for a terminal node.
pub open spec fn label_chars(e: int, end_of_path: bool) -> Seq<char> {
    seq!['('] + int_chars(e) + (if end_of_path {
        seq![';', ' ', 'E', 'o', 'P', ')']
    } else {
        seq![')']
    })
}

/// One line per node below `n` (including `n`), each indented by `pad` plus
/// two further spaces per level.
pub open spec fn render_node_chars(n: Node<i32>, pad: Seq<char>) -> Seq<char>
    decreases n,
{
    pad + label_chars(n.element as int, n.end_of_path) + seq!['\n'] + render_forest_chars(
        n.children@,
        pad + seq![' ', ' '],
    )
}

/// The rendering of a whole sibling list at one indentation level.
pub open spec fn render_forest_chars(ns: Seq<Node<i32>>, pad: Seq<char>) -> Seq<char>
    decreases ns,
{
    if ns.len() == 0 {
        Seq::empty()
    } else {
        render_node_chars(ns[0], pad) + render_forest_chars(ns.drop_first(), pad)
    }
}

/// Append the decimal digits of `n` to `out`.
fn push_digits(n: u64, out: &mut String)
    ensures
        final(out)@ == old(out)@ + dec_chars(n as int),
    decreases n,
{
    if n >= 10 {
        push_digits(n / 10, out);
    }
    let d = n % 10;
    let ghost mid = out@;
    if d == 0 {
        out.append("0");
        proof {
            reveal_strlit("0");
        }
    } else if d == 1 {
        out.append("1");
        proof {
            reveal_strlit("1");
        }
    } else if d == 2 {
        out.append("2");
        proof {
            reveal_strlit("2");
        }
    } else if d == 3 {
        out.append("3");
        proof {
            reveal_strlit("3");
        }
    } else if d == 4 {
        out.append("4");
        proof {
            reveal_strlit("4");
        }
    } else if d == 5 {
        out.append("5");
        proof {
            reveal_strlit("5");
        }
    } else if d == 6 {
        out.append("6");
        proof {
            reveal_strlit("6");
        }
    } else if d == 7 {
        out.append("7");
        proof {
            reveal_strlit("7");
        }
    } else if d == 8 {
        out.append("8");
        proof {
            reveal_strlit("8");
        }
    } else {
        out.append("9");
        proof {
            reveal_strlit("9");
        }
    }
    proof {
        assert(out@ =~= mid + seq![digit_char(d as int)]);
        if n >= 10 {
            assert(mid.push(digit_char(n as int % 10)) =~= out@);
        } else {
            assert(old(out)@ + seq![digit_char(n as int)] =~= out@);
        }
    }
}

/// Append the decimal form of `v`, sign included, to `out`.
fn push_int(v: i32, out: &mut String)
    ensures
        final(out)@ == old(out)@ + int_chars(v as int),
{
    let m: u64;
    if v < 0 {
        out.append("-");
        proof {
            reveal_strlit("-");
        }
        m = (-(v as i64)) as u64;
    } else {
        m = v as u64;
    }
    let ghost mid = out@;
    push_digits(m, out);
    proof {
        if v < 0 {
            assert(mid =~= old(out)@ + seq!['-']);
            assert(out@ =~= old(out)@ + (seq!['-'] + dec_chars(-(v as int))));
        }
    }
}

impl Node<i32> {
    /// The node's own label: `(value)`, or `(value; EoP)` when terminal.
    pub fn label(&self) -> (r: String)
        ensures
            r@ == label_chars(self.element as int, self.end_of_path),
    {
        let mut s = String::new();
        s.append("(");
        proof {
            reveal_strlit("(");
        }
        let ghost mid = s@;
        push_int(self.element, &mut s);
        if self.end_of_path {
            s.append("; EoP)");
            proof {
                reveal_strlit("; EoP)");
                assert(s@ =~= seq!['('] + int_chars(self.element as int) + seq![';', ' ', 'E', 'o', 'P', ')']);
            }
        } else {
            s.append(")");
            proof {
                reveal_strlit(")");
                assert(s@ =~= seq!['('] + int_chars(self.element as int) + seq![')']);
            }
        }
        s
    }
}

/// The sibling lists rendered one after the other, recursing two spaces
/// deeper below each node.
fn render_into(ns: &Vec<Node<i32>>, pad: &String, out: &mut String)
    ensures
        final(out)@ == old(out)@ + render_forest_chars(ns@, pad@),
    decreases ns@,
{
    let ghost base = out@;
    proof {
        assert(ns@.subrange(0, 0) =~= Seq::<Node<i32>>::empty());
        assert(base + render_forest_chars(ns@.subrange(0, 0), pad@) =~= base);
    }
    let mut i: usize = 0;
    while i < ns.len()
        invariant
            i <= ns@.len(),
            out@ == base + render_forest_chars(ns@.subrange(0, i as int), pad@),
        decreases ns@.len() - i,
    {
        let node = &ns[i];
        let ghost out0 = out@;
        out.append(pad.as_str());
        let lbl = node.label();
        out.append(lbl.as_str());
        out.append("\n");
        proof {
            reveal_strlit("\n");
        }
        let mut pad2 = pad.clone();
        pad2.append("  ");
        proof {
            reveal_strlit("  ");
            assert(pad2@ =~= pad@ + seq![' ', ' ']);
        }
        render_into(&node.children, &pad2, out);
        proof {
            let np = render_node_chars(ns@[i as int], pad@);
            assert(out@ =~= out0 + np) by {
                assert(out@ =~= ((out0 + pad@) + label_chars(
                    ns@[i as int].element as int,
                    ns@[i as int].end_of_path,
                ) + seq!['\n']) + render_forest_chars(ns@[i as int].children@, pad@ + seq![' ', ' ']));
            }
            lemma_render_snoc(ns@.subrange(0, i as int + 1), pad@);
            assert(ns@.subrange(0, i as int + 1).drop_last() =~= ns@.subrange(0, i as int));
            assert(ns@.subrange(0, i as int + 1).last() == ns@[i as int]);
            assert((base + render_forest_chars(ns@.subrange(0, i as int), pad@)) + np =~= base
                + (render_forest_chars(ns@.subrange(0, i as int), pad@) + np));
            assert(out@ == base + render_forest_chars(ns@.subrange(0, i as int + 1), pad@));
        }
        i = i + 1;
    }
    proof {
        assert(ns@.subrange(0, ns@.len() as int) =~= ns@);
    }
}

/// Appending one node to a sibling list appends its rendering.
proof fn lemma_render_snoc(ns: Seq<Node<i32>>, pad: Seq<char>)
    requires
        ns.len() > 0,
    ensures
        render_forest_chars(ns, pad) == render_forest_chars(ns.drop_last(), pad)
            + render_node_chars(ns.last(), pad),
    decreases ns.len(),
{
    if ns.len() == 1 {
        assert(ns.drop_last() =~= Seq::<Node<i32>>::empty());
        assert(ns.drop_first() =~= Seq::<Node<i32>>::empty());
        assert(ns.last() == ns[0]);
        assert(render_forest_chars(ns, pad) =~= render_forest_chars(ns.drop_last(), pad)
            + render_node_chars(ns.last(), pad));
    } else {
        let t = ns.drop_first();
        lemma_render_snoc(t, pad);
        assert(t.last() == ns.last());
        assert(t.drop_last() =~= ns.drop_last().drop_first());
        let dl = ns.drop_last();
        assert(dl.len() > 0);
        assert(dl[0] == ns[0]);
        assert(dl.drop_first() =~= t.drop_last());
        assert(render_forest_chars(dl, pad) == render_node_chars(ns[0], pad)
            + render_forest_chars(t.drop_last(), pad));
        assert(render_forest_chars(ns, pad) == render_node_chars(ns[0], pad) + (
        render_forest_chars(t.drop_last(), pad) + render_node_chars(ns.last(), pad)));
        assert(render_node_chars(ns[0], pad) + (render_forest_chars(t.drop_last(), pad)
            + render_node_chars(ns.last(), pad)) =~= (render_node_chars(ns[0], pad)
            + render_forest_chars(t.drop_last(), pad)) + render_node_chars(ns.last(), pad));
    }
}

impl UBTree<i32> {
    /// The indented listing of the whole tree, one node per line, in the
    /// order of the sibling lists, two spaces of indentation per level.
    pub fn render(&self) -> (r: String)
        ensures
            r@ == render_forest_chars(self.roots(), Seq::empty()),
    {
        let mut out = String::new();
        let pad = String::new();
        let ghost base = out@;
        render_into(self.root_list(), &pad, &mut out);
        proof {
            assert(base =~= Seq::<char>::empty());
            assert(base + render_forest_chars(self.roots(), pad@) =~= render_forest_chars(
                self.roots(),
                Seq::empty(),
            ));
        }
        out
    }
}

} // verus!
