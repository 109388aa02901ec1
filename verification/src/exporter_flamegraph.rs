//! Collation of a tree of frames into the folded-stack lines that
//! flamegraph tools read: one line for each node at which allocations end,
//! naming the frames from the outermost down to the node, joined by `;`,
//! then a space and the bytes allocated there.

use vstd::prelude::*;
use crate::frame::Frame;
use crate::loaded::Data;
use crate::filter::{string_text, function_text};
use crate::tree::{Tree, Node, tree_wf, frame_tree_of, backtraces_stored, size_under, depth, frame_census};
use crate::util::{decimal, push_decimal};

verus! {

/// The upper-case hexadecimal digit of `d`.
pub open spec fn upper_hex_char(d: nat) -> char {
    if d < 10 {
        (('0' as nat) + d) as char
    } else {
        (('A' as nat) + d - 10) as char
    }
}

/// The last `n` hexadecimal digits of `v`, upper case, most significant
/// first.
pub open spec fn upper_hex(v: nat, n: nat) -> Seq<char>
    decreases n,
{
    if n == 0 {
        Seq::empty()
    } else {
        upper_hex(v / 16, (n - 1) as nat).push(upper_hex_char(v % 16))
    }
}

/// How a frame is named in a stack: its function's name, demangled where
/// it can be, else its address in sixteen hexadecimal digits; then its
/// library in square brackets, `???` where it is not known.
pub open spec fn frame_label(data: &Data, frame: Frame) -> Seq<char> {
    let library = match string_text(data, frame.library) {
        Some(t) => t,
        None => seq!['?', '?', '?'],
    };
    let name = match function_text(data, frame) {
        Some(t) => t,
        None => seq!['0', 'x'] + upper_hex(frame.address.0 as nat, 16),
    };
    name + seq![' ', '['] + library + seq![']']
}

/// The labels of the frames from the root's child down to node `n`.
pub open spec fn node_stack(data: &Data, nodes: Seq<Node<usize, usize>>, n: int) -> Seq<Seq<char>>
    decreases n,
{
    if n <= 0 || n >= nodes.len() || nodes[n].parent >= n {
        Seq::empty()
    } else {
        node_stack(data, nodes, nodes[n].parent as int).push(
            frame_label(data, data.frames@[nodes[n].value.unwrap() as int]),
        )
    }
}

/// Texts joined by `;`.
pub open spec fn joined(texts: Seq<Seq<char>>) -> Seq<char>
    decreases texts.len(),
{
    if texts.len() == 0 {
        Seq::empty()
    } else if texts.len() == 1 {
        texts[0]
    } else {
        joined(texts.drop_last()) + seq![';'] + texts.last()
    }
}

/// The line of node `n`: its stack, a space, and the bytes allocated at it.
pub open spec fn collation_line(data: &Data, nodes: Seq<Node<usize, usize>>, n: int) -> Seq<char> {
    joined(node_stack(data, nodes, n)) + seq![' '] + decimal(nodes[n].self_size as nat)
}

/// The lines of the subtree under node `n`, in depth-first order: the
/// node's own where allocations end at it, then those of its children in
/// the order in which they are listed.
pub open spec fn collated_from(data: &Data, nodes: Seq<Node<usize, usize>>, n: int) -> Seq<Seq<char>>
    decreases nodes.len() - n, 1int, 0int,
{
    if 0 <= n < nodes.len() {
        let own = if nodes[n].self_count != 0 {
            seq![collation_line(data, nodes, n)]
        } else {
            Seq::empty()
        };
        own + collated_children(data, nodes, n, 0)
    } else {
        Seq::empty()
    }
}

/// The lines of the subtrees of the children of node `n`, from its `i`th
/// child on.
pub open spec fn collated_children(data: &Data, nodes: Seq<Node<usize, usize>>, n: int, i: int) -> Seq<Seq<char>>
    decreases nodes.len() - n, 0int, nodes[n].children@.len() - i,
{
    if 0 <= n < nodes.len() && 0 <= i < nodes[n].children@.len() {
        let c = nodes[n].children@[i].1 as int;
        let first = if n < c < nodes.len() {
            collated_from(data, nodes, c)
        } else {
            Seq::empty()
        };
        first + collated_children(data, nodes, n, i + 1)
    } else {
        Seq::empty()
    }
}

/// The lines of a whole tree.
pub open spec fn collation_of(data: &Data, nodes: Seq<Node<usize, usize>>) -> Seq<Seq<char>> {
    collated_from(data, nodes, 0)
}

/// The texts of strings.
pub open spec fn texts_of(strings: Seq<String>) -> Seq<Seq<char>> {
    strings.map_values(|s: String| s@)
}

/// Whether each node but the root holds a frame of the data.
pub open spec fn frames_known(data: &Data, nodes: Seq<Node<usize, usize>>) -> bool {
    forall|n: int| #![trigger nodes[n]] 1 <= n < nodes.len() ==> nodes[n].value.unwrap() < data.frames@.len()
}

fn push_hex_digit(out: &mut String, d: u64)
    requires
        d < 16,
    ensures
        final(out)@ == old(out)@.push(upper_hex_char(d as nat)),
{
    proof {
        reveal_strlit("0");
        reveal_strlit("1");
        reveal_strlit("2");
        reveal_strlit("3");
        reveal_strlit("4");
        reveal_strlit("5");
        reveal_strlit("6");
        reveal_strlit("7");
        reveal_strlit("8");
        reveal_strlit("9");
        reveal_strlit("A");
        reveal_strlit("B");
        reveal_strlit("C");
        reveal_strlit("D");
        reveal_strlit("E");
        reveal_strlit("F");
    }
    match d {
        0 => out.append("0"),
        1 => out.append("1"),
        2 => out.append("2"),
        3 => out.append("3"),
        4 => out.append("4"),
        5 => out.append("5"),
        6 => out.append("6"),
        7 => out.append("7"),
        8 => out.append("8"),
        9 => out.append("9"),
        10 => out.append("A"),
        11 => out.append("B"),
        12 => out.append("C"),
        13 => out.append("D"),
        14 => out.append("E"),
        _ => out.append("F"),
    }
    proof {
        assert(out@ =~= old(out)@.push(upper_hex_char(d as nat)));
    }
}

fn push_upper_hex(out: &mut String, v: u64, n: u64)
    ensures
        final(out)@ == old(out)@ + upper_hex(v as nat, n as nat),
    decreases n,
{
    if n > 0 {
        push_upper_hex(out, v / 16, n - 1);
        push_hex_digit(out, v % 16);
    }
    proof {
        assert(out@ =~= old(out)@ + upper_hex(v as nat, n as nat));
    }
}

/// The label of a frame of the data.
fn frame_label_now(data: &Data, frame: &Frame) -> (label: String)
    ensures
        label@ == frame_label(data, *frame),
{
    let named = if frame.function.is_some() {
        frame.function
    } else {
        frame.raw_function
    };
    let function = match named {
        Some(s) => data.resolve_string(s),
        None => None,
    };
    let library = match frame.library {
        Some(s) => data.resolve_string(s),
        None => None,
    };
    proof {
        reveal_strlit("0x");
        reveal_strlit(" [");
        reveal_strlit("???");
        reveal_strlit("]");
    }
    let mut label = match function {
        Some(name) => name,
        None => {
            let mut text = String::from_str("0x");
            push_upper_hex(&mut text, frame.address.0, 16);
            text
        },
    };
    label.append(" [");
    match library {
        Some(name) => label.append(name.as_str()),
        None => label.append("???"),
    }
    label.append("]");
    proof {
        assert(label@ =~= frame_label(data, *frame));
    }
    label
}

/// A stack of labels joined by `;`.
fn joined_now(stack: &Vec<String>) -> (text: String)
    ensures
        text@ == joined(texts_of(stack@)),
{
    let mut text = String::new();
    let mut i: usize = 0;
    proof {
        reveal_strlit(";");
        assert(texts_of(stack@).take(0) =~= Seq::<Seq<char>>::empty());
    }
    while i < stack.len()
        invariant
            0 <= i <= stack@.len(),
            text@ == joined(texts_of(stack@).take(i as int)),
        decreases stack@.len() - i,
    {
        proof {
            reveal_strlit(";");
        }
        if i > 0 {
            text.append(";");
        }
        text.append(stack[i].as_str());
        proof {
            let t = texts_of(stack@).take(i + 1);
            assert(t.drop_last() =~= texts_of(stack@).take(i as int));
            assert(t.last() == stack@[i as int]@);
            assert(text@ =~= joined(t));
        }
        i = i + 1;
    }
    proof {
        assert(texts_of(stack@).take(stack@.len() as int) =~= texts_of(stack@));
    }
    text
}

proof fn lemma_texts_push(strings: Seq<String>, s: String)
    ensures
        texts_of(strings.push(s)) == texts_of(strings).push(s@),
{
    assert(texts_of(strings.push(s)) =~= texts_of(strings).push(s@));
}

/// Adds the lines of the subtree under node `n`, whose stack is `stack`.
fn collate_node(data: &Data, tree: &Tree<usize, usize>, n: usize, stack: &mut Vec<String>, out: &mut Vec<String>)
    requires
        tree_wf(tree.nodes@),
        frames_known(data, tree.nodes@),
        n < tree.nodes@.len(),
        texts_of(old(stack)@) == node_stack(data, tree.nodes@, n as int),
    ensures
        final(stack)@ == old(stack)@,
        texts_of(final(out)@) == texts_of(old(out)@) + collated_from(data, tree.nodes@, n as int),
    decreases tree.nodes@.len() - n,
{
    let ghost nodes = tree.nodes@;
    let ghost target = texts_of(old(out)@) + collated_from(data, nodes, n as int);
    let node = &tree.nodes[n];
    if node.self_count != 0 {
        let mut line = joined_now(stack);
        proof {
            reveal_strlit(" ");
        }
        line.append(" ");
        push_decimal(&mut line, node.self_size);
        proof {
            assert(line@ =~= collation_line(data, nodes, n as int));
            lemma_texts_push(out@, line);
        }
        out.push(line);
    }
    proof {
        let own = if nodes[n as int].self_count != 0 {
            seq![collation_line(data, nodes, n as int)]
        } else {
            Seq::empty()
        };
        assert(texts_of(out@) =~= texts_of(old(out)@) + own);
        assert(texts_of(out@) + collated_children(data, nodes, n as int, 0) =~= target);
    }
    let count = node.children.len();
    let mut i: usize = 0;
    while i < count
        invariant
            nodes == tree.nodes@,
            tree_wf(nodes),
            frames_known(data, nodes),
            n < nodes.len(),
            count == nodes[n as int].children@.len(),
            0 <= i <= count,
            stack@ == old(stack)@,
            texts_of(stack@) == node_stack(data, nodes, n as int),
            texts_of(out@) + collated_children(data, nodes, n as int, i as int) == target,
        decreases count - i,
    {
        let child = tree.nodes[n].children[i].1;
        proof {
            assert(n < child < nodes.len());
            assert(nodes[child as int].parent == n);
        }
        let total = tree.nodes.len();
        proof {
            assert(child < total);
        }
        let c = child as usize;
        proof {
            assert(c as int == child as int);
            assert(nodes[c as int].value is Some);
            assert(nodes[c as int].value.unwrap() < data.frames@.len());
        }
        let frame = tree.nodes[c].value.unwrap();
        let label = frame_label_now(data, &data.frames[frame]);
        let ghost before_stack = stack@;
        let ghost before_out = texts_of(out@);
        stack.push(label);
        proof {
            lemma_texts_push(before_stack, label);
            assert(texts_of(stack@) == node_stack(data, nodes, c as int));
        }
        collate_node(data, tree, c, stack, out);
        stack.pop();
        proof {
            assert(stack@ =~= before_stack);
            assert(collated_children(data, nodes, n as int, i as int) == collated_from(data, nodes, c as int)
                + collated_children(data, nodes, n as int, i + 1));
            assert(texts_of(out@) + collated_children(data, nodes, n as int, i + 1) =~= target);
        }
        i = i + 1;
    }
    proof {
        assert(collated_children(data, nodes, n as int, count as int) =~= Seq::<Seq<char>>::empty());
        assert(texts_of(out@) =~= target);
    }
}

/// The folded-stack lines of a tree of frames: one for each node at which
/// allocations end, in depth-first order.
pub fn collate(data: &Data, tree: &Tree<usize, usize>) -> (lines: Vec<String>)
    requires
        tree_wf(tree.nodes@),
        frames_known(data, tree.nodes@),
    ensures
        texts_of(lines@) == collation_of(data, tree.nodes@),
{
    let mut stack: Vec<String> = Vec::new();
    let mut lines: Vec<String> = Vec::new();
    proof {
        assert(texts_of(stack@) =~= Seq::<Seq<char>>::empty());
        assert(texts_of(lines@) =~= Seq::<Seq<char>>::empty());
    }
    collate_node(data, tree, 0, &mut stack, &mut lines);
    proof {
        assert(texts_of(lines@) =~= collation_of(data, tree.nodes@));
    }
    lines
}

/// The folded-stack lines of the allocations that `selected` marks: those
/// of the tree of their frames.
pub fn collation_lines(data: &Data, selected: &Vec<bool>) -> (lines: Vec<String>)
    requires
        backtraces_stored(data),
        selected@.len() == data.allocations@.len(),
        size_under(frame_census(data, selected@), Seq::empty(), data.allocations@.len() as int) <= u64::MAX,
        depth(frame_census(data, selected@), data.allocations@.len() as int) + 1 < usize::MAX,
    ensures
        exists|nodes: Seq<Node<usize, usize>>|
            frame_tree_of(data, selected@, nodes) && texts_of(lines@) == collation_of(data, nodes),
{
    let tree = data.frame_tree(selected);
    collate(data, &tree)
}

} // verus!
