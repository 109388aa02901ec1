//! A tree of backtraces as a table: a row for each node that counts any
//! allocation, from the root down, each child below its parent and drawn
//! with guides that show where it hangs.

use vstd::prelude::*;
use crate::timestamp::Timestamp;
use crate::tree::{Tree, Node, TreeKey, tree_wf};
use crate::util::{decimal, push_decimal, size_text, readable_duration_text, ReadableSize, ReadableDuration};

verus! {

/// The text of each cell of each row.
pub open spec fn texts(rows: Seq<Vec<String>>) -> Seq<Seq<Seq<char>>> {
    rows.map_values(|row: Vec<String>| row@.map_values(|cell: String| cell@))
}

/// The header of the table.
pub open spec fn header_row() -> Seq<Seq<char>> {
    seq![
        seq!['S', 'I', 'Z', 'E'],
        seq!['C', 'O', 'U', 'N', 'T'],
        seq!['F', 'I', 'R', 'S', 'T'],
        seq!['L', 'A', 'S', 'T'],
        seq!['S', 'O', 'U', 'R', 'C', 'E'],
    ]
}

/// The guides in front of the children of a node: for each level above,
/// a blank where that level's node was the last of its siblings, else a
/// bar.
pub open spec fn guides(stack: Seq<bool>) -> Seq<char>
    decreases stack.len(),
{
    if stack.len() == 0 {
        Seq::empty()
    } else {
        guides(stack.drop_last()).push(if stack.last() { ' ' } else { '|' })
    }
}

/// The seconds from `initial` to `t`.
pub open spec fn secs_since(t: Timestamp, initial: Timestamp) -> u64 {
    ((t.0 - initial.0) / 1_000_000) as u64
}

/// The row of a node: its total size, its count, when its first and its
/// last allocation were made, and its value after the guides, or a block
/// for the root.
pub open spec fn node_row<K, V>(node: Node<K, V>, initial: Timestamp, indentation: Seq<char>, name: Seq<char>) -> Seq<Seq<char>> {
    seq![
        size_text(node.total_size),
        decimal(node.total_count as nat),
        readable_duration_text(secs_since(node.total_first_timestamp, initial)),
        readable_duration_text(secs_since(node.total_last_timestamp, initial)),
        if node.value is Some { indentation + name } else { seq!['▒'] },
    ]
}

/// The rows of node `n` and of the nodes under it, where `n` counts any
/// allocation; its value is shown after `indentation`, and `stack` tells
/// of each level above whether its node was the last of its siblings.
pub open spec fn rows_of<K, V>(
    nodes: Seq<Node<K, V>>,
    names: Seq<String>,
    initial: Timestamp,
    n: int,
    indentation: Seq<char>,
    stack: Seq<bool>,
) -> Seq<Seq<Seq<char>>>
    decreases nodes.len() - n, 1int, 0int,
{
    if n < 0 || n >= nodes.len() || nodes[n].total_count == 0 {
        Seq::empty()
    } else {
        seq![node_row(nodes[n], initial, indentation, names[n]@)]
            + children_rows(nodes, names, initial, n, nodes[n].children@.len() as int, stack)
    }
}

/// The rows of the first `i` children of node `n` and of the nodes under
/// them.
pub open spec fn children_rows<K, V>(
    nodes: Seq<Node<K, V>>,
    names: Seq<String>,
    initial: Timestamp,
    n: int,
    i: int,
    stack: Seq<bool>,
) -> Seq<Seq<Seq<char>>>
    decreases nodes.len() - n, 0int, i,
{
    if i <= 0 || n < 0 || n >= nodes.len() || i > nodes[n].children@.len() {
        Seq::empty()
    } else {
        let c = nodes[n].children@[i - 1].1 as int;
        let last = i == nodes[n].children@.len();
        let before = children_rows(nodes, names, initial, n, i - 1, stack);
        if c <= n || c >= nodes.len() {
            before
        } else {
            before + rows_of(
                nodes,
                names,
                initial,
                c,
                guides(stack).push(if last { '└' } else { '├' }),
                stack.push(last),
            )
        }
    }
}

/// Every node that counts an allocation counts none made before `initial`.
pub open spec fn times_after<K, V>(nodes: Seq<Node<K, V>>, initial: Timestamp) -> bool {
    forall|n: int| #![trigger nodes[n]] 0 <= n < nodes.len() && nodes[n].total_count > 0 ==> {
        &&& initial.0 <= nodes[n].total_first_timestamp.0
        &&& initial.0 <= nodes[n].total_last_timestamp.0
    }
}

fn guides_of(stack: &Vec<bool>) -> (text: String)
    ensures
        text@ == guides(stack@),
{
    let mut text = String::new();
    let mut i: usize = 0;
    proof {
        reveal_strlit(" ");
        reveal_strlit("|");
        assert(stack@.take(0) =~= Seq::<bool>::empty());
    }
    while i < stack.len()
        invariant
            0 <= i <= stack@.len(),
            text@ == guides(stack@.take(i as int)),
        decreases stack@.len() - i,
    {
        proof {
            reveal_strlit(" ");
            reveal_strlit("|");
            assert(" "@ =~= seq![' ']);
            assert("|"@ =~= seq!['|']);
        }
        if stack[i] {
            text.append(" ");
        } else {
            text.append("|");
        }
        proof {
            assert(stack@.take(i + 1).drop_last() =~= stack@.take(i as int));
            assert(stack@.take(i + 1).last() == stack@[i as int]);
            assert(text@ =~= guides(stack@.take(i + 1)));
        }
        i = i + 1;
    }
    proof {
        assert(stack@.take(stack@.len() as int) =~= stack@);
    }
    text
}

fn row_of<K, V>(node: &Node<K, V>, initial: Timestamp, indentation: &String, name: &String) -> (row: Vec<String>)
    requires
        node.total_count > 0 ==> initial.0 <= node.total_first_timestamp.0 && initial.0 <= node.total_last_timestamp.0,
        node.total_count > 0,
    ensures
        row@.map_values(|cell: String| cell@) == node_row(*node, initial, indentation@, name@),
{
    let size = ReadableSize(node.total_size).to_text();
    let mut count = String::new();
    push_decimal(&mut count, node.total_count);
    let first = ReadableDuration(node.total_first_timestamp.sub(initial).as_secs()).to_text();
    let last = ReadableDuration(node.total_last_timestamp.sub(initial).as_secs()).to_text();
    let value = if node.value.is_some() {
        let mut cell = indentation.clone();
        cell.append(name.as_str());
        cell
    } else {
        proof {
            reveal_strlit("▒");
        }
        let cell = String::from_str("▒");
        proof {
            assert(cell@ =~= seq!['▒']);
        }
        cell
    };
    proof {
        assert(count@ =~= decimal(node.total_count as nat));
    }
    let row = vec![size, count, first, last, value];
    proof {
        assert(row@.map_values(|cell: String| cell@) =~= node_row(*node, initial, indentation@, name@));
    }
    row
}

proof fn lemma_texts_push(rows: Seq<Vec<String>>, row: Vec<String>)
    ensures
        texts(rows.push(row)) == texts(rows).push(row@.map_values(|cell: String| cell@)),
{
    assert(texts(rows.push(row)) =~= texts(rows).push(row@.map_values(|cell: String| cell@)));
}

fn dump_node<K: TreeKey, V: Copy>(
    tree: &Tree<K, V>,
    initial: Timestamp,
    names: &Vec<String>,
    node_id: u64,
    indentation: String,
    stack: &mut Vec<bool>,
    output: &mut Vec<Vec<String>>,
)
    requires
        tree.wf(),
        node_id < tree.nodes@.len(),
        names@.len() == tree.nodes@.len(),
        times_after(tree.nodes@, initial),
    ensures
        texts(final(output)@) == texts(old(output)@) + rows_of(
            tree.nodes@, names@, initial, node_id as int, indentation@, old(stack)@),
        final(stack)@ == old(stack)@,
    decreases tree.nodes@.len() - node_id,
{
    let ghost nodes = tree.nodes@;
    let ghost n = node_id as int;
    let ghost stack0 = stack@;
    let ghost start = output@;
    let node = tree.get_node(node_id);
    if node.total_count == 0 {
        proof {
            assert(texts(output@) =~= texts(start) + Seq::<Seq<Seq<char>>>::empty());
        }
        return;
    }
    proof {
        assert(nodes[n].total_count > 0);
    }
    let len = tree.nodes.len();
    let id = node_id as usize;
    let row = row_of(node, initial, &indentation, &names[id]);
    output.push(row);
    proof {
        lemma_texts_push(start, row);
        assert(children_rows(nodes, names@, initial, n, 0, stack0) =~= Seq::<Seq<Seq<char>>>::empty());
        assert(texts(output@) =~= texts(start) + seq![node_row(nodes[n], initial, indentation@, names@[n]@)]
            + children_rows(nodes, names@, initial, n, 0, stack0));
    }
    let child_indentation = guides_of(stack);
    let children_count = node.children.len();
    let mut index: usize = 0;
    while index < children_count
        invariant
            tree.wf(),
            nodes == tree.nodes@,
            0 <= n < nodes.len(),
            n == node_id,
            *node == nodes[n],
            names@.len() == nodes.len(),
            times_after(nodes, initial),
            nodes[n].total_count > 0,
            children_count == nodes[n].children@.len(),
            child_indentation@ == guides(stack0),
            stack@ == stack0,
            0 <= index <= children_count,
            texts(output@) == texts(start) + seq![node_row(nodes[n], initial, indentation@, names@[n]@)]
                + children_rows(nodes, names@, initial, n, index as int, stack0),
        decreases children_count - index,
    {
        let child_id = node.children[index].1;
        proof {
            assert(nodes[n].children@[index as int] == node.children@[index as int]);
            assert(n < child_id < nodes.len());
        }
        let mut next = child_indentation.clone();
        let is_last = index + 1 == children_count;
        proof {
            reveal_strlit("└");
            reveal_strlit("├");
            assert("└"@ =~= seq!['└']);
            assert("├"@ =~= seq!['├']);
        }
        if is_last {
            next.append("└");
            stack.push(true);
        } else {
            next.append("├");
            stack.push(false);
        }
        let ghost before = output@;
        proof {
            assert(next@ =~= guides(stack0).push(if is_last { '└' } else { '├' }));
        }
        dump_node(tree, initial, names, child_id, next, stack, output);
        stack.pop();
        proof {
            assert(stack@ =~= stack0);
            let c = nodes[n].children@[index as int].1 as int;
            assert(children_rows(nodes, names@, initial, n, index + 1, stack0)
                == children_rows(nodes, names@, initial, n, index as int, stack0) + rows_of(
                    nodes, names@, initial, c, guides(stack0).push(if is_last { '└' } else { '├' }), stack0.push(is_last)));
            assert(texts(output@) =~= texts(start) + seq![node_row(nodes[n], initial, indentation@, names@[n]@)]
                + children_rows(nodes, names@, initial, n, index + 1, stack0));
        }
        index = index + 1;
    }
    proof {
        assert(rows_of(nodes, names@, initial, n, indentation@, stack0)
            == seq![node_row(nodes[n], initial, indentation@, names@[n]@)]
                + children_rows(nodes, names@, initial, n, nodes[n].children@.len() as int, stack0));
        assert(texts(output@) =~= texts(start) + rows_of(nodes, names@, initial, n, indentation@, stack0));
    }
}

/// The tree as a table, with the text of each node's value in `names`: a
/// header, then a row for each node that counts any allocation, each child
/// under its parent, with the times counted in seconds from `initial`.
pub fn dump_tree_named<K: TreeKey, V: Copy>(tree: &Tree<K, V>, initial: Timestamp, names: &Vec<String>) -> (rows: Vec<Vec<String>>)
    requires
        tree.wf(),
        names@.len() == tree.nodes@.len(),
        times_after(tree.nodes@, initial),
    ensures
        texts(rows@) == seq![header_row()] + rows_of(tree.nodes@, names@, initial, 0, Seq::empty(), Seq::empty()),
{
    proof {
        reveal_strlit("SIZE");
        reveal_strlit("COUNT");
        reveal_strlit("FIRST");
        reveal_strlit("LAST");
        reveal_strlit("SOURCE");
        reveal_strlit("");
    }
    let header = vec![
        String::from_str("SIZE"),
        String::from_str("COUNT"),
        String::from_str("FIRST"),
        String::from_str("LAST"),
        String::from_str("SOURCE"),
    ];
    let mut output: Vec<Vec<String>> = Vec::new();
    output.push(header);
    proof {
        assert("SIZE"@ =~= seq!['S', 'I', 'Z', 'E']);
        assert("COUNT"@ =~= seq!['C', 'O', 'U', 'N', 'T']);
        assert("FIRST"@ =~= seq!['F', 'I', 'R', 'S', 'T']);
        assert("LAST"@ =~= seq!['L', 'A', 'S', 'T']);
        assert("SOURCE"@ =~= seq!['S', 'O', 'U', 'R', 'C', 'E']);
        assert(output@[0]@.map_values(|cell: String| cell@) =~= header_row());
        assert(texts(output@) =~= seq![header_row()]);
    }
    let mut stack: Vec<bool> = Vec::new();
    let indentation = String::from_str("");
    proof {
        assert(indentation@ =~= Seq::<char>::empty());
        assert(stack@ =~= Seq::<bool>::empty());
    }
    dump_node(tree, initial, names, 0, indentation, &mut stack, &mut output);
    output
}

/// The tree as a table, each node's value shown by `printer`.
pub fn dump_tree<K: TreeKey, V: Copy, F: Fn(&V) -> String>(tree: &Tree<K, V>, initial_timestamp: Timestamp, printer: F) -> (rows: Vec<Vec<String>>)
    requires
        tree.wf(),
        times_after(tree.nodes@, initial_timestamp),
        forall|v: V| printer.requires((&v,)),
    ensures
        exists|names: Seq<String>| {
            &&& names.len() == tree.nodes@.len()
            &&& forall|n: int| 0 <= n < tree.nodes@.len() && tree.nodes@[n].value is Some
                ==> printer.ensures((&tree.nodes@[n].value.unwrap(),), #[trigger] names[n])
            &&& texts(rows@) == seq![header_row()] + rows_of(tree.nodes@, names, initial_timestamp, 0, Seq::empty(), Seq::empty())
        },
{
    let mut names: Vec<String> = Vec::new();
    let mut n: usize = 0;
    while n < tree.nodes.len()
        invariant
            0 <= n <= tree.nodes@.len(),
            names@.len() == n,
            forall|v: V| printer.requires((&v,)),
            forall|m: int| 0 <= m < n && tree.nodes@[m].value is Some
                ==> printer.ensures((&tree.nodes@[m].value.unwrap(),), #[trigger] names@[m]),
        decreases tree.nodes@.len() - n,
    {
        let name = match &tree.nodes[n].value {
            Some(value) => printer(value),
            None => String::new(),
        };
        names.push(name);
        n = n + 1;
    }
    dump_tree_named(tree, initial_timestamp, &names)
}

} // verus!
