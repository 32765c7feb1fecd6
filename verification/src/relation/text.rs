//! The lines of a relation's dump.

use vstd::prelude::*;
use vstd::string::StringExecFns;
use crate::relation::model::RelationView;

verus! {

/// The character of a decimal digit.
pub open spec fn digit(d: nat) -> char {
    if d == 0 {
        '0'
    } else if d == 1 {
        '1'
    } else if d == 2 {
        '2'
    } else if d == 3 {
        '3'
    } else if d == 4 {
        '4'
    } else if d == 5 {
        '5'
    } else if d == 6 {
        '6'
    } else if d == 7 {
        '7'
    } else if d == 8 {
        '8'
    } else {
        '9'
    }
}

/// A number written in decimal, without leading zeros.
pub open spec fn decimal(n: nat) -> Seq<char>
    decreases n,
{
    if n < 10 {
        seq![digit(n)]
    } else {
        decimal(n / 10).push(digit(n % 10))
    }
}

/// The line of a used slot: `N(source) --E(edge)--> N(target)`.
pub open spec fn used_line(source: nat, edge: nat, target: nat) -> Seq<char> {
    seq!['N', '('] + decimal(source) + seq![')', ' ', '-', '-', 'E', '('] + decimal(edge) + seq![
        ')',
        '-',
        '-',
        '>',
        ' ',
        'N',
        '(',
    ] + decimal(target) + seq![')']
}

/// The line of a free slot: `free edge E(edge)`.
pub open spec fn free_line(edge: nat) -> Seq<char> {
    seq!['f', 'r', 'e', 'e', ' ', 'e', 'd', 'g', 'e', ' ', 'E', '('] + decimal(edge) + seq![')']
}

impl RelationView {
    /// The lines of the edges that leave node `n`, in the order of its list.
    pub open spec fn node_lines(self, n: int) -> Seq<Seq<char>> {
        Seq::new(
            self.outgoing[n].len(),
            |i: int|
                used_line(
                    n as nat,
                    self.outgoing[n][i] as nat,
                    self.slots[self.outgoing[n][i]]->target as nat,
                ),
        )
    }

    /// The lines of the edges that leave the first `count` nodes, node by node.
    pub open spec fn used_lines(self, count: int) -> Seq<Seq<char>>
        decreases count,
    {
        if count <= 0 {
            Seq::empty()
        } else {
            self.used_lines(count - 1) + self.node_lines(count - 1)
        }
    }

    /// The lines of the free slots, in the order of the free list.
    pub open spec fn free_lines(self) -> Seq<Seq<char>> {
        Seq::new(self.free.len(), |i: int| free_line(self.free[i] as nat))
    }

    /// The dump: one line for each used slot, node by node and within a node
    /// in the order of its outgoing list, then one line for each free slot.
    pub open spec fn dump(self) -> Seq<Seq<char>> {
        self.used_lines(self.num_nodes) + self.free_lines()
    }
}

/// The text of a decimal digit.
fn digit_text(d: usize) -> (text: &'static str)
    requires
        d < 10,
    ensures
        text@ == seq![digit(d as nat)],
{
    proof {
        reveal_strlit("0");
        reveal_strlit("1");
        reveal_strlit("2");
        reveal_strlit("3");
        reveal_strlit("4");
        reveal_strlit("5");
        reveal_strlit("6");
        reveal_strlit("7");
        reveal_strlit("8");
        reveal_strlit("9");
    }
    let text = if d == 0 {
        "0"
    } else if d == 1 {
        "1"
    } else if d == 2 {
        "2"
    } else if d == 3 {
        "3"
    } else if d == 4 {
        "4"
    } else if d == 5 {
        "5"
    } else if d == 6 {
        "6"
    } else if d == 7 {
        "7"
    } else if d == 8 {
        "8"
    } else {
        "9"
    };
    assert(text@ =~= seq![digit(d as nat)]);
    text
}

/// Writes a number in decimal at the end of a text.
fn push_decimal(text: &mut String, n: usize)
    ensures
        final(text)@ == old(text)@ + decimal(n as nat),
    decreases n,
{
    if n >= 10 {
        push_decimal(text, n / 10);
    }
    text.append(digit_text(n % 10));
    assert(text@ =~= old(text)@ + decimal(n as nat));
}

/// Writes the line of a used slot.
pub fn format_used_line(source: usize, edge: usize, target: usize) -> (line: String)
    ensures
        line@ == used_line(source as nat, edge as nat, target as nat),
{
    proof {
        reveal_strlit("N(");
        reveal_strlit(") --E(");
        reveal_strlit(")--> N(");
        reveal_strlit(")");
    }
    let mut line = String::new();
    line.append("N(");
    push_decimal(&mut line, source);
    line.append(") --E(");
    push_decimal(&mut line, edge);
    line.append(")--> N(");
    push_decimal(&mut line, target);
    line.append(")");
    assert(line@ =~= used_line(source as nat, edge as nat, target as nat));
    line
}

/// Writes the line of a free slot.
pub fn format_free_line(edge: usize) -> (line: String)
    ensures
        line@ == free_line(edge as nat),
{
    proof {
        reveal_strlit("free edge E(");
        reveal_strlit(")");
    }
    let mut line = String::new();
    line.append("free edge E(");
    push_decimal(&mut line, edge);
    line.append(")");
    assert(line@ =~= free_line(edge as nat));
    line
}

} // verus!
