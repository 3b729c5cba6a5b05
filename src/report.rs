//! Human-readable move notation for a finished ledger.
use vstd::prelude::*;
use crate::ledger::{Moves, SENTINEL};

verus! {

/// The character of the decimal digit `d`.
pub open spec fn digit_char(d: nat) -> char {
    if d == 0 {
        '0'
    } else if d == 1 {
        '1'
    } else if d == 2 {
        '2'
    } else if d == 3 {
        '3'
    } else if d == 4 {
        '4'
    } else if d == 5 {
        '5'
    } else if d == 6 {
        '6'
    } else if d == 7 {
        '7'
    } else if d == 8 {
        '8'
    } else {
        '9'
    }
}

/// The decimal representation of `n`, without leading zeros.
pub open spec fn decimal(n: nat) -> Seq<char>
    decreases n,
{
    if n < 10 {
        seq![digit_char(n)]
    } else {
        decimal(n / 10) + seq![digit_char(n % 10)]
    }
}

/// The 1-based display number of cell `i`.
pub open spec fn cell_text(i: u8) -> Seq<char> {
    decimal((i + 1) as nat)
}

/// The move list of a ledger: a jump that starts where the previous entry
/// ended extends the current token with `-<to>`; any other jump starts a new
/// token `<from>-<to>` after a comma. The opening entry shows only its
/// destination.
pub open spec fn moves_text(moves: Seq<(u8, u8)>) -> Seq<char>
    decreases moves.len(),
{
    if moves.len() == 0 {
        seq![]
    } else if moves.len() == 1 {
        if moves[0].0 == SENTINEL {
            cell_text(moves[0].1)
        } else {
            cell_text(moves[0].0) + seq!['-'] + cell_text(moves[0].1)
        }
    } else {
        let prev = moves.drop_last();
        let m = moves.last();
        if prev.last().1 == m.0 {
            moves_text(prev) + seq!['-'] + cell_text(m.1)
        } else {
            moves_text(prev) + seq![',', ' '] + cell_text(m.0) + seq!['-'] + cell_text(m.1)
        }
    }
}

/// The full report of a ledger.
pub open spec fn report_text(score: nat, moves: Seq<(u8, u8)>) -> Seq<char> {
    seq!['S', 'c', 'o', 'r', 'e', ':', ' '] + decimal(score) + seq!['\n', 'M', 'o', 'v', 'e', 's', ':', ' ']
        + moves_text(moves)
}

fn digit_str(d: u16) -> (r: &'static str)
    requires
        d < 10,
    ensures
        r@ == seq![digit_char(d as nat)],
{
    if d == 0 {
        proof { reveal_strlit("0"); }
        "0"
    } else if d == 1 {
        proof { reveal_strlit("1"); }
        "1"
    } else if d == 2 {
        proof { reveal_strlit("2"); }
        "2"
    } else if d == 3 {
        proof { reveal_strlit("3"); }
        "3"
    } else if d == 4 {
        proof { reveal_strlit("4"); }
        "4"
    } else if d == 5 {
        proof { reveal_strlit("5"); }
        "5"
    } else if d == 6 {
        proof { reveal_strlit("6"); }
        "6"
    } else if d == 7 {
        proof { reveal_strlit("7"); }
        "7"
    } else if d == 8 {
        proof { reveal_strlit("8"); }
        "8"
    } else {
        proof { reveal_strlit("9"); }
        "9"
    }
}

/// Appends the decimal representation of `n`.
pub fn push_decimal(out: &mut String, n: u16)
    ensures
        final(out)@ == old(out)@ + decimal(n as nat),
    decreases n,
{
    if n >= 10 {
        push_decimal(out, n / 10);
    }
    out.append(digit_str(n % 10));
    proof {
        assert(final(out)@ =~= old(out)@ + decimal(n as nat));
    }
}

/// Appends the display number of cell `i`.
fn push_cell(out: &mut String, i: u8)
    ensures
        final(out)@ == old(out)@ + cell_text(i),
{
    push_decimal(out, i as u16 + 1);
}

/// Renders the move list of a ledger.
pub fn format_moves(moves: &Vec<(u8, u8)>) -> (r: String)
    ensures
        r@ == moves_text(moves@),
{
    let mut out = String::new();
    let n = moves.len();
    if n == 0 {
        return out;
    }
    let first = moves[0];
    if first.0 == SENTINEL {
        push_cell(&mut out, first.1);
    } else {
        push_cell(&mut out, first.0);
        proof { reveal_strlit("-"); }
        out.append("-");
        push_cell(&mut out, first.1);
    }
    let mut i: usize = 1;
    while i < n
        invariant
            n == moves@.len(),
            1 <= i <= n,
            out@ == moves_text(moves@.subrange(0, i as int)),
        decreases n - i,
    {
        let ghost prev = moves@.subrange(0, i as int);
        let ghost next = moves@.subrange(0, i as int + 1);
        assert(next.drop_last() =~= prev);
        let m = moves[i];
        if moves[i - 1].1 == m.0 {
            proof { reveal_strlit("-"); }
            out.append("-");
            push_cell(&mut out, m.1);
        } else {
            proof { reveal_strlit(", "); }
            out.append(", ");
            push_cell(&mut out, m.0);
            proof { reveal_strlit("-"); }
            out.append("-");
            push_cell(&mut out, m.1);
        }
        i = i + 1;
        assert(out@ =~= moves_text(next));
    }
    assert(moves@.subrange(0, n as int) =~= moves@);
    out
}

/// Renders the report `Score: <n>` and `Moves: <list>` on two lines.
pub fn format_report(m: &Moves) -> (r: String)
    ensures
        r@ == report_text(m.score as nat, m.moves@),
{
    let mut out = String::new();
    proof { reveal_strlit("Score: "); }
    out.append("Score: ");
    push_decimal(&mut out, m.score as u16);
    proof { reveal_strlit("\nMoves: "); }
    out.append("\nMoves: ");
    let list = format_moves(&m.moves);
    out.append(list.as_str());
    assert(out@ =~= report_text(m.score as nat, m.moves@));
    out
}

} // verus!
