//! The report: a window of the graph as a page of markup, each parent with
//! its children and, under each child that is itself a parent, that child's
//! own children.

use vstd::prelude::*;
use vstd::string::*;
use crate::graph::{Id, Rows, TxGraph, children, texts, window_rows};

verus! {

/// The character of a decimal digit.
pub open spec fn digit_char(d: nat) -> char {
    if d == 0 {
        '0'
    } else if d == 1 {
        '1'
    } else if d == 2 {
        '2'
    } else if d == 3 {
        '3'
    } else if d == 4 {
        '4'
    } else if d == 5 {
        '5'
    } else if d == 6 {
        '6'
    } else if d == 7 {
        '7'
    } else if d == 8 {
        '8'
    } else {
        '9'
    }
}

/// A number in decimal, without leading zeros.
pub open spec fn decimal_text(n: nat) -> Seq<char>
    decreases n,
{
    if n < 10 {
        seq![digit_char(n)]
    } else {
        decimal_text(n / 10) + seq![digit_char(n % 10)]
    }
}

fn digit(d: usize) -> (text: &'static str)
    requires
        d < 10,
    ensures
        text@ == seq![digit_char(d as nat)],
{
    proof {
        reveal_strlit("0");
        reveal_strlit("1");
        reveal_strlit("2");
        reveal_strlit("3");
        reveal_strlit("4");
        reveal_strlit("5");
        reveal_strlit("6");
        reveal_strlit("7");
        reveal_strlit("8");
        reveal_strlit("9");
    }
    let text = if d == 0 {
        "0"
    } else if d == 1 {
        "1"
    } else if d == 2 {
        "2"
    } else if d == 3 {
        "3"
    } else if d == 4 {
        "4"
    } else if d == 5 {
        "5"
    } else if d == 6 {
        "6"
    } else if d == 7 {
        "7"
    } else if d == 8 {
        "8"
    } else {
        "9"
    };
    assert(text@ =~= seq![digit_char(d as nat)]);
    text
}

/// Writes a number in decimal.
pub fn decimal(n: usize) -> (text: String)
    ensures
        text@ == decimal_text(n as nat),
    decreases n,
{
    if n < 10 {
        String::from_str(digit(n))
    } else {
        let mut text = decimal(n / 10);
        text.append(digit(n % 10));
        text
    }
}

/// What the formatter of `std` writes for a string with `{:?}`: the string
/// between double quotes, with the characters escaped that `std` escapes.
pub uninterp spec fn debug_text(id: Seq<char>) -> Seq<char>;

/// `format!` with `{:?}` on a string. The result depends on the characters
/// of the string alone; the contract gives it its name and claims no more.
#[verifier::external_body]
fn quoted(id: &String) -> (shown: String)
    ensures
        shown@ == debug_text(id@),
{
    format!("{:?}", id)
}

/// The line of a parent.
pub open spec fn parent_line_text(parent: Seq<char>) -> Seq<char> {
    "<p class='tx-padre'>Tx padre: "@ + parent + " </p>"@
}

/// The line of a child, given the child as it is shown.
pub open spec fn child_line_text(shown: Seq<char>) -> Seq<char> {
    "<p class='tx-hijo'>&nbsp;&nbsp Tx hijo: "@ + shown + "</p>"@
}

/// The line of a grandchild, given the grandchild as it is shown.
pub open spec fn grandchild_line_text(shown: Seq<char>) -> Seq<char> {
    "<p class='tx-nieto'>&nbsp;&nbsp;&nbsp;&nbsp; Tx nieto: "@ + shown + "</p>"@
}

/// The lines of the grandchildren `kids`, in order.
pub open spec fn grandchild_lines(kids: Seq<Id>) -> Seq<char>
    decreases kids.len(),
{
    if kids.len() == 0 {
        Seq::empty()
    } else {
        grandchild_lines(kids.drop_last()) + grandchild_line_text(debug_text(kids.last()))
    }
}

/// The line of a child followed by the lines of the children that `rows`
/// records under it, if it is a parent there.
pub open spec fn child_block(rows: Rows, kid: Id) -> Seq<char> {
    child_line_text(debug_text(kid)) + grandchild_lines(children(rows, kid))
}

/// The blocks of the children `kids`, in order.
pub open spec fn child_blocks(rows: Rows, kids: Seq<Id>) -> Seq<char>
    decreases kids.len(),
{
    if kids.len() == 0 {
        Seq::empty()
    } else {
        child_blocks(rows, kids.drop_last()) + child_block(rows, kids.last())
    }
}

/// The line of a parent followed by the blocks of its children.
pub open spec fn parent_block(rows: Rows, row: (Id, Seq<Id>)) -> Seq<char> {
    parent_line_text(row.0) + child_blocks(rows, row.1)
}

/// The blocks of the rows `shown`, in order; grandchildren are looked up in
/// `rows`.
pub open spec fn parent_blocks(rows: Rows, shown: Rows) -> Seq<char>
    decreases shown.len(),
{
    if shown.len() == 0 {
        Seq::empty()
    } else {
        parent_blocks(rows, shown.drop_last()) + parent_block(rows, shown.last())
    }
}

/// The heading of the page, which names the bounds.
pub open spec fn heading_text(low: nat, high: nat) -> Seq<char> {
    "<h1>Txs de la Mempool</h1>"@ + "<h3>Mostrando las transacciones desde la Tx:"@
        + decimal_text(low) + " hasta la Tx:"@ + decimal_text(high) + "</h3><br>"@
        + "<style> .tx-padre { color: black; } .tx-hijo { color: green; } .tx-nieto { color: blue; } </style>"@
}

/// The page for the window from `low` to `high`.
pub open spec fn report_text(rows: Rows, low: nat, high: nat) -> Seq<char> {
    "<html><body>"@ + heading_text(low, high) + parent_blocks(
        rows,
        window_rows(rows, low as int, high as int),
    ) + "</body></html>"@
}

/// Writes the line of a parent.
pub fn parent_line(parent: &String) -> (line: String)
    ensures
        line@ == parent_line_text(parent@),
{
    let mut line = String::from_str("<p class='tx-padre'>Tx padre: ");
    line.append(parent.as_str());
    line.append(" </p>");
    line
}

/// Writes the line of a child that is shown as `shown`.
pub fn child_line(shown: &String) -> (line: String)
    ensures
        line@ == child_line_text(shown@),
{
    let mut line = String::from_str("<p class='tx-hijo'>&nbsp;&nbsp Tx hijo: ");
    line.append(shown.as_str());
    line.append("</p>");
    line
}

/// Writes the line of a grandchild that is shown as `shown`.
pub fn grandchild_line(shown: &String) -> (line: String)
    ensures
        line@ == grandchild_line_text(shown@),
{
    let mut line = String::from_str("<p class='tx-nieto'>&nbsp;&nbsp;&nbsp;&nbsp; Tx nieto: ");
    line.append(shown.as_str());
    line.append("</p>");
    line
}

/// Writes the heading.
pub fn heading(low: usize, high: usize) -> (text: String)
    ensures
        text@ == heading_text(low as nat, high as nat),
{
    let mut text = String::from_str("<h1>Txs de la Mempool</h1>");
    text.append("<h3>Mostrando las transacciones desde la Tx:");
    text.append(decimal(low).as_str());
    text.append(" hasta la Tx:");
    text.append(decimal(high).as_str());
    text.append("</h3><br>");
    text.append(
        "<style> .tx-padre { color: black; } .tx-hijo { color: green; } .tx-nieto { color: blue; } </style>",
    );
    text
}

/// Appends the block of the child `kid` to `page`.
fn push_child_block(page: &mut String, graph: &TxGraph, kid: &String)
    requires
        graph.wf(),
    ensures
        final(page)@ == old(page)@ + child_block(graph.rows(), kid@),
{
    let ghost before = page@;
    let ghost rows = graph.rows();
    let line = child_line(&quoted(kid));
    page.append(line.as_str());
    match graph.children_of(kid) {
        Some(listed) => {
            let ghost kids = texts(listed@);
            let mut g: usize = 0;
            proof {
                assert(kids.take(0) =~= Seq::<Id>::empty());
                assert(page@ =~= before + (line@ + grandchild_lines(kids.take(0))));
            }
            while g < listed.len()
                invariant
                    g <= listed.len(),
                    kids == texts(listed@),
                    page@ == before + (line@ + grandchild_lines(kids.take(g as int))),
                decreases listed.len() - g,
            {
                let ghost sofar = grandchild_lines(kids.take(g as int));
                let next = grandchild_line(&quoted(&listed[g]));
                page.append(next.as_str());
                proof {
                    assert(kids.take(g + 1).drop_last() =~= kids.take(g as int));
                    assert(kids.take(g + 1).last() == listed[g as int]@);
                    assert(page@ =~= before + (line@ + (sofar + next@)));
                }
                g += 1;
            }
            proof {
                assert(kids.take(g as int) =~= kids);
            }
        },
        None => {
            proof {
                assert(page@ =~= before + (line@ + Seq::<char>::empty()));
            }
        },
    }
}

/// Appends the block of the row at `index` to `page`.
fn push_parent_block(page: &mut String, graph: &TxGraph, index: usize)
    requires
        graph.wf(),
        index < graph.rows().len(),
    ensures
        final(page)@ == old(page)@ + parent_block(graph.rows(), graph.rows()[index as int]),
{
    let ghost before = page@;
    let ghost rows = graph.rows();
    let line = parent_line(graph.parent_at(index));
    page.append(line.as_str());
    let listed = graph.children_at(index);
    let ghost kids = texts(listed@);
    let mut c: usize = 0;
    proof {
        assert(kids.take(0) =~= Seq::<Id>::empty());
        assert(page@ =~= before + (line@ + child_blocks(rows, kids.take(0))));
    }
    while c < listed.len()
        invariant
            c <= listed.len(),
            graph.wf(),
            rows == graph.rows(),
            kids == texts(listed@),
            page@ == before + (line@ + child_blocks(rows, kids.take(c as int))),
        decreases listed.len() - c,
    {
        let ghost sofar = child_blocks(rows, kids.take(c as int));
        let ghost mid = page@;
        push_child_block(page, graph, &listed[c]);
        proof {
            assert(kids.take(c + 1).drop_last() =~= kids.take(c as int));
            assert(kids.take(c + 1).last() == listed[c as int]@);
            assert(page@ =~= before + (line@ + (sofar + child_block(rows, listed[c as int]@))));
        }
        c += 1;
    }
    proof {
        assert(kids.take(c as int) =~= kids);
    }
}

/// The page that shows the parents at the positions from `tx_ini` to
/// `tx_end`, both included, in the graph's order.
pub fn get_descen_html(graph: &TxGraph, tx_ini: usize, tx_end: usize) -> (page: String)
    requires
        graph.wf(),
    ensures
        page@ == report_text(graph.rows(), tx_ini as nat, tx_end as nat),
{
    let ghost rows = graph.rows();
    let ghost shown = window_rows(rows, tx_ini as int, tx_end as int);
    let mut page = String::from_str("<html><body>");
    page.append(heading(tx_ini, tx_end).as_str());
    let ghost top = page@;
    let total = graph.len();
    let stop = if tx_end < total {
        tx_end + 1
    } else {
        total
    };
    let count = if tx_ini < stop {
        stop - tx_ini
    } else {
        0
    };
    assert(shown.len() == count);
    let mut j: usize = 0;
    proof {
        assert(shown.take(0) =~= Seq::<(Id, Seq<Id>)>::empty());
        assert(page@ =~= top + parent_blocks(rows, shown.take(0)));
    }
    while j < count
        invariant
            j <= count,
            count == shown.len(),
            count > 0 ==> tx_ini + count <= rows.len(),
            graph.wf(),
            rows == graph.rows(),
            shown == window_rows(rows, tx_ini as int, tx_end as int),
            page@ == top + parent_blocks(rows, shown.take(j as int)),
        decreases count - j,
    {
        let ghost sofar = parent_blocks(rows, shown.take(j as int));
        push_parent_block(&mut page, graph, tx_ini + j);
        proof {
            assert(shown.take(j + 1).drop_last() =~= shown.take(j as int));
            assert(shown.take(j + 1).last() == rows[tx_ini + j]);
            assert(page@ =~= top + (sofar + parent_block(rows, rows[tx_ini + j])));
        }
        j += 1;
    }
    proof {
        assert(shown.take(j as int) =~= shown);
    }
    page.append("</body></html>");
    page
}

} // verus!
