//! How pages are written out for people to read.
use vstd::prelude::*;

use crate::bound::{Bound, BoundView};
use crate::data;
use crate::data::{Data, DataView};
use crate::key::{Key, PageID, Value};
use crate::node::{Node, NodeView};

verus! {

/// A decimal digit.
pub open spec fn digit_text(digit: int) -> Seq<char> {
    if digit == 0 {
        "0"@
    } else if digit == 1 {
        "1"@
    } else if digit == 2 {
        "2"@
    } else if digit == 3 {
        "3"@
    } else if digit == 4 {
        "4"@
    } else if digit == 5 {
        "5"@
    } else if digit == 6 {
        "6"@
    } else if digit == 7 {
        "7"@
    } else if digit == 8 {
        "8"@
    } else {
        "9"@
    }
}

/// A number in decimal digits.
pub open spec fn number_text(number: nat) -> Seq<char>
    decreases number,
{
    if number < 10 {
        digit_text(number as int)
    } else {
        number_text(number / 10) + digit_text((number % 10) as int)
    }
}

/// The parts one after the other, with commas between them.
pub open spec fn joined(parts: Seq<Seq<char>>) -> Seq<char>
    decreases parts.len(),
{
    if parts.len() == 0 {
        Seq::empty()
    } else if parts.len() == 1 {
        parts[0]
    } else {
        joined(parts.drop_last()) + ", "@ + parts.last()
    }
}

/// The texts of the bytes.
pub open spec fn byte_texts(bytes: Seq<u8>) -> Seq<Seq<char>> {
    Seq::new(bytes.len(), |i: int| number_text(bytes[i] as nat))
}

/// A string of bytes, such as `[1, 2]`.
pub open spec fn bytes_text(bytes: Seq<u8>) -> Seq<char> {
    "["@ + joined(byte_texts(bytes)) + "]"@
}

/// The texts of the page numbers.
pub open spec fn pid_texts(pids: Seq<PageID>) -> Seq<Seq<char>> {
    Seq::new(pids.len(), |i: int| number_text(pids[i] as nat))
}

/// A list of page numbers, such as `[1, 2]`.
pub open spec fn pids_text(pids: Seq<PageID>) -> Seq<char> {
    "["@ + joined(pid_texts(pids)) + "]"@
}

/// The texts of the pointers.
pub open spec fn pointer_texts(ptrs: Seq<(Seq<u8>, PageID)>) -> Seq<Seq<char>> {
    Seq::new(
        ptrs.len(),
        |i: int| "("@ + bytes_text(ptrs[i].0) + ", "@ + number_text(ptrs[i].1 as nat) + ")"@,
    )
}

/// The texts of the records.
pub open spec fn record_texts(items: Seq<(Seq<u8>, Seq<u8>)>) -> Seq<Seq<char>> {
    Seq::new(
        items.len(),
        |i: int| "("@ + bytes_text(items[i].0) + ", "@ + bytes_text(items[i].1) + ")"@,
    )
}

/// The entries of a page.
pub open spec fn data_text(data: DataView) -> Seq<char> {
    match data {
        DataView::Index(ptrs) => "Index(["@ + joined(pointer_texts(ptrs)) + "])"@,
        DataView::Leaf(items) => "Leaf(["@ + joined(record_texts(items)) + "])"@,
    }
}

/// A bound, such as `Inc([1, 2])`.
pub open spec fn bound_text(bound: BoundView) -> Seq<char> {
    match bound {
        BoundView::Inc(key) => "Inc("@ + bytes_text(key) + ")"@,
        BoundView::Non(key) => "Non("@ + bytes_text(key) + ")"@,
        BoundView::Inf => "Inf"@,
    }
}

/// The page to the right.
pub open spec fn next_text(next: Option<PageID>) -> Seq<char> {
    match next {
        Some(pid) => "Some("@ + number_text(pid as nat) + ")"@,
        None => "None"@,
    }
}

/// The content of a page, on one line.
pub open spec fn node_text(node: NodeView) -> Seq<char> {
    "Node { id: "@ + number_text(node.id as nat) + ", data: "@ + data_text(node.data)
        + ", next: "@ + next_text(node.next) + ", lo: "@ + bound_text(node.lo) + ", hi: "@
        + bound_text(node.hi) + " }"@
}

/// The nodes one after the other, each with a line break before it.
pub open spec fn lines_text(nodes: Seq<NodeView>) -> Seq<char>
    decreases nodes.len(),
{
    if nodes.len() == 0 {
        Seq::empty()
    } else {
        lines_text(nodes.drop_last()) + "\n"@ + node_text(nodes.last())
    }
}

/// One more part at the end.
pub proof fn lemma_joined_push(parts: Seq<Seq<char>>, part: Seq<char>)
    ensures
        parts.len() == 0 ==> joined(parts.push(part)) == part,
        parts.len() > 0 ==> joined(parts.push(part)) == joined(parts) + ", "@ + part,
{
    assert(parts.push(part).drop_last() =~= parts);
}

/// Writes a number.
pub fn write_number(out: &mut String, number: usize)
    ensures
        final(out)@ == old(out)@ + number_text(number as nat),
    decreases number,
{
    if number >= 10 {
        write_number(out, number / 10);
    }
    let ghost before = out@;
    let digit: usize = number % 10;
    out.append(
        match digit {
            0 => "0",
            1 => "1",
            2 => "2",
            3 => "3",
            4 => "4",
            5 => "5",
            6 => "6",
            7 => "7",
            8 => "8",
            _ => "9",
        },
    );
    assert(out@ =~= before + digit_text(digit as int));
    assert(out@ =~= old(out)@ + number_text(number as nat));
}

/// Writes a comma, unless this is the first part.
fn write_comma(out: &mut String, i: usize)
    ensures
        final(out)@ == (if i == 0 {
            old(out)@
        } else {
            old(out)@ + ", "@
        }),
{
    if i > 0 {
        out.append(", ");
    }
}

/// Writes a string of bytes.
pub fn write_bytes(out: &mut String, bytes: &[u8])
    ensures
        final(out)@ == old(out)@ + bytes_text(bytes@),
{
    out.append("[");
    let ghost start = out@;
    let ghost texts = byte_texts(bytes@);
    let mut i: usize = 0;
    assert(texts.take(0) =~= Seq::empty());
    assert(out@ =~= start + joined(texts.take(0)));
    while i < bytes.len()
        invariant
            i <= bytes@.len(),
            texts == byte_texts(bytes@),
            out@ == start + joined(texts.take(i as int)),
        decreases bytes@.len() - i,
    {
        proof {
            lemma_joined_push(texts.take(i as int), texts[i as int]);
            assert(texts.take(i + 1) =~= texts.take(i as int).push(texts[i as int]));
        }
        write_comma(out, i);
        write_number(out, bytes[i] as usize);
        i += 1;
        assert(out@ =~= start + joined(texts.take(i as int)));
    }
    assert(texts.take(i as int) =~= texts);
    out.append("]");
    assert(out@ =~= old(out)@ + bytes_text(bytes@));
}

/// Writes a list of page numbers.
pub fn write_pids(out: &mut String, pids: &Vec<PageID>)
    ensures
        final(out)@ == old(out)@ + pids_text(pids@),
{
    out.append("[");
    let ghost start = out@;
    let ghost texts = pid_texts(pids@);
    let mut i: usize = 0;
    assert(texts.take(0) =~= Seq::empty());
    assert(out@ =~= start + joined(texts.take(0)));
    while i < pids.len()
        invariant
            i <= pids@.len(),
            texts == pid_texts(pids@),
            out@ == start + joined(texts.take(i as int)),
        decreases pids@.len() - i,
    {
        proof {
            lemma_joined_push(texts.take(i as int), texts[i as int]);
            assert(texts.take(i + 1) =~= texts.take(i as int).push(texts[i as int]));
        }
        write_comma(out, i);
        write_number(out, pids[i]);
        i += 1;
        assert(out@ =~= start + joined(texts.take(i as int)));
    }
    assert(texts.take(i as int) =~= texts);
    out.append("]");
    assert(out@ =~= old(out)@ + pids_text(pids@));
}

/// Writes the pointers of an index page.
fn write_pointers(out: &mut String, ptrs: &Vec<(Key, PageID)>)
    ensures
        final(out)@ == old(out)@ + joined(pointer_texts(data::entries(ptrs@))),
{
    let ghost start = out@;
    let ghost es = data::entries(ptrs@);
    let ghost texts = pointer_texts(es);
    let mut i: usize = 0;
    assert(texts.take(0) =~= Seq::empty());
    assert(out@ =~= start + joined(texts.take(0)));
    while i < ptrs.len()
        invariant
            i <= ptrs@.len(),
            es == data::entries(ptrs@),
            texts == pointer_texts(es),
            out@ == start + joined(texts.take(i as int)),
        decreases ptrs@.len() - i,
    {
        proof {
            lemma_joined_push(texts.take(i as int), texts[i as int]);
            assert(texts.take(i + 1) =~= texts.take(i as int).push(texts[i as int]));
        }
        assert(es[i as int] == (ptrs@[i as int].0@, ptrs@[i as int].1));
        write_comma(out, i);
        let ghost before = out@;
        out.append("(");
        write_bytes(out, &ptrs[i].0);
        out.append(", ");
        write_number(out, ptrs[i].1);
        out.append(")");
        assert(out@ =~= before + texts[i as int]);
        i += 1;
        assert(out@ =~= start + joined(texts.take(i as int)));
    }
    assert(texts.take(i as int) =~= texts);
}

/// Writes the records of a leaf.
fn write_records(out: &mut String, items: &Vec<(Key, Value)>)
    ensures
        final(out)@ == old(out)@ + joined(record_texts(data::entries(items@))),
{
    let ghost start = out@;
    let ghost es = data::entries(items@);
    let ghost texts = record_texts(es);
    let mut i: usize = 0;
    assert(texts.take(0) =~= Seq::empty());
    assert(out@ =~= start + joined(texts.take(0)));
    while i < items.len()
        invariant
            i <= items@.len(),
            es == data::entries(items@),
            texts == record_texts(es),
            out@ == start + joined(texts.take(i as int)),
        decreases items@.len() - i,
    {
        proof {
            lemma_joined_push(texts.take(i as int), texts[i as int]);
            assert(texts.take(i + 1) =~= texts.take(i as int).push(texts[i as int]));
        }
        assert(es[i as int] == (items@[i as int].0@, items@[i as int].1@));
        write_comma(out, i);
        let ghost before = out@;
        out.append("(");
        write_bytes(out, &items[i].0);
        out.append(", ");
        write_bytes(out, &items[i].1);
        out.append(")");
        assert(out@ =~= before + texts[i as int]);
        i += 1;
        assert(out@ =~= start + joined(texts.take(i as int)));
    }
    assert(texts.take(i as int) =~= texts);
}

/// Writes the entries of a page.
fn write_data(out: &mut String, data: &Data)
    ensures
        final(out)@ == old(out)@ + data_text(data@),
{
    match data {
        Data::Index(ptrs) => {
            out.append("Index([");
            write_pointers(out, ptrs);
        },
        Data::Leaf(items) => {
            out.append("Leaf([");
            write_records(out, items);
        },
    }
    out.append("])");
    assert(out@ =~= old(out)@ + data_text(data@));
}

/// Writes a bound.
fn write_bound(out: &mut String, bound: &Bound)
    ensures
        final(out)@ == old(out)@ + bound_text(bound@),
{
    match bound {
        Bound::Inc(key) => {
            out.append("Inc(");
            write_bytes(out, key);
            out.append(")");
        },
        Bound::Non(key) => {
            out.append("Non(");
            write_bytes(out, key);
            out.append(")");
        },
        Bound::Inf => {
            out.append("Inf");
        },
    }
    assert(out@ =~= old(out)@ + bound_text(bound@));
}

/// Writes the page to the right.
fn write_next(out: &mut String, next: Option<PageID>)
    ensures
        final(out)@ == old(out)@ + next_text(next),
{
    match next {
        Some(pid) => {
            out.append("Some(");
            write_number(out, pid);
            out.append(")");
        },
        None => {
            out.append("None");
        },
    }
    assert(out@ =~= old(out)@ + next_text(next));
}

/// Writes the content of a page.
pub fn write_node(out: &mut String, node: &Node)
    ensures
        final(out)@ == old(out)@ + node_text(node@),
{
    out.append("Node { id: ");
    write_number(out, node.id);
    out.append(", data: ");
    write_data(out, &node.data);
    out.append(", next: ");
    write_next(out, node.next);
    out.append(", lo: ");
    write_bound(out, &node.lo);
    out.append(", hi: ");
    write_bound(out, &node.hi);
    out.append(" }");
    assert(out@ =~= old(out)@ + node_text(node@));
}

/// The characters of the digits.
proof fn lemma_digit(digit: int)
    requires
        0 <= digit < 10,
    ensures
        digit_text(digit) == seq![(48 + digit) as char],
{
    reveal_strlit("0");
    reveal_strlit("1");
    reveal_strlit("2");
    reveal_strlit("3");
    reveal_strlit("4");
    reveal_strlit("5");
    reveal_strlit("6");
    reveal_strlit("7");
    reveal_strlit("8");
    reveal_strlit("9");
    assert(digit_text(digit) =~= seq![(48 + digit) as char]);
}

/// A number is written in decimal digits: one below ten as its digit, and ten
/// times a number and a digit as the number with the digit behind it.
pub proof fn law_number_text(number: nat, digit: nat)
    requires
        digit < 10,
    ensures
        number_text(digit) == seq![(48 + digit) as char],
        number > 0 ==> number_text(10 * number + digit) == number_text(number).push(
            (48 + digit) as char,
        ),
{
    lemma_digit(digit as int);
    if number > 0 {
        assert(number_text(10 * number + digit) =~= number_text(number).push(
            (48 + digit) as char,
        ));
    }
}

/// The parts are all there, in their order, each but the first behind a comma.
pub proof fn law_joined(parts: Seq<Seq<char>>)
    ensures
        joined(parts) == Seq::new(
            parts.len(),
            |i: int|
                (if i == 0 {
                    Seq::<char>::empty()
                } else {
                    ", "@
                }) + parts[i],
        ).flatten(),
    decreases parts.len(),
{
    let pieces = Seq::new(
        parts.len(),
        |i: int|
            (if i == 0 {
                Seq::<char>::empty()
            } else {
                ", "@
            }) + parts[i],
    );
    if parts.len() > 0 {
        let rest = parts.drop_last();
        law_joined(rest);
        let fewer = Seq::new(
            rest.len(),
            |i: int|
                (if i == 0 {
                    Seq::<char>::empty()
                } else {
                    ", "@
                }) + rest[i],
        );
        assert(pieces =~= fewer.push(pieces.last()));
        fewer.lemma_flatten_push(pieces.last());
        if parts.len() == 1 {
            assert(fewer =~= Seq::empty());
        }
        assert(joined(parts) =~= pieces.flatten());
    } else {
        assert(joined(parts) =~= pieces.flatten());
    }
}

/// The text of a byte string shows every byte in decimal digits, in their order.
pub proof fn law_bytes_text(bytes: Seq<u8>)
    ensures
        bytes_text(bytes) == "["@ + Seq::new(
            bytes.len(),
            |i: int|
                (if i == 0 {
                    Seq::<char>::empty()
                } else {
                    ", "@
                }) + number_text(bytes[i] as nat),
        ).flatten() + "]"@,
{
    let parts = byte_texts(bytes);
    law_joined(parts);
    assert(Seq::new(
        parts.len(),
        |i: int|
            (if i == 0 {
                Seq::<char>::empty()
            } else {
                ", "@
            }) + parts[i],
    ) =~= Seq::new(
        bytes.len(),
        |i: int|
            (if i == 0 {
                Seq::<char>::empty()
            } else {
                ", "@
            }) + number_text(bytes[i] as nat),
    ));
}

/// Every node comes on a line of its own, in their order.
pub proof fn law_lines_text(nodes: Seq<NodeView>)
    ensures
        lines_text(nodes) == Seq::new(
            nodes.len(),
            |i: int| "\n"@ + node_text(nodes[i]),
        ).flatten(),
    decreases nodes.len(),
{
    let pieces = Seq::new(nodes.len(), |i: int| "\n"@ + node_text(nodes[i]));
    if nodes.len() > 0 {
        let rest = nodes.drop_last();
        law_lines_text(rest);
        let fewer = Seq::new(rest.len(), |i: int| "\n"@ + node_text(rest[i]));
        assert(pieces =~= fewer.push(pieces.last()));
        fewer.lemma_flatten_push(pieces.last());
        assert(lines_text(nodes) =~= pieces.flatten());
    } else {
        assert(lines_text(nodes) =~= pieces.flatten());
    }
}

/// The text of a leaf: its number, every record in their order, its neighbour and
/// its range.
pub proof fn law_leaf_text(node: NodeView, list: Seq<(Seq<u8>, Seq<u8>)>)
    requires
        node.data == DataView::Leaf(list),
    ensures
        node_text(node) == "Node { id: "@ + number_text(node.id as nat) + ", data: "@ + ("Leaf(["@
            + Seq::new(
            list.len(),
            |i: int|
                (if i == 0 {
                    Seq::<char>::empty()
                } else {
                    ", "@
                }) + ("("@ + bytes_text(list[i].0) + ", "@ + bytes_text(list[i].1) + ")"@),
        ).flatten() + "])"@) + ", next: "@ + (match node.next {
            Some(pid) => "Some("@ + number_text(pid as nat) + ")"@,
            None => "None"@,
        }) + ", lo: "@ + (match node.lo {
            BoundView::Inc(key) => "Inc("@ + bytes_text(key) + ")"@,
            BoundView::Non(key) => "Non("@ + bytes_text(key) + ")"@,
            BoundView::Inf => "Inf"@,
        }) + ", hi: "@ + (match node.hi {
            BoundView::Inc(key) => "Inc("@ + bytes_text(key) + ")"@,
            BoundView::Non(key) => "Non("@ + bytes_text(key) + ")"@,
            BoundView::Inf => "Inf"@,
        }) + " }"@,
{
    let parts = record_texts(list);
    law_joined(parts);
    assert(Seq::new(
        parts.len(),
        |i: int|
            (if i == 0 {
                Seq::<char>::empty()
            } else {
                ", "@
            }) + parts[i],
    ) =~= Seq::new(
        list.len(),
        |i: int|
            (if i == 0 {
                Seq::<char>::empty()
            } else {
                ", "@
            }) + ("("@ + bytes_text(list[i].0) + ", "@ + bytes_text(list[i].1) + ")"@),
    ));
}

/// The text of an index page: its number, every pointer in their order, its neighbour and
/// its range.
pub proof fn law_index_text(node: NodeView, list: Seq<(Seq<u8>, PageID)>)
    requires
        node.data == DataView::Index(list),
    ensures
        node_text(node) == "Node { id: "@ + number_text(node.id as nat) + ", data: "@ + ("Index(["@
            + Seq::new(
            list.len(),
            |i: int|
                (if i == 0 {
                    Seq::<char>::empty()
                } else {
                    ", "@
                }) + ("("@ + bytes_text(list[i].0) + ", "@ + number_text(list[i].1 as nat) + ")"@),
        ).flatten() + "])"@) + ", next: "@ + (match node.next {
            Some(pid) => "Some("@ + number_text(pid as nat) + ")"@,
            None => "None"@,
        }) + ", lo: "@ + (match node.lo {
            BoundView::Inc(key) => "Inc("@ + bytes_text(key) + ")"@,
            BoundView::Non(key) => "Non("@ + bytes_text(key) + ")"@,
            BoundView::Inf => "Inf"@,
        }) + ", hi: "@ + (match node.hi {
            BoundView::Inc(key) => "Inc("@ + bytes_text(key) + ")"@,
            BoundView::Non(key) => "Non("@ + bytes_text(key) + ")"@,
            BoundView::Inf => "Inf"@,
        }) + " }"@,
{
    let parts = pointer_texts(list);
    law_joined(parts);
    assert(Seq::new(
        parts.len(),
        |i: int|
            (if i == 0 {
                Seq::<char>::empty()
            } else {
                ", "@
            }) + parts[i],
    ) =~= Seq::new(
        list.len(),
        |i: int|
            (if i == 0 {
                Seq::<char>::empty()
            } else {
                ", "@
            }) + ("("@ + bytes_text(list[i].0) + ", "@ + number_text(list[i].1 as nat) + ")"@),
    ));
}

} // verus!
