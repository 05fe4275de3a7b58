//! What can be read back from the text of a page: everything in it.
use vstd::prelude::*;

use crate::bound::BoundView;
use crate::data::DataView;
use crate::key::PageID;
use crate::node::NodeView;
use crate::text;

verus! {

/// The character of a decimal digit.
spec fn is_digit(c: char) -> bool {
    48 <= c as int <= 57
}

/// What may follow a part of a list: a comma, or the end of the list.
spec fn follows(rest: Seq<char>) -> bool {
    rest.len() > 0 && (rest[0] == ',' || rest[0] == ']')
}

/// Where two parts of lists read the same, they are the same, and so is what
/// follows them.
spec fn apart(p: Seq<char>, q: Seq<char>) -> bool {
    forall|x: Seq<char>, y: Seq<char>|
        follows(x) && follows(y) && #[trigger] (p + x) == #[trigger] (q + y) ==> p == q && x == y
}

/// What stands behind a beginning that two texts share.
pub proof fn lemma_strip(start: Seq<char>, x: Seq<char>, y: Seq<char>)
    requires
        start + x == start + y,
    ensures
        x == y,
{
    let n = start.len() as int;
    assert(x =~= (start + x).skip(n));
    assert(y =~= (start + y).skip(n));
}

/// The first part of a text, and the rest.
proof fn lemma_front(a: Seq<char>, x: Seq<char>, b: Seq<char>, y: Seq<char>)
    requires
        a + x == b + y,
        a.len() == b.len(),
    ensures
        a == b,
        x == y,
{
    let n = a.len() as int;
    assert(a =~= (a + x).take(n));
    assert(b =~= (b + y).take(n));
    assert(x =~= (a + x).skip(n));
    assert(y =~= (b + y).skip(n));
}

/// A number is written in digits alone.
proof fn lemma_number_digits(n: nat)
    ensures
        text::number_text(n).len() >= 1,
        n >= 10 ==> text::number_text(n).len() >= 2,
        forall|i: int|
            0 <= i < text::number_text(n).len() ==> is_digit(#[trigger] text::number_text(n)[i]),
    decreases n,
{
    let q = (n / 10) as nat;
    let r = (n % 10) as nat;
    text::law_number_text(q, r);
    if n >= 10 {
        lemma_number_digits(q);
        assert(n == 10 * q + r);
    } else {
        assert(n == r);
    }
}

/// Different numbers have different texts.
pub proof fn law_number_text_tells_number(a: nat, b: nat)
    requires
        text::number_text(a) == text::number_text(b),
    ensures
        a == b,
    decreases a,
{
    let qa = (a / 10) as nat;
    let ra = (a % 10) as nat;
    let qb = (b / 10) as nat;
    let rb = (b % 10) as nat;
    text::law_number_text(qa, ra);
    text::law_number_text(qb, rb);
    lemma_number_digits(a);
    lemma_number_digits(b);
    assert(a == 10 * qa + ra);
    assert(b == 10 * qb + rb);
    let s = text::number_text(a);
    if a < 10 && b < 10 {
        assert(s[0] == (48 + ra) as char);
        assert(s[0] == (48 + rb) as char);
    } else if a >= 10 && b >= 10 {
        assert(s.last() == (48 + ra) as char);
        assert(s.last() == (48 + rb) as char);
        assert(s.drop_last() =~= text::number_text(qa));
        assert(s.drop_last() =~= text::number_text(qb));
        law_number_text_tells_number(qa, qb);
    }
}

/// A number ends where the digits end.
proof fn lemma_number_then(a: nat, b: nat, x: Seq<char>, y: Seq<char>)
    requires
        x.len() > 0 && !is_digit(x[0]),
        y.len() > 0 && !is_digit(y[0]),
        text::number_text(a) + x == text::number_text(b) + y,
    ensures
        a == b,
        x == y,
{
    lemma_number_digits(a);
    lemma_number_digits(b);
    let s = text::number_text(a);
    let t = text::number_text(b);
    if s.len() < t.len() {
        assert((s + x)[s.len() as int] == x[0]);
        assert((t + y)[s.len() as int] == t[s.len() as int]);
    } else if t.len() < s.len() {
        assert((t + y)[t.len() as int] == y[0]);
        assert((s + x)[t.len() as int] == s[t.len() as int]);
    }
    lemma_front(s, x, t, y);
    law_number_text_tells_number(a, b);
}

/// The texts of numbers can be told apart in a list.
proof fn lemma_numbers_apart(a: nat, b: nat)
    ensures
        apart(text::number_text(a), text::number_text(b)),
{
    let p = text::number_text(a);
    let q = text::number_text(b);
    assert forall|x: Seq<char>, y: Seq<char>|
        follows(x) && follows(y) && #[trigger] (p + x) == #[trigger] (q + y) implies p == q && x
        == y by {
        lemma_number_then(a, b, x, y);
    }
}

/// The first part of a list, and the others.
proof fn lemma_joined_front(parts: Seq<Seq<char>>)
    requires
        parts.len() > 0,
    ensures
        parts.len() == 1 ==> text::joined(parts) == parts[0],
        parts.len() > 1 ==> text::joined(parts) == parts[0] + (", "@ + text::joined(parts.skip(1))),
    decreases parts.len(),
{
    if parts.len() == 2 {
        let rest = parts.drop_last();
        assert(text::joined(rest) == parts[0]);
        assert(parts.skip(1).len() == 1);
        assert(text::joined(parts.skip(1)) == parts[1]);
        assert(text::joined(parts) =~= parts[0] + (", "@ + text::joined(parts.skip(1))));
    } else if parts.len() > 2 {
        let rest = parts.drop_last();
        lemma_joined_front(rest);
        assert(rest.skip(1) =~= parts.skip(1).drop_last());
        assert(parts.skip(1).last() == parts.last());
        assert(text::joined(parts) =~= parts[0] + (", "@ + text::joined(parts.skip(1))));
    }
}

/// A list ends where its closing bracket stands.
proof fn lemma_list_then(p: Seq<Seq<char>>, q: Seq<Seq<char>>, x: Seq<char>, y: Seq<char>)
    requires
        forall|i: int, j: int|
            0 <= i < p.len() && 0 <= j < q.len() ==> apart(#[trigger] p[i], #[trigger] q[j]),
        forall|i: int|
            0 <= i < p.len() ==> (#[trigger] p[i]).len() > 0 && p[i][0] != ']' && p[i][0] != ',',
        forall|i: int|
            0 <= i < q.len() ==> (#[trigger] q[i]).len() > 0 && q[i][0] != ']' && q[i][0] != ',',
        text::joined(p) + ("]"@ + x) == text::joined(q) + ("]"@ + y),
    ensures
        p == q,
        x == y,
    decreases p.len(),
{
    reveal_strlit("]");
    reveal_strlit(", ");
    let s = text::joined(p) + ("]"@ + x);
    let t = text::joined(q) + ("]"@ + y);
    if p.len() == 0 && q.len() == 0 {
        assert(s =~= "]"@ + x);
        assert(t =~= "]"@ + y);
        lemma_strip("]"@, x, y);
        assert(p =~= q);
    } else if p.len() == 0 {
        lemma_joined_front(q);
        assert(s[0] == ']');
        assert(t[0] == q[0][0]);
    } else if q.len() == 0 {
        lemma_joined_front(p);
        assert(t[0] == ']');
        assert(s[0] == p[0][0]);
    } else {
        lemma_joined_front(p);
        lemma_joined_front(q);
        let xs = if p.len() == 1 {
            "]"@ + x
        } else {
            ", "@ + (text::joined(p.skip(1)) + ("]"@ + x))
        };
        let ys = if q.len() == 1 {
            "]"@ + y
        } else {
            ", "@ + (text::joined(q.skip(1)) + ("]"@ + y))
        };
        assert(s =~= p[0] + xs);
        assert(t =~= q[0] + ys);
        assert(apart(p[0], q[0]));
        assert(follows(xs) && follows(ys));
        assert(p[0] == q[0] && xs == ys);
        if p.len() == 1 && q.len() == 1 {
            lemma_strip("]"@, x, y);
            assert(p =~= q);
        } else if p.len() == 1 {
            assert(xs[0] == ']');
            assert(ys[0] == ',');
        } else if q.len() == 1 {
            assert(xs[0] == ',');
            assert(ys[0] == ']');
        } else {
            lemma_strip(
                ", "@,
                text::joined(p.skip(1)) + ("]"@ + x),
                text::joined(q.skip(1)) + ("]"@ + y),
            );
            assert forall|i: int, j: int|
                0 <= i < p.skip(1).len() && 0 <= j < q.skip(1).len() implies apart(
                #[trigger] p.skip(1)[i],
                #[trigger] q.skip(1)[j],
            ) by {
                assert(apart(p[i + 1], q[j + 1]));
            }
            lemma_list_then(p.skip(1), q.skip(1), x, y);
            assert(p =~= seq![p[0]] + p.skip(1));
            assert(q =~= seq![q[0]] + q.skip(1));
        }
    }
}

/// The text of a byte string ends where its closing bracket stands, and tells
/// the bytes.
proof fn lemma_bytes_then(a: Seq<u8>, b: Seq<u8>, x: Seq<char>, y: Seq<char>)
    requires
        text::bytes_text(a) + x == text::bytes_text(b) + y,
    ensures
        a == b,
        x == y,
{
    let p = text::byte_texts(a);
    let q = text::byte_texts(b);
    assert(text::bytes_text(a) + x =~= "["@ + (text::joined(p) + ("]"@ + x)));
    assert(text::bytes_text(b) + y =~= "["@ + (text::joined(q) + ("]"@ + y)));
    lemma_strip("["@, text::joined(p) + ("]"@ + x), text::joined(q) + ("]"@ + y));
    assert forall|i: int, j: int| 0 <= i < p.len() && 0 <= j < q.len() implies apart(
        #[trigger] p[i],
        #[trigger] q[j],
    ) by {
        lemma_numbers_apart(a[i] as nat, b[j] as nat);
    }
    assert forall|i: int| 0 <= i < p.len() implies (#[trigger] p[i]).len() > 0 && p[i][0] != ']'
        && p[i][0] != ',' by {
        lemma_number_digits(a[i] as nat);
        assert(is_digit(p[i][0]));
    }
    assert forall|i: int| 0 <= i < q.len() implies (#[trigger] q[i]).len() > 0 && q[i][0] != ']'
        && q[i][0] != ',' by {
        lemma_number_digits(b[i] as nat);
        assert(is_digit(q[i][0]));
    }
    lemma_list_then(p, q, x, y);
    assert(a.len() == p.len());
    assert(b.len() == q.len());
    assert forall|i: int| 0 <= i < a.len() implies a[i] == b[i] by {
        assert(p[i] == q[i]);
        law_number_text_tells_number(a[i] as nat, b[i] as nat);
    }
    assert(a =~= b);
}

/// Different byte strings have different texts.
pub proof fn law_bytes_text_tells_bytes(a: Seq<u8>, b: Seq<u8>)
    requires
        text::bytes_text(a) == text::bytes_text(b),
    ensures
        a == b,
{
    lemma_bytes_then(a, b, Seq::empty(), Seq::empty());
}

/// The text of a pointer.
spec fn pointer_text(ptr: (Seq<u8>, PageID)) -> Seq<char> {
    "("@ + text::bytes_text(ptr.0) + ", "@ + text::number_text(ptr.1 as nat) + ")"@
}

/// The text of a pointer tells the pointer, and where it ends.
proof fn lemma_pointer_then(
    a: (Seq<u8>, PageID),
    b: (Seq<u8>, PageID),
    x: Seq<char>,
    y: Seq<char>,
)
    requires
        pointer_text(a) + x == pointer_text(b) + y,
    ensures
        a == b,
        x == y,
{
    reveal_strlit(")");
    let na = text::number_text(a.1 as nat);
    let nb = text::number_text(b.1 as nat);
    let u = ")"@ + x;
    let v = ")"@ + y;
    assert(pointer_text(a) + x =~= "("@ + (text::bytes_text(a.0) + (", "@ + (na + u))));
    assert(pointer_text(b) + y =~= "("@ + (text::bytes_text(b.0) + (", "@ + (nb + v))));
    lemma_strip(
        "("@,
        text::bytes_text(a.0) + (", "@ + (na + u)),
        text::bytes_text(b.0) + (", "@ + (nb + v)),
    );
    lemma_bytes_then(a.0, b.0, ", "@ + (na + u), ", "@ + (nb + v));
    lemma_strip(", "@, na + u, nb + v);
    lemma_number_then(a.1 as nat, b.1 as nat, u, v);
    lemma_strip(")"@, x, y);
}

/// The text of a record.
spec fn record_text(item: (Seq<u8>, Seq<u8>)) -> Seq<char> {
    "("@ + text::bytes_text(item.0) + ", "@ + text::bytes_text(item.1) + ")"@
}

/// The text of a record tells the record, and where it ends.
proof fn lemma_record_then(
    a: (Seq<u8>, Seq<u8>),
    b: (Seq<u8>, Seq<u8>),
    x: Seq<char>,
    y: Seq<char>,
)
    requires
        record_text(a) + x == record_text(b) + y,
    ensures
        a == b,
        x == y,
{
    let va = text::bytes_text(a.1);
    let vb = text::bytes_text(b.1);
    let u = ")"@ + x;
    let v = ")"@ + y;
    assert(record_text(a) + x =~= "("@ + (text::bytes_text(a.0) + (", "@ + (va + u))));
    assert(record_text(b) + y =~= "("@ + (text::bytes_text(b.0) + (", "@ + (vb + v))));
    lemma_strip(
        "("@,
        text::bytes_text(a.0) + (", "@ + (va + u)),
        text::bytes_text(b.0) + (", "@ + (vb + v)),
    );
    lemma_bytes_then(a.0, b.0, ", "@ + (va + u), ", "@ + (vb + v));
    lemma_strip(", "@, va + u, vb + v);
    lemma_bytes_then(a.1, b.1, u, v);
    lemma_strip(")"@, x, y);
}

/// The texts of pointers tell the pointers, and where their list ends.
proof fn lemma_pointers_then(
    a: Seq<(Seq<u8>, PageID)>,
    b: Seq<(Seq<u8>, PageID)>,
    x: Seq<char>,
    y: Seq<char>,
)
    requires
        text::joined(text::pointer_texts(a)) + ("]"@ + x) == text::joined(text::pointer_texts(b))
            + ("]"@ + y),
    ensures
        a == b,
        x == y,
{
    reveal_strlit("(");
    let p = text::pointer_texts(a);
    let q = text::pointer_texts(b);
    assert forall|i: int| 0 <= i < p.len() implies #[trigger] p[i] == pointer_text(a[i]) && p[i][0]
        == '(' by {}
    assert forall|i: int| 0 <= i < q.len() implies #[trigger] q[i] == pointer_text(b[i]) && q[i][0]
        == '(' by {}
    assert forall|i: int, j: int| 0 <= i < p.len() && 0 <= j < q.len() implies apart(
        #[trigger] p[i],
        #[trigger] q[j],
    ) by {
        assert forall|u: Seq<char>, v: Seq<char>|
            follows(u) && follows(v) && #[trigger] (p[i] + u) == #[trigger] (q[j]
                + v) implies p[i] == q[j] && u == v by {
            lemma_pointer_then(a[i], b[j], u, v);
        }
    }
    lemma_list_then(p, q, x, y);
    assert(a.len() == p.len());
    assert(b.len() == q.len());
    assert forall|i: int| 0 <= i < a.len() implies a[i] == b[i] by {
        assert(p[i] == q[i]);
        lemma_pointer_then(a[i], b[i], Seq::empty(), Seq::empty());
    }
    assert(a =~= b);
}

/// The texts of records tell the records, and where their list ends.
proof fn lemma_records_then(
    a: Seq<(Seq<u8>, Seq<u8>)>,
    b: Seq<(Seq<u8>, Seq<u8>)>,
    x: Seq<char>,
    y: Seq<char>,
)
    requires
        text::joined(text::record_texts(a)) + ("]"@ + x) == text::joined(text::record_texts(b))
            + ("]"@ + y),
    ensures
        a == b,
        x == y,
{
    reveal_strlit("(");
    let p = text::record_texts(a);
    let q = text::record_texts(b);
    assert forall|i: int| 0 <= i < p.len() implies #[trigger] p[i] == record_text(a[i]) && p[i][0]
        == '(' by {}
    assert forall|i: int| 0 <= i < q.len() implies #[trigger] q[i] == record_text(b[i]) && q[i][0]
        == '(' by {}
    assert forall|i: int, j: int| 0 <= i < p.len() && 0 <= j < q.len() implies apart(
        #[trigger] p[i],
        #[trigger] q[j],
    ) by {
        assert forall|u: Seq<char>, v: Seq<char>|
            follows(u) && follows(v) && #[trigger] (p[i] + u) == #[trigger] (q[j]
                + v) implies p[i] == q[j] && u == v by {
            lemma_record_then(a[i], b[j], u, v);
        }
    }
    lemma_list_then(p, q, x, y);
    assert(a.len() == p.len());
    assert(b.len() == q.len());
    assert forall|i: int| 0 <= i < a.len() implies a[i] == b[i] by {
        assert(p[i] == q[i]);
        lemma_record_then(a[i], b[i], Seq::empty(), Seq::empty());
    }
    assert(a =~= b);
}

/// The text of the entries of a page tells the entries, and where it ends.
proof fn lemma_data_then(a: DataView, b: DataView, x: Seq<char>, y: Seq<char>)
    requires
        text::data_text(a) + x == text::data_text(b) + y,
    ensures
        a == b,
        x == y,
{
    reveal_strlit("Index([");
    reveal_strlit("Leaf([");
    reveal_strlit("])");
    reveal_strlit("]");
    reveal_strlit(")");
    assert("])"@ =~= "]"@ + ")"@);
    let u = ")"@ + x;
    let v = ")"@ + y;
    let s = text::data_text(a) + x;
    let t = text::data_text(b) + y;
    match (a, b) {
        (DataView::Index(p), DataView::Index(q)) => {
            let ps = text::joined(text::pointer_texts(p));
            let qs = text::joined(text::pointer_texts(q));
            assert(s =~= "Index(["@ + (ps + ("]"@ + u)));
            assert(t =~= "Index(["@ + (qs + ("]"@ + v)));
            lemma_strip("Index(["@, ps + ("]"@ + u), qs + ("]"@ + v));
            lemma_pointers_then(p, q, u, v);
            lemma_strip(")"@, x, y);
        },
        (DataView::Leaf(p), DataView::Leaf(q)) => {
            let ps = text::joined(text::record_texts(p));
            let qs = text::joined(text::record_texts(q));
            assert(s =~= "Leaf(["@ + (ps + ("]"@ + u)));
            assert(t =~= "Leaf(["@ + (qs + ("]"@ + v)));
            lemma_strip("Leaf(["@, ps + ("]"@ + u), qs + ("]"@ + v));
            lemma_records_then(p, q, u, v);
            lemma_strip(")"@, x, y);
        },
        (DataView::Index(_), DataView::Leaf(_)) => {
            assert(s[0] == 'I');
            assert(t[0] == 'L');
        },
        (DataView::Leaf(_), DataView::Index(_)) => {
            assert(s[0] == 'L');
            assert(t[0] == 'I');
        },
    }
}

/// The text of a bound with a key.
proof fn lemma_keyed_then(
    start: Seq<char>,
    a: Seq<u8>,
    b: Seq<u8>,
    x: Seq<char>,
    y: Seq<char>,
)
    requires
        start + text::bytes_text(a) + ")"@ + x == start + text::bytes_text(b) + ")"@ + y,
    ensures
        a == b,
        x == y,
{
    let u = ")"@ + x;
    let v = ")"@ + y;
    assert(start + text::bytes_text(a) + ")"@ + x =~= start + (text::bytes_text(a) + u));
    assert(start + text::bytes_text(b) + ")"@ + y =~= start + (text::bytes_text(b) + v));
    lemma_strip(start, text::bytes_text(a) + u, text::bytes_text(b) + v);
    lemma_bytes_then(a, b, u, v);
    lemma_strip(")"@, x, y);
}

/// The text of a bound tells the bound, and where it ends.
proof fn lemma_bound_then(a: BoundView, b: BoundView, x: Seq<char>, y: Seq<char>)
    requires
        text::bound_text(a) + x == text::bound_text(b) + y,
    ensures
        a == b,
        x == y,
{
    reveal_strlit("Inc(");
    reveal_strlit("Non(");
    reveal_strlit("Inf");
    let s = text::bound_text(a) + x;
    let t = text::bound_text(b) + y;
    match a {
        BoundView::Inc(_) => {
            assert(s[0] == 'I' && s[2] == 'c');
        },
        BoundView::Non(_) => {
            assert(s[0] == 'N');
        },
        BoundView::Inf => {
            assert(s[0] == 'I' && s[2] == 'f');
        },
    }
    match b {
        BoundView::Inc(_) => {
            assert(t[0] == 'I' && t[2] == 'c');
        },
        BoundView::Non(_) => {
            assert(t[0] == 'N');
        },
        BoundView::Inf => {
            assert(t[0] == 'I' && t[2] == 'f');
        },
    }
    match (a, b) {
        (BoundView::Inc(p), BoundView::Inc(q)) => lemma_keyed_then("Inc("@, p, q, x, y),
        (BoundView::Non(p), BoundView::Non(q)) => lemma_keyed_then("Non("@, p, q, x, y),
        _ => lemma_strip("Inf"@, x, y),
    }
}

/// The text of the neighbour tells the neighbour, and where it ends.
proof fn lemma_next_then(a: Option<PageID>, b: Option<PageID>, x: Seq<char>, y: Seq<char>)
    requires
        text::next_text(a) + x == text::next_text(b) + y,
    ensures
        a == b,
        x == y,
{
    reveal_strlit("Some(");
    reveal_strlit("None");
    reveal_strlit(")");
    let s = text::next_text(a) + x;
    let t = text::next_text(b) + y;
    match (a, b) {
        (Some(p), Some(q)) => {
            let u = ")"@ + x;
            let v = ")"@ + y;
            assert(s =~= "Some("@ + (text::number_text(p as nat) + u));
            assert(t =~= "Some("@ + (text::number_text(q as nat) + v));
            lemma_strip(
                "Some("@,
                text::number_text(p as nat) + u,
                text::number_text(q as nat) + v,
            );
            lemma_number_then(p as nat, q as nat, u, v);
            lemma_strip(")"@, x, y);
        },
        (None, None) => lemma_strip("None"@, x, y),
        (Some(_), None) => {
            assert(s[0] == 'S');
            assert(t[0] == 'N');
        },
        (None, Some(_)) => {
            assert(s[0] == 'N');
            assert(t[0] == 'S');
        },
    }
}

/// The text of a page from its lower bound on.
spec fn range_tail(node: NodeView, x: Seq<char>) -> Seq<char> {
    text::bound_text(node.lo) + (", hi: "@ + (text::bound_text(node.hi) + (" }"@ + x)))
}

/// The text of a page from its entries on.
spec fn data_tail(node: NodeView, x: Seq<char>) -> Seq<char> {
    text::data_text(node.data) + (", next: "@ + (text::next_text(node.next) + (", lo: "@
        + range_tail(node, x))))
}

/// Texts can be put together from either end.
pub proof fn lemma_regroup(a: Seq<char>, b: Seq<char>, c: Seq<char>)
    ensures
        a + b + c == a + (b + c),
{
    assert(a + b + c =~= a + (b + c));
}

/// The text of a page in its parts.
proof fn lemma_node_parts(node: NodeView, x: Seq<char>)
    ensures
        text::node_text(node) + x == "Node { id: "@ + (text::number_text(node.id as nat) + (
        ", data: "@ + data_tail(node, x))),
{
    let a = "Node { id: "@;
    let b = a + text::number_text(node.id as nat);
    let c = b + ", data: "@;
    let d = c + text::data_text(node.data);
    let e = d + ", next: "@;
    let f = e + text::next_text(node.next);
    let g = f + ", lo: "@;
    let h = g + text::bound_text(node.lo);
    let i = h + ", hi: "@;
    let j = i + text::bound_text(node.hi);
    let hi = text::bound_text(node.hi) + (" }"@ + x);
    let next = text::next_text(node.next) + (", lo: "@ + range_tail(node, x));
    assert(text::node_text(node) == j + " }"@);
    lemma_regroup(j, " }"@, x);
    lemma_regroup(i, text::bound_text(node.hi), " }"@ + x);
    lemma_regroup(h, ", hi: "@, hi);
    lemma_regroup(g, text::bound_text(node.lo), ", hi: "@ + hi);
    lemma_regroup(f, ", lo: "@, range_tail(node, x));
    lemma_regroup(e, text::next_text(node.next), ", lo: "@ + range_tail(node, x));
    lemma_regroup(d, ", next: "@, next);
    lemma_regroup(c, text::data_text(node.data), ", next: "@ + next);
    lemma_regroup(b, ", data: "@, data_tail(node, x));
    lemma_regroup(a, text::number_text(node.id as nat), ", data: "@ + data_tail(node, x));
}

/// The text of a page tells its number, its entries, its neighbour and its
/// range, and where it ends, whatever stands behind it.
pub proof fn law_node_text_tells_node(a: NodeView, b: NodeView, x: Seq<char>, y: Seq<char>)
    requires
        text::node_text(a) + x == text::node_text(b) + y,
    ensures
        a == b,
        x == y,
{
    reveal_strlit(", data: ");
    lemma_node_parts(a, x);
    lemma_node_parts(b, y);
    let u = ", data: "@ + data_tail(a, x);
    let v = ", data: "@ + data_tail(b, y);
    lemma_strip(
        "Node { id: "@,
        text::number_text(a.id as nat) + u,
        text::number_text(b.id as nat) + v,
    );
    lemma_number_then(a.id as nat, b.id as nat, u, v);
    lemma_strip(", data: "@, data_tail(a, x), data_tail(b, y));
    let na = text::next_text(a.next) + (", lo: "@ + range_tail(a, x));
    let nb = text::next_text(b.next) + (", lo: "@ + range_tail(b, y));
    lemma_data_then(a.data, b.data, ", next: "@ + na, ", next: "@ + nb);
    lemma_strip(", next: "@, na, nb);
    lemma_next_then(a.next, b.next, ", lo: "@ + range_tail(a, x), ", lo: "@ + range_tail(b, y));
    lemma_strip(", lo: "@, range_tail(a, x), range_tail(b, y));
    let ha = text::bound_text(a.hi) + (" }"@ + x);
    let hb = text::bound_text(b.hi) + (" }"@ + y);
    lemma_bound_then(a.lo, b.lo, ", hi: "@ + ha, ", hi: "@ + hb);
    lemma_strip(", hi: "@, ha, hb);
    lemma_bound_then(a.hi, b.hi, " }"@ + x, " }"@ + y);
    lemma_strip(" }"@, x, y);
}

/// Lines read from the first on.
proof fn lemma_lines_front(nodes: Seq<NodeView>)
    requires
        nodes.len() > 0,
    ensures
        text::lines_text(nodes) == "\n"@ + (text::node_text(nodes[0]) + text::lines_text(
            nodes.skip(1),
        )),
    decreases nodes.len(),
{
    let rest = nodes.drop_last();
    if nodes.len() == 1 {
        assert(text::lines_text(rest) =~= Seq::empty());
        assert(text::lines_text(nodes.skip(1)) =~= Seq::empty());
    } else {
        lemma_lines_front(rest);
        assert(rest.skip(1) =~= nodes.skip(1).drop_last());
        assert(nodes.skip(1).last() == nodes.last());
    }
    assert(text::lines_text(nodes) =~= "\n"@ + (text::node_text(nodes[0]) + text::lines_text(
        nodes.skip(1),
    )));
}

/// The description of a path tells the content of each of its pages.
pub proof fn law_lines_text_tells_nodes(a: Seq<NodeView>, b: Seq<NodeView>)
    requires
        text::lines_text(a) == text::lines_text(b),
    ensures
        a == b,
    decreases a.len(),
{
    reveal_strlit("\n");
    if a.len() == 0 && b.len() == 0 {
        assert(a =~= b);
    } else if a.len() == 0 {
        lemma_lines_front(b);
        assert(text::lines_text(a).len() == 0);
    } else if b.len() == 0 {
        lemma_lines_front(a);
        assert(text::lines_text(b).len() == 0);
    } else {
        lemma_lines_front(a);
        lemma_lines_front(b);
        let x = text::lines_text(a.skip(1));
        let y = text::lines_text(b.skip(1));
        lemma_strip("\n"@, text::node_text(a[0]) + x, text::node_text(b[0]) + y);
        law_node_text_tells_node(a[0], b[0], x, y);
        law_lines_text_tells_nodes(a.skip(1), b.skip(1));
        assert(a =~= seq![a[0]] + a.skip(1));
        assert(b =~= seq![b[0]] + b.skip(1));
    }
}

} // verus!
