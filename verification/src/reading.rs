//! The canonical text can be read in one way only: two documents with
//! the same text are the same document.

use vstd::prelude::*;
use crate::grammar::{
    comma_joined, decimal, decimal_digits, digit, escape, escaped, hex_digit, quoted,
};
use crate::tree::{lemma_first_some_none, Tree};

verus! {

/// Two texts that start alike and are as long as each other, with what
/// follows them: they are the same text, and the same follows.
proof fn lemma_split(p: Seq<char>, x: Seq<char>, q: Seq<char>, y: Seq<char>)
    requires
        p + x == q + y,
        p.len() == q.len(),
    ensures
        p == q,
        x == y,
{
    assert(p == (p + x).take(p.len() as int));
    assert(q == (q + y).take(q.len() as int));
    assert(x == (p + x).skip(p.len() as int));
    assert(y == (q + y).skip(q.len() as int));
}

/// The character is a decimal digit.
pub open spec fn is_digit(c: char) -> bool {
    '0' <= c <= '9'
}

proof fn lemma_digits_shape(n: nat)
    ensures
        decimal_digits(n).len() >= 1,
        n >= 10 ==> decimal_digits(n).len() >= 2,
        forall|i: int|
            0 <= i < decimal_digits(n).len() ==> is_digit(#[trigger] decimal_digits(n)[i]),
    decreases n,
{
    if n >= 10 {
        lemma_digits_shape(n / 10);
    }
}

proof fn lemma_digits_injective(n: nat, m: nat)
    requires
        decimal_digits(n) == decimal_digits(m),
    ensures
        n == m,
    decreases n,
{
    lemma_digits_shape(n);
    lemma_digits_shape(m);
    if n < 10 {
        assert(decimal_digits(n)[0] == digit(n as int));
        if m >= 10 {
        } else {
            assert(decimal_digits(m)[0] == digit(m as int));
        }
    } else {
        if m < 10 {
        } else {
            let dn = decimal_digits(n / 10);
            let dm = decimal_digits(m / 10);
            let ln = digit((n % 10) as int);
            let lm = digit((m % 10) as int);
            assert(dn.push(ln) == dm.push(lm));
            assert(dn == dn.push(ln).drop_last());
            assert(dm == dm.push(lm).drop_last());
            assert(ln == dn.push(ln).last());
            assert(lm == dm.push(lm).last());
            lemma_digits_injective(n / 10, m / 10);
        }
    }
}

/// The text of an integer: a minus sign or a digit first, then digits.
proof fn lemma_decimal_shape(n: int)
    ensures
        decimal(n).len() >= 1,
        n < 0 ==> decimal(n)[0] == '-',
        n >= 0 ==> is_digit(decimal(n)[0]),
        forall|i: int| 1 <= i < decimal(n).len() ==> is_digit(#[trigger] decimal(n)[i]),
{
    if n < 0 {
        lemma_digits_shape((-n) as nat);
        let d = decimal_digits((-n) as nat);
        assert forall|i: int| 1 <= i < decimal(n).len() implies is_digit(
            #[trigger] decimal(n)[i],
        ) by {
            assert(decimal(n)[i] == d[i - 1]);
        }
    } else {
        lemma_digits_shape(n as nat);
    }
}

proof fn lemma_decimal_injective(n: int, m: int)
    requires
        decimal(n) == decimal(m),
    ensures
        n == m,
{
    lemma_decimal_shape(n);
    lemma_decimal_shape(m);
    if n < 0 {
        let dn = decimal_digits((-n) as nat);
        let dm = decimal_digits((-m) as nat);
        assert(dn == decimal(n).skip(1));
        assert(dm == decimal(m).skip(1));
        lemma_digits_injective((-n) as nat, (-m) as nat);
    } else {
        lemma_digits_injective(n as nat, m as nat);
    }
}

/// An integer is read in one way, where no digit follows it.
proof fn lemma_decimal_read(n: int, x: Seq<char>, m: int, y: Seq<char>)
    requires
        decimal(n) + x == decimal(m) + y,
        x.len() == 0 || !is_digit(x[0]),
        y.len() == 0 || !is_digit(y[0]),
    ensures
        n == m,
        x == y,
{
    let dn = decimal(n);
    let dm = decimal(m);
    let text = dn + x;
    lemma_decimal_shape(n);
    lemma_decimal_shape(m);
    if dn.len() < dm.len() {
        assert(text.len() == dm.len() + y.len());
        assert(text[dn.len() as int] == x[0]);
        assert((dm + y)[dn.len() as int] == dm[dn.len() as int]);
    } else if dm.len() < dn.len() {
        assert(text.len() == dm.len() + y.len());
        assert((dm + y)[dm.len() as int] == y[0]);
        assert(text[dm.len() as int] == dn[dm.len() as int]);
    }
    lemma_split(dn, x, dm, y);
    lemma_decimal_injective(n, m);
}

/// The character does not stand for itself in a string literal.
pub open spec fn is_escaped(c: char) -> bool {
    c == '"' || c == '\\' || (c as u32) < 0x20
}

proof fn lemma_escape_shape(c: char)
    ensures
        escape(c).len() >= 1,
        escape(c)[0] != '"',
        is_escaped(c) <==> escape(c)[0] == '\\',
        is_escaped(c) ==> escape(c).len() >= 2,
        !is_escaped(c) ==> escape(c) == seq![c],
{
}

proof fn lemma_hex_digit_injective(a: int, b: int)
    requires
        0 <= a < 16,
        0 <= b < 16,
        hex_digit(a) == hex_digit(b),
    ensures
        a == b,
{
    assert(hex_digit(a) as u32 == if a < 10 {
        48 + a
    } else {
        87 + a
    });
    assert(hex_digit(b) as u32 == if b < 10 {
        48 + b
    } else {
        87 + b
    });
}

/// The escape of a character tells which character it was.
proof fn lemma_escape_injective(c: char, d: char)
    requires
        is_escaped(c),
        is_escaped(d),
        escape(c)[1] == escape(d)[1],
        escape(c)[1] == 'u' ==> escape(c)[4] == escape(d)[4] && escape(c)[5] == escape(d)[5],
    ensures
        c == d,
{
    if escape(c)[1] == 'u' {
        let cc = c as int;
        let dd = d as int;
        assert(escape(d)[1] == 'u');
        assert(cc < 0x20 && dd < 0x20);
        assert(escape(c)[4] == hex_digit(cc / 16));
        assert(escape(d)[4] == hex_digit(dd / 16));
        assert(escape(c)[5] == hex_digit(cc % 16));
        assert(escape(d)[5] == hex_digit(dd % 16));
        lemma_hex_digit_injective(cc / 16, dd / 16);
        lemma_hex_digit_injective(cc % 16, dd % 16);
        assert(cc == dd);
        assert(c as u32 == d as u32);
    }
}

/// One escaped character is read in one way, whatever follows it.
proof fn lemma_escape_read(c: char, x: Seq<char>, d: char, y: Seq<char>)
    requires
        escape(c) + x == escape(d) + y,
    ensures
        c == d,
        x == y,
{
    let ec = escape(c);
    let ed = escape(d);
    let text = ec + x;
    lemma_escape_shape(c);
    lemma_escape_shape(d);
    assert(text[0] == ec[0]);
    assert((ed + y)[0] == ed[0]);
    if is_escaped(c) {
        assert(is_escaped(d));
        assert(text[1] == ec[1]);
        assert((ed + y)[1] == ed[1]);
        if ec[1] == 'u' {
            assert(ec.len() == 6 && ed.len() == 6);
            assert(text[4] == ec[4] && text[5] == ec[5]);
            assert((ed + y)[4] == ed[4] && (ed + y)[5] == ed[5]);
        }
        lemma_escape_injective(c, d);
    } else {
        assert(!is_escaped(d));
        assert(ec[0] == c && ed[0] == d);
    }
    lemma_split(ec, x, ed, y);
}

proof fn lemma_escaped_front(s: Seq<char>)
    requires
        s.len() > 0,
    ensures
        escaped(s) == escape(s[0]) + escaped(s.drop_first()),
    decreases s.len(),
{
    if s.len() == 1 {
        assert(s.drop_last() == Seq::<char>::empty());
        assert(s.drop_first() == Seq::<char>::empty());
        assert(escaped(s.drop_last()) == Seq::<char>::empty());
        assert(escaped(s) == escape(s[0]));
    } else {
        let front = s.drop_last();
        let rest = s.drop_first();
        lemma_escaped_front(front);
        assert(front.drop_first() == rest.drop_last());
        assert(front[0] == s[0]);
        assert(rest.last() == s.last());
        assert(escaped(s) == escape(s[0]) + escaped(rest.drop_last()) + escape(s.last()));
        assert(escaped(rest) == escaped(rest.drop_last()) + escape(s.last()));
        assert(escape(s[0]) + escaped(rest.drop_last()) + escape(s.last()) == escape(s[0]) + (
        escaped(rest.drop_last()) + escape(s.last())));
    }
}

/// The inside of a string literal is read in one way up to the quote
/// that ends it.
proof fn lemma_escaped_read(s: Seq<char>, x: Seq<char>, t: Seq<char>, y: Seq<char>)
    requires
        escaped(s) + seq!['"'] + x == escaped(t) + seq!['"'] + y,
    ensures
        s == t,
        x == y,
    decreases s.len(),
{
    let left = escaped(s) + seq!['"'] + x;
    let right = escaped(t) + seq!['"'] + y;
    if s.len() == 0 {
        assert(left[0] == '"');
        if t.len() > 0 {
            lemma_escaped_front(t);
            lemma_escape_shape(t[0]);
            assert(right[0] == escape(t[0])[0]);
        }
        assert(escaped(s) + seq!['"'] == escaped(t) + seq!['"']);
        lemma_split(escaped(s) + seq!['"'], x, escaped(t) + seq!['"'], y);
        assert(s == t);
    } else {
        lemma_escaped_front(s);
        lemma_escape_shape(s[0]);
        assert(left[0] == escape(s[0])[0]);
        if t.len() == 0 {
            assert(right[0] == '"');
        }
        lemma_escaped_front(t);
        let s1 = s.drop_first();
        let t1 = t.drop_first();
        let rest_s = escaped(s1) + seq!['"'] + x;
        let rest_t = escaped(t1) + seq!['"'] + y;
        assert(left == escape(s[0]) + rest_s);
        assert(right == escape(t[0]) + rest_t);
        lemma_escape_read(s[0], rest_s, t[0], rest_t);
        lemma_escaped_read(s1, x, t1, y);
        assert(s == seq![s[0]] + s1);
        assert(t == seq![t[0]] + t1);
    }
}

/// A string literal is read in one way, whatever follows it.
pub proof fn lemma_quoted_read(s: Seq<char>, x: Seq<char>, t: Seq<char>, y: Seq<char>)
    requires
        quoted(s) + x == quoted(t) + y,
    ensures
        s == t,
        x == y,
{
    let left = escaped(s) + seq!['"'] + x;
    let right = escaped(t) + seq!['"'] + y;
    assert(quoted(s) + x == seq!['"'] + left);
    assert(quoted(t) + y == seq!['"'] + right);
    lemma_split(seq!['"'], left, seq!['"'], right);
    lemma_escaped_read(s, x, t, y);
}

/// The character ends a value inside an array or an object: a comma or
/// a closing bracket.
pub open spec fn closes(c: char) -> bool {
    c == ',' || c == ']' || c == '}'
}

/// The text may follow a value: it is empty or starts with a character
/// that ends a value.
pub open spec fn follows(rest: Seq<char>) -> bool {
    rest.len() == 0 || closes(rest[0])
}

proof fn lemma_joined_front(parts: Seq<Seq<char>>)
    requires
        parts.len() >= 1,
    ensures
        comma_joined(parts) == if parts.len() == 1 {
            parts[0]
        } else {
            parts[0] + seq![','] + comma_joined(parts.drop_first())
        },
    decreases parts.len(),
{
    if parts.len() == 2 {
        let front = parts.drop_last();
        let rest = parts.drop_first();
        assert(front.len() == 1 && front[0] == parts[0]);
        assert(rest.len() == 1 && rest[0] == parts[1]);
        assert(comma_joined(front) == parts[0]);
        assert(comma_joined(rest) == parts[1]);
        assert(comma_joined(parts) == comma_joined(front) + seq![','] + parts.last());
    } else if parts.len() > 2 {
        let front = parts.drop_last();
        let rest = parts.drop_first();
        lemma_joined_front(front);
        assert(front.drop_first() == rest.drop_last());
        assert(front[0] == parts[0]);
        assert(rest.last() == parts.last());
        assert(comma_joined(parts) == comma_joined(front) + seq![','] + parts.last());
        assert(comma_joined(rest) == comma_joined(rest.drop_last()) + seq![','] + rest.last());
        assert(comma_joined(parts) == parts[0] + seq![','] + comma_joined(rest.drop_last())
            + seq![','] + parts.last());
        assert(parts[0] + seq![','] + comma_joined(rest.drop_last()) + seq![','] + parts.last()
            == parts[0] + seq![','] + (comma_joined(rest.drop_last()) + seq![',']
            + parts.last()));
    }
}

/// How the text of a document starts tells of which kind it is.
proof fn lemma_text_start(t: Tree)
    requires
        t.rejected() is None,
    ensures
        t.text().len() >= 1,
        !closes(t.text()[0]),
        match t {
            Tree::Null => t.text()[0] == 'n',
            Tree::Bool(_) => t.text()[0] == 't' || t.text()[0] == 'f',
            Tree::Integer(_) => t.text()[0] == '-' || is_digit(t.text()[0]),
            Tree::Real(_) => false,
            Tree::String(_) => t.text()[0] == '"',
            Tree::Array(_) => t.text()[0] == '[',
            Tree::Object(_) => t.text()[0] == '{',
        },
{
    reveal_strlit("null");
    reveal_strlit("true");
    reveal_strlit("false");
    match t {
        Tree::Integer(n) => {
            lemma_decimal_shape(n);
        },
        _ => {},
    }
}

/// A list up to its end: the parts with commas between them, the
/// bracket that closes the list, and what follows.
spec fn list_text(parts: Seq<Seq<char>>, close: char, rest: Seq<char>) -> Seq<char> {
    comma_joined(parts) + seq![close] + rest
}

/// What follows the first part of a list: a comma and the list of the
/// other parts, or the bracket that closes the list and what follows.
spec fn list_after(parts: Seq<Seq<char>>, close: char, rest: Seq<char>) -> Seq<char> {
    if parts.len() <= 1 {
        seq![close] + rest
    } else {
        seq![','] + list_text(parts.drop_first(), close, rest)
    }
}

proof fn lemma_list_unfold(parts: Seq<Seq<char>>, close: char, rest: Seq<char>)
    ensures
        parts.len() == 0 ==> list_text(parts, close, rest) == seq![close] + rest,
        parts.len() >= 1 ==> list_text(parts, close, rest) == parts[0] + list_after(
            parts,
            close,
            rest,
        ),
        list_after(parts, close, rest).len() >= 1,
        list_after(parts, close, rest)[0] == if parts.len() <= 1 {
            close
        } else {
            ','
        },
{
    if parts.len() >= 1 {
        lemma_joined_front(parts);
        if parts.len() > 1 {
            let more = comma_joined(parts.drop_first());
            assert(parts[0] + seq![','] + more + seq![close] + rest == parts[0] + (seq![','] + (
            more + seq![close] + rest)));
        } else {
            assert(parts[0] + seq![close] + rest == parts[0] + (seq![close] + rest));
        }
    } else {
        assert(comma_joined(parts) + seq![close] + rest == seq![close] + rest);
    }
}

/// Two lists that go on alike after their first parts end alike.
proof fn lemma_list_tail(
    pa: Seq<Seq<char>>,
    x: Seq<char>,
    pb: Seq<Seq<char>>,
    y: Seq<char>,
    close: char,
)
    requires
        pa.len() >= 1,
        pb.len() >= 1,
        close != ',',
        list_after(pa, close, x) == list_after(pb, close, y),
    ensures
        pa.len() == 1 <==> pb.len() == 1,
        pa.len() == 1 ==> x == y,
        pa.len() > 1 ==> list_text(pa.drop_first(), close, x) == list_text(
            pb.drop_first(),
            close,
            y,
        ),
{
    lemma_list_unfold(pa, close, x);
    lemma_list_unfold(pb, close, y);
    if pa.len() == 1 {
        lemma_split(seq![close], x, seq![close], y);
    } else {
        lemma_split(
            seq![','],
            list_text(pa.drop_first(), close, x),
            seq![','],
            list_text(pb.drop_first(), close, y),
        );
    }
}

/// An entry is read in one way as far as its colon.
proof fn lemma_entry_read(
    ka: Seq<char>,
    va: Seq<char>,
    x: Seq<char>,
    kb: Seq<char>,
    vb: Seq<char>,
    y: Seq<char>,
)
    requires
        (quoted(ka) + seq![':'] + va) + x == (quoted(kb) + seq![':'] + vb) + y,
    ensures
        ka == kb,
        va + x == vb + y,
{
    let after_a = seq![':'] + (va + x);
    let after_b = seq![':'] + (vb + y);
    assert((quoted(ka) + seq![':'] + va) + x == quoted(ka) + after_a);
    assert((quoted(kb) + seq![':'] + vb) + y == quoted(kb) + after_b);
    lemma_quoted_read(ka, after_a, kb, after_b);
    lemma_split(seq![':'], va + x, seq![':'], vb + y);
}

/// The children of a document that holds integers only hold integers
/// only.
proof fn lemma_children_accepted(t: Tree)
    requires
        t.rejected() is None,
    ensures
        t matches Tree::Array(items) ==> forall|i: int|
            0 <= i < items.len() ==> (#[trigger] items[i]).rejected() is None,
        t matches Tree::Object(entries) ==> forall|i: int|
            0 <= i < entries.len() ==> (#[trigger] entries[i]).1.rejected() is None,
{
    match t {
        Tree::Array(items) => {
            lemma_first_some_none(Tree::items_rejected(items));
            assert forall|i: int| 0 <= i < items.len() implies (#[trigger] items[i]).rejected()
                is None by {
                assert(Tree::items_rejected(items)[i] is None);
            }
        },
        Tree::Object(entries) => {
            lemma_first_some_none(Tree::entries_rejected(entries));
            assert forall|i: int| 0 <= i < entries.len() implies (#[trigger] entries[i]).1
                .rejected() is None by {
                assert(Tree::entries_rejected(entries)[i] is None);
            }
        },
        _ => {},
    }
}

/// A document of integers only is read in one way, where a comma, a
/// closing bracket or nothing follows it.
pub proof fn lemma_read_in_one_way(a: Tree, x: Seq<char>, b: Tree, y: Seq<char>)
    requires
        a.rejected() is None,
        b.rejected() is None,
        follows(x),
        follows(y),
        a.text() + x == b.text() + y,
    ensures
        a == b,
        x == y,
    decreases a, 1int, 0int,
{
    lemma_text_start(a);
    lemma_text_start(b);
    assert((a.text() + x)[0] == a.text()[0]);
    assert((b.text() + y)[0] == b.text()[0]);
    match a {
        Tree::Null => {
            reveal_strlit("null");
            lemma_split(a.text(), x, b.text(), y);
        },
        Tree::Bool(_) => {
            reveal_strlit("true");
            reveal_strlit("false");
            lemma_split(a.text(), x, b.text(), y);
        },
        Tree::Integer(n) => {
            lemma_decimal_read(n, x, b->Integer_0, y);
        },
        Tree::Real(_) => {},
        Tree::String(s) => {
            lemma_quoted_read(s, x, b->String_0, y);
        },
        Tree::Array(items) => {
            let others = b->Array_0;
            let inner_a = list_text(Tree::item_texts(items), ']', x);
            let inner_b = list_text(Tree::item_texts(others), ']', y);
            assert(a.text() + x == seq!['['] + inner_a);
            assert(b.text() + y == seq!['['] + inner_b);
            lemma_split(seq!['['], inner_a, seq!['['], inner_b);
            assert(items.skip(0) == items);
            lemma_children_accepted(a);
            lemma_children_accepted(b);
            lemma_items_read(a, 0, others, x, y);
        },
        Tree::Object(entries) => {
            let others = b->Object_0;
            let inner_a = list_text(Tree::entry_texts(entries), '}', x);
            let inner_b = list_text(Tree::entry_texts(others), '}', y);
            assert(a.text() + x == seq!['{'] + inner_a);
            assert(b.text() + y == seq!['{'] + inner_b);
            lemma_split(seq!['{'], inner_a, seq!['{'], inner_b);
            assert(entries.skip(0) == entries);
            lemma_children_accepted(a);
            lemma_children_accepted(b);
            lemma_entries_read(a, 0, others, x, y);
        },
    }
}

/// The items of an array from the one at `from` on are read in one way
/// up to the bracket that closes the array.
proof fn lemma_items_read(a: Tree, from: int, others: Seq<Tree>, x: Seq<char>, y: Seq<char>)
    requires
        a is Array,
        0 <= from <= a->Array_0.len(),
        forall|i: int| 0 <= i < a->Array_0.len() ==> (#[trigger] a->Array_0[i]).rejected() is None,
        forall|i: int| 0 <= i < others.len() ==> (#[trigger] others[i]).rejected() is None,
        list_text(Tree::item_texts(a->Array_0.skip(from)), ']', x) == list_text(
            Tree::item_texts(others),
            ']',
            y,
        ),
    ensures
        a->Array_0.skip(from) == others,
        x == y,
    decreases a, 0int, a->Array_0.len() - from,
{
    let items = a->Array_0;
    let mine = items.skip(from);
    let ta = Tree::item_texts(mine);
    let tb = Tree::item_texts(others);
    let left = list_text(ta, ']', x);
    let right = list_text(tb, ']', y);
    lemma_list_unfold(ta, ']', x);
    lemma_list_unfold(tb, ']', y);
    if mine.len() > 0 {
        assert(mine[0] == items[from]);
        lemma_text_start(mine[0]);
        assert(left[0] == mine[0].text()[0]);
    } else {
        assert(left[0] == ']');
    }
    if others.len() > 0 {
        lemma_text_start(others[0]);
        assert(right[0] == others[0].text()[0]);
    } else {
        assert(right[0] == ']');
    }
    if mine.len() == 0 {
        lemma_split(seq![']'], x, seq![']'], y);
        assert(mine == others);
    } else {
        let rest_a = list_after(ta, ']', x);
        let rest_b = list_after(tb, ']', y);
        lemma_read_in_one_way(mine[0], rest_a, others[0], rest_b);
        lemma_list_tail(ta, x, tb, y, ']');
        if mine.len() > 1 {
            assert(ta.drop_first() == Tree::item_texts(items.skip(from + 1)));
            assert(tb.drop_first() == Tree::item_texts(others.drop_first()));
            lemma_items_read(a, from + 1, others.drop_first(), x, y);
            assert(mine.drop_first() == items.skip(from + 1));
        }
        assert(mine == seq![mine[0]] + mine.drop_first());
        assert(others == seq![others[0]] + others.drop_first());
    }
}

/// The entries of an object from the one at `from` on are read in one
/// way up to the bracket that closes the object.
proof fn lemma_entries_read(
    a: Tree,
    from: int,
    others: Seq<(Seq<char>, Tree)>,
    x: Seq<char>,
    y: Seq<char>,
)
    requires
        a is Object,
        0 <= from <= a->Object_0.len(),
        forall|i: int|
            0 <= i < a->Object_0.len() ==> (#[trigger] a->Object_0[i]).1.rejected() is None,
        forall|i: int| 0 <= i < others.len() ==> (#[trigger] others[i]).1.rejected() is None,
        list_text(Tree::entry_texts(a->Object_0.skip(from)), '}', x) == list_text(
            Tree::entry_texts(others),
            '}',
            y,
        ),
    ensures
        a->Object_0.skip(from) == others,
        x == y,
    decreases a, 0int, a->Object_0.len() - from,
{
    let entries = a->Object_0;
    let mine = entries.skip(from);
    let ta = Tree::entry_texts(mine);
    let tb = Tree::entry_texts(others);
    let left = list_text(ta, '}', x);
    let right = list_text(tb, '}', y);
    lemma_list_unfold(ta, '}', x);
    lemma_list_unfold(tb, '}', y);
    if mine.len() > 0 {
        assert(mine[0] == entries[from]);
        assert(left[0] == '"');
    } else {
        assert(left[0] == '}');
    }
    if others.len() > 0 {
        assert(right[0] == '"');
    } else {
        assert(right[0] == '}');
    }
    if mine.len() == 0 {
        lemma_split(seq!['}'], x, seq!['}'], y);
        assert(mine == others);
    } else {
        let rest_a = list_after(ta, '}', x);
        let rest_b = list_after(tb, '}', y);
        lemma_entry_read(
            mine[0].0,
            mine[0].1.text(),
            rest_a,
            others[0].0,
            others[0].1.text(),
            rest_b,
        );
        lemma_read_in_one_way(mine[0].1, rest_a, others[0].1, rest_b);
        lemma_list_tail(ta, x, tb, y, '}');
        if mine.len() > 1 {
            assert(ta.drop_first() == Tree::entry_texts(entries.skip(from + 1)));
            assert(tb.drop_first() == Tree::entry_texts(others.drop_first()));
            lemma_entries_read(a, from + 1, others.drop_first(), x, y);
            assert(mine.drop_first() == entries.skip(from + 1));
        }
        assert(mine[0] == others[0]);
        assert(mine == seq![mine[0]] + mine.drop_first());
        assert(others == seq![others[0]] + others.drop_first());
    }
}

} // verus!
