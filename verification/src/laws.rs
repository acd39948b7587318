//! What holds of the canonical form, whatever the document.

use vstd::prelude::*;
use vstd::utf8::*;
use crate::entries::{
    distinct_keys, lemma_same_pairs_same_values, lemma_sorted_ascending, lemma_sorted_fixed,
    lemma_sorted_is_unique, lemma_sorted_value_of, sorted, value_of, Entries,
};
use crate::grammar::{
    comma_joined, decimal, decimal_digits, digit, escape, escaped, hex_digit,
    lemma_utf8_injective, quoted,
};
use crate::reading::lemma_read_in_one_way;
use crate::tree::{first_some, lemma_first_some_none, Tree};

verus! {

/// The order in which the entries of an object are given does not
/// matter: two objects that hold the same pairs, each key once, have
/// the same normal form and so the same bytes, and if one of them is
/// refused for a number then so is the other.
pub proof fn law_order_independence(a: Entries, b: Entries)
    requires
        distinct_keys(a),
        distinct_keys(b),
        forall|e: (Seq<char>, Tree)| a.contains(e) <==> b.contains(e),
    ensures
        Tree::Object(a).normal_form() == Tree::Object(b).normal_form(),
        Tree::Object(a).normal_form().bytes() == Tree::Object(b).normal_form().bytes(),
        Tree::Object(a).rejected() is None <==> Tree::Object(b).rejected() is None,
{
    let na = Tree::entries_normal(a);
    let nb = Tree::entries_normal(b);
    assert(distinct_keys(na)) by {
        assert forall|i: int, j: int| 0 <= i < j < na.len() implies (#[trigger] na[i]).0
            != (#[trigger] na[j]).0 by {
            assert(na[i].0 == a[i].0 && na[j].0 == a[j].0);
        }
    }
    assert(distinct_keys(nb)) by {
        assert forall|i: int, j: int| 0 <= i < j < nb.len() implies (#[trigger] nb[i]).0
            != (#[trigger] nb[j]).0 by {
            assert(nb[i].0 == b[i].0 && nb[j].0 == b[j].0);
        }
    }
    assert forall|e: (Seq<char>, Tree)| na.contains(e) <==> nb.contains(e) by {
        if na.contains(e) {
            let i = choose|i: int| 0 <= i < na.len() && na[i] == e;
            assert(a.contains(a[i]));
            let j = choose|j: int| 0 <= j < b.len() && b[j] == a[i];
            assert(nb[j] == e);
        }
        if nb.contains(e) {
            let i = choose|i: int| 0 <= i < nb.len() && nb[i] == e;
            assert(b.contains(b[i]));
            let j = choose|j: int| 0 <= j < a.len() && a[j] == b[i];
            assert(na[j] == e);
        }
    }
    assert forall|key: Seq<char>| value_of(sorted(na), key) == value_of(nb, key) by {
        lemma_same_pairs_same_values(na, nb, key);
        lemma_sorted_value_of(na, key);
    }
    lemma_sorted_ascending(na);
    lemma_sorted_is_unique(nb, sorted(na));

    let ra = Tree::entries_rejected(a);
    let rb = Tree::entries_rejected(b);
    lemma_first_some_none(ra);
    lemma_first_some_none(rb);
    if forall|i: int| 0 <= i < ra.len() ==> #[trigger] ra[i] is None {
        assert forall|j: int| 0 <= j < rb.len() implies #[trigger] rb[j] is None by {
            assert(b.contains(b[j]));
            let i = choose|i: int| 0 <= i < a.len() && a[i] == b[j];
            assert(ra[i] is None);
        }
    }
    if forall|j: int| 0 <= j < rb.len() ==> #[trigger] rb[j] is None {
        assert forall|i: int| 0 <= i < ra.len() implies #[trigger] ra[i] is None by {
            assert(a.contains(a[i]));
            let j = choose|j: int| 0 <= j < b.len() && b[j] == a[i];
            assert(rb[j] is None);
        }
    }
}

/// Documents that say the same have the same normal form, and so the
/// same bytes; if one of them is refused for a number, so is the other.
pub proof fn law_same_documents_same_bytes(a: Tree, b: Tree)
    requires
        a.same_as(b),
    ensures
        a.normal_form() == b.normal_form(),
        a.normal_form().bytes() == b.normal_form().bytes(),
        a.rejected() is None <==> b.rejected() is None,
    decreases a,
{
    match a {
        Tree::Array(items) => {
            let others = b->Array_0;
            let na = Tree::items_normal(items);
            let nb = Tree::items_normal(others);
            let ra = Tree::items_rejected(items);
            let rb = Tree::items_rejected(others);
            assert forall|i: int| 0 <= i < items.len() implies #[trigger] na[i] == nb[i] && (
            ra[i] is None <==> rb[i] is None) by {
                assert(items[i].same_as(others[i]));
                law_same_documents_same_bytes(items[i], others[i]);
            }
            assert(na == nb);
            lemma_first_some_none(ra);
            lemma_first_some_none(rb);
            if first_some(ra) is None {
                assert forall|i: int| 0 <= i < rb.len() implies #[trigger] rb[i] is None by {
                    assert(na[i] == nb[i]);
                    assert(ra[i] is None);
                }
            }
            if first_some(rb) is None {
                assert forall|i: int| 0 <= i < ra.len() implies #[trigger] ra[i] is None by {
                    assert(na[i] == nb[i]);
                    assert(rb[i] is None);
                }
            }
        },
        Tree::Object(entries) => {
            let others = b->Object_0;
            let na = Tree::entries_normal(entries);
            let nb = Tree::entries_normal(others);
            let ra = Tree::entries_rejected(entries);
            let rb = Tree::entries_rejected(others);
            assert(distinct_keys(na)) by {
                assert forall|i: int, j: int| 0 <= i < j < na.len() implies (#[trigger] na[i]).0
                    != (#[trigger] na[j]).0 by {
                    assert(na[i].0 == entries[i].0 && na[j].0 == entries[j].0);
                }
            }
            assert(distinct_keys(nb)) by {
                assert forall|i: int, j: int| 0 <= i < j < nb.len() implies (#[trigger] nb[i]).0
                    != (#[trigger] nb[j]).0 by {
                    assert(nb[i].0 == others[i].0 && nb[j].0 == others[j].0);
                }
            }
            assert forall|e: (Seq<char>, Tree)| na.contains(e) <==> nb.contains(e) by {
                if na.contains(e) {
                    let i = choose|i: int| 0 <= i < na.len() && na[i] == e;
                    assert(Tree::found_among(entries[i], others));
                    let j = choose|j: int|
                        0 <= j < others.len() && (#[trigger] others[j]).0 == entries[i].0
                            && entries[i].1.same_as(others[j].1);
                    law_same_documents_same_bytes(entries[i].1, others[j].1);
                    assert(nb[j] == e);
                }
                if nb.contains(e) {
                    let j = choose|j: int| 0 <= j < nb.len() && nb[j] == e;
                    assert(Tree::finds_among(entries, others[j]));
                    let i = choose|i: int|
                        0 <= i < entries.len() && (#[trigger] entries[i]).0 == others[j].0
                            && entries[i].1.same_as(others[j].1);
                    law_same_documents_same_bytes(entries[i].1, others[j].1);
                    assert(na[i] == e);
                }
            }
            assert forall|key: Seq<char>| value_of(sorted(na), key) == value_of(nb, key) by {
                lemma_same_pairs_same_values(na, nb, key);
                lemma_sorted_value_of(na, key);
            }
            lemma_sorted_ascending(na);
            lemma_sorted_is_unique(nb, sorted(na));
            lemma_first_some_none(ra);
            lemma_first_some_none(rb);
            if first_some(ra) is None {
                assert forall|j: int| 0 <= j < rb.len() implies #[trigger] rb[j] is None by {
                    assert(Tree::finds_among(entries, others[j]));
                    let i = choose|i: int|
                        0 <= i < entries.len() && (#[trigger] entries[i]).0 == others[j].0
                            && entries[i].1.same_as(others[j].1);
                    law_same_documents_same_bytes(entries[i].1, others[j].1);
                    assert(ra[i] is None);
                }
            }
            if first_some(rb) is None {
                assert forall|i: int| 0 <= i < ra.len() implies #[trigger] ra[i] is None by {
                    assert(Tree::found_among(entries[i], others));
                    let j = choose|j: int|
                        0 <= j < others.len() && (#[trigger] others[j]).0 == entries[i].0
                            && entries[i].1.same_as(others[j].1);
                    law_same_documents_same_bytes(entries[i].1, others[j].1);
                    assert(rb[j] is None);
                }
            }
        },
        _ => {},
    }
}

/// The normal form of a document whose numbers are all integers is in
/// the canonical domain.
pub proof fn law_normal_form_is_canonical(t: Tree)
    requires
        t.rejected() is None,
    ensures
        t.normal_form().is_canonical(),
    decreases t,
{
    match t {
        Tree::Array(items) => {
            let verdicts = Tree::items_rejected(items);
            lemma_first_some_none(verdicts);
            let normal = Tree::items_normal(items);
            assert forall|i: int| 0 <= i < normal.len() implies (#[trigger] normal[i])
                .is_canonical() by {
                assert(verdicts[i] is None);
                law_normal_form_is_canonical(items[i]);
            }
        },
        Tree::Object(entries) => {
            let verdicts = Tree::entries_rejected(entries);
            lemma_first_some_none(verdicts);
            let normal = Tree::entries_normal(entries);
            let kept = sorted(normal);
            lemma_sorted_ascending(normal);
            assert forall|i: int| 0 <= i < kept.len() implies (#[trigger] kept[i]).1
                .is_canonical() by {
                let j = choose|j: int| 0 <= j < normal.len() && normal[j] == kept[i];
                assert(verdicts[j] is None);
                law_normal_form_is_canonical(entries[j].1);
            }
        },
        _ => {},
    }
}

/// A document of the canonical domain is its own normal form, and none
/// of its numbers is refused.
pub proof fn law_canonical_is_fixed(t: Tree)
    requires
        t.is_canonical(),
    ensures
        t.normal_form() == t,
        t.rejected() is None,
    decreases t,
{
    match t {
        Tree::Array(items) => {
            let verdicts = Tree::items_rejected(items);
            let normal = Tree::items_normal(items);
            assert forall|i: int| 0 <= i < items.len() implies #[trigger] verdicts[i] is None by {
                assert(items[i].is_canonical());
                law_canonical_is_fixed(items[i]);
            }
            assert forall|i: int| 0 <= i < items.len() implies #[trigger] normal[i] == items[i] by {
                assert(items[i].is_canonical());
                law_canonical_is_fixed(items[i]);
            }
            lemma_first_some_none(verdicts);
            assert(normal == items);
        },
        Tree::Object(entries) => {
            let verdicts = Tree::entries_rejected(entries);
            let normal = Tree::entries_normal(entries);
            assert forall|i: int| 0 <= i < entries.len() implies #[trigger] verdicts[i] is None by {
                assert(entries[i].1.is_canonical());
                law_canonical_is_fixed(entries[i].1);
            }
            assert forall|i: int| 0 <= i < entries.len() implies #[trigger] normal[i]
                == entries[i] by {
                assert(entries[i].1.is_canonical());
                law_canonical_is_fixed(entries[i].1);
            }
            lemma_first_some_none(verdicts);
            assert(normal == entries);
            lemma_sorted_fixed(entries);
        },
        _ => {},
    }
}

/// Canonicalising twice is canonicalising once: the normal form of a
/// document that is accepted is accepted too, is its own normal form,
/// and so has the same bytes.
pub proof fn law_idempotence(t: Tree)
    requires
        t.rejected() is None,
    ensures
        t.normal_form().rejected() is None,
        t.normal_form().normal_form() == t.normal_form(),
        t.normal_form().normal_form().bytes() == t.normal_form().bytes(),
{
    law_normal_form_is_canonical(t);
    law_canonical_is_fixed(t.normal_form());
}

/// The bytes tell the document: two documents that hold integers only
/// and are written as the same bytes are the same document.
pub proof fn law_bytes_tell_the_document(a: Tree, b: Tree)
    requires
        a.rejected() is None,
        b.rejected() is None,
        a.bytes() == b.bytes(),
    ensures
        a == b,
{
    lemma_utf8_injective(a.text(), b.text());
    let nothing = Seq::<char>::empty();
    assert(a.text() + nothing == a.text());
    assert(b.text() + nothing == b.text());
    lemma_read_in_one_way(a, nothing, b, nothing);
}

/// Reading canonical bytes back and canonicalising what was read gives
/// the same bytes again. Whatever reads them: if the document `read`
/// that it hands back holds integers only and is written as the bytes
/// that it was read from, then it is the normal form that was written,
/// and canonicalising it changes nothing.
pub proof fn law_read_back(t: Tree, read: Tree)
    requires
        t.rejected() is None,
        read.rejected() is None,
        read.bytes() == t.normal_form().bytes(),
    ensures
        read == t.normal_form(),
        read.normal_form().bytes() == t.normal_form().bytes(),
{
    law_idempotence(t);
    law_bytes_tell_the_document(read, t.normal_form());
}

/// The text holds no control character: none below U+0020.
pub open spec fn printable(text: Seq<char>) -> bool {
    forall|i: int| 0 <= i < text.len() ==> (#[trigger] text[i]) as u32 >= 0x20
}

/// The bytes hold no control character: none below 0x20.
pub open spec fn printable_bytes(bytes: Seq<u8>) -> bool {
    forall|i: int| 0 <= i < bytes.len() ==> #[trigger] bytes[i] >= 0x20
}

proof fn lemma_printable_concat(a: Seq<char>, b: Seq<char>)
    requires
        printable(a),
        printable(b),
    ensures
        printable(a + b),
{
    assert forall|i: int| 0 <= i < (a + b).len() implies (#[trigger] (a + b)[i]) as u32 >= 0x20 by {
        if i < a.len() {
            assert((a + b)[i] == a[i]);
        } else {
            assert((a + b)[i] == b[i - a.len()]);
        }
    }
}

proof fn lemma_escape_printable(c: char)
    ensures
        printable(escape(c)),
{
    let e = escape(c);
    if (c as u32) < 0x20 {
        let high = hex_digit((c as int) / 16);
        let low = hex_digit((c as int) % 16);
        assert(high as u32 >= 0x20);
        assert(low as u32 >= 0x20);
    }
    assert forall|i: int| 0 <= i < e.len() implies (#[trigger] e[i]) as u32 >= 0x20 by {}
}

proof fn lemma_escaped_printable(s: Seq<char>)
    ensures
        printable(escaped(s)),
    decreases s.len(),
{
    if s.len() > 0 {
        lemma_escaped_printable(s.drop_last());
        lemma_escape_printable(s.last());
        lemma_printable_concat(escaped(s.drop_last()), escape(s.last()));
    }
}

proof fn lemma_quoted_printable(s: Seq<char>)
    ensures
        printable(quoted(s)),
{
    lemma_escaped_printable(s);
    lemma_printable_concat(seq!['"'], escaped(s));
    lemma_printable_concat(seq!['"'] + escaped(s), seq!['"']);
}

proof fn lemma_decimal_printable(n: int)
    ensures
        printable(decimal(n)),
{
    if n < 0 {
        lemma_digits_printable((-n) as nat);
        lemma_printable_concat(seq!['-'], decimal_digits((-n) as nat));
    } else {
        lemma_digits_printable(n as nat);
    }
}

proof fn lemma_digits_printable(n: nat)
    ensures
        printable(decimal_digits(n)),
    decreases n,
{
    if n >= 10 {
        lemma_digits_printable(n / 10);
        lemma_printable_concat(decimal_digits(n / 10), seq![digit((n % 10) as int)]);
        assert(decimal_digits(n / 10).push(digit((n % 10) as int))
            == decimal_digits(n / 10) + seq![digit((n % 10) as int)]);
    }
}

proof fn lemma_joined_printable(parts: Seq<Seq<char>>)
    requires
        forall|i: int| 0 <= i < parts.len() ==> printable(#[trigger] parts[i]),
    ensures
        printable(comma_joined(parts)),
    decreases parts.len(),
{
    if parts.len() > 1 {
        let front = parts.drop_last();
        assert forall|i: int| 0 <= i < front.len() implies printable(#[trigger] front[i]) by {
            assert(front[i] == parts[i]);
        }
        lemma_joined_printable(front);
        lemma_printable_concat(comma_joined(front), seq![',']);
        lemma_printable_concat(comma_joined(front) + seq![','], parts.last());
    } else if parts.len() == 1 {
        assert(printable(parts[0]));
    }
}

proof fn lemma_text_printable(t: Tree)
    requires
        t.is_canonical(),
    ensures
        printable(t.text()),
    decreases t,
{
    match t {
        Tree::Null => {
            reveal_strlit("null");
        },
        Tree::Bool(b) => {
            reveal_strlit("true");
            reveal_strlit("false");
        },
        Tree::Integer(n) => {
            lemma_decimal_printable(n);
        },
        Tree::Real(_) => {},
        Tree::String(s) => {
            lemma_quoted_printable(s);
        },
        Tree::Array(items) => {
            let parts = Tree::item_texts(items);
            assert forall|i: int| 0 <= i < parts.len() implies printable(#[trigger] parts[i]) by {
                assert(items[i].is_canonical());
                lemma_text_printable(items[i]);
            }
            lemma_joined_printable(parts);
            lemma_printable_concat(seq!['['], comma_joined(parts));
            lemma_printable_concat(seq!['['] + comma_joined(parts), seq![']']);
        },
        Tree::Object(entries) => {
            let parts = Tree::entry_texts(entries);
            assert forall|i: int| 0 <= i < parts.len() implies printable(#[trigger] parts[i]) by {
                assert(entries[i].1.is_canonical());
                lemma_text_printable(entries[i].1);
                lemma_quoted_printable(entries[i].0);
                lemma_printable_concat(quoted(entries[i].0), seq![':']);
                lemma_printable_concat(quoted(entries[i].0) + seq![':'], entries[i].1.text());
            }
            lemma_joined_printable(parts);
            lemma_printable_concat(seq!['{'], comma_joined(parts));
            lemma_printable_concat(seq!['{'] + comma_joined(parts), seq!['}']);
        },
    }
}

proof fn lemma_scalar_bytes(c: u32)
    by (bit_vector)
    requires
        c >= 0x20,
    ensures
        ((c & 0x7F) as u8) >= 0x20 || c > 0x7F,
        (0xC0u8 | ((c >> 6) & 0x1F) as u8) >= 0x20,
        (0xE0u8 | ((c >> 12) & 0x0F) as u8) >= 0x20,
        (0xF0u8 | ((c >> 18) & 0x7) as u8) >= 0x20,
        (0x80u8 | (c & 0x3F) as u8) >= 0x20,
        (0x80u8 | ((c >> 6) & 0x3F) as u8) >= 0x20,
        (0x80u8 | ((c >> 12) & 0x3F) as u8) >= 0x20,
{
}

proof fn lemma_printable_encoded(text: Seq<char>)
    requires
        printable(text),
    ensures
        printable_bytes(encode_utf8(text)),
    decreases text.len(),
{
    if text.len() > 0 {
        let rest = text.drop_first();
        assert forall|i: int| 0 <= i < rest.len() implies (#[trigger] rest[i]) as u32 >= 0x20 by {
            assert(rest[i] == text[i + 1]);
        }
        lemma_printable_encoded(rest);
        let c = text[0] as u32;
        lemma_scalar_bytes(c);
        let head = encode_scalar(c);
        let tail = encode_utf8(rest);
        assert(printable_bytes(head));
        assert forall|i: int| 0 <= i < (head + tail).len() implies #[trigger] (head + tail)[i]
            >= 0x20 by {
            if i < head.len() {
                assert((head + tail)[i] == head[i]);
            } else {
                assert((head + tail)[i] == tail[i - head.len()]);
            }
        }
    }
}

/// Every character of a string stands in the literal as its escape: the
/// literal holds `escape(s[i])` at the place `at` that is returned.
pub proof fn law_literal_holds_escapes(s: Seq<char>, i: int) -> (at: int)
    requires
        0 <= i < s.len(),
    ensures
        1 <= at,
        at + escape(s[i]).len() < quoted(s).len(),
        quoted(s).subrange(at, at + escape(s[i]).len()) == escape(s[i]),
{
    let inner = lemma_escaped_holds(s, i);
    let at = inner + 1;
    let n = escape(s[i]).len() as int;
    assert(quoted(s).subrange(at, at + n) == escaped(s).subrange(inner, inner + n));
    at
}

proof fn lemma_escaped_holds(s: Seq<char>, i: int) -> (at: int)
    requires
        0 <= i < s.len(),
    ensures
        0 <= at,
        at + escape(s[i]).len() <= escaped(s).len(),
        escaped(s).subrange(at, at + escape(s[i]).len()) == escape(s[i]),
    decreases s.len(),
{
    let front = s.drop_last();
    let n = escape(s[i]).len() as int;
    if i == s.len() - 1 {
        let at = escaped(front).len() as int;
        assert(escaped(s).subrange(at, at + n) == escape(s[i]));
        at
    } else {
        assert(front[i] == s[i]);
        let at = lemma_escaped_holds(front, i);
        assert(escaped(s).subrange(at, at + n) == escaped(front).subrange(at, at + n));
        at
    }
}

/// A string literal holds no control character, whatever the string. A
/// line feed in the string is the two characters `\n` in the literal,
/// and no byte of the literal is a raw line feed.
pub proof fn law_line_feed_is_escaped(s: Seq<char>, i: int)
    requires
        0 <= i < s.len(),
        s[i] == '\n',
    ensures
        exists|at: int|
            0 <= at && at + 1 < quoted(s).len() && #[trigger] quoted(s)[at] == '\\'
                && quoted(s)[at + 1] == 'n',
        printable(quoted(s)),
        printable_bytes(Tree::String(s).bytes()),
{
    let at = law_literal_holds_escapes(s, i);
    let piece = quoted(s).subrange(at, at + 2);
    assert(piece[0] == '\\' && piece[1] == 'n');
    assert(quoted(s)[at] == '\\' && quoted(s)[at + 1] == 'n');
    lemma_quoted_printable(s);
    lemma_printable_encoded(quoted(s));
}

/// The canonical encoding holds no control character: no byte below
/// 0x20, and so no line feed, in the bytes of a document of the
/// canonical domain.
pub proof fn law_encoding_has_no_control_byte(t: Tree)
    requires
        t.is_canonical(),
    ensures
        printable(t.text()),
        printable_bytes(t.bytes()),
{
    lemma_text_printable(t);
    lemma_printable_encoded(t.text());
}

/// The empty array and the empty object are written as they are.
pub proof fn law_empty_containers()
    ensures
        Tree::Array(Seq::empty()).normal_form().text() == seq!['[', ']'],
        Tree::Object(Seq::empty()).normal_form().text() == seq!['{', '}'],
{
    assert(Tree::items_normal(Seq::empty()) == Seq::<Tree>::empty());
    assert(Tree::entries_normal(Seq::empty()) == Seq::<(Seq<char>, Tree)>::empty());
    assert(Tree::item_texts(Seq::empty()) == Seq::<Seq<char>>::empty());
    assert(Tree::entry_texts(Seq::empty()) == Seq::<Seq<char>>::empty());
}

} // verus!
