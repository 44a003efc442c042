use vstd::prelude::*;

use crate::ast::{
    attrs_view, lemma_block_view, section_view, AttrV, Attribute, Block, BlockContent, BlockV,
    ContentV, Document, DocumentV, NodeV, SectionContent,
};
use crate::body::{
    attr_at, attr_entries_at, attributes_at, block_at, blocks_at, content_at, is_fence, opt_attrs_at,
    section_at,
};
use crate::chars::{is_control, is_white, lemma_scan_end, scan, CharClass};
use crate::header::{header_at, heading_at};
use crate::header::empty_revision;
use crate::header_printer::{
    header_text, lemma_header_at, printable_header, printable_revision, render_header,
};
use crate::parser::document_at;
use crate::lexer::{eol, line_end};
use crate::outside::push_char;

verus! {

/// `n` copies of `c`.
pub open spec fn repeat_char(c: char, n: nat) -> Seq<char>
    decreases n,
{
    if n == 0 {
        Seq::empty()
    } else {
        repeat_char(c, (n - 1) as nat).push(c)
    }
}

/// The text of a heading line: `level` markers, a space, the title, a newline.
pub open spec fn heading_text(level: nat, title: Seq<char>) -> Seq<char> {
    repeat_char('=', level) + seq![' '] + title + seq!['\n']
}

/// A title that a heading line gives back unchanged: no control character,
/// and no space at its start.
pub open spec fn printable_title(title: Seq<char>) -> bool {
    &&& forall|k: int| 0 <= k < title.len() ==> !is_control(#[trigger] title[k])
    &&& title.len() > 0 ==> title[0] != ' '
}

pub proof fn lemma_repeat_char(c: char, n: nat)
    ensures
        repeat_char(c, n).len() == n,
        forall|k: int| 0 <= k < n ==> #[trigger] repeat_char(c, n)[k] == c,
    decreases n,
{
    if n > 0 {
        lemma_repeat_char(c, (n - 1) as nat);
        assert forall|k: int| 0 <= k < n implies #[trigger] repeat_char(c, n)[k] == c by {
            if k < n - 1 {
                assert(repeat_char(c, n)[k] == repeat_char(c, (n - 1) as nat)[k]);
            }
        }
    }
}

/// Printing a heading and reading it back gives the same level and title,
/// and reads exactly the printed line, whatever follows it.
pub proof fn lemma_heading_round_trip(level: nat, title: Seq<char>, rest: Seq<char>)
    requires
        level >= 1,
        printable_title(title),
    ensures
        heading_at(heading_text(level, title) + rest, 0) == Some(
            (level, title, heading_text(level, title).len() as int),
        ),
{
    let s = heading_text(level, title) + rest;
    assert(s.subrange(0, heading_text(level, title).len() as int) =~= heading_text(level, title));
    lemma_heading_at(s, 0, level, title);
}

/// The text of one attribute: its key, and `=` and its value where it has one.
pub open spec fn attr_text(a: AttrV) -> Seq<char> {
    match a.value {
        Some(v) => a.key + seq!['='] + v,
        None => a.key,
    }
}

/// The entries of an attribute list, separated by `,`, and the closing `]`.
pub open spec fn attrs_body(v: Seq<AttrV>) -> Seq<char>
    decreases v.len(),
{
    if v.len() == 0 {
        seq![']']
    } else if v.len() == 1 {
        attr_text(v[0]) + seq![']']
    } else {
        attr_text(v[0]) + seq![','] + attrs_body(v.drop_first())
    }
}

/// The text of an attribute list.
pub open spec fn attrs_text(v: Seq<AttrV>) -> Seq<char> {
    seq!['['] + attrs_body(v)
}

/// An attribute that its printed text gives back unchanged: a non-empty key
/// of key characters, and a value of value characters.
pub open spec fn printable_attr(a: AttrV) -> bool {
    &&& a.key.len() > 0
    &&& forall|k: int| 0 <= k < a.key.len() ==> CharClass::AttrKey.holds(#[trigger] a.key[k])
    &&& a.value matches Some(v) ==> forall|k: int|
        0 <= k < v.len() ==> CharClass::AttrValue.holds(#[trigger] v[k])
}

pub open spec fn printable_attrs(v: Seq<AttrV>) -> bool {
    forall|k: int| 0 <= k < v.len() ==> printable_attr(#[trigger] v[k])
}

proof fn lemma_attr_round_trip(s: Seq<char>, j: int, a: AttrV)
    requires
        printable_attr(a),
        0 <= j,
        j + attr_text(a).len() < s.len(),
        s.subrange(j, j + attr_text(a).len()) == attr_text(a),
        s[j + attr_text(a).len()] == ',' || s[j + attr_text(a).len()] == ']',
    ensures
        attr_at(s, j) == Some((a, j + attr_text(a).len())),
{
    let n = attr_text(a).len() as int;
    let kl = a.key.len() as int;
    let t = attr_text(a);
    assert forall|k: int| j <= k < j + kl implies CharClass::AttrKey.holds(s[k]) by {
        assert(s[k] == s.subrange(j, j + n)[k - j]);
        assert(t[k - j] == a.key[k - j]);
    }
    match a.value {
        Some(v) => {
            assert(s[j + kl] == s.subrange(j, j + n)[kl]);
            assert(t[kl] == '=');
            lemma_scan_end(s, j, j + kl, CharClass::AttrKey);
            assert forall|k: int| j + kl + 1 <= k < j + n implies CharClass::AttrValue.holds(
                s[k],
            ) by {
                assert(s[k] == s.subrange(j, j + n)[k - j]);
                assert(t[k - j] == v[k - j - kl - 1]);
            }
            lemma_scan_end(s, j + kl + 1, j + n, CharClass::AttrValue);
            assert(s.subrange(j, j + kl) =~= a.key) by {
                assert forall|k: int| 0 <= k < kl implies s.subrange(j, j + kl)[k] == a.key[k] by {
                    assert(s[j + k] == s.subrange(j, j + n)[k]);
                }
            }
            assert(s.subrange(j + kl + 1, j + n) =~= v) by {
                assert forall|k: int| 0 <= k < v.len() implies s.subrange(j + kl + 1, j + n)[k]
                    == v[k] by {
                    assert(s[j + kl + 1 + k] == s.subrange(j, j + n)[kl + 1 + k]);
                }
            }
        },
        None => {
            lemma_scan_end(s, j, j + kl, CharClass::AttrKey);
            assert(s.subrange(j, j + kl) =~= a.key) by {
                assert forall|k: int| 0 <= k < kl implies s.subrange(j, j + kl)[k] == a.key[k] by {
                    assert(s[j + k] == s.subrange(j, j + n)[k]);
                }
            }
        },
    }
}

proof fn lemma_entries_round_trip(s: Seq<char>, j: int, v: Seq<AttrV>)
    requires
        printable_attrs(v),
        0 <= j,
        j + attrs_body(v).len() <= s.len(),
        s.subrange(j, j + attrs_body(v).len()) == attrs_body(v),
    ensures
        attr_entries_at(s, j) == Some((v, j + attrs_body(v).len())),
    decreases v.len(),
{
    let b = attrs_body(v);
    let n = b.len() as int;
    if v.len() == 0 {
        assert(s[j] == s.subrange(j, j + n)[0]);
        lemma_scan_end(s, j, j, CharClass::AttrKey);
        assert(v =~= Seq::<AttrV>::empty());
    } else {
        let a = v[0];
        assert(printable_attr(a));
        let m = attr_text(a).len() as int;
        assert(s.subrange(j, j + m) =~= attr_text(a)) by {
            assert forall|k: int| 0 <= k < m implies s.subrange(j, j + m)[k] == attr_text(a)[k] by {
                assert(s[j + k] == s.subrange(j, j + n)[k]);
            }
        }
        assert(s[j + m] == s.subrange(j, j + n)[m]);
        lemma_attr_round_trip(s, j, a);
        if v.len() == 1 {
            assert(v =~= seq![a]);
        } else {
            let tail = v.drop_first();
            assert(printable_attrs(tail)) by {
                assert forall|k: int| 0 <= k < tail.len() implies printable_attr(
                    #[trigger] tail[k],
                ) by {
                    assert(tail[k] == v[k + 1]);
                }
            }
            let tb = attrs_body(tail);
            assert(s.subrange(j + m + 1, j + m + 1 + tb.len()) =~= tb) by {
                assert forall|k: int| 0 <= k < tb.len() implies s.subrange(
                    j + m + 1,
                    j + m + 1 + tb.len(),
                )[k] == tb[k] by {
                    assert(s[j + m + 1 + k] == s.subrange(j, j + n)[m + 1 + k]);
                }
            }
            lemma_entries_round_trip(s, j + m + 1, tail);
            assert(seq![a] + tail =~= v);
        }
    }
}

/// Printing an attribute list and reading it back gives the same attributes,
/// and reads exactly the printed text, whatever follows it.
pub proof fn lemma_attribute_list_round_trip(v: Seq<AttrV>, rest: Seq<char>)
    requires
        printable_attrs(v),
    ensures
        attributes_at(attrs_text(v) + rest, 0) == Some((v, attrs_text(v).len() as int)),
{
    let s = attrs_text(v) + rest;
    let b = attrs_body(v);
    assert(s.subrange(1, 1 + b.len() as int) =~= b);
    lemma_entries_round_trip(s, 1, v);
}

fn push_attr_text(out: &mut String, a: &Attribute)
    ensures
        final(out)@ == old(out)@ + attr_text(a@),
{
    out.append(a.key.as_str());
    match &a.value {
        Some(v) => {
            push_char(out, '=');
            out.append(v.as_str());
        },
        None => {},
    }
}

fn push_entries(out: &mut String, v: &Vec<Attribute>, i: usize)
    requires
        i <= v@.len(),
    ensures
        final(out)@ == old(out)@ + attrs_body(attrs_view(v@).subrange(i as int, v@.len() as int)),
    decreases v@.len() - i,
{
    let ghost rest = attrs_view(v@).subrange(i as int, v@.len() as int);
    if i == v.len() {
        push_char(out, ']');
        proof {
            assert(rest.len() == 0);
        }
    } else {
        push_attr_text(out, &v[i]);
        proof {
            assert(rest[0] == v@[i as int]@);
        }
        if i + 1 == v.len() {
            push_char(out, ']');
        } else {
            push_char(out, ',');
            push_entries(out, v, i + 1);
            proof {
                assert(rest.drop_first() =~= attrs_view(v@).subrange(i + 1, v@.len() as int));
            }
        }
    }
}

/// The text of an attribute list, as `lemma_attribute_list_round_trip` reads
/// it back.
pub fn render_attributes(v: &Vec<Attribute>) -> (r: String)
    ensures
        r@ == attrs_text(attrs_view(v@)),
{
    let mut out = String::new();
    push_char(&mut out, '[');
    push_entries(&mut out, v, 0);
    proof {
        assert(attrs_view(v@).subrange(0, v@.len() as int) =~= attrs_view(v@));
    }
    out
}

/// The text of a heading line, as `lemma_heading_round_trip` reads it back.
pub fn render_heading(level: usize, title: &String) -> (r: String)
    ensures
        r@ == heading_text(level as nat, title@),
{
    let mut out = String::new();
    let mut k: usize = 0;
    while k < level
        invariant
            k <= level,
            out@ == repeat_char('=', k as nat),
        decreases level - k,
    {
        push_char(&mut out, '=');
        k = k + 1;
    }
    push_char(&mut out, ' ');
    out.append(title.as_str());
    push_char(&mut out, '\n');
    out
}

/// A line of text that reads back as text: no control character, and a first
/// character, if any, that starts no block (no white space, `=`, `*`, `.`, `[`
/// or fence character). An empty line reads back as text where no heading
/// follows it after white space.
pub open spec fn plain_text(t: Seq<char>) -> bool {
    &&& forall|k: int| 0 <= k < t.len() ==> !is_control(#[trigger] t[k])
    &&& t.len() > 0 ==> !is_white(t[0]) && !(t[0] == '=' || t[0] == '*' || t[0] == '.' || t[0]
        == '[' || t[0] == '-' || t[0] == '_' || t[0] == '+' || t[0] == '/')
}

pub open spec fn node_line(n: NodeV) -> Seq<char> {
    match n {
        NodeV::Text(t) => t + seq!['\n'],
        NodeV::Block(_) => Seq::empty(),
    }
}

/// The text of lines of text, one per line.
pub open spec fn texts_text(ns: Seq<NodeV>) -> Seq<char>
    decreases ns.len(),
{
    if ns.len() == 0 {
        Seq::empty()
    } else {
        node_line(ns[0]) + texts_text(ns.drop_first())
    }
}

pub open spec fn plain_texts(ns: Seq<NodeV>) -> bool {
    forall|k: int| 0 <= k < ns.len() ==> (#[trigger] ns[k] matches NodeV::Text(t) && plain_text(t))
}

/// The line of a block's attributes; nothing where it has none.
pub open spec fn attr_line(v: Seq<AttrV>) -> Seq<char> {
    if v.len() == 0 {
        Seq::empty()
    } else {
        attrs_text(v) + seq!['\n']
    }
}

/// A section whose content is lines of plain text, then possibly one more
/// section of the same kind, after a line that is not empty where there are
/// lines: the shape in which sections read back.
pub open spec fn nested_section(b: BlockV) -> bool
    decreases b,
{
    &&& b.level >= 1
    &&& printable_title(b.title)
    &&& printable_attrs(b.attributes)
    &&& b.content matches ContentV::Section(ns) && {
        ||| plain_texts(ns)
        ||| (ns.len() > 0 && plain_texts(ns.drop_last()) && (ns.last() matches NodeV::Block(c)
            && nested_section(c)) && (ns.len() >= 2 ==> ns[ns.len() - 2]->Text_0.len() > 0))
    }
}

/// The text of a section: its heading, its attributes, its lines of text and
/// the section nested last in it.
pub open spec fn section_text(b: BlockV) -> Seq<char>
    decreases b,
{
    let head = heading_text(b.level, b.title) + attr_line(b.attributes);
    match b.content {
        ContentV::Section(ns) => if ns.len() > 0 && ns.last() is Block {
            head + texts_text(ns.drop_last()) + section_text(ns.last()->Block_0)
        } else {
            head + texts_text(ns)
        },
        _ => head,
    }
}

/// The text of a document: its header, if it has one, then its first
/// section, if it has one.
pub open spec fn document_text(d: DocumentV) -> Seq<char> {
    let head = match d.header {
        Some(h) => header_text(h),
        None => Seq::empty(),
    };
    if d.blocks.len() == 0 {
        head
    } else {
        head + section_text(d.blocks[0])
    }
}

/// `x` stands in `s` at `j`.
pub open spec fn text_at(s: Seq<char>, j: int, x: Seq<char>) -> bool {
    0 <= j && j + x.len() <= s.len() && s.subrange(j, j + x.len()) == x
}

proof fn lemma_split(s: Seq<char>, j: int, x: Seq<char>, y: Seq<char>)
    requires
        text_at(s, j, x + y),
    ensures
        text_at(s, j, x),
        text_at(s, j + x.len(), y),
{
    assert(s.subrange(j, j + x.len()) =~= (x + y).subrange(0, x.len() as int));
    assert((x + y).subrange(0, x.len() as int) =~= x);
    assert(s.subrange(j + x.len(), j + x.len() + y.len()) =~= (x + y).subrange(
        x.len() as int,
        (x.len() + y.len()) as int,
    ));
    assert((x + y).subrange(x.len() as int, (x.len() + y.len()) as int) =~= y);
}

proof fn lemma_char_at(s: Seq<char>, j: int, x: Seq<char>, k: int)
    requires
        text_at(s, j, x),
        0 <= k < x.len(),
    ensures
        s[j + k] == x[k],
{
    assert(s[j + k] == s.subrange(j, j + x.len())[k]);
}

pub proof fn lemma_heading_at(s: Seq<char>, j: int, level: nat, title: Seq<char>)
    requires
        level >= 1,
        printable_title(title),
        text_at(s, j, heading_text(level, title)),
    ensures
        heading_at(s, j) == Some((level, title, j + heading_text(level, title).len())),
{
    let h = heading_text(level, title);
    let l = level as int;
    let t = title.len() as int;
    lemma_repeat_char('=', level);
    assert(h.len() == l + t + 2);
    assert forall|k: int| j <= k < j + l implies s[k] == '=' by {
        lemma_char_at(s, j, h, k - j);
        assert(h[k - j] == repeat_char('=', level)[k - j]);
    }
    lemma_char_at(s, j, h, l);
    assert(s[j + l] == ' ');
    lemma_char_at(s, j, h, l + 1 + t);
    assert(s[j + l + 1 + t] == '\n');
    lemma_char_at(s, j, h, 0);
    assert(!is_white(s[j]));
    lemma_scan_end(s, j, j, CharClass::Whitespace);
    lemma_scan_end(s, j, j + l, CharClass::Equals);
    if t > 0 {
        lemma_char_at(s, j, h, l + 1);
    }
    lemma_scan_end(s, j + l, j + l + 1, CharClass::Space);
    assert forall|k: int| j + l + 1 <= k < j + l + 1 + t implies !is_control(s[k]) by {
        lemma_char_at(s, j, h, k - j);
        assert(h[k - j] == title[k - j - l - 1]);
    }
    lemma_scan_end(s, j + l + 1, j + l + 1 + t, CharClass::NotControl);
    assert(s.subrange(j + l + 1, j + l + 1 + t) =~= title) by {
        assert forall|k: int| 0 <= k < t implies s.subrange(j + l + 1, j + l + 1 + t)[k]
            == title[k] by {
            lemma_char_at(s, j, h, l + 1 + k);
        }
    }
}

/// Where a plain line of text stands, no block starts, and the line reads
/// back as text.
proof fn lemma_plain_line(s: Seq<char>, j: int, t: Seq<char>)
    requires
        plain_text(t),
        text_at(s, j, t + seq!['\n']),
        t.len() == 0 ==> heading_at(s, j + 1) is None,
    ensures
        block_at(s, j) is None,
        heading_at(s, j) is None,
        line_end(s, j) == j + t.len(),
        eol(s, j + t.len()) == j + t.len() + 1,
        s.subrange(j, j + t.len()) == t,
{
    let x = t + seq!['\n'];
    lemma_char_at(s, j, x, 0);
    lemma_char_at(s, j, x, t.len() as int);
    if t.len() > 0 {
        lemma_scan_end(s, j, j, CharClass::Whitespace);
        lemma_scan_end(s, j, j, CharClass::Equals);
    } else {
        assert(is_white(s[j]));
        assert(scan(s, j, CharClass::Whitespace) == scan(s, j + 1, CharClass::Whitespace));
        assert(heading_at(s, j) == heading_at(s, j + 1));
    }
    assert forall|k: int| j <= k < j + t.len() implies !is_control(s[k]) by {
        lemma_char_at(s, j, x, k - j);
    }
    lemma_scan_end(s, j, j + t.len(), CharClass::NotControl);
    lemma_split(s, j, t, seq!['\n']);
    assert(!is_fence(s.subrange(j, j + t.len())));
}

proof fn lemma_nothing_at_end(s: Seq<char>)
    ensures
        block_at(s, s.len() as int) is None,
        content_at(s, s.len() as int) == (Seq::<NodeV>::empty(), s.len() as int),
        blocks_at(s, s.len() as int) == (Seq::<BlockV>::empty(), s.len() as int),
{
    let n = s.len() as int;
    lemma_scan_end(s, n, n, CharClass::Whitespace);
    lemma_scan_end(s, n, n, CharClass::Equals);
    lemma_scan_end(s, n, n, CharClass::NotControl);
    assert(!is_fence(s.subrange(n, n)));
}

proof fn lemma_texts(s: Seq<char>, j: int, ns: Seq<NodeV>)
    requires
        plain_texts(ns),
        text_at(s, j, texts_text(ns)),
        ns.len() > 0 && ns.last()->Text_0.len() == 0 ==> heading_at(
            s,
            j + texts_text(ns).len(),
        ) is None,
    ensures
        ns.len() > 0 ==> heading_at(s, j) is None,
        content_at(s, j) == (
            ns + content_at(s, j + texts_text(ns).len()).0,
            content_at(s, j + texts_text(ns).len()).1,
        ),
    decreases ns.len(),
{
    if ns.len() == 0 {
        assert(ns + content_at(s, j).0 =~= content_at(s, j).0);
    } else {
        let t = ns[0]->Text_0;
        assert(ns[0] matches NodeV::Text(x) && plain_text(x));
        let tail = ns.drop_first();
        assert(plain_texts(tail)) by {
            assert forall|k: int| 0 <= k < tail.len() implies (#[trigger] tail[k] matches NodeV::Text(
                x,
            ) && plain_text(x)) by {
                assert(tail[k] == ns[k + 1]);
            }
        }
        lemma_split(s, j, t + seq!['\n'], texts_text(tail));
        let e = j + t.len() + 1;
        if tail.len() > 0 {
            assert(tail.last() == ns.last());
        }
        lemma_texts(s, e, tail);
        lemma_plain_line(s, j, t);
        assert(ns =~= seq![NodeV::Text(t)] + tail);
        assert(seq![NodeV::Text(t)] + (tail + content_at(s, e + texts_text(tail).len()).0) =~= ns
            + content_at(s, e + texts_text(tail).len()).0);
    }
}

proof fn lemma_attr_line(s: Seq<char>, a: int, v: Seq<AttrV>)
    requires
        printable_attrs(v),
        text_at(s, a, attr_line(v)),
        v.len() == 0 ==> a == s.len() || s[a] != '[',
    ensures
        opt_attrs_at(s, a) == (v, a + attr_line(v).len()),
{
    if v.len() == 0 {
        assert(v =~= Seq::<AttrV>::empty());
    } else {
        let b = attrs_body(v);
        lemma_split(s, a, attrs_text(v), seq!['\n']);
        lemma_split(s, a, seq!['['], b);
        lemma_char_at(s, a, attrs_text(v), 0);
        lemma_entries_round_trip(s, a + 1, v);
        lemma_char_at(s, a, attr_line(v), attrs_text(v).len() as int);
    }
}

/// Where the text of a nested section runs to the end of the input, the
/// section reads back as itself.
proof fn lemma_section_at(s: Seq<char>, j: int, b: BlockV)
    requires
        nested_section(b),
        text_at(s, j, section_text(b)),
        j + section_text(b).len() == s.len(),
    ensures
        section_at(s, j) == Some((b, s.len() as int)),
        block_at(s, j) == Some((b, s.len() as int)),
        heading_at(s, j) == Some(
            (b.level, b.title, j + heading_text(b.level, b.title).len()),
        ),
    decreases b,
{
    let ns = b.content->Section_0;
    let h = heading_text(b.level, b.title);
    let al = attr_line(b.attributes);
    let head = h + al;
    let n = s.len() as int;
    let a = j + h.len();
    let c = a + al.len();
    let with_block = ns.len() > 0 && ns.last() is Block;
    let texts = if with_block {
        ns.drop_last()
    } else {
        ns
    };
    let body = if with_block {
        texts_text(ns.drop_last()) + section_text(ns.last()->Block_0)
    } else {
        texts_text(ns)
    };
    assert(section_text(b) =~= head + body);
    lemma_split(s, j, head, body);
    lemma_split(s, j, h, al);
    lemma_heading_at(s, j, b.level, b.title);
    lemma_repeat_char('=', b.level);
    assert(plain_texts(texts));
    if with_block {
        lemma_split(s, c, texts_text(texts), section_text(ns.last()->Block_0));
    }
    if b.attributes.len() == 0 && c < n {
        assert(al.len() == 0);
        lemma_char_at(s, c, body, 0);
        if texts.len() > 0 {
            let t = texts[0]->Text_0;
            assert(texts[0] matches NodeV::Text(x) && plain_text(x));
            lemma_split(s, c, t + seq!['\n'], texts_text(texts.drop_first()));
            lemma_char_at(s, c, t + seq!['\n'], 0);
        } else {
            let inner = ns.last()->Block_0;
            assert(texts_text(texts) =~= Seq::<char>::empty());
            lemma_repeat_char('=', inner.level);
            lemma_char_at(s, c, section_text(ns.last()->Block_0), 0);
        }
    }
    lemma_attr_line(s, a, b.attributes);
    lemma_texts(s, c, texts);
    let d = c + texts_text(texts).len();
    lemma_nothing_at_end(s);
    if with_block {
        let inner = ns.last()->Block_0;
        assert(nested_section(inner));
        lemma_section_at(s, d, inner);
        lemma_repeat_char('=', inner.level);
        assert(content_at(s, d) == (seq![NodeV::Block(inner)], n));
        assert(texts + seq![NodeV::Block(inner)] =~= ns);
    } else {
        assert(ns + Seq::<NodeV>::empty() =~= ns);
    }
}

/// Printing a document and reading the text back gives the same document,
/// where the document is made of: a printable header, or none where there is
/// no block (a heading that starts the text is read as the header); and at
/// most one section, whose content is lines of plain text, possibly ending
/// with one more such section.
pub proof fn lemma_document_round_trip(d: DocumentV)
    requires
        d.header matches Some(h) ==> printable_header(h),
        d.blocks.len() <= 1,
        d.blocks.len() == 1 ==> nested_section(d.blocks[0]),
        d.header is None ==> d.blocks.len() == 0,
    ensures
        document_at(document_text(d), 0) == Some(d),
{
    let s = document_text(d);
    let n = s.len() as int;
    lemma_nothing_at_end(s);
    let head = match d.header {
        Some(h) => header_text(h),
        None => Seq::<char>::empty(),
    };
    let a = head.len() as int;
    let rest = if d.blocks.len() == 0 {
        Seq::<char>::empty()
    } else {
        section_text(d.blocks[0])
    };
    assert(s =~= head + rest);
    assert(s.subrange(0, n) =~= s);
    lemma_split(s, 0, head, rest);
    if d.blocks.len() == 1 {
        lemma_section_at(s, a, d.blocks[0]);
        assert(blocks_at(s, a) == (seq![d.blocks[0]], n));
        assert(seq![d.blocks[0]] =~= d.blocks);
    } else {
        lemma_scan_end(s, a, a, CharClass::Whitespace);
        lemma_scan_end(s, a, a, CharClass::Equals);
        assert(d.blocks =~= Seq::<BlockV>::empty());
    }
    match d.header {
        Some(h) => {
            lemma_header_at(s, h);
        },
        None => {
            if d.blocks.len() == 0 {
                lemma_scan_end(s, 0, 0, CharClass::Whitespace);
                lemma_scan_end(s, 0, 0, CharClass::Equals);
            }
            assert(header_at(s, 0) is None);
        },
    }
}

fn push_texts(out: &mut String, ns: &Vec<SectionContent>, i: usize, upto: usize)
    requires
        i <= upto <= ns@.len(),
    ensures
        final(out)@ == old(out)@ + texts_text(
            section_view(ns@).subrange(i as int, upto as int),
        ),
    decreases upto - i,
{
    let ghost rest = section_view(ns@).subrange(i as int, upto as int);
    if i < upto {
        match &ns[i] {
            SectionContent::Text(t) => {
                out.append(t.as_str());
                push_char(out, '\n');
            },
            SectionContent::Block(_) => {},
        }
        proof {
            assert(rest[0] == ns@[i as int]@);
        }
        push_texts(out, ns, i + 1, upto);
        proof {
            assert(rest.drop_first() =~= section_view(ns@).subrange(i + 1, upto as int));
        }
    } else {
        proof {
            assert(rest.len() == 0);
        }
    }
}

/// The text of a block as `section_text` gives it: its heading line, its
/// attribute line, the lines of text of a section's content, and the block
/// that ends that content, printed the same way.
pub fn render_section(b: &Block) -> (r: String)
    ensures
        r@ == section_text(b@),
    decreases b,
{
    proof {
        lemma_block_view(b);
    }
    let mut out = render_heading(b.level, &b.title);
    if b.attributes.len() > 0 {
        let a = render_attributes(&b.attributes);
        out.append(a.as_str());
        push_char(&mut out, '\n');
    }
    let ghost head = out@;
    match &b.content {
        BlockContent::Section(ns) => {
            let n = ns.len();
            let mut upto = n;
            if n > 0 {
                match &ns[n - 1] {
                    SectionContent::Block(_) => {
                        upto = n - 1;
                    },
                    SectionContent::Text(_) => {},
                }
            }
            push_texts(&mut out, ns, 0, upto);
            proof {
                if upto < n {
                    assert(section_view(ns@).subrange(0, upto as int) =~= section_view(
                        ns@,
                    ).drop_last());
                } else {
                    assert(section_view(ns@).subrange(0, upto as int) =~= section_view(ns@));
                }
            }
            if upto < n {
                match &ns[n - 1] {
                    SectionContent::Block(c) => {
                        let inner = render_section(c);
                        out.append(inner.as_str());
                    },
                    SectionContent::Text(_) => {},
                }
            }
        },
        _ => {},
    }
    out
}

/// The text of a document, as `document_text` gives it, where the revision of
/// its header is printable or empty.
pub fn render_document(d: &Document) -> (r: String)
    ensures
        (d@.header matches Some(h) ==> h.revision == empty_revision() || printable_revision(
            h.revision,
        )) ==> r@ == document_text(d@),
{
    let mut out = String::new();
    match &d.header {
        Some(h) => {
            out = render_header(h);
        },
        None => {},
    }
    if d.content.blocks.len() > 0 {
        let section = render_section(&d.content.blocks[0]);
        out.append(section.as_str());
    }
    out
}

} // verus!
