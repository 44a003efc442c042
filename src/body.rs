use vstd::prelude::*;

use crate::ast::{
    attrs_view, blocks_view, section_view, DocumentContent, SectionContent, delimited_view, lemma_block_view, lemma_list_item_view, list_view,
    undelimited_view, AttrV, Attribute, Block, BlockContent, BlockV, ContentV,
    DelimitedBlockContent, ListContent, ListV, NodeV, OrderedListContent, UndelimitedBlockContent,
    UnorderedListContent,
};
use crate::chars::{char_is_control, is_control, lemma_scan_bounds, scan, CharClass};
use crate::checkpoint_iterator::{lemma_checkpoint_closed, CheckpointIterator};
use crate::header::{heading_at, lemma_heading_progress};
use crate::lexer::{eol, line_end, string_of};
use crate::parser::ParseError;

verus! {

/// An attribute at `j`: a non-empty key, and a value after `=` if one follows.
pub open spec fn attr_at(s: Seq<char>, j: int) -> Option<(AttrV, int)> {
    let k = scan(s, j, CharClass::AttrKey);
    if k == j {
        None
    } else if 0 <= k < s.len() && s[k] == '=' {
        let v = scan(s, k + 1, CharClass::AttrValue);
        Some((AttrV { key: s.subrange(j, k), value: Some(s.subrange(k + 1, v)) }, v))
    } else {
        Some((AttrV { key: s.subrange(j, k), value: None }, k))
    }
}

/// The entries of an attribute list after its `[`: attributes separated by
/// `,`, then `]`. Gives the attributes and the position past the `]`.
pub open spec fn attr_entries_at(s: Seq<char>, j: int) -> Option<(Seq<AttrV>, int)>
    decreases s.len() - j,
{
    match attr_at(s, j) {
        None => if 0 <= j < s.len() && s[j] == ']' {
            Some((Seq::empty(), j + 1))
        } else {
            None
        },
        Some((a, k)) => if j < k < s.len() && s[k] == ',' {
            match attr_entries_at(s, k + 1) {
                Some((rest, e)) => Some((seq![a] + rest, e)),
                None => None,
            }
        } else if j < k < s.len() && s[k] == ']' {
            Some((seq![a], k + 1))
        } else {
            None
        },
    }
}

/// An attribute list at `i`: `[`, entries, `]`.
pub open spec fn attributes_at(s: Seq<char>, i: int) -> Option<(Seq<AttrV>, int)> {
    if 0 <= i < s.len() && s[i] == '[' {
        attr_entries_at(s, i + 1)
    } else {
        None
    }
}

/// An attribute list on a line of its own: the list and the newline after it.
pub open spec fn attr_line_at(s: Seq<char>, i: int) -> Option<(Seq<AttrV>, int)> {
    match attributes_at(s, i) {
        Some((v, e)) => Some((v, eol(s, e))),
        None => None,
    }
}

/// The attributes of a block at `i`, if a list stands there, and where the
/// block goes on.
pub open spec fn opt_attrs_at(s: Seq<char>, i: int) -> (Seq<AttrV>, int) {
    match attr_line_at(s, i) {
        Some((v, e)) => (v, e),
        None => (Seq::empty(), i),
    }
}

pub proof fn lemma_attr_end(s: Seq<char>, j: int)
    requires
        0 <= j <= s.len(),
    ensures
        attr_at(s, j) matches Some((a, k)) ==> j < k <= s.len(),
{
    lemma_scan_bounds(s, j, CharClass::AttrKey);
    let k = scan(s, j, CharClass::AttrKey);
    if 0 <= k < s.len() && s[k] == '=' {
        lemma_scan_bounds(s, k + 1, CharClass::AttrValue);
    }
}

pub proof fn lemma_attr_entries_end(s: Seq<char>, j: int)
    requires
        0 <= j <= s.len(),
    ensures
        attr_entries_at(s, j) matches Some((v, e)) ==> j < e <= s.len(),
    decreases s.len() - j,
{
    lemma_attr_end(s, j);
    match attr_at(s, j) {
        None => {},
        Some((a, k)) => if j < k < s.len() && s[k] == ',' {
            lemma_attr_entries_end(s, k + 1);
        },
    }
}

pub proof fn lemma_opt_attrs_end(s: Seq<char>, i: int)
    requires
        0 <= i <= s.len(),
    ensures
        i <= opt_attrs_at(s, i).1 <= s.len(),
{
    if 0 <= i < s.len() && s[i] == '[' {
        lemma_attr_entries_end(s, i + 1);
    }
}

pub open spec fn is_fence_char(c: char) -> bool {
    c == '-' || c == '=' || c == '.' || c == '*' || c == '_' || c == '+' || c == '/'
}

/// A fence: four or more copies of one fence character.
pub open spec fn is_fence(t: Seq<char>) -> bool {
    t.len() >= 4 && is_fence_char(t[0]) && forall|k: int| 0 <= k < t.len() ==> #[trigger] t[k] == t[0]
}

/// A list item line at `i`: a run of `*` (unordered) or `.` (ordered), whose
/// length is the depth, at least one space, and the text. Gives whether it is
/// ordered, the depth, the text and the position past the newline.
pub open spec fn list_item_at(s: Seq<char>, i: int) -> Option<(bool, nat, Seq<char>, int)> {
    if 0 <= i < s.len() && (s[i] == '*' || s[i] == '.') {
        let cls = if s[i] == '*' {
            CharClass::Star
        } else {
            CharClass::Dot
        };
        let b = scan(s, i, cls);
        let c = scan(s, b, CharClass::Space);
        if c == b {
            None
        } else {
            let d = line_end(s, c);
            Some((s[i] == '.', (b - i) as nat, s.subrange(c, d), eol(s, d)))
        }
    } else {
        None
    }
}

/// The items of depth `depth` at `i`, each with the items of the next depth
/// that follow it as its sublist.
pub open spec fn list_items_at(s: Seq<char>, i: int, depth: nat) -> (Seq<ListV>, int)
    decreases s.len() - i,
{
    match list_item_at(s, i) {
        Some((ordered, dep, text, e)) => if dep == depth && i < e <= s.len() {
            let (sub, e2) = list_items_at(s, e, depth + 1);
            if e <= e2 <= s.len() {
                let (more, e3) = list_items_at(s, e2, depth);
                (seq![ListV { ordered, text, sublist: sub }] + more, e3)
            } else {
                (Seq::empty(), i)
            }
        } else {
            (Seq::empty(), i)
        },
        None => (Seq::empty(), i),
    }
}

/// A list block at `i`: optional attributes, then list items, the first of
/// which gives the top depth.
pub open spec fn list_at(s: Seq<char>, i: int) -> Option<(BlockV, int)> {
    let (attributes, a) = opt_attrs_at(s, i);
    match list_item_at(s, a) {
        Some((_, dep, _, _)) => {
            let (items, e) = list_items_at(s, a, dep);
            if a < e <= s.len() {
                Some(
                    (
                        BlockV {
                            title: Seq::empty(),
                            level: 0,
                            attributes,
                            content: ContentV::List(items),
                        },
                        e,
                    ),
                )
            } else {
                None
            }
        },
        None => None,
    }
}

/// The lines of a delimited block from `j` up to its closing fence, which
/// must be the same as the opening one; gives the lines and the position past
/// the closing fence.
pub open spec fn delim_body_at(s: Seq<char>, j: int, fence: Seq<char>) -> Option<(Seq<NodeV>, int)>
    decreases s.len() - j,
{
    let d = line_end(s, j);
    let e = eol(s, d);
    if 0 <= j <= d && s.subrange(j, d) == fence {
        Some((Seq::empty(), e))
    } else if 0 <= j <= d && j < e <= s.len() {
        match delim_body_at(s, e, fence) {
            Some((rest, f)) => Some((seq![NodeV::Text(s.subrange(j, d))] + rest, f)),
            None => None,
        }
    } else {
        None
    }
}

/// A delimited block at `i`: optional attributes, a fence line, lines, and the
/// same fence line again.
pub open spec fn delimited_at(s: Seq<char>, i: int) -> Option<(BlockV, int)> {
    let (attributes, a) = opt_attrs_at(s, i);
    let d = line_end(s, a);
    if a <= d && is_fence(s.subrange(a, d)) {
        match delim_body_at(s, eol(s, d), s.subrange(a, d)) {
            Some((nodes, f)) => Some(
                (
                    BlockV {
                        title: Seq::empty(),
                        level: 0,
                        attributes,
                        content: ContentV::Delimited(nodes),
                    },
                    f,
                ),
            ),
            None => None,
        }
    } else {
        None
    }
}

/// The lines of a paragraph at `j`, up to a blank line or the end.
pub open spec fn para_at(s: Seq<char>, j: int) -> (Seq<NodeV>, int)
    decreases s.len() - j,
{
    if 0 <= j < s.len() && !is_control(s[j]) {
        let d = line_end(s, j);
        let e = eol(s, d);
        if j < e <= s.len() && j <= d {
            let (rest, f) = para_at(s, e);
            (seq![NodeV::Text(s.subrange(j, d))] + rest, f)
        } else {
            (Seq::empty(), j)
        }
    } else {
        (Seq::empty(), j)
    }
}

/// A block title at `i`: `.` and then the title, which starts with neither a
/// space nor a dot.
pub open spec fn title_at(s: Seq<char>, i: int) -> Option<(Seq<char>, int)> {
    if 0 <= i && i + 1 < s.len() && s[i] == '.' && !(s[i + 1] == ' ' || s[i + 1] == '.'
        || is_control(s[i + 1])) {
        let d = line_end(s, i + 1);
        Some((s.subrange(i + 1, d), eol(s, d)))
    } else {
        None
    }
}

/// An undelimited block at `i`: optional attributes, a block title, and a
/// paragraph of at least one line.
pub open spec fn undelimited_at(s: Seq<char>, i: int) -> Option<(BlockV, int)> {
    let (attributes, a) = opt_attrs_at(s, i);
    match title_at(s, a) {
        Some((title, b)) => {
            let (lines, c) = para_at(s, b);
            if lines.len() > 0 {
                Some(
                    (
                        BlockV { title, level: 0, attributes, content: ContentV::Undelimited(lines) },
                        c,
                    ),
                )
            } else {
                None
            }
        },
        None => None,
    }
}

/// A section block at `i`: a heading, optional attributes, then its content.
pub open spec fn section_at(s: Seq<char>, i: int) -> Option<(BlockV, int)>
    decreases s.len() - i, 2int,
{
    match heading_at(s, i) {
        Some((level, title, a)) => {
            let (attributes, b) = opt_attrs_at(s, a);
            if 0 <= i < a <= b <= s.len() {
                let (nodes, c) = content_at(s, b);
                Some((BlockV { title, level, attributes, content: ContentV::Section(nodes) }, c))
            } else {
                None
            }
        },
        None => None,
    }
}

/// The content of a section at `j`: blocks and lines of text, as long as
/// either can be read.
pub open spec fn content_at(s: Seq<char>, j: int) -> (Seq<NodeV>, int)
    decreases s.len() - j, 4int,
{
    if 0 <= j <= s.len() {
        match block_at(s, j) {
            Some((b, e)) => if j < e <= s.len() {
                let (rest, f) = content_at(s, e);
                (seq![NodeV::Block(b)] + rest, f)
            } else {
                (Seq::empty(), j)
            },
            None => {
                let d = line_end(s, j);
                let e = eol(s, d);
                if j <= d && j < e <= s.len() {
                    let (rest, f) = content_at(s, e);
                    (seq![NodeV::Text(s.subrange(j, d))] + rest, f)
                } else {
                    (Seq::empty(), j)
                }
            },
        }
    } else {
        (Seq::empty(), j)
    }
}

/// A block at `i`: a section, else a list, else a delimited block, else an
/// undelimited one.
pub open spec fn block_at(s: Seq<char>, i: int) -> Option<(BlockV, int)>
    decreases s.len() - i, 3int,
{
    if 0 <= i <= s.len() {
        match section_at(s, i) {
            Some(x) => Some(x),
            None => match list_at(s, i) {
                Some(x) => Some(x),
                None => match delimited_at(s, i) {
                    Some(x) => Some(x),
                    None => undelimited_at(s, i),
                },
            },
        }
    } else {
        None
    }
}

/// Blocks at `i`, as many as can be read.
pub open spec fn blocks_at(s: Seq<char>, i: int) -> (Seq<BlockV>, int)
    decreases s.len() - i,
{
    match block_at(s, i) {
        Some((b, e)) => if i < e <= s.len() {
            let (rest, f) = blocks_at(s, e);
            (seq![b] + rest, f)
        } else {
            (Seq::empty(), i)
        },
        None => (Seq::empty(), i),
    }
}

pub proof fn lemma_content_end(s: Seq<char>, j: int)
    requires
        0 <= j <= s.len(),
    ensures
        j <= content_at(s, j).1 <= s.len(),
    decreases s.len() - j,
{
    match block_at(s, j) {
        Some((b, e)) => if j < e <= s.len() {
            lemma_content_end(s, e);
        },
        None => {
            let d = line_end(s, j);
            let e = eol(s, d);
            if j <= d && j < e <= s.len() {
                lemma_content_end(s, e);
            }
        },
    }
}

pub proof fn lemma_para_end(s: Seq<char>, j: int)
    requires
        0 <= j <= s.len(),
    ensures
        j <= para_at(s, j).1 <= s.len(),
    decreases s.len() - j,
{
    if 0 <= j < s.len() && !is_control(s[j]) {
        let d = line_end(s, j);
        let e = eol(s, d);
        if j < e <= s.len() && j <= d {
            lemma_para_end(s, e);
        }
    }
}

pub proof fn lemma_delim_body_end(s: Seq<char>, j: int, fence: Seq<char>)
    requires
        0 <= j <= s.len(),
    ensures
        delim_body_at(s, j, fence) matches Some((v, e)) ==> j <= e <= s.len(),
    decreases s.len() - j,
{
    lemma_scan_bounds(s, j, CharClass::NotControl);
    let d = line_end(s, j);
    let e = eol(s, d);
    if 0 <= j <= d && s.subrange(j, d) == fence {
    } else if 0 <= j <= d && j < e <= s.len() {
        lemma_delim_body_end(s, e, fence);
    }
}

/// A block always reads at least one character.
pub proof fn lemma_block_progress(s: Seq<char>, i: int)
    requires
        0 <= i <= s.len(),
    ensures
        block_at(s, i) matches Some((b, e)) ==> i < e <= s.len(),
{
    lemma_opt_attrs_end(s, i);
    let a = opt_attrs_at(s, i).1;
    match heading_at(s, i) {
        Some((level, title, ha)) => {
            let b = opt_attrs_at(s, ha).1;
            if 0 <= i < ha <= b <= s.len() {
                lemma_content_end(s, b);
            }
        },
        None => {},
    }
    lemma_scan_bounds(s, a, CharClass::NotControl);
    let d = line_end(s, a);
    if a <= d && is_fence(s.subrange(a, d)) {
        lemma_delim_body_end(s, eol(s, d), s.subrange(a, d));
        assert(d >= a + 4) by {
            assert(s.subrange(a, d).len() >= 4);
        }
    }
    match title_at(s, a) {
        Some((t, b)) => {
            lemma_scan_bounds(s, a + 1, CharClass::NotControl);
            lemma_para_end(s, b);
        },
        None => {},
    }
}

pub proof fn lemma_list_item_progress(s: Seq<char>, i: int)
    requires
        0 <= i <= s.len(),
    ensures
        list_item_at(s, i) matches Some((o, d, t, e)) ==> i < e <= s.len(),
{
    if 0 <= i < s.len() && (s[i] == '*' || s[i] == '.') {
        let cls = if s[i] == '*' {
            CharClass::Star
        } else {
            CharClass::Dot
        };
        lemma_scan_bounds(s, i, cls);
        let b = scan(s, i, cls);
        lemma_scan_bounds(s, b, CharClass::Space);
        lemma_scan_bounds(s, scan(s, b, CharClass::Space), CharClass::NotControl);
    }
}

/// Whether `t` is a fence (see `is_fence`).
pub fn fence_line(t: &Vec<char>) -> (r: bool)
    ensures
        r == is_fence(t@),
{
    if t.len() < 4 {
        return false;
    }
    let c = t[0];
    if !(c == '-' || c == '=' || c == '.' || c == '*' || c == '_' || c == '+' || c == '/') {
        return false;
    }
    let mut k: usize = 0;
    while k < t.len()
        invariant
            k <= t@.len(),
            t@.len() >= 4,
            c == t@[0],
            forall|j: int| 0 <= j < k ==> t@[j] == c,
        decreases t@.len() - k,
    {
        if t[k] != c {
            return false;
        }
        k = k + 1;
    }
    true
}

pub proof fn lemma_blocks_end(s: Seq<char>, i: int)
    requires
        0 <= i <= s.len(),
    ensures
        i <= blocks_at(s, i).1 <= s.len(),
    decreases s.len() - i,
{
    match block_at(s, i) {
        Some((b, e)) => if i < e <= s.len() {
            lemma_blocks_end(s, e);
        },
        None => {},
    }
}

impl CheckpointIterator<char> {
    /// Reads one attribute (see `attr_at`). Fails, and reads nothing, where the
    /// key is empty.
    pub fn parse_attribute(&mut self) -> (r: Result<Attribute, ParseError>)
        requires
            old(self).wf(),
        ensures
            final(self).wf(),
            match r {
                Ok(a) => attr_at(old(self)@.items, old(self)@.pos as int) == Some(
                    (a@, final(self)@.pos as int),
                ) && final(self)@ == old(self)@.at(final(self)@.pos),
                Err(e) => attr_at(old(self)@.items, old(self)@.pos as int) is None
                    && final(self)@ == old(self)@ && e.start == old(self)@.pos && e.end
                    == old(self)@.pos,
            },
    {
        let key_chars = self.take_class(CharClass::AttrKey);
        if key_chars.len() == 0 {
            return Err(self.error(String::from_str("empty key for attribute")));
        }
        let key = string_of(&key_chars);
        if self.eat('=') {
            let value_chars = self.take_class(CharClass::AttrValue);
            Ok(Attribute { key, value: Some(string_of(&value_chars)) })
        } else {
            Ok(Attribute { key, value: None })
        }
    }

    /// Reads an attribute list (see `attributes_at`). Fails, and reads nothing,
    /// where it does not start with `[`, where an entry is not followed by `,`
    /// or `]`, or where the list is not closed.
    pub fn parse_attributes(&mut self) -> (r: Result<Vec<Attribute>, ParseError>)
        requires
            old(self).wf(),
        ensures
            final(self).wf(),
            match r {
                Ok(v) => attributes_at(old(self)@.items, old(self)@.pos as int) == Some(
                    (attrs_view(v@), final(self)@.pos as int),
                ) && final(self)@ == old(self)@.at(final(self)@.pos),
                Err(e) => attributes_at(old(self)@.items, old(self)@.pos as int) is None
                    && final(self)@ == old(self)@ && e.start == old(self)@.pos && e.end
                    == old(self)@.pos,
            },
    {
        let ghost m = self@;
        proof {
            self.lemma_wf_model();
        }
        self.push();
        if !self.eat('[') {
            let _ = self.pop();
            proof {
                lemma_checkpoint_closed(m, self@.pos);
            }
            return Err(self.error(String::from_str("expected '[' to open a list of attributes")));
        }
        let ghost j0 = self@.pos as int;
        let mut attributes: Vec<Attribute> = Vec::new();
        loop
            invariant
                m == old(self)@,
                self.wf(),
                self@ == m.pushed().at(self@.pos),
                j0 <= self@.pos <= m.items.len(),
                j0 == m.pos + 1,
                attributes_at(m.items, m.pos as int) == match attr_entries_at(
                    m.items,
                    self@.pos as int,
                ) {
                    Some((rest, e)) => Some((attrs_view(attributes@) + rest, e)),
                    None => None,
                },
            decreases m.items.len() - self@.pos,
        {
            let ghost j = self@.pos as int;
            proof {
                lemma_attr_end(m.items, j);
            }
            let mut closed = false;
            match self.parse_attribute() {
                Ok(a) => {
                    let ghost k = self@.pos as int;
                    let ghost old_attrs = attributes@;
                    proof {
                        assert(attrs_view(old_attrs.push(a)) =~= attrs_view(old_attrs).push(a@));
                    }
                    if self.eat(',') {
                        proof {
                            match attr_entries_at(m.items, k + 1) {
                                Some((rest, e)) => {
                                    assert(attrs_view(old_attrs).push(a@) + rest =~= attrs_view(
                                        old_attrs,
                                    ) + (seq![a@] + rest));
                                },
                                None => {},
                            }
                        }
                        attributes.push(a);
                        continue;
                    } else if self.eat(']') {
                        attributes.push(a);
                        proof {
                            assert(attr_entries_at(m.items, j) == Some((seq![a@], k + 1)));
                            assert(attrs_view(attributes@) =~= attrs_view(old_attrs) + seq![a@]);
                        }
                        closed = true;
                    }
                },
                Err(_) => {
                    if self.eat(']') {
                        proof {
                            assert(attrs_view(attributes@) + Seq::<AttrV>::empty() =~= attrs_view(
                                attributes@,
                            ));
                            assert(attr_entries_at(m.items, j) == Some(
                                (Seq::<AttrV>::empty(), j + 1),
                            ));
                        }
                        closed = true;
                    }
                },
            }
            if closed {
                let _ = self.drop();
                proof {
                    lemma_checkpoint_closed(m, self@.pos);
                }
                return Ok(attributes);
            } else {
                let _ = self.pop();
                proof {
                    lemma_checkpoint_closed(m, self@.pos);
                }
                return Err(self.error(String::from_str("malformed list of attributes")));
            }
        }
    }

    /// Reads an attribute list standing on its own line, if there is one, and
    /// gives its attributes (none otherwise).
    fn parse_attribute_line(&mut self) -> (r: Vec<Attribute>)
        requires
            old(self).wf(),
        ensures
            final(self).wf(),
            final(self)@ == old(self)@.at(
                opt_attrs_at(old(self)@.items, old(self)@.pos as int).1 as nat,
            ),
            attrs_view(r@) == opt_attrs_at(old(self)@.items, old(self)@.pos as int).0,
            old(self)@.pos <= opt_attrs_at(old(self)@.items, old(self)@.pos as int).1
                <= old(self)@.items.len(),
    {
        proof {
            self.lemma_wf_model();
            lemma_opt_attrs_end(self@.items, self@.pos as int);
        }
        match self.parse_attributes() {
            Ok(v) => {
                self.skip_newline();
                v
            },
            Err(_) => {
                proof {
                    assert(attrs_view(Seq::<Attribute>::empty()) =~= Seq::<AttrV>::empty());
                }
                Vec::new()
            },
        }
    }

    /// Reads a list item line (see `list_item_at`): whether it is ordered, its
    /// depth and its text. Reads nothing where there is none.
    fn parse_list_item(&mut self) -> (r: Option<(bool, usize, String)>)
        requires
            old(self).wf(),
        ensures
            final(self).wf(),
            match r {
                Some((ordered, depth, text)) => list_item_at(
                    old(self)@.items,
                    old(self)@.pos as int,
                ) == Some((ordered, depth as nat, text@, final(self)@.pos as int)) && final(self)@
                    == old(self)@.at(final(self)@.pos) && depth < final(self)@.pos,
                None => list_item_at(old(self)@.items, old(self)@.pos as int) is None
                    && final(self)@ == old(self)@,
            },
    {
        let ghost m = self@;
        proof {
            self.lemma_wf_model();
        }
        let ordered = match self.peek_item() {
            Some(c) => {
                if c == '*' {
                    false
                } else if c == '.' {
                    true
                } else {
                    return None;
                }
            },
            None => {
                return None;
            },
        };
        let cls = if ordered {
            CharClass::Dot
        } else {
            CharClass::Star
        };
        self.push();
        let depth = self.skip_class(cls);
        let spaces = self.skip_class(CharClass::Space);
        if spaces == 0 {
            let _ = self.pop();
            proof {
                lemma_checkpoint_closed(m, self@.pos);
            }
            return None;
        }
        let text = match self.parse_line() {
            Ok(t) => t,
            Err(_) => String::new(),
        };
        self.skip_newline();
        let _ = self.drop();
        proof {
            lemma_checkpoint_closed(m, self@.pos);
            self.lemma_wf_model();
        }
        Some((ordered, depth, text))
    }

    /// Reads the items of depth `depth` (see `list_items_at`). Never fails.
    fn parse_list_items(&mut self, depth: usize) -> (r: Vec<ListContent>)
        requires
            old(self).wf(),
        ensures
            final(self).wf(),
            final(self)@ == old(self)@.at(
                list_items_at(old(self)@.items, old(self)@.pos as int, depth as nat).1 as nat,
            ),
            list_view(r@) == list_items_at(old(self)@.items, old(self)@.pos as int, depth as nat).0,
            old(self)@.pos <= list_items_at(old(self)@.items, old(self)@.pos as int, depth as nat).1
                <= old(self)@.items.len(),
        decreases old(self)@.items.len() - old(self)@.pos,
    {
        let ghost m = self@;
        let ghost s = m.items;
        let mut items: Vec<ListContent> = Vec::new();
        proof {
            self.lemma_wf_model();
            assert(list_view(items@) + list_items_at(s, m.pos as int, depth as nat).0
                =~= list_items_at(s, m.pos as int, depth as nat).0);
        }
        loop
            invariant
                m == old(self)@,
                s == m.items,
                self.wf(),
                self@ == m.at(self@.pos),
                m.pos <= self@.pos <= s.len(),
                list_view(items@) + list_items_at(s, self@.pos as int, depth as nat).0
                    == list_items_at(s, m.pos as int, depth as nat).0,
                list_items_at(s, self@.pos as int, depth as nat).1 == list_items_at(
                    s,
                    m.pos as int,
                    depth as nat,
                ).1,
            ensures
                self.wf(),
                self@ == m.at(self@.pos),
                list_view(items@) == list_items_at(s, m.pos as int, depth as nat).0,
                self@.pos == list_items_at(s, m.pos as int, depth as nat).1,
                m.pos <= self@.pos <= s.len(),
            decreases s.len() - self@.pos,
        {
            let ghost i = self@.pos as int;
            self.push();
            let item = self.parse_list_item();
            let found = match item {
                Some((ordered, dep, text)) => {
                    if dep == depth {
                        let _ = self.drop();
                        proof {
                            lemma_checkpoint_closed(m.at(i as nat), self@.pos);
                            lemma_list_item_progress(s, i);
                        }
                        proof {
                            self.lemma_wf_model();
                        }
                        let sublist = self.parse_list_items(depth + 1);
                        let ghost e2 = self@.pos as int;
                        let entry = if ordered {
                            ListContent::OrderedList(OrderedListContent { text, sublist })
                        } else {
                            ListContent::UnorderedList(UnorderedListContent { text, sublist })
                        };
                        proof {
                            lemma_list_item_view(&entry);
                            let more = list_items_at(s, e2, depth as nat).0;
                            assert(list_view(items@.push(entry)) =~= list_view(items@).push(
                                entry@,
                            ));
                            assert(list_view(items@).push(entry@) + more =~= list_view(items@) + (
                            seq![entry@] + more));
                        }
                        items.push(entry);
                        true
                    } else {
                        let _ = self.pop();
                        proof {
                            lemma_checkpoint_closed(m.at(i as nat), self@.pos);
                        }
                        false
                    }
                },
                None => {
                    let _ = self.pop();
                    proof {
                        lemma_checkpoint_closed(m.at(i as nat), self@.pos);
                    }
                    false
                },
            };
            if !found {
                proof {
                    assert(list_view(items@) + Seq::<ListV>::empty() =~= list_view(items@));
                }
                break;
            }
        }
        items
    }

    /// Reads a list block (see `list_at`). Fails, and reads nothing, where no
    /// list item comes after the optional attributes.
    pub fn parse_list_block(&mut self) -> (r: Result<Block, ParseError>)
        requires
            old(self).wf(),
        ensures
            final(self).wf(),
            match r {
                Ok(b) => list_at(old(self)@.items, old(self)@.pos as int) == Some(
                    (b@, final(self)@.pos as int),
                ) && final(self)@ == old(self)@.at(final(self)@.pos),
                Err(e) => list_at(old(self)@.items, old(self)@.pos as int) is None
                    && final(self)@ == old(self)@ && e.start == old(self)@.pos && e.end
                    == old(self)@.pos,
            },
    {
        let ghost m = self@;
        proof {
            self.lemma_wf_model();
        }
        self.push();
        let attributes = self.parse_attribute_line();
        let ghost ma = self@;
        let start = self.current_position();
        self.push();
        let first = self.parse_list_item();
        let _ = self.pop();
        proof {
            lemma_checkpoint_closed(ma, self@.pos);
        }
        match first {
            Some((_, depth, _)) => {
                let items = self.parse_list_items(depth);
                if self.current_position() > start {
                    let _ = self.drop();
                    let b = Block {
                        title: String::new(),
                        level: 0,
                        attributes,
                        content: BlockContent::List(items),
                    };
                    proof {
                        lemma_checkpoint_closed(m, self@.pos);
                        lemma_block_view(&b);
                    }
                    return Ok(b);
                }
            },
            None => {},
        }
        let _ = self.pop();
        proof {
            lemma_checkpoint_closed(m, self@.pos);
        }
        Err(self.error(String::from_str("expected a list item")))
    }

    /// Reads the lines of a delimited block up to the closing `fence` (see
    /// `delim_body_at`); `None` where the fence never comes.
    fn parse_delimited_body(&mut self, fence: &String) -> (r: Option<
        Vec<DelimitedBlockContent>,
    >)
        requires
            old(self).wf(),
        ensures
            final(self).wf(),
            final(self)@ == old(self)@.at(final(self)@.pos),
            match delim_body_at(old(self)@.items, old(self)@.pos as int, fence@) {
                Some((nodes, e)) => (r matches Some(v) && delimited_view(v@) == nodes)
                    && final(self)@.pos == e,
                None => r is None,
            },
    {
        let ghost m = self@;
        let ghost s = m.items;
        let mut lines: Vec<DelimitedBlockContent> = Vec::new();
        proof {
            self.lemma_wf_model();
        }
        loop
            invariant
                m == old(self)@,
                s == m.items,
                self.wf(),
                self@ == m.at(self@.pos),
                self@.pos <= s.len(),
                delim_body_at(s, m.pos as int, fence@) == match delim_body_at(
                    s,
                    self@.pos as int,
                    fence@,
                ) {
                    Some((rest, e)) => Some((delimited_view(lines@) + rest, e)),
                    None => None,
                },
            decreases s.len() - self@.pos,
        {
            let start = self.current_position();
            let line = match self.parse_line() {
                Ok(t) => t,
                Err(_) => String::new(),
            };
            self.skip_newline();
            if line == *fence {
                proof {
                    assert(delimited_view(lines@) + Seq::<NodeV>::empty() =~= delimited_view(
                        lines@,
                    ));
                }
                return Some(lines);
            }
            if self.current_position() == start {
                return None;
            }
            let entry = DelimitedBlockContent::Text(line);
            proof {
                let e = self@.pos as int;
                assert(delimited_view(lines@.push(entry)) =~= delimited_view(lines@).push(entry@));
                match delim_body_at(s, e, fence@) {
                    Some((rest, f)) => {
                        assert(delimited_view(lines@).push(entry@) + rest =~= delimited_view(lines@)
                            + (seq![entry@] + rest));
                    },
                    None => {},
                }
            }
            lines.push(entry);
        }
    }

    /// Reads a delimited block (see `delimited_at`). Fails, and reads nothing,
    /// where no fence line opens it or the same fence never closes it.
    pub fn parse_delimited_block(&mut self) -> (r: Result<Block, ParseError>)
        requires
            old(self).wf(),
        ensures
            final(self).wf(),
            match r {
                Ok(b) => delimited_at(old(self)@.items, old(self)@.pos as int) == Some(
                    (b@, final(self)@.pos as int),
                ) && final(self)@ == old(self)@.at(final(self)@.pos),
                Err(e) => delimited_at(old(self)@.items, old(self)@.pos as int) is None
                    && final(self)@ == old(self)@ && e.start == old(self)@.pos && e.end
                    == old(self)@.pos,
            },
    {
        let ghost m = self@;
        proof {
            self.lemma_wf_model();
        }
        self.push();
        let attributes = self.parse_attribute_line();
        let chars = self.take_class(CharClass::NotControl);
        if fence_line(&chars) {
            let fence = string_of(&chars);
            self.skip_newline();
            match self.parse_delimited_body(&fence) {
                Some(lines) => {
                    let _ = self.drop();
                    let b = Block {
                        title: String::new(),
                        level: 0,
                        attributes,
                        content: BlockContent::Delimited(lines),
                    };
                    proof {
                        lemma_checkpoint_closed(m, self@.pos);
                        lemma_block_view(&b);
                    }
                    return Ok(b);
                },
                None => {},
            }
        }
        let _ = self.pop();
        proof {
            lemma_checkpoint_closed(m, self@.pos);
        }
        Err(self.error(String::from_str("expected a delimited block")))
    }

    /// Reads the lines of a paragraph (see `para_at`). Never fails.
    fn parse_paragraph(&mut self) -> (r: Vec<UndelimitedBlockContent>)
        requires
            old(self).wf(),
        ensures
            final(self).wf(),
            final(self)@ == old(self)@.at(para_at(old(self)@.items, old(self)@.pos as int).1 as nat),
            undelimited_view(r@) == para_at(old(self)@.items, old(self)@.pos as int).0,
            old(self)@.pos <= para_at(old(self)@.items, old(self)@.pos as int).1
                <= old(self)@.items.len(),
    {
        let ghost m = self@;
        let ghost s = m.items;
        let mut lines: Vec<UndelimitedBlockContent> = Vec::new();
        proof {
            self.lemma_wf_model();
            lemma_para_end(s, m.pos as int);
            assert(undelimited_view(lines@) + para_at(s, m.pos as int).0 =~= para_at(
                s,
                m.pos as int,
            ).0);
        }
        loop
            invariant
                m == old(self)@,
                s == m.items,
                self.wf(),
                self@ == m.at(self@.pos),
                self@.pos <= s.len(),
                undelimited_view(lines@) + para_at(s, self@.pos as int).0 == para_at(
                    s,
                    m.pos as int,
                ).0,
                para_at(s, self@.pos as int).1 == para_at(s, m.pos as int).1,
            ensures
                self.wf(),
                self@ == m.at(self@.pos),
                undelimited_view(lines@) == para_at(s, m.pos as int).0,
                self@.pos == para_at(s, m.pos as int).1,
            decreases s.len() - self@.pos,
        {
            let ghost j = self@.pos as int;
            let text_here = match self.peek_item() {
                Some(c) => !char_is_control(c),
                None => false,
            };
            if !text_here {
                proof {
                    assert(undelimited_view(lines@) + Seq::<NodeV>::empty() =~= undelimited_view(
                        lines@,
                    ));
                }
                break;
            }
            proof {
                lemma_scan_bounds(s, j, CharClass::NotControl);
            }
            let line = match self.parse_line() {
                Ok(t) => t,
                Err(_) => String::new(),
            };
            self.skip_newline();
            let entry = UndelimitedBlockContent::Text(line);
            proof {
                let rest = para_at(s, self@.pos as int).0;
                assert(undelimited_view(lines@.push(entry)) =~= undelimited_view(lines@).push(
                    entry@,
                ));
                assert(undelimited_view(lines@).push(entry@) + rest =~= undelimited_view(lines@)
                    + (seq![entry@] + rest));
            }
            lines.push(entry);
        }
        lines
    }

    /// Reads a block title line (see `title_at`); reads nothing where there is
    /// none.
    fn parse_block_title(&mut self) -> (r: Option<String>)
        requires
            old(self).wf(),
        ensures
            final(self).wf(),
            match title_at(old(self)@.items, old(self)@.pos as int) {
                Some((t, e)) => (r matches Some(x) && x@ == t) && final(self)@ == old(self)@.at(
                    e as nat,
                ),
                None => r is None && final(self)@ == old(self)@,
            },
            title_at(old(self)@.items, old(self)@.pos as int) matches Some((t, e)) ==> old(
                self,
            )@.pos < e <= old(self)@.items.len(),
    {
        let ghost m = self@;
        proof {
            self.lemma_wf_model();
            if m.pos + 1 < m.items.len() {
                lemma_scan_bounds(m.items, m.pos + 1int, CharClass::NotControl);
            }
        }
        self.push();
        if self.eat('.') {
            let next = self.peek_item();
            match next {
                Some(c) => {
                    if !(c == ' ' || c == '.' || char_is_control(c)) {
                        proof {
                            lemma_scan_bounds(m.items, m.pos + 1int, CharClass::NotControl);
                        }
                        let title = match self.parse_line() {
                            Ok(t) => t,
                            Err(_) => String::new(),
                        };
                        self.skip_newline();
                        let _ = self.drop();
                        proof {
                            lemma_checkpoint_closed(m, self@.pos);
                        }
                        return Some(title);
                    }
                },
                None => {},
            }
        }
        let _ = self.pop();
        proof {
            lemma_checkpoint_closed(m, self@.pos);
        }
        None
    }

    /// Reads an undelimited block (see `undelimited_at`). Fails, and reads
    /// nothing, where no block title or no line of text comes.
    pub fn parse_undelimited_block(&mut self) -> (r: Result<Block, ParseError>)
        requires
            old(self).wf(),
        ensures
            final(self).wf(),
            match r {
                Ok(b) => undelimited_at(old(self)@.items, old(self)@.pos as int) == Some(
                    (b@, final(self)@.pos as int),
                ) && final(self)@ == old(self)@.at(final(self)@.pos),
                Err(e) => undelimited_at(old(self)@.items, old(self)@.pos as int) is None
                    && final(self)@ == old(self)@ && e.start == old(self)@.pos && e.end
                    == old(self)@.pos,
            },
    {
        let ghost m = self@;
        proof {
            self.lemma_wf_model();
        }
        self.push();
        let attributes = self.parse_attribute_line();
        match self.parse_block_title() {
            Some(title) => {
                let lines = self.parse_paragraph();
                if lines.len() > 0 {
                    let _ = self.drop();
                    let b = Block {
                        title,
                        level: 0,
                        attributes,
                        content: BlockContent::Undelimited(lines),
                    };
                    proof {
                        lemma_checkpoint_closed(m, self@.pos);
                        lemma_block_view(&b);
                    }
                    return Ok(b);
                }
            },
            None => {},
        }
        let _ = self.pop();
        proof {
            lemma_checkpoint_closed(m, self@.pos);
        }
        Err(self.error(String::from_str("expected a block title and a paragraph")))
    }

    /// Reads a section block (see `section_at`): a heading, optional attributes
    /// and the content. Fails, and reads nothing, where no heading comes.
    pub fn parse_section_block(&mut self) -> (r: Result<Block, ParseError>)
        requires
            old(self).wf(),
        ensures
            final(self).wf(),
            match r {
                Ok(b) => section_at(old(self)@.items, old(self)@.pos as int) == Some(
                    (b@, final(self)@.pos as int),
                ) && final(self)@ == old(self)@.at(final(self)@.pos),
                Err(e) => section_at(old(self)@.items, old(self)@.pos as int) is None
                    && final(self)@ == old(self)@ && e.start == old(self)@.pos && e.end
                    == old(self)@.pos,
            },
        decreases old(self)@.items.len() - old(self)@.pos, 2int,
    {
        let ghost m = self@;
        proof {
            self.lemma_wf_model();
            lemma_heading_progress(m.items, m.pos as int);
        }
        self.push();
        let heading = match self.parse_section_heading() {
            Ok(h) => h,
            Err(e) => {
                let _ = self.pop();
                proof {
                    lemma_checkpoint_closed(m, self@.pos);
                }
                return Err(e);
            },
        };
        let attributes = self.parse_attribute_line();
        let content = match self.parse_section_content() {
            Ok(v) => v,
            Err(_) => Vec::new(),
        };
        let _ = self.drop();
        let b = Block {
            title: heading.text,
            level: heading.level,
            attributes,
            content: BlockContent::Section(content),
        };
        proof {
            lemma_checkpoint_closed(m, self@.pos);
            lemma_block_view(&b);
        }
        Ok(b)
    }

    /// Reads the content of a section (see `content_at`): blocks and lines of
    /// text, until neither can be read. Never fails.
    pub fn parse_section_content(&mut self) -> (r: Result<Vec<SectionContent>, ParseError>)
        requires
            old(self).wf(),
        ensures
            final(self).wf(),
            final(self)@ == old(self)@.at(
                content_at(old(self)@.items, old(self)@.pos as int).1 as nat,
            ),
            r matches Ok(v) && section_view(v@) == content_at(
                old(self)@.items,
                old(self)@.pos as int,
            ).0,
            old(self)@.pos <= content_at(old(self)@.items, old(self)@.pos as int).1
                <= old(self)@.items.len(),
        decreases old(self)@.items.len() - old(self)@.pos, 4int,
    {
        let ghost m = self@;
        let ghost s = m.items;
        let mut content: Vec<SectionContent> = Vec::new();
        proof {
            self.lemma_wf_model();
            lemma_content_end(s, m.pos as int);
            assert(section_view(content@) + content_at(s, m.pos as int).0 =~= content_at(
                s,
                m.pos as int,
            ).0);
        }
        loop
            invariant
                m == old(self)@,
                s == m.items,
                self.wf(),
                self@ == m.at(self@.pos),
                m.pos <= self@.pos <= s.len(),
                section_view(content@) + content_at(s, self@.pos as int).0 == content_at(
                    s,
                    m.pos as int,
                ).0,
                content_at(s, self@.pos as int).1 == content_at(s, m.pos as int).1,
            ensures
                self.wf(),
                self@ == m.at(self@.pos),
                section_view(content@) == content_at(s, m.pos as int).0,
                self@.pos == content_at(s, m.pos as int).1,
            decreases s.len() - self@.pos,
        {
            let ghost j = self@.pos as int;
            proof {
                lemma_block_progress(s, j);
                lemma_scan_bounds(s, j, CharClass::NotControl);
            }
            let entry = match self.parse_block() {
                Ok(b) => SectionContent::Block(b),
                Err(_) => {
                    let start = self.current_position();
                    let line = match self.parse_line() {
                        Ok(t) => t,
                        Err(_) => String::new(),
                    };
                    self.skip_newline();
                    if self.current_position() == start {
                        proof {
                            assert(section_view(content@) + Seq::<NodeV>::empty() =~= section_view(
                                content@,
                            ));
                        }
                        break;
                    }
                    SectionContent::Text(line)
                },
            };
            proof {
                let rest = content_at(s, self@.pos as int).0;
                assert(section_view(content@.push(entry)) =~= section_view(content@).push(
                    entry@,
                ));
                assert(section_view(content@).push(entry@) + rest =~= section_view(content@) + (
                seq![entry@] + rest));
            }
            content.push(entry);
        }
        Ok(content)
    }

    /// Reads a block (see `block_at`): a section, else a list, else a
    /// delimited block, else an undelimited one. Fails, and reads nothing,
    /// where none of them can be read.
    pub fn parse_block(&mut self) -> (r: Result<Block, ParseError>)
        requires
            old(self).wf(),
        ensures
            final(self).wf(),
            match r {
                Ok(b) => block_at(old(self)@.items, old(self)@.pos as int) == Some(
                    (b@, final(self)@.pos as int),
                ) && final(self)@ == old(self)@.at(final(self)@.pos),
                Err(e) => block_at(old(self)@.items, old(self)@.pos as int) is None
                    && final(self)@ == old(self)@ && e.start == old(self)@.pos && e.end
                    == old(self)@.pos,
            },
        decreases old(self)@.items.len() - old(self)@.pos, 3int,
    {
        proof {
            self.lemma_wf_model();
        }
        match self.parse_section_block() {
            Ok(b) => {
                return Ok(b);
            },
            Err(_) => {},
        }
        match self.parse_list_block() {
            Ok(b) => {
                return Ok(b);
            },
            Err(_) => {},
        }
        match self.parse_delimited_block() {
            Ok(b) => {
                return Ok(b);
            },
            Err(_) => {},
        }
        self.parse_undelimited_block()
    }

    /// Reads blocks until one cannot be read (see `blocks_at`). Never fails.
    pub fn parse_document_content(&mut self) -> (r: Result<DocumentContent, ParseError>)
        requires
            old(self).wf(),
        ensures
            final(self).wf(),
            final(self)@ == old(self)@.at(
                blocks_at(old(self)@.items, old(self)@.pos as int).1 as nat,
            ),
            r matches Ok(c) && blocks_view(c.blocks@) == blocks_at(
                old(self)@.items,
                old(self)@.pos as int,
            ).0,
            old(self)@.pos <= blocks_at(old(self)@.items, old(self)@.pos as int).1
                <= old(self)@.items.len(),
    {
        let ghost m = self@;
        let ghost s = m.items;
        let mut blocks: Vec<Block> = Vec::new();
        proof {
            self.lemma_wf_model();
            lemma_blocks_end(s, m.pos as int);
            assert(blocks_view(blocks@) + blocks_at(s, m.pos as int).0 =~= blocks_at(
                s,
                m.pos as int,
            ).0);
        }
        loop
            invariant
                m == old(self)@,
                s == m.items,
                self.wf(),
                self@ == m.at(self@.pos),
                m.pos <= self@.pos <= s.len(),
                blocks_view(blocks@) + blocks_at(s, self@.pos as int).0 == blocks_at(
                    s,
                    m.pos as int,
                ).0,
                blocks_at(s, self@.pos as int).1 == blocks_at(s, m.pos as int).1,
            ensures
                self.wf(),
                self@ == m.at(self@.pos),
                blocks_view(blocks@) == blocks_at(s, m.pos as int).0,
                self@.pos == blocks_at(s, m.pos as int).1,
            decreases s.len() - self@.pos,
        {
            let ghost j = self@.pos as int;
            proof {
                lemma_block_progress(s, j);
            }
            match self.parse_block() {
                Ok(b) => {
                    proof {
                        let rest = blocks_at(s, self@.pos as int).0;
                        assert(blocks_view(blocks@.push(b)) =~= blocks_view(blocks@).push(b@));
                        assert(blocks_view(blocks@).push(b@) + rest =~= blocks_view(blocks@) + (
                        seq![b@] + rest));
                    }
                    blocks.push(b);
                },
                Err(_) => {
                    proof {
                        assert(blocks_view(blocks@) + Seq::<BlockV>::empty() =~= blocks_view(
                            blocks@,
                        ));
                    }
                    break;
                },
            }
        }
        Ok(DocumentContent { blocks })
    }
}

} // verus!
