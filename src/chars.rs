use vstd::prelude::*;

use crate::checkpoint_iterator::CheckpointIterator;
use crate::outside::{alphanumeric, char_is_alphanumeric};

verus! {

/// An ASCII control character (U+0000 to U+001F, and U+007F).
pub open spec fn is_control(c: char) -> bool {
    (c as u32) < 32 || (c as u32) == 127
}

/// A character with the Unicode White_Space property.
pub open spec fn is_white(c: char) -> bool {
    let u = c as u32;
    ||| 9 <= u <= 13
    ||| u == 32
    ||| u == 0x85
    ||| u == 0xA0
    ||| u == 0x1680
    ||| 0x2000 <= u <= 0x200A
    ||| u == 0x2028
    ||| u == 0x2029
    ||| u == 0x202F
    ||| u == 0x205F
    ||| u == 0x3000
}

pub open spec fn is_digit(c: char) -> bool {
    '0' <= c <= '9'
}

pub open spec fn is_ascii_alnum(c: char) -> bool {
    ||| is_digit(c)
    ||| 'a' <= c <= 'z'
    ||| 'A' <= c <= 'Z'
}

/// A letter or digit: among ASCII characters the letters and digits, beyond
/// them what `char::is_alphanumeric` accepts.
pub open spec fn is_alnum(c: char) -> bool {
    if (c as u32) < 128 {
        is_ascii_alnum(c)
    } else {
        alphanumeric(c)
    }
}

/// Punctuation allowed in a URI-like token besides letters and digits.
pub open spec fn is_uri_punct(c: char) -> bool {
    ||| c == '-'
    ||| c == '.'
    ||| c == '_'
    ||| c == '~'
    ||| c == ':'
    ||| c == '/'
    ||| c == '?'
    ||| c == '#'
    ||| c == '['
    ||| c == ']'
    ||| c == '@'
    ||| c == '!'
    ||| c == '$'
    ||| c == '&'
    ||| c == '\''
    ||| c == '('
    ||| c == ')'
    ||| c == '*'
    ||| c == '+'
    ||| c == ','
    ||| c == ';'
    ||| c == '%'
    ||| c == '='
}

/// White space within a line.
pub open spec fn is_blank(c: char) -> bool {
    is_white(c) && !is_control(c)
}

/// The single-character predicates that the lexers scan runs of.
#[derive(Clone, Copy, Debug, PartialEq, Eq, Structural)]
pub enum CharClass {
    Whitespace,
    Equals,
    Space,
    Dash,
    NotControl,
    DigitOrUnderscore,
    BlankOrComma,
    BlankOrColon,
    BlankOrSemicolon,
    Blank,
    NameChar,
    AttrKey,
    AttrValue,
    UriChar,
    Star,
    Dot,
}

impl CharClass {
    pub open spec fn holds(self, c: char) -> bool {
        match self {
            CharClass::Whitespace => is_white(c),
            CharClass::Equals => c == '=',
            CharClass::Space => c == ' ',
            CharClass::Dash => c == '-',
            CharClass::NotControl => !is_control(c),
            CharClass::DigitOrUnderscore => is_digit(c) || c == '_',
            CharClass::BlankOrComma => is_blank(c) || c == ',',
            CharClass::BlankOrColon => is_blank(c) || c == ':',
            CharClass::BlankOrSemicolon => is_blank(c) || c == ';',
            CharClass::Blank => is_blank(c),
            CharClass::NameChar => !(is_control(c) || c == ';' || c == '<' || is_blank(c)),
            CharClass::AttrKey => !(is_control(c) || c == '=' || c == ']' || c == ','),
            CharClass::AttrValue => !(is_control(c) || c == ']' || c == ','),
            CharClass::UriChar => is_alnum(c) || is_uri_punct(c),
            CharClass::Star => c == '*',
            CharClass::Dot => c == '.',
        }
    }

    pub fn matches(&self, c: char) -> (r: bool)
        ensures
            r == self.holds(c),
    {
        match self {
            CharClass::Whitespace => char_is_white(c),
            CharClass::Equals => c == '=',
            CharClass::Space => c == ' ',
            CharClass::Dash => c == '-',
            CharClass::NotControl => !char_is_control(c),
            CharClass::DigitOrUnderscore => ('0' <= c && c <= '9') || c == '_',
            CharClass::BlankOrComma => (char_is_white(c) && !char_is_control(c)) || c == ',',
            CharClass::BlankOrColon => (char_is_white(c) && !char_is_control(c)) || c == ':',
            CharClass::BlankOrSemicolon => (char_is_white(c) && !char_is_control(c)) || c == ';',
            CharClass::Blank => char_is_white(c) && !char_is_control(c),
            CharClass::NameChar => !(char_is_control(c) || c == ';' || c == '<' || (char_is_white(c)
                && !char_is_control(c))),
            CharClass::AttrKey => !(char_is_control(c) || c == '=' || c == ']' || c == ','),
            CharClass::AttrValue => !(char_is_control(c) || c == ']' || c == ','),
            CharClass::UriChar => char_is_uri(c),
            CharClass::Star => c == '*',
            CharClass::Dot => c == '.',
        }
    }
}

pub fn char_is_control(c: char) -> (r: bool)
    ensures
        r == is_control(c),
{
    (c as u32) < 32 || (c as u32) == 127
}

pub fn char_is_white(c: char) -> (r: bool)
    ensures
        r == is_white(c),
{
    let u = c as u32;
    (9 <= u && u <= 13) || u == 32 || u == 0x85 || u == 0xA0 || u == 0x1680 || (0x2000 <= u && u
        <= 0x200A) || u == 0x2028 || u == 0x2029 || u == 0x202F || u == 0x205F || u == 0x3000
}

fn char_is_uri(c: char) -> (r: bool)
    ensures
        r == (is_alnum(c) || is_uri_punct(c)),
{
    let alnum = if (c as u32) < 128 {
        ('0' <= c && c <= '9') || ('a' <= c && c <= 'z') || ('A' <= c && c <= 'Z')
    } else {
        char_is_alphanumeric(c)
    };
    alnum || c == '-' || c
        == '.' || c == '_' || c == '~' || c == ':' || c == '/' || c == '?' || c == '#' || c == '['
        || c == ']' || c == '@' || c == '!' || c == '$' || c == '&' || c == '\'' || c == '(' || c
        == ')' || c == '*' || c == '+' || c == ',' || c == ';' || c == '%' || c == '='
}

/// The end of the longest run of characters of class `cls` that starts at `i`.
pub open spec fn scan(s: Seq<char>, i: int, cls: CharClass) -> int
    decreases s.len() - i,
{
    if 0 <= i < s.len() && cls.holds(s[i]) {
        scan(s, i + 1, cls)
    } else {
        i
    }
}

/// A run that ends where its class stops holding is the longest one.
pub proof fn lemma_scan_end(s: Seq<char>, i: int, j: int, cls: CharClass)
    requires
        0 <= i <= j <= s.len(),
        forall|k: int| i <= k < j ==> cls.holds(s[k]),
        j == s.len() || !cls.holds(s[j]),
    ensures
        scan(s, i, cls) == j,
    decreases j - i,
{
    if i < j {
        lemma_scan_end(s, i + 1, j, cls);
    }
}

pub proof fn lemma_scan_bounds(s: Seq<char>, i: int, cls: CharClass)
    requires
        0 <= i <= s.len(),
    ensures
        i <= scan(s, i, cls) <= s.len(),
        forall|k: int| i <= k < scan(s, i, cls) ==> cls.holds(s[k]),
        scan(s, i, cls) == s.len() || !cls.holds(s[scan(s, i, cls)]),
    decreases s.len() - i,
{
    if i < s.len() && cls.holds(s[i]) {
        lemma_scan_bounds(s, i + 1, cls);
    }
}

impl CheckpointIterator<char> {
    /// Reads the longest run of characters of class `cls` and returns it.
    pub fn take_class(&mut self, cls: CharClass) -> (r: Vec<char>)
        requires
            old(self).wf(),
        ensures
            final(self).wf(),
            final(self)@ == old(self)@.at(
                scan(old(self)@.items, old(self)@.pos as int, cls) as nat,
            ),
            r@ == old(self)@.items.subrange(
                old(self)@.pos as int,
                scan(old(self)@.items, old(self)@.pos as int, cls),
            ),
            old(self)@.pos <= scan(old(self)@.items, old(self)@.pos as int, cls)
                <= old(self)@.items.len(),
    {
        let ghost m = self@;
        proof {
            self.lemma_wf_model();
            lemma_scan_bounds(m.items, m.pos as int, cls);
        }
        let r = self.take_while_ref(|c: char| -> (b: bool)
            ensures
                b == cls.holds(c),
            { cls.matches(c) });
        proof {
            lemma_scan_end(m.items, m.pos as int, self@.pos as int, cls);
        }
        r
    }

    /// Skips the longest run of characters of class `cls`; returns its length.
    pub fn skip_class(&mut self, cls: CharClass) -> (r: usize)
        requires
            old(self).wf(),
        ensures
            final(self).wf(),
            final(self)@ == old(self)@.at(
                scan(old(self)@.items, old(self)@.pos as int, cls) as nat,
            ),
            r == scan(old(self)@.items, old(self)@.pos as int, cls) - old(self)@.pos,
            old(self)@.pos <= scan(old(self)@.items, old(self)@.pos as int, cls)
                <= old(self)@.items.len(),
    {
        proof {
            self.lemma_wf_model();
            lemma_scan_bounds(self@.items, self@.pos as int, cls);
        }
        let v = self.take_class(cls);
        v.len()
    }
}

} // verus!
