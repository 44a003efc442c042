use vstd::prelude::*;

use crate::ast::{
    authors_view, version_view, Author, AuthorV, DocumentHeader, HeaderV, Revision, RevisionV,
    SectionHeading,
};
use crate::chars::{char_is_control, is_control, lemma_scan_bounds, scan, CharClass};
use crate::checkpoint_iterator::{lemma_checkpoint_closed, CheckpointIterator};
use crate::lexer::{
    date_at, decimal_at, eol, lemma_date_end, line_end, string_of, url_at, version_at,
};
use crate::parser::ParseError;

verus! {

/// A heading at `i`: white space, a run of `=` (its length is the level), at
/// least one space, and the text up to the end of the line. Gives the level,
/// the text and the position past the line's newline.
pub open spec fn heading_at(s: Seq<char>, i: int) -> Option<(nat, Seq<char>, int)> {
    let a = scan(s, i, CharClass::Whitespace);
    let b = scan(s, a, CharClass::Equals);
    let c = scan(s, b, CharClass::Space);
    if b == a || c == b {
        None
    } else {
        let d = line_end(s, c);
        Some(((b - a) as nat, s.subrange(c, d), eol(s, d)))
    }
}

/// The words at `i`, separated by spaces, up to a control character, `;` or `<`.
/// Gives the words and the position after the spaces that follow the last one.
pub open spec fn words_at(s: Seq<char>, i: int) -> (Seq<Seq<char>>, int)
    decreases s.len() - i,
{
    let j = scan(s, i, CharClass::Blank);
    let k = scan(s, j, CharClass::NameChar);
    if i <= j < k <= s.len() {
        let (w, e) = words_at(s, k);
        (seq![s.subrange(j, k)] + w, e)
    } else {
        (Seq::empty(), j)
    }
}

/// An author named by `words`: the first, the second as middle name where there
/// are three or more, and the last as last name where there are two or more.
pub open spec fn author_of(words: Seq<Seq<char>>, email: Option<Seq<char>>) -> AuthorV {
    AuthorV {
        first: words[0],
        middle: if words.len() >= 3 {
            Some(words[1])
        } else {
            None
        },
        last: if words.len() >= 2 {
            Some(words.last())
        } else {
            None
        },
        email,
    }
}

/// An author entry at `i`: separators, at least one word, and optionally an
/// address between `<` and `>`.
pub open spec fn author_at(s: Seq<char>, i: int) -> Option<(AuthorV, int)> {
    let a = scan(s, i, CharClass::BlankOrSemicolon);
    let (words, b) = words_at(s, a);
    if words.len() == 0 {
        None
    } else if 0 <= b < s.len() && s[b] == '<' {
        match url_at(s, b + 1) {
            Some((u, c)) => if 0 <= c < s.len() && s[c] == '>' {
                Some((author_of(words, Some(u)), c + 1))
            } else {
                None
            },
            None => None,
        }
    } else {
        Some((author_of(words, None), b))
    }
}

/// Where a failed author entry at `i` is reported: the address, from past its
/// `<` to the end of its URI characters, where one was opened; else `i`.
pub open spec fn author_error_span(s: Seq<char>, i: int) -> (int, int) {
    let a = scan(s, i, CharClass::BlankOrSemicolon);
    let (words, b) = words_at(s, a);
    if words.len() > 0 && 0 <= b < s.len() && s[b] == '<' {
        (b + 1, scan(s, b + 1, CharClass::UriChar))
    } else {
        (i, i)
    }
}

/// Author entries at `i`, as many as can be read.
pub open spec fn authors_at(s: Seq<char>, i: int) -> (Seq<AuthorV>, int)
    decreases s.len() - i,
{
    match author_at(s, i) {
        Some((a, e)) => if i < e <= s.len() {
            let (rest, f) = authors_at(s, e);
            (seq![a] + rest, f)
        } else {
            (Seq::empty(), i)
        },
        None => (Seq::empty(), i),
    }
}

/// A revision line at `i`: an optional `v` and a version, then optionally
/// blanks or commas and a date, then blanks or colons and the remark up to the
/// end of the line.
pub open spec fn revision_at(s: Seq<char>, i: int) -> (RevisionV, int) {
    let a = if 0 <= i < s.len() && s[i] == 'v' && decimal_at(s, i + 1) is Some {
        i + 1
    } else {
        i
    };
    let (version, b) = version_at(s, a);
    let c = scan(s, b, CharClass::BlankOrComma);
    let (date, d) = match date_at(s, c) {
        Some((dt, e)) => (Some(dt), e),
        None => (None, b),
    };
    let e = scan(s, d, CharClass::BlankOrColon);
    let f = line_end(s, e);
    (RevisionV { version, date, remark: s.subrange(e, f) }, eol(s, f))
}

pub open spec fn empty_revision() -> RevisionV {
    RevisionV { version: Seq::empty(), date: None, remark: Seq::empty() }
}

/// A line of text starts at `j`, and it is no heading.
pub open spec fn line_present(s: Seq<char>, j: int) -> bool {
    0 <= j < s.len() && !is_control(s[j]) && heading_at(s, j) is None
}

/// The title line of a header at `i`: white space and the header marker, a
/// run of `=`. Where a space follows, the rest of the line is the title;
/// otherwise there is no title, and the rest of the line is skipped. Gives the
/// title and the position past the line.
pub open spec fn header_title_at(s: Seq<char>, i: int) -> Option<(Option<Seq<char>>, int)> {
    let a = scan(s, i, CharClass::Whitespace);
    let b = scan(s, a, CharClass::Equals);
    let c = scan(s, b, CharClass::Space);
    if b == a {
        None
    } else if c > b {
        let d = line_end(s, c);
        Some((Some(s.subrange(c, d)), eol(s, d)))
    } else {
        Some((None, eol(s, line_end(s, b))))
    }
}

/// A document header at `i`: its title line, then, where a line of text
/// follows, the author line, then, where one more follows, the revision line.
/// The header fails only where no header marker is found.
pub open spec fn header_at(s: Seq<char>, i: int) -> Option<(HeaderV, int)> {
    match header_title_at(s, i) {
        Some((title, a)) => {
            let (authors, b) = if line_present(s, a) {
                let (v, e) = authors_at(s, a);
                (v, eol(s, line_end(s, e)))
            } else {
                (Seq::empty(), a)
            };
            let (revision, c) = if line_present(s, b) {
                revision_at(s, b)
            } else {
                (empty_revision(), b)
            };
            Some((HeaderV { title, authors, revision }, c))
        },
        None => None,
    }
}

/// A heading always reads at least one character.
pub proof fn lemma_heading_progress(s: Seq<char>, i: int)
    requires
        0 <= i <= s.len(),
    ensures
        heading_at(s, i) matches Some((level, t, e)) ==> i < e <= s.len() && level >= 1,
{
    lemma_scan_bounds(s, i, CharClass::Whitespace);
    let a = scan(s, i, CharClass::Whitespace);
    lemma_scan_bounds(s, a, CharClass::Equals);
    let b = scan(s, a, CharClass::Equals);
    lemma_scan_bounds(s, b, CharClass::Space);
    let c = scan(s, b, CharClass::Space);
    lemma_scan_bounds(s, c, CharClass::NotControl);
}

pub proof fn lemma_words_end(s: Seq<char>, i: int)
    requires
        0 <= i <= s.len(),
    ensures
        i <= words_at(s, i).1 <= s.len(),
        words_at(s, i).0.len() > 0 ==> i < words_at(s, i).1,
    decreases s.len() - i,
{
    lemma_scan_bounds(s, i, CharClass::Blank);
    let j = scan(s, i, CharClass::Blank);
    lemma_scan_bounds(s, j, CharClass::NameChar);
    let k = scan(s, j, CharClass::NameChar);
    if i <= j < k <= s.len() {
        lemma_words_end(s, k);
    }
}

/// An author entry always reads at least one character.
pub proof fn lemma_author_progress(s: Seq<char>, i: int)
    requires
        0 <= i <= s.len(),
    ensures
        author_at(s, i) matches Some((a, e)) ==> i < e <= s.len(),
{
    lemma_scan_bounds(s, i, CharClass::BlankOrSemicolon);
    let a = scan(s, i, CharClass::BlankOrSemicolon);
    lemma_words_end(s, a);
    let b = words_at(s, a).1;
    if 0 <= b < s.len() && s[b] == '<' {
        lemma_scan_bounds(s, b + 1, CharClass::UriChar);
    }
}

pub proof fn lemma_authors_end(s: Seq<char>, i: int)
    requires
        0 <= i <= s.len(),
    ensures
        i <= authors_at(s, i).1 <= s.len(),
    decreases s.len() - i,
{
    lemma_author_progress(s, i);
    match author_at(s, i) {
        Some((a, e)) => if i < e <= s.len() {
            lemma_authors_end(s, e);
        },
        None => {},
    }
}

pub open spec fn strings_view(v: Seq<String>) -> Seq<Seq<char>> {
    v.map_values(|w: String| w@)
}

impl CheckpointIterator<char> {
    /// Reads a heading line (see `heading_at`). Fails, and reads nothing, where
    /// there is no `=` or no space after them.
    pub fn parse_section_heading(&mut self) -> (r: Result<SectionHeading, ParseError>)
        requires
            old(self).wf(),
        ensures
            final(self).wf(),
            match r {
                Ok(h) => heading_at(old(self)@.items, old(self)@.pos as int) == Some(
                    (h.level as nat, h.text@, final(self)@.pos as int),
                ) && final(self)@ == old(self)@.at(final(self)@.pos),
                Err(e) => heading_at(old(self)@.items, old(self)@.pos as int) is None
                    && final(self)@ == old(self)@ && e.start == old(self)@.pos && e.end
                    == old(self)@.pos,
            },
    {
        let ghost m = self@;
        proof {
            self.lemma_wf_model();
        }
        self.push();
        proof {
            let a = scan(m.items, m.pos as int, CharClass::Whitespace);
            let b = scan(m.items, a, CharClass::Equals);
            lemma_scan_bounds(m.items, m.pos as int, CharClass::Whitespace);
            lemma_scan_bounds(m.items, a, CharClass::Equals);
            lemma_scan_bounds(m.items, b, CharClass::Space);
        }
        self.skip_class(CharClass::Whitespace);
        let level = self.skip_class(CharClass::Equals);
        if level == 0 {
            let _ = self.pop();
            proof {
                lemma_checkpoint_closed(m, self@.pos);
            }
            return Err(self.error(String::from_str("expected '='")));
        }
        let spaces = self.skip_class(CharClass::Space);
        if spaces == 0 {
            let _ = self.pop();
            proof {
                lemma_checkpoint_closed(m, self@.pos);
            }
            return Err(self.error(String::from_str("expected ' '")));
        }
        let text = match self.parse_line() {
            Ok(t) => t,
            Err(_) => String::new(),
        };
        self.skip_newline();
        let _ = self.drop();
        proof {
            lemma_checkpoint_closed(m, self@.pos);
        }
        Ok(SectionHeading { level, text })
    }

    /// Reads the words of an author's name (see `words_at`). Never fails.
    fn parse_words(&mut self) -> (r: Vec<String>)
        requires
            old(self).wf(),
        ensures
            final(self).wf(),
            final(self)@ == old(self)@.at(
                words_at(old(self)@.items, old(self)@.pos as int).1 as nat,
            ),
            strings_view(r@) == words_at(old(self)@.items, old(self)@.pos as int).0,
            old(self)@.pos <= words_at(old(self)@.items, old(self)@.pos as int).1
                <= old(self)@.items.len(),
    {
        let ghost m = self@;
        proof {
            self.lemma_wf_model();
            lemma_words_end(m.items, m.pos as int);
        }
        let mut words: Vec<String> = Vec::new();
        proof {
            self.lemma_wf_model();
            assert(strings_view(words@) + words_at(m.items, m.pos as int).0 =~= words_at(
                m.items,
                m.pos as int,
            ).0);
        }
        loop
            invariant
                m == old(self)@,
                self.wf(),
                self@ == m.at(self@.pos),
                m.pos <= self@.pos <= m.items.len(),
                strings_view(words@) + words_at(m.items, self@.pos as int).0 == words_at(
                    m.items,
                    m.pos as int,
                ).0,
                words_at(m.items, self@.pos as int).1 == words_at(m.items, m.pos as int).1,
            ensures
                self.wf(),
                self@ == m.at(self@.pos),
                strings_view(words@) == words_at(m.items, m.pos as int).0,
                self@.pos == words_at(m.items, m.pos as int).1,
            decreases m.items.len() - self@.pos,
        {
            let ghost i = self@.pos as int;
            proof {
                lemma_scan_bounds(m.items, i, CharClass::Blank);
                lemma_scan_bounds(
                    m.items,
                    scan(m.items, i, CharClass::Blank),
                    CharClass::NameChar,
                );
            }
            self.skip_class(CharClass::Blank);
            let w = self.take_class(CharClass::NameChar);
            if w.len() == 0 {
                proof {
                    assert(strings_view(words@) + Seq::<Seq<char>>::empty() =~= strings_view(
                        words@,
                    ));
                }
                break;
            }
            let word = string_of(&w);
            proof {
                let rest = words_at(m.items, self@.pos as int).0;
                assert(strings_view(words@.push(word)) =~= strings_view(words@).push(word@));
                assert(strings_view(words@).push(word@) + rest =~= strings_view(words@) + (
                seq![word@] + rest));
            }
            words.push(word);
        }
        words
    }

    /// Reads one author entry (see `author_at`). Fails, and reads nothing, where
    /// there is no name, or where an address is opened with `<` and is not a
    /// URI or is not closed with `>`.
    pub fn parse_author(&mut self) -> (r: Result<Author, ParseError>)
        requires
            old(self).wf(),
        ensures
            final(self).wf(),
            match r {
                Ok(a) => author_at(old(self)@.items, old(self)@.pos as int) == Some(
                    (a@, final(self)@.pos as int),
                ) && final(self)@ == old(self)@.at(final(self)@.pos),
                Err(e) => author_at(old(self)@.items, old(self)@.pos as int) is None
                    && final(self)@ == old(self)@ && (e.start as int, e.end as int)
                    == author_error_span(old(self)@.items, old(self)@.pos as int),
            },
    {
        let ghost m = self@;
        proof {
            self.lemma_wf_model();
            lemma_scan_bounds(m.items, m.pos as int, CharClass::BlankOrSemicolon);
            lemma_words_end(m.items, scan(m.items, m.pos as int, CharClass::BlankOrSemicolon));
        }
        self.push();
        self.skip_class(CharClass::BlankOrSemicolon);
        let words = self.parse_words();
        let n = words.len();
        if n == 0 {
            let _ = self.pop();
            proof {
                lemma_checkpoint_closed(m, self@.pos);
            }
            return Err(self.error(String::from_str("expected an author name")));
        }
        let first_name = words[0].clone();
        let middle_name = if n >= 3 {
            Some(words[1].clone())
        } else {
            None
        };
        let last_name = if n >= 2 {
            Some(words[n - 1].clone())
        } else {
            None
        };
        if self.eat('<') {
            let start = self.current_position();
            proof {
                lemma_scan_bounds(m.items, start as int, CharClass::UriChar);
            }
            let url = self.parse_url();
            let error = match url {
                Ok(u) => {
                    let end = self.current_position();
                    if self.eat('>') {
                        let _ = self.drop();
                        proof {
                            lemma_checkpoint_closed(m, self@.pos);
                        }
                        return Ok(Author { first_name, middle_name, last_name, email: Some(u) });
                    }
                    ParseError { start, end, message: String::from_str("expected '>' to close '<'") }
                },
                Err(e) => e,
            };
            let _ = self.pop();
            proof {
                lemma_checkpoint_closed(m, self@.pos);
            }
            return Err(error);
        }
        let _ = self.drop();
        proof {
            lemma_checkpoint_closed(m, self@.pos);
        }
        Ok(Author { first_name, middle_name, last_name, email: None })
    }

    /// Reads author entries until one cannot be read. Never fails.
    pub fn parse_authors(&mut self) -> (r: Result<Vec<Author>, ParseError>)
        requires
            old(self).wf(),
        ensures
            final(self).wf(),
            final(self)@ == old(self)@.at(
                authors_at(old(self)@.items, old(self)@.pos as int).1 as nat,
            ),
            r matches Ok(v) && authors_view(v@) == authors_at(
                old(self)@.items,
                old(self)@.pos as int,
            ).0,
            old(self)@.pos <= authors_at(old(self)@.items, old(self)@.pos as int).1
                <= old(self)@.items.len(),
    {
        let ghost m = self@;
        proof {
            self.lemma_wf_model();
            lemma_authors_end(m.items, m.pos as int);
        }
        let mut authors: Vec<Author> = Vec::new();
        proof {
            self.lemma_wf_model();
            assert(authors_view(authors@) + authors_at(m.items, m.pos as int).0 =~= authors_at(
                m.items,
                m.pos as int,
            ).0);
        }
        loop
            invariant
                m == old(self)@,
                self.wf(),
                self@ == m.at(self@.pos),
                self@.pos <= m.items.len(),
                authors_view(authors@) + authors_at(m.items, self@.pos as int).0 == authors_at(
                    m.items,
                    m.pos as int,
                ).0,
                authors_at(m.items, self@.pos as int).1 == authors_at(m.items, m.pos as int).1,
            ensures
                self.wf(),
                self@ == m.at(self@.pos),
                authors_view(authors@) == authors_at(m.items, m.pos as int).0,
                self@.pos == authors_at(m.items, m.pos as int).1,
            decreases m.items.len() - self@.pos,
        {
            let ghost i = self@.pos as int;
            match self.parse_author() {
                Ok(a) => {
                    proof {
                        lemma_author_progress(m.items, i);
                        let rest = authors_at(m.items, self@.pos as int).0;
                        assert(authors_view(authors@.push(a)) =~= authors_view(authors@).push(a@));
                        assert(authors_view(authors@).push(a@) + rest =~= authors_view(authors@) + (
                        seq![a@] + rest));
                    }
                    authors.push(a);
                },
                Err(_) => {
                    proof {
                        assert(authors_view(authors@) + Seq::<AuthorV>::empty() =~= authors_view(
                            authors@,
                        ));
                    }
                    break;
                },
            }
        }
        Ok(authors)
    }

    /// Whether a decimal number comes next; reads nothing.
    fn decimal_follows(&mut self) -> (r: bool)
        requires
            old(self).wf(),
        ensures
            final(self).wf(),
            final(self)@ == old(self)@,
            r == decimal_at(old(self)@.items, old(self)@.pos as int) is Some,
    {
        let ghost m = self@;
        self.push();
        let d = self.parse_decimal();
        let _ = self.pop();
        proof {
            lemma_checkpoint_closed(m, self@.pos);
        }
        d.is_ok()
    }

    /// Whether a line of text that is no heading starts here; reads nothing.
    pub fn line_present_here(&mut self) -> (r: bool)
        requires
            old(self).wf(),
        ensures
            final(self).wf(),
            final(self)@ == old(self)@,
            r == line_present(old(self)@.items, old(self)@.pos as int),
    {
        let ghost m = self@;
        match self.peek_item() {
            None => false,
            Some(c) => {
                if char_is_control(c) {
                    false
                } else {
                    self.push();
                    let h = self.parse_section_heading();
                    let _ = self.pop();
                    proof {
                        lemma_checkpoint_closed(m, self@.pos);
                    }
                    h.is_err()
                }
            },
        }
    }

    /// Reads a revision line (see `revision_at`). Never fails: a missing
    /// version is empty, a missing date is `None`, the remark may be empty.
    pub fn parse_revision_line(&mut self) -> (r: Result<Revision, ParseError>)
        requires
            old(self).wf(),
        ensures
            final(self).wf(),
            final(self)@ == old(self)@.at(
                revision_at(old(self)@.items, old(self)@.pos as int).1 as nat,
            ),
            r matches Ok(v) && v@ == revision_at(old(self)@.items, old(self)@.pos as int).0,
            old(self)@.pos <= revision_at(old(self)@.items, old(self)@.pos as int).1
                <= old(self)@.items.len(),
    {
        let ghost m = self@;
        proof {
            self.lemma_wf_model();
        }
        self.push();
        if self.eat('v') {
            if self.decimal_follows() {
                let _ = self.drop();
            } else {
                let _ = self.pop();
            }
        } else {
            let _ = self.pop();
        }
        proof {
            lemma_checkpoint_closed(m, self@.pos);
        }
        let version = match self.parse_version() {
            Ok(v) => v,
            Err(_) => Vec::new(),
        };
        let ghost mb = self@;
        self.push();
        self.skip_class(CharClass::BlankOrComma);
        proof {
            lemma_date_end(m.items, self@.pos as int);
        }
        let date = match self.parse_date() {
            Ok(d) => {
                let _ = self.drop();
                Some(d)
            },
            Err(_) => {
                let _ = self.pop();
                None
            },
        };
        proof {
            lemma_checkpoint_closed(mb, self@.pos);
        }
        self.skip_class(CharClass::BlankOrColon);
        let remark = match self.parse_line() {
            Ok(t) => t,
            Err(_) => String::new(),
        };
        self.skip_newline();
        Ok(Revision { version, date, remark })
    }

    /// Reads a document header (see `header_at`). Fails, and reads nothing,
    /// where white space and a run of `=` do not come first.
    pub fn parse_document_header(&mut self) -> (r: Result<DocumentHeader, ParseError>)
        requires
            old(self).wf(),
        ensures
            final(self).wf(),
            match r {
                Ok(h) => header_at(old(self)@.items, old(self)@.pos as int) == Some(
                    (h@, final(self)@.pos as int),
                ) && final(self)@ == old(self)@.at(final(self)@.pos),
                Err(e) => header_at(old(self)@.items, old(self)@.pos as int) is None
                    && final(self)@ == old(self)@ && e.start == old(self)@.pos && e.end
                    == old(self)@.pos,
            },
    {
        let ghost m = self@;
        proof {
            self.lemma_wf_model();
        }
        self.push();
        proof {
            let a = scan(m.items, m.pos as int, CharClass::Whitespace);
            let b = scan(m.items, a, CharClass::Equals);
            lemma_scan_bounds(m.items, m.pos as int, CharClass::Whitespace);
            lemma_scan_bounds(m.items, a, CharClass::Equals);
            lemma_scan_bounds(m.items, b, CharClass::Space);
            lemma_scan_bounds(m.items, b, CharClass::NotControl);
        }
        self.skip_class(CharClass::Whitespace);
        let marker = self.skip_class(CharClass::Equals);
        if marker == 0 {
            let _ = self.pop();
            proof {
                lemma_checkpoint_closed(m, self@.pos);
            }
            return Err(self.error(String::from_str("expected a header marker '='")));
        }
        let spaces = self.skip_class(CharClass::Space);
        let line = match self.parse_line() {
            Ok(t) => t,
            Err(_) => String::new(),
        };
        self.skip_newline();
        let title = if spaces > 0 {
            Some(line)
        } else {
            None
        };
        let authors = if self.line_present_here() {
            let a = match self.parse_authors() {
                Ok(v) => v,
                Err(_) => Vec::new(),
            };
            let _ = self.parse_line();
            self.skip_newline();
            a
        } else {
            Vec::new()
        };
        let revision = if self.line_present_here() {
            match self.parse_revision_line() {
                Ok(v) => v,
                Err(_) => Revision { version: Vec::new(), date: None, remark: String::new() },
            }
        } else {
            Revision { version: Vec::new(), date: None, remark: String::new() }
        };
        let _ = self.drop();
        proof {
            lemma_checkpoint_closed(m, self@.pos);
            assert(authors_view(Seq::<Author>::empty()) =~= Seq::<AuthorV>::empty());
            assert(version_view(Seq::<isize>::empty()) =~= Seq::<int>::empty());
        }
        Ok(DocumentHeader { title, authors, revision })
    }
}

} // verus!
