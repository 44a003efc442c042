use vstd::prelude::*;

use crate::ast::{version_view, Date};
use crate::chars::{lemma_scan_bounds, scan, CharClass, is_digit};
use crate::checkpoint_iterator::{lemma_checkpoint_closed, CheckpointIterator};
use crate::outside::{calendar_date_exists, parses_as_uri, push_char, uri_accepts, valid_date};
use crate::parser::ParseError;

verus! {

/// The end of the line that starts at `i`: the first control character.
pub open spec fn line_end(s: Seq<char>, i: int) -> int {
    scan(s, i, CharClass::NotControl)
}

/// Past the newline at `j`, if there is one.
pub open spec fn eol(s: Seq<char>, j: int) -> int {
    if 0 <= j < s.len() && s[j] == '\n' {
        j + 1
    } else {
        j
    }
}

/// The characters of `run` without the `_` separators.
pub open spec fn digits_of(run: Seq<char>) -> Seq<char>
    decreases run.len(),
{
    if run.len() == 0 {
        run
    } else if run.last() == '_' {
        digits_of(run.drop_last())
    } else {
        digits_of(run.drop_last()).push(run.last())
    }
}

pub open spec fn digit_value(c: char) -> int {
    (c as u32) as int - ('0' as u32) as int
}

/// The number that a string of decimal digits denotes.
pub open spec fn decimal_value(d: Seq<char>) -> int
    decreases d.len(),
{
    if d.len() == 0 {
        0
    } else {
        decimal_value(d.drop_last()) * 10 + digit_value(d.last())
    }
}

/// A decimal number at `i`: a run of digits and `_`, with at least one digit,
/// whose value fits in an `isize`. Gives the value and the end of the run.
pub open spec fn decimal_at(s: Seq<char>, i: int) -> Option<(int, int)> {
    let e = scan(s, i, CharClass::DigitOrUnderscore);
    let d = digits_of(s.subrange(i, e));
    if d.len() > 0 && decimal_value(d) <= isize::MAX {
        Some((decimal_value(d), e))
    } else {
        None
    }
}

/// Decimal numbers separated by single dots, as many as there are.
pub open spec fn version_at(s: Seq<char>, i: int) -> (Seq<int>, int)
    decreases s.len() - i,
{
    match decimal_at(s, i) {
        Some((v, e)) => {
            let k = if e < s.len() && s[e] == '.' {
                e + 1
            } else {
                e
            };
            if i < e && k <= s.len() {
                let (rest, end) = version_at(s, k);
                (seq![v] + rest, end)
            } else {
                (Seq::empty(), i)
            }
        },
        None => (Seq::empty(), i),
    }
}

/// Exactly `n` decimal digits at `i`, and their value.
pub open spec fn fixed_digits_at(s: Seq<char>, i: int, n: int) -> Option<int> {
    if 0 <= i && i + n <= s.len() && forall|k: int| i <= k < i + n ==> is_digit(s[k]) {
        Some(decimal_value(s.subrange(i, i + n)))
    } else {
        None
    }
}

/// A date at `i`: four digits of year, two of month and two of day, with runs
/// of `-` allowed between them, naming a day of the calendar.
pub open spec fn date_at(s: Seq<char>, i: int) -> Option<((int, int, int), int)> {
    match fixed_digits_at(s, i, 4) {
        None => None,
        Some(y) => {
            let a = scan(s, i + 4, CharClass::Dash);
            match fixed_digits_at(s, a, 2) {
                None => None,
                Some(m) => {
                    let b = scan(s, a + 2, CharClass::Dash);
                    match fixed_digits_at(s, b, 2) {
                        None => None,
                        Some(d) => if valid_date(y, m, d) {
                            Some(((y, m, d), b + 2))
                        } else {
                            None
                        },
                    }
                },
            }
        },
    }
}

/// The URI-like token at `i`, if `http::Uri` accepts it: its text and end.
pub open spec fn url_at(s: Seq<char>, i: int) -> Option<(Seq<char>, int)> {
    let e = scan(s, i, CharClass::UriChar);
    if uri_accepts(s.subrange(i, e)) {
        Some((s.subrange(i, e), e))
    } else {
        None
    }
}

pub proof fn lemma_version_end(s: Seq<char>, i: int)
    requires
        0 <= i <= s.len(),
    ensures
        i <= version_at(s, i).1 <= s.len(),
    decreases s.len() - i,
{
    lemma_scan_bounds(s, i, CharClass::DigitOrUnderscore);
    match decimal_at(s, i) {
        Some((v, e)) => {
            let k = if e < s.len() && s[e] == '.' {
                e + 1
            } else {
                e
            };
            if i < e && k <= s.len() {
                lemma_version_end(s, k);
            }
        },
        None => {},
    }
}

pub proof fn lemma_date_end(s: Seq<char>, i: int)
    requires
        0 <= i <= s.len(),
    ensures
        date_at(s, i) matches Some((d, e)) ==> i < e <= s.len(),
{
    if fixed_digits_at(s, i, 4) is Some {
        lemma_scan_bounds(s, i + 4, CharClass::Dash);
        let a = scan(s, i + 4, CharClass::Dash);
        if fixed_digits_at(s, a, 2) is Some {
            lemma_scan_bounds(s, a + 2, CharClass::Dash);
        }
    }
}

/// The text of a sequence of characters, as a `String`.
pub fn string_of(v: &Vec<char>) -> (r: String)
    ensures
        r@ == v@,
{
    let mut r = String::new();
    let mut i: usize = 0;
    while i < v.len()
        invariant
            i <= v@.len(),
            r@ == v@.subrange(0, i as int),
        decreases v@.len() - i,
    {
        push_char(&mut r, v[i]);
        i = i + 1;
        proof {
            assert(r@ =~= v@.subrange(0, i as int));
        }
    }
    proof {
        assert(r@ =~= v@);
    }
    r
}

impl CheckpointIterator<char> {
    /// Consumes the next character if it is `c`.
    pub fn eat(&mut self, c: char) -> (r: bool)
        requires
            old(self).wf(),
        ensures
            final(self).wf(),
            r == (old(self)@.next_item() == Some(c)),
            r ==> final(self)@ == old(self)@.at(old(self)@.pos + 1),
            !r ==> final(self)@ == old(self)@,
    {
        match self.peek_item() {
            Some(x) => {
                if x == c {
                    let _ = self.step();
                    true
                } else {
                    false
                }
            },
            None => false,
        }
    }

    /// Consumes a newline if one comes next.
    pub fn skip_newline(&mut self)
        requires
            old(self).wf(),
        ensures
            final(self).wf(),
            final(self)@ == old(self)@.at(eol(old(self)@.items, old(self)@.pos as int) as nat),
    {
        let _ = self.eat('\n');
    }

    /// Reads up to the next control character, which stays unread. Never fails.
    pub fn parse_line(&mut self) -> (r: Result<String, ParseError>)
        requires
            old(self).wf(),
        ensures
            final(self).wf(),
            final(self)@ == old(self)@.at(
                line_end(old(self)@.items, old(self)@.pos as int) as nat,
            ),
            old(self)@.pos <= line_end(old(self)@.items, old(self)@.pos as int)
                <= old(self)@.items.len(),
            r matches Ok(t) && t@ == old(self)@.items.subrange(
                old(self)@.pos as int,
                line_end(old(self)@.items, old(self)@.pos as int),
            ),
    {
        let v = self.take_class(CharClass::NotControl);
        Ok(string_of(&v))
    }

    /// Reads a decimal number: digits with `_` separators, which are ignored.
    /// Fails, and reads nothing, where there is no digit or the number does
    /// not fit in an `isize`.
    pub fn parse_decimal(&mut self) -> (r: Result<isize, ParseError>)
        requires
            old(self).wf(),
        ensures
            final(self).wf(),
            match r {
                Ok(v) => decimal_at(old(self)@.items, old(self)@.pos as int) == Some(
                    (v as int, final(self)@.pos as int),
                ) && final(self)@ == old(self)@.at(final(self)@.pos),
                Err(e) => decimal_at(old(self)@.items, old(self)@.pos as int) is None
                    && final(self)@ == old(self)@ && e.start == old(self)@.pos && e.end
                    == old(self)@.pos,
            },
    {
        let ghost m = self@;
        proof {
            self.lemma_wf_model();
            lemma_scan_bounds(m.items, m.pos as int, CharClass::DigitOrUnderscore);
        }
        self.push();
        let run = self.take_class(CharClass::DigitOrUnderscore);
        let ghost e = scan(m.items, m.pos as int, CharClass::DigitOrUnderscore);
        let mut value: isize = 0;
        let mut any_digit = false;
        let mut too_big = false;
        let mut k: usize = 0;
        while k < run.len()
            invariant
                k <= run@.len(),
                run@ == m.items.subrange(m.pos as int, e),
                forall|j: int|
                    0 <= j < run@.len() ==> CharClass::DigitOrUnderscore.holds(#[trigger] run@[j]),
                any_digit == (digits_of(run@.subrange(0, k as int)).len() > 0),
                !too_big ==> value as int == decimal_value(digits_of(run@.subrange(0, k as int))),
                too_big ==> decimal_value(digits_of(run@.subrange(0, k as int))) > isize::MAX,
                0 <= value,
            decreases run@.len() - k,
        {
            let c = run[k];
            let ghost pre = run@.subrange(0, k as int);
            proof {
                assert(run@.subrange(0, k + 1).drop_last() =~= pre);
                assert(run@.subrange(0, k + 1).last() == c);
            }
            if c != '_' {
                any_digit = true;
                let dv = (c as u32 - '0' as u32) as isize;
                if !too_big {
                    match value.checked_mul(10) {
                        Some(t) => match t.checked_add(dv) {
                            Some(u) => {
                                value = u;
                            },
                            None => {
                                too_big = true;
                            },
                        },
                        None => {
                            too_big = true;
                        },
                    }
                } else {
                    proof {
                        let d0 = digits_of(pre);
                        assert(decimal_value(d0.push(c)) == decimal_value(d0) * 10 + digit_value(c)) by {
                            assert(d0.push(c).drop_last() =~= d0);
                        }
                    }
                }
                proof {
                    let d0 = digits_of(pre);
                    assert(d0.push(c).drop_last() =~= d0);
                }
            }
            k = k + 1;
        }
        proof {
            assert(run@.subrange(0, run@.len() as int) =~= run@);
        }
        if any_digit && !too_big {
            let _ = self.drop();
            proof {
                lemma_checkpoint_closed(m, e as nat);
            }
            Ok(value)
        } else {
            let _ = self.pop();
            proof {
                lemma_checkpoint_closed(m, e as nat);
            }
            Err(self.error(String::from_str("expected a decimal number")))
        }
    }

    /// Decimal numbers separated by single dots, as many as can be read; the
    /// dot after the last one, if any, is consumed. Never fails.
    pub fn parse_version(&mut self) -> (r: Result<Vec<isize>, ParseError>)
        requires
            old(self).wf(),
        ensures
            final(self).wf(),
            final(self)@ == old(self)@.at(
                version_at(old(self)@.items, old(self)@.pos as int).1 as nat,
            ),
            r matches Ok(v) && version_view(v@) == version_at(
                old(self)@.items,
                old(self)@.pos as int,
            ).0,
            old(self)@.pos <= version_at(old(self)@.items, old(self)@.pos as int).1
                <= old(self)@.items.len(),
    {
        let ghost m = self@;
        proof {
            self.lemma_wf_model();
            lemma_version_end(m.items, m.pos as int);
        }
        let mut version: Vec<isize> = Vec::new();
        proof {
            self.lemma_wf_model();
            assert(version_view(version@) + version_at(m.items, m.pos as int).0 =~= version_at(
                m.items,
                m.pos as int,
            ).0);
        }
        loop
            invariant
                self.wf(),
                self@ == m.at(self@.pos),
                self@.pos <= m.items.len(),
                version_view(version@) + version_at(m.items, self@.pos as int).0 == version_at(
                    m.items,
                    m.pos as int,
                ).0,
                version_at(m.items, self@.pos as int).1 == version_at(m.items, m.pos as int).1,
            ensures
                self.wf(),
                self@ == m.at(self@.pos),
                version_view(version@) == version_at(m.items, m.pos as int).0,
                self@.pos == version_at(m.items, m.pos as int).1,
            decreases m.items.len() - self@.pos,
        {
            let ghost p = self@.pos as int;
            proof {
                lemma_scan_bounds(m.items, p, CharClass::DigitOrUnderscore);
            }
            match self.parse_decimal() {
                Ok(v) => {
                    let ghost e = self@.pos as int;
                    let _ = self.eat('.');
                    proof {
                        assert(decimal_at(m.items, p) == Some((v as int, e)));
                        assert(digits_of(m.items.subrange(p, e)).len() > 0);
                        if e == p {
                            assert(m.items.subrange(p, e) =~= Seq::<char>::empty());
                        }
                        let rest = version_at(m.items, self@.pos as int).0;
                        assert(version_view(version@.push(v)) =~= version_view(version@).push(
                            v as int,
                        ));
                        assert(version_view(version@).push(v as int) + rest =~= version_view(
                            version@,
                        ) + (seq![v as int] + rest));
                    }
                    version.push(v);
                },
                Err(_) => {
                    proof {
                        assert(version_view(version@) + Seq::<int>::empty() =~= version_view(
                            version@,
                        ));
                    }
                    break;
                },
            }
        }
        Ok(version)
    }

    /// Reads `n` characters if they are all decimal digits and returns their
    /// value; otherwise the position it leaves is unspecified.
    fn read_digits(&mut self, n: usize) -> (r: Option<u32>)
        requires
            old(self).wf(),
            n <= 4,
        ensures
            final(self).wf(),
            final(self)@ == old(self)@.at(final(self)@.pos),
            final(self)@.pos <= final(self)@.items.len(),
            match fixed_digits_at(old(self)@.items, old(self)@.pos as int, n as int) {
                Some(v) => (r matches Some(x) && x as int == v) && final(self)@.pos == old(self)@.pos
                    + n,
                None => r is None,
            },
            r matches Some(v) ==> v < 10000,
    {
        let ghost m = self@;
        proof {
            self.lemma_wf_model();
        }
        let mut value: u32 = 0;
        let mut k: usize = 0;
        while k < n
            invariant
                m == old(self)@,
                self.wf(),
                self@ == m.at(self@.pos),
                self@.pos == m.pos + k,
                k <= n <= 4,
                m.pos + k <= m.items.len(),
                forall|j: int| m.pos <= j < m.pos + k ==> is_digit(m.items[j]),
                value as int == decimal_value(m.items.subrange(m.pos as int, m.pos + k)),
                k == 0 ==> value == 0,
                k <= 1 ==> value < 10,
                k <= 2 ==> value < 100,
                k <= 3 ==> value < 1000,
                value < 10000,
            decreases n - k,
        {
            let ghost before = m.items.subrange(m.pos as int, m.pos + k);
            match self.step() {
                None => {
                    return None;
                },
                Some(c) => {
                    if '0' <= c && c <= '9' {
                        proof {
                            let after = m.items.subrange(m.pos as int, m.pos + k + 1);
                            assert(after.drop_last() =~= before);
                        }
                        value = value * 10 + (c as u32 - '0' as u32);
                        k = k + 1;
                    } else {
                        return None;
                    }
                },
            }
        }
        Some(value)
    }

    /// Reads a date: four digits of year, two of month, two of day, with runs
    /// of `-` allowed between them. Fails, and reads nothing, where a field is
    /// missing or the day does not exist in the calendar.
    pub fn parse_date(&mut self) -> (r: Result<Date, ParseError>)
        requires
            old(self).wf(),
        ensures
            final(self).wf(),
            match r {
                Ok(d) => date_at(old(self)@.items, old(self)@.pos as int) == Some(
                    (d@, final(self)@.pos as int),
                ) && final(self)@ == old(self)@.at(final(self)@.pos),
                Err(e) => date_at(old(self)@.items, old(self)@.pos as int) is None
                    && final(self)@ == old(self)@ && e.start == old(self)@.pos && e.end
                    == old(self)@.pos,
            },
    {
        let ghost m = self@;
        proof {
            self.lemma_wf_model();
        }
        self.push();
        let year = self.read_digits(4);
        if let Some(y) = year {
            proof {
                lemma_scan_bounds(m.items, m.pos + 4int, CharClass::Dash);
            }
            self.skip_class(CharClass::Dash);
            let ghost a = self@.pos as int;
            let month = self.read_digits(2);
            if let Some(mo) = month {
                proof {
                    lemma_scan_bounds(m.items, a + 2, CharClass::Dash);
                }
                self.skip_class(CharClass::Dash);
                let day = self.read_digits(2);
                if let Some(d) = day {
                    if calendar_date_exists(y as i32, mo, d) {
                        let _ = self.drop();
                        proof {
                            lemma_checkpoint_closed(m, self@.pos);
                        }
                        return Ok(Date { year: y as i32, month: mo, day: d });
                    }
                }
            }
        }
        let _ = self.pop();
        proof {
            lemma_checkpoint_closed(m, self@.pos);
        }
        Err(self.error(String::from_str("expected a calendar date")))
    }

    /// Reads a URI-like token: letters, digits and URI punctuation. Fails, and
    /// reads nothing, where `http::Uri` does not accept the token; the error
    /// spans the token.
    pub fn parse_url(&mut self) -> (r: Result<String, ParseError>)
        requires
            old(self).wf(),
        ensures
            final(self).wf(),
            match r {
                Ok(u) => url_at(old(self)@.items, old(self)@.pos as int) == Some(
                    (u@, final(self)@.pos as int),
                ) && final(self)@ == old(self)@.at(final(self)@.pos),
                Err(e) => url_at(old(self)@.items, old(self)@.pos as int) is None
                    && final(self)@ == old(self)@
                    && e.start == old(self)@.pos
                    && e.end == scan(old(self)@.items, old(self)@.pos as int, CharClass::UriChar),
            },
    {
        let ghost m = self@;
        proof {
            self.lemma_wf_model();
            lemma_scan_bounds(m.items, m.pos as int, CharClass::UriChar);
        }
        self.push();
        let run = self.take_class(CharClass::UriChar);
        let token = string_of(&run);
        let accepted = parses_as_uri(token.as_str());
        let r = self.settle_url(token, accepted);
        proof {
            lemma_checkpoint_closed(m, scan(m.items, m.pos as int, CharClass::UriChar) as nat);
        }
        r
    }

    /// Closes the checkpoint that `parse_url` took before reading `token`:
    /// commits and returns the token where it was accepted, rewinds and fails
    /// otherwise.
    pub fn settle_url(&mut self, token: String, accepted: bool) -> (r: Result<String, ParseError>)
        requires
            old(self).wf(),
            old(self)@.marks.len() > 0,
            old(self)@.marks.last() + token@.len() == old(self)@.pos,
        ensures
            final(self).wf(),
            accepted ==> (r matches Ok(u) && u@ == token@ && final(self)@ == old(self)@.dropped()),
            !accepted ==> (r matches Err(e) && final(self)@ == old(self)@.popped() && e.start
                == old(self)@.marks.last() && e.end == old(self)@.pos),
    {
        if accepted {
            let _ = self.drop();
            Ok(token)
        } else {
            let end = self.current_position();
            let start = match self.pop() {
                Ok(p) => p,
                Err(_) => end,
            };
            Err(ParseError { start, end, message: String::from_str("expected a URI") })
        }
    }
}

} // verus!
