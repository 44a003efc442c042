use vstd::arithmetic::div_mod::lemma_fundamental_div_mod;
use vstd::prelude::*;

use crate::ast::{
    authors_view, version_view, Author, AuthorV, Date, DocumentHeader, HeaderV, Revision,
    RevisionV,
};
use crate::chars::{
    is_blank, is_control, is_digit, is_white, lemma_scan_bounds, lemma_scan_end, scan, CharClass,
};
use crate::header::{
    author_at, authors_at, empty_revision, header_at, header_title_at, heading_at, line_present,
    revision_at, words_at,
};
use crate::lexer::{date_at, decimal_at, eol, line_end, decimal_value, digit_value, digits_of, version_at};
use crate::outside::{push_char, uri_accepts, valid_date};
use crate::printer::{heading_text, lemma_heading_at, printable_title, render_heading};

verus! {

pub open spec fn digit_char(d: int) -> char {
    if d == 0 {
        '0'
    } else if d == 1 {
        '1'
    } else if d == 2 {
        '2'
    } else if d == 3 {
        '3'
    } else if d == 4 {
        '4'
    } else if d == 5 {
        '5'
    } else if d == 6 {
        '6'
    } else if d == 7 {
        '7'
    } else if d == 8 {
        '8'
    } else {
        '9'
    }
}

/// The decimal digits of `n`, without leading zeros.
pub open spec fn decimal_text(n: nat) -> Seq<char>
    decreases n,
{
    if n < 10 {
        seq![digit_char(n as int)]
    } else {
        decimal_text(n / 10).push(digit_char((n % 10) as int))
    }
}

pub proof fn lemma_digit_char(d: int)
    requires
        0 <= d < 10,
    ensures
        is_digit(digit_char(d)),
        digit_value(digit_char(d)) == d,
{
}

pub proof fn lemma_decimal_text(n: nat)
    ensures
        decimal_text(n).len() >= 1,
        forall|k: int| 0 <= k < decimal_text(n).len() ==> is_digit(#[trigger] decimal_text(n)[k]),
        decimal_value(decimal_text(n)) == n,
        digits_of(decimal_text(n)) == decimal_text(n),
    decreases n,
{
    if n < 10 {
        lemma_digit_char(n as int);
        let t = decimal_text(n);
        assert(t.drop_last() =~= Seq::<char>::empty());
        assert(digits_of(t.drop_last()) =~= Seq::<char>::empty());
        assert(digits_of(t) =~= t);
        assert(decimal_value(t) == decimal_value(t.drop_last()) * 10 + digit_value(t.last()));
        assert(decimal_value(t.drop_last()) == 0);
    } else {
        lemma_decimal_text(n / 10);
        lemma_digit_char((n % 10) as int);
        lemma_fundamental_div_mod(n as int, 10);
        let t = decimal_text(n);
        let p = decimal_text(n / 10);
        assert(t.drop_last() =~= p);
        assert(t.last() == digit_char((n % 10) as int));
        assert(decimal_value(t) == decimal_value(p) * 10 + digit_value(t.last()));
        assert forall|k: int| 0 <= k < t.len() implies is_digit(#[trigger] t[k]) by {
            if k < p.len() {
                assert(t[k] == p[k]);
            }
        }
    }
}

/// A decimal number printed at `j`, followed by neither a digit nor `_`,
/// reads back as itself.
pub proof fn lemma_decimal_at(s: Seq<char>, j: int, n: nat)
    requires
        n <= isize::MAX,
        0 <= j,
        j + decimal_text(n).len() <= s.len(),
        s.subrange(j, j + decimal_text(n).len()) == decimal_text(n),
        j + decimal_text(n).len() == s.len() || !(is_digit(s[j + decimal_text(n).len()])
            || s[j + decimal_text(n).len()] == '_'),
    ensures
        decimal_at(s, j) == Some((n as int, j + decimal_text(n).len())),
{
    let t = decimal_text(n);
    lemma_decimal_text(n);
    assert forall|k: int| j <= k < j + t.len() implies CharClass::DigitOrUnderscore.holds(s[k]) by {
        assert(s[k] == s.subrange(j, j + t.len())[k - j]);
    }
    lemma_scan_end(s, j, j + t.len(), CharClass::DigitOrUnderscore);
}

/// Version numbers, separated by dots.
pub open spec fn version_text(v: Seq<int>) -> Seq<char>
    decreases v.len(),
{
    if v.len() == 0 {
        Seq::empty()
    } else if v.len() == 1 {
        decimal_text(v[0] as nat)
    } else {
        decimal_text(v[0] as nat) + seq!['.'] + version_text(v.drop_first())
    }
}

pub open spec fn printable_version(v: Seq<int>) -> bool {
    forall|k: int| 0 <= k < v.len() ==> 0 <= #[trigger] v[k] <= isize::MAX
}

pub open spec fn ends_number(s: Seq<char>, j: int) -> bool {
    j == s.len() || !(is_digit(s[j]) || s[j] == '_' || s[j] == '.')
}

proof fn lemma_sub_char(s: Seq<char>, j: int, x: Seq<char>, k: int)
    requires
        0 <= j,
        j + x.len() <= s.len(),
        s.subrange(j, j + x.len()) == x,
        0 <= k < x.len(),
    ensures
        s[j + k] == x[k],
{
    assert(s[j + k] == s.subrange(j, j + x.len())[k]);
}

proof fn lemma_sub_split(s: Seq<char>, j: int, x: Seq<char>, y: Seq<char>)
    requires
        0 <= j,
        j + x.len() + y.len() <= s.len(),
        s.subrange(j, j + x.len() + y.len()) == x + y,
    ensures
        s.subrange(j, j + x.len()) == x,
        s.subrange(j + x.len(), j + x.len() + y.len()) == y,
{
    assert(s.subrange(j, j + x.len()) =~= (x + y).subrange(0, x.len() as int));
    assert((x + y).subrange(0, x.len() as int) =~= x);
    assert(s.subrange(j + x.len(), j + x.len() + y.len()) =~= (x + y).subrange(
        x.len() as int,
        (x.len() + y.len()) as int,
    ));
    assert((x + y).subrange(x.len() as int, (x.len() + y.len()) as int) =~= y);
}

/// A version printed at `j`, followed by no digit, `_` or `.`, reads back as
/// itself.
pub proof fn lemma_version_at(s: Seq<char>, j: int, v: Seq<int>)
    requires
        printable_version(v),
        0 <= j,
        j + version_text(v).len() <= s.len(),
        s.subrange(j, j + version_text(v).len()) == version_text(v),
        ends_number(s, j + version_text(v).len()),
    ensures
        version_at(s, j) == (v, j + version_text(v).len()),
    decreases v.len(),
{
    if v.len() == 0 {
        lemma_scan_end(s, j, j, CharClass::DigitOrUnderscore);
        assert(s.subrange(j, j) =~= Seq::<char>::empty());
        assert(digits_of(Seq::<char>::empty()) =~= Seq::<char>::empty());
        assert(v =~= Seq::<int>::empty());
        assert(decimal_at(s, j) is None);
    } else {
        let n = v[0] as nat;
        let t = decimal_text(n);
        lemma_decimal_text(n);
        if v.len() == 1 {
            lemma_decimal_at(s, j, n);
            let e = j + t.len();
            lemma_scan_end(s, e, e, CharClass::DigitOrUnderscore);
            assert(s.subrange(e, e) =~= Seq::<char>::empty());
            assert(digits_of(Seq::<char>::empty()) =~= Seq::<char>::empty());
            assert(v =~= seq![v[0]]);
            assert(seq![v[0]] + Seq::<int>::empty() =~= v);
            assert(decimal_at(s, j) == Some((v[0], e)));
            assert(decimal_at(s, e) is None);
            assert(version_at(s, e) == (Seq::<int>::empty(), e));
            assert(version_at(s, j) == (v, e));
        } else {
            let tail = v.drop_first();
            let vt = version_text(tail);
            lemma_sub_split(s, j, t + seq!['.'], vt);
            lemma_sub_split(s, j, t, seq!['.']);
            lemma_sub_char(s, j + t.len(), seq!['.'], 0);
            lemma_decimal_at(s, j, n);
            assert(printable_version(tail)) by {
                assert forall|k: int| 0 <= k < tail.len() implies 0 <= #[trigger] tail[k]
                    <= isize::MAX by {
                    assert(tail[k] == v[k + 1]);
                }
            }
            lemma_version_at(s, j + t.len() + 1, tail);
            assert(seq![v[0]] + tail =~= v);
        }
    }
}

/// Four digits, with leading zeros.
pub open spec fn four_digits(n: int) -> Seq<char> {
    seq![
        digit_char(n / 1000),
        digit_char((n / 100) % 10),
        digit_char((n / 10) % 10),
        digit_char(n % 10),
    ]
}

/// Two digits, with a leading zero.
pub open spec fn two_digits(n: int) -> Seq<char> {
    seq![digit_char(n / 10), digit_char(n % 10)]
}

/// A date as `yyyy-mm-dd`.
pub open spec fn date_text(d: (int, int, int)) -> Seq<char> {
    four_digits(d.0) + seq!['-'] + two_digits(d.1) + seq!['-'] + two_digits(d.2)
}

proof fn lemma_four_digits(n: int)
    requires
        0 <= n <= 9999,
    ensures
        forall|k: int| 0 <= k < 4 ==> is_digit(#[trigger] four_digits(n)[k]),
        decimal_value(four_digits(n)) == n,
{
    let x = four_digits(n);
    lemma_digit_char(n / 1000);
    lemma_digit_char((n / 100) % 10);
    lemma_digit_char((n / 10) % 10);
    lemma_digit_char(n % 10);
    let x3 = x.drop_last();
    let x2 = x3.drop_last();
    let x1 = x2.drop_last();
    let x0 = x1.drop_last();
    assert(x0 =~= Seq::<char>::empty());
    assert(decimal_value(x0) == 0);
    assert(decimal_value(x1) == digit_value(x[0]));
    assert(decimal_value(x2) == decimal_value(x1) * 10 + digit_value(x[1]));
    assert(decimal_value(x3) == decimal_value(x2) * 10 + digit_value(x[2]));
    assert(decimal_value(x) == decimal_value(x3) * 10 + digit_value(x[3]));
    assert((((n / 1000) * 10 + (n / 100) % 10) * 10 + (n / 10) % 10) * 10 + n % 10 == n)
        by (nonlinear_arith)
        requires
            0 <= n <= 9999,
    ;
}

proof fn lemma_two_digits(n: int)
    requires
        0 <= n <= 99,
    ensures
        forall|k: int| 0 <= k < 2 ==> is_digit(#[trigger] two_digits(n)[k]),
        decimal_value(two_digits(n)) == n,
{
    let x = two_digits(n);
    lemma_digit_char(n / 10);
    lemma_digit_char(n % 10);
    let x1 = x.drop_last();
    let x0 = x1.drop_last();
    assert(x0 =~= Seq::<char>::empty());
    assert(decimal_value(x0) == 0);
    assert(decimal_value(x1) == digit_value(x[0]));
    assert(decimal_value(x) == decimal_value(x1) * 10 + digit_value(x[1]));
    assert((n / 10) * 10 + n % 10 == n) by (nonlinear_arith)
        requires
            0 <= n <= 99,
    ;
}

pub open spec fn printable_date(d: (int, int, int)) -> bool {
    0 <= d.0 <= 9999 && valid_date(d.0, d.1, d.2)
}

/// A date printed at `j` reads back as itself.
pub proof fn lemma_date_at(s: Seq<char>, j: int, d: (int, int, int))
    requires
        printable_date(d),
        0 <= j,
        j + 10 <= s.len(),
        s.subrange(j, j + 10) == date_text(d),
    ensures
        date_at(s, j) == Some((d, j + 10)),
{
    let y = four_digits(d.0);
    let m = two_digits(d.1);
    let dd = two_digits(d.2);
    let t = date_text(d);
    lemma_four_digits(d.0);
    lemma_two_digits(d.1);
    lemma_two_digits(d.2);
    assert(t.len() == 10);
    assert forall|k: int| 0 <= k < 10 implies s[j + k] == t[k] by {
        lemma_sub_char(s, j, t, k);
    }
    assert(t[4] == '-' && t[7] == '-');
    assert(t[5] == m[0] && t[6] == m[1]);
    assert(t[8] == dd[0] && t[9] == dd[1]);
    assert(t[0] == y[0] && t[1] == y[1] && t[2] == y[2] && t[3] == y[3]);
    assert(s.subrange(j, j + 4) =~= y);
    assert(s.subrange(j + 5, j + 7) =~= m);
    assert(s.subrange(j + 8, j + 10) =~= dd);
    assert forall|k: int| j <= k < j + 4 implies is_digit(s[k]) by {
        assert(s[k] == y[k - j]);
    }
    assert forall|k: int| j + 5 <= k < j + 7 implies is_digit(s[k]) by {
        assert(s[k] == m[k - j - 5]);
    }
    assert forall|k: int| j + 8 <= k < j + 10 implies is_digit(s[k]) by {
        assert(s[k] == dd[k - j - 8]);
    }
    assert(is_digit(s[j + 5]));
    assert(is_digit(s[j + 8]));
    lemma_scan_end(s, j + 4, j + 5, CharClass::Dash);
    lemma_scan_end(s, j + 7, j + 8, CharClass::Dash);
}

/// The text of a revision line: `v` and the version where there is one, a
/// comma and the date where there is one, then a colon and the remark.
pub open spec fn revision_text(r: RevisionV) -> Seq<char> {
    let vpart = if r.version.len() > 0 {
        seq!['v'] + version_text(r.version)
    } else {
        Seq::empty()
    };
    let dpart = match r.date {
        Some(d) => seq![',', ' '] + date_text(d),
        None => Seq::empty(),
    };
    vpart + dpart + seq![':', ' '] + r.remark + seq!['\n']
}

/// A revision that its line gives back: versions that fit, a date of the
/// calendar, and a remark without control characters that starts with no
/// blank and no colon.
pub open spec fn printable_revision(r: RevisionV) -> bool {
    &&& printable_version(r.version)
    &&& r.date matches Some(d) ==> printable_date(d)
    &&& forall|k: int| 0 <= k < r.remark.len() ==> !is_control(#[trigger] r.remark[k])
    &&& r.remark.len() > 0 ==> !is_blank(r.remark[0]) && r.remark[0] != ':'
}

/// A revision line printed at `i` reads back as the same revision.
#[verifier::rlimit(60)]
pub proof fn lemma_revision_at(s: Seq<char>, i: int, r: RevisionV)
    requires
        printable_revision(r),
        0 <= i,
        i + revision_text(r).len() <= s.len(),
        s.subrange(i, i + revision_text(r).len()) == revision_text(r),
    ensures
        revision_at(s, i) == (r, i + revision_text(r).len()),
{
    let vpart = if r.version.len() > 0 {
        seq!['v'] + version_text(r.version)
    } else {
        Seq::empty()
    };
    let dpart = match r.date {
        Some(d) => seq![',', ' '] + date_text(d),
        None => Seq::empty(),
    };
    let tail = seq![':', ' '] + r.remark + seq!['\n'];
    let t = revision_text(r);
    assert(t =~= vpart + (dpart + tail));
    lemma_sub_split(s, i, vpart, dpart + tail);
    let b = i + vpart.len();
    lemma_sub_split(s, b, dpart, tail);
    let d = b + dpart.len();
    // what follows the version is `,` or `:`
    assert(s[b] == ',' || s[b] == ':') by {
        if r.date is Some {
            lemma_sub_char(s, b, dpart, 0);
        } else {
            assert(dpart.len() == 0);
            lemma_sub_char(s, d, tail, 0);
        }
    }
    let a = if r.version.len() > 0 {
        i + 1
    } else {
        i
    };
    if r.version.len() > 0 {
        lemma_sub_split(s, i, seq!['v'], version_text(r.version));
        lemma_sub_char(s, i, seq!['v'], 0);
        lemma_version_at(s, i + 1, r.version);
        let n0 = r.version[0] as nat;
        lemma_decimal_text(n0);
        let vt = version_text(r.version);
        if r.version.len() == 1 {
            lemma_decimal_at(s, i + 1, n0);
        } else {
            let rest = version_text(r.version.drop_first());
            lemma_sub_split(s, i + 1, decimal_text(n0) + seq!['.'], rest);
            lemma_sub_split(s, i + 1, decimal_text(n0), seq!['.']);
            lemma_sub_char(s, i + 1 + decimal_text(n0).len(), seq!['.'], 0);
            lemma_decimal_at(s, i + 1, n0);
        }
        assert(decimal_at(s, i + 1) is Some);
    } else {
        lemma_version_at(s, i, r.version);
    }
    assert(version_at(s, a) == (r.version, b));
    match r.date {
        Some(dt) => {
            lemma_sub_split(s, b, seq![',', ' '], date_text(dt));
            lemma_sub_char(s, b, seq![',', ' '], 0);
            lemma_sub_char(s, b, seq![',', ' '], 1);
            lemma_four_digits(dt.0);
            lemma_sub_char(s, b + 2, date_text(dt), 0);
            assert(is_digit(s[b + 2]));
            lemma_scan_end(s, b, b + 2, CharClass::BlankOrComma);
            lemma_date_at(s, b + 2, dt);
        },
        None => {
            lemma_sub_char(s, d, tail, 0);
            lemma_scan_end(s, b, b, CharClass::BlankOrComma);
        },
    }
    assert(tail =~= seq![':', ' '] + (r.remark + seq!['\n']));
    lemma_sub_split(s, d, seq![':', ' '], r.remark + seq!['\n']);
    lemma_sub_char(s, d, seq![':', ' '], 0);
    lemma_sub_char(s, d, seq![':', ' '], 1);
    let e = d + 2;
    let rn = r.remark + seq!['\n'];
    lemma_sub_char(s, e, rn, 0);
    if r.remark.len() > 0 {
        assert(s[e] == r.remark[0]);
    }
    lemma_scan_end(s, d, e, CharClass::BlankOrColon);
    assert forall|k: int| e <= k < e + r.remark.len() implies !is_control(s[k]) by {
        lemma_sub_char(s, e, rn, k - e);
    }
    lemma_sub_char(s, e, rn, r.remark.len() as int);
    lemma_scan_end(s, e, e + r.remark.len(), CharClass::NotControl);
    lemma_sub_split(s, e, r.remark, seq!['\n']);
}

/// Words separated by single spaces.
pub open spec fn words_text(ws: Seq<Seq<char>>) -> Seq<char>
    decreases ws.len(),
{
    if ws.len() == 0 {
        Seq::empty()
    } else if ws.len() == 1 {
        ws[0]
    } else {
        ws[0] + seq![' '] + words_text(ws.drop_first())
    }
}

/// A word of a name that reads back as itself: not empty, of name
/// characters, with no white space.
pub open spec fn printable_word(w: Seq<char>) -> bool {
    &&& w.len() > 0
    &&& forall|k: int|
        0 <= k < w.len() ==> CharClass::NameChar.holds(#[trigger] w[k]) && !is_white(w[k])
}

pub open spec fn author_words(a: AuthorV) -> Seq<Seq<char>> {
    seq![a.first] + (match a.middle {
        Some(m) => seq![m],
        None => Seq::empty(),
    }) + (match a.last {
        Some(l) => seq![l],
        None => Seq::empty(),
    })
}

/// The text of an author: the names, then the address between `<` and `>`.
pub open spec fn author_text(a: AuthorV) -> Seq<char> {
    words_text(author_words(a)) + match a.email {
        Some(e) => seq!['<'] + e + seq!['>'],
        None => Seq::empty(),
    }
}

/// An author that its text gives back: printable names, a middle name only
/// with a last name, and an address of URI characters that `http::Uri`
/// accepts.
pub open spec fn printable_author(a: AuthorV) -> bool {
    &&& printable_word(a.first)
    &&& a.first[0] != '='
    &&& a.middle matches Some(m) ==> printable_word(m) && a.last is Some
    &&& a.last matches Some(l) ==> printable_word(l)
    &&& a.email matches Some(e) ==> uri_accepts(e) && forall|k: int|
        0 <= k < e.len() ==> CharClass::UriChar.holds(#[trigger] e[k])
}

/// Authors separated by `; `.
pub open spec fn authors_text(v: Seq<AuthorV>) -> Seq<char>
    decreases v.len(),
{
    if v.len() == 0 {
        Seq::empty()
    } else if v.len() == 1 {
        author_text(v[0])
    } else {
        author_text(v[0]) + seq![';', ' '] + authors_text(v.drop_first())
    }
}

pub open spec fn printable_authors(v: Seq<AuthorV>) -> bool {
    forall|k: int| 0 <= k < v.len() ==> printable_author(#[trigger] v[k])
}

proof fn lemma_words_at(s: Seq<char>, i: int, ws: Seq<Seq<char>>)
    requires
        ws.len() >= 1,
        forall|k: int| 0 <= k < ws.len() ==> printable_word(#[trigger] ws[k]),
        0 <= i,
        i + words_text(ws).len() < s.len(),
        s.subrange(i, i + words_text(ws).len()) == words_text(ws),
        s[i + words_text(ws).len()] == ';' || s[i + words_text(ws).len()] == '\n' || s[i
            + words_text(ws).len()] == '<',
    ensures
        words_at(s, i) == (ws, i + words_text(ws).len()),
    decreases ws.len(),
{
    let w = ws[0];
    assert(printable_word(w));
    let k = i + w.len();
    if ws.len() == 1 {
        assert(words_text(ws) == w);
    } else {
        lemma_sub_split(s, i, w + seq![' '], words_text(ws.drop_first()));
        lemma_sub_split(s, i, w, seq![' ']);
    }
    assert forall|q: int| i <= q < k implies CharClass::NameChar.holds(s[q]) by {
        lemma_sub_char(s, i, words_text(ws), q - i);
        if ws.len() > 1 {
            lemma_sub_char(s, i, w, q - i);
        }
    }
    lemma_sub_char(s, i, words_text(ws), 0);
    lemma_scan_end(s, i, i, CharClass::Blank);
    if ws.len() == 1 {
        lemma_scan_end(s, i, k, CharClass::NameChar);
        lemma_scan_end(s, k, k, CharClass::Blank);
        lemma_scan_end(s, k, k, CharClass::NameChar);
        assert(seq![w] + Seq::<Seq<char>>::empty() =~= ws);
        assert(s.subrange(i, k) =~= w) by {
            assert(words_text(ws) == w);
        }
        assert(scan(s, i, CharClass::Blank) == i);
        assert(scan(s, i, CharClass::NameChar) == k);
        assert(words_at(s, k) == (Seq::<Seq<char>>::empty(), k));
    } else {
        let tail = ws.drop_first();
        lemma_sub_char(s, i + w.len(), seq![' '], 0);
        lemma_scan_end(s, i, k, CharClass::NameChar);
        assert(forall|q: int| 0 <= q < tail.len() ==> printable_word(#[trigger] tail[q])) by {
            assert forall|q: int| 0 <= q < tail.len() implies printable_word(#[trigger] tail[q]) by {
                assert(tail[q] == ws[q + 1]);
            }
        }
        assert(printable_word(tail[0]));
        lemma_sub_char(s, k + 1, words_text(tail), 0);
        if tail.len() > 1 {
            lemma_sub_split(s, k + 1, tail[0] + seq![' '], words_text(tail.drop_first()));
            lemma_sub_split(s, k + 1, tail[0], seq![' ']);
            lemma_sub_char(s, k + 1, tail[0], 0);
        }
        assert(s[k + 1] == tail[0][0]);
        lemma_scan_end(s, k + 1, k + 1, CharClass::Blank);
        lemma_words_at(s, k + 1, tail);
        assert(scan(s, k, CharClass::Blank) == k + 1);
        assert(words_at(s, k) == words_at(s, k + 1));
        assert(seq![w] + tail =~= ws);
        assert(scan(s, i, CharClass::Blank) == i);
        assert(scan(s, i, CharClass::NameChar) == k);
        assert(s.subrange(i, k) == w);
    }
}

/// An author printed at `a0`, after separators from `i` on, and followed by
/// `;` or a newline, reads back as itself.
proof fn lemma_author_at(s: Seq<char>, i: int, a0: int, a: AuthorV)
    requires
        printable_author(a),
        0 <= i <= a0,
        forall|k: int| i <= k < a0 ==> CharClass::BlankOrSemicolon.holds(#[trigger] s[k]),
        a0 + author_text(a).len() < s.len(),
        s.subrange(a0, a0 + author_text(a).len()) == author_text(a),
        s[a0 + author_text(a).len()] == ';' || s[a0 + author_text(a).len()] == '\n',
    ensures
        author_at(s, i) == Some((a, a0 + author_text(a).len())),
{
    let ws = author_words(a);
    let wt = words_text(ws);
    let ep = match a.email {
        Some(e) => seq!['<'] + e + seq!['>'],
        None => Seq::<char>::empty(),
    };
    let n = author_text(a).len() as int;
    assert(author_text(a) == wt + ep);
    lemma_sub_split(s, a0, wt, ep);
    let b = a0 + wt.len();
    assert forall|q: int| 0 <= q < ws.len() implies printable_word(#[trigger] ws[q]) by {
        if q > 0 {
            match a.middle {
                Some(m) => {
                    if q == 1 {
                        assert(ws[q] == m);
                    } else {
                        assert(ws[q] == a.last->Some_0);
                    }
                },
                None => {
                    assert(ws[q] == a.last->Some_0);
                },
            }
        }
    }
    assert(ws[0] == a.first);
    assert(ws.len() >= 1);
    // the first character is a name character
    lemma_sub_char(s, a0, author_text(a), 0);
    if ws.len() > 1 {
        lemma_sub_split(s, a0, ws[0] + seq![' '], words_text(ws.drop_first()));
        lemma_sub_split(s, a0, ws[0], seq![' ']);
    }
    lemma_sub_char(s, a0, wt, 0);
    assert(s[a0] == a.first[0]);
    assert(!CharClass::BlankOrSemicolon.holds(s[a0]));
    lemma_scan_end(s, i, a0, CharClass::BlankOrSemicolon);
    match a.email {
        Some(e) => {
            lemma_sub_split(s, b, seq!['<'] + e, seq!['>']);
            lemma_sub_split(s, b, seq!['<'], e);
            lemma_sub_char(s, b, seq!['<'], 0);
            lemma_sub_char(s, b + 1 + e.len(), seq!['>'], 0);
            lemma_words_at(s, a0, ws);
            assert forall|q: int| b + 1 <= q < b + 1 + e.len() implies CharClass::UriChar.holds(
                s[q],
            ) by {
                lemma_sub_char(s, b + 1, e, q - b - 1);
            }
            lemma_scan_end(s, b + 1, b + 1 + e.len(), CharClass::UriChar);
        },
        None => {
            lemma_words_at(s, a0, ws);
        },
    }
    match a.middle {
        Some(m) => {
            assert(ws.len() == 3);
        },
        None => {
            match a.last {
                Some(l) => {
                    assert(ws.len() == 2);
                },
                None => {
                    assert(ws.len() == 1);
                },
            }
        },
    }
}

proof fn lemma_author_text_len(a: AuthorV)
    requires
        printable_author(a),
    ensures
        author_text(a).len() > 0,
{
    let ws = author_words(a);
    assert(ws[0] == a.first);
    if ws.len() > 1 {
        assert(words_text(ws) == ws[0] + seq![' '] + words_text(ws.drop_first()));
    } else {
        assert(words_text(ws) == ws[0]);
    }
}

/// An author line printed at `i`, ending with a newline, reads back as the
/// same authors.
proof fn lemma_authors_at(s: Seq<char>, i: int, v: Seq<AuthorV>)
    requires
        v.len() >= 1,
        printable_authors(v),
        0 <= i,
        i + authors_text(v).len() < s.len(),
        s.subrange(i, i + authors_text(v).len()) == authors_text(v),
        s[i + authors_text(v).len()] == '\n',
    ensures
        authors_at(s, i) == (v, i + authors_text(v).len()),
    decreases v.len(),
{
    let a = v[0];
    assert(printable_author(a));
    let t = author_text(a);
    let e = i + t.len();
    if v.len() == 1 {
        assert(authors_text(v) == t);
        lemma_author_at(s, i, i, a);
        lemma_author_text_len(a);
        lemma_scan_end(s, e, e, CharClass::BlankOrSemicolon);
        lemma_scan_end(s, e, e, CharClass::Blank);
        lemma_scan_end(s, e, e, CharClass::NameChar);
        assert(author_at(s, e) is None);
        assert(authors_at(s, e) == (Seq::<AuthorV>::empty(), e));
        assert(author_at(s, i) == Some((a, e)));
        assert(i < e <= s.len());
        assert(seq![a] + Seq::<AuthorV>::empty() =~= v);
        assert(authors_at(s, i) == (seq![a] + Seq::<AuthorV>::empty(), e));
    } else {
        let tail = v.drop_first();
        assert(printable_authors(tail)) by {
            assert forall|q: int| 0 <= q < tail.len() implies printable_author(#[trigger] tail[q]) by {
                assert(tail[q] == v[q + 1]);
            }
        }
        let tt = authors_text(tail);
        lemma_sub_split(s, i, t + seq![';', ' '], tt);
        lemma_sub_split(s, i, t, seq![';', ' ']);
        lemma_sub_char(s, e, seq![';', ' '], 0);
        lemma_sub_char(s, e, seq![';', ' '], 1);
        lemma_author_at(s, i, i, a);
        lemma_author_text_len(a);
        let b = tail[0];
        assert(printable_author(b));
        let bt = author_text(b);
        let after = e + 2 + bt.len();
        if tail.len() == 1 {
            assert(tt == bt);
        } else {
            lemma_sub_split(s, e + 2, bt + seq![';', ' '], authors_text(tail.drop_first()));
            lemma_sub_split(s, e + 2, bt, seq![';', ' ']);
            lemma_sub_char(s, after, seq![';', ' '], 0);
        }
        lemma_author_at(s, e, e + 2, b);
        lemma_author_at(s, e + 2, e + 2, b);
        lemma_authors_at(s, e + 2, tail);
        assert(authors_at(s, e) == authors_at(s, e + 2));
        assert(seq![a] + tail =~= v);
        assert(author_at(s, i) == Some((a, e)));
        assert(authors_at(s, i) == (seq![a] + tail, e + 2 + tt.len()));
    }
}

/// The title line of a header: the marker, and a space and the title where
/// there is one.
pub open spec fn title_line(title: Option<Seq<char>>) -> Seq<char> {
    match title {
        Some(t) => heading_text(1, t),
        None => seq!['=', '\n'],
    }
}

/// The author line of a header: its authors; where it has none but has a
/// revision, a line with a lone `;`, so that the revision line stays second.
pub open spec fn author_line(h: HeaderV) -> Seq<char> {
    if h.authors.len() > 0 {
        authors_text(h.authors) + seq!['\n']
    } else if h.revision != empty_revision() {
        seq![';', '\n']
    } else {
        Seq::empty()
    }
}

/// The text of a header: the title line, the author line, and the revision
/// line where the revision is not empty.
pub open spec fn header_text(h: HeaderV) -> Seq<char> {
    let revision = if h.revision != empty_revision() {
        revision_text(h.revision)
    } else {
        Seq::empty()
    };
    title_line(h.title) + author_line(h) + revision
}

/// A header that its text gives back: a printable title if any, printable
/// authors, and a printable revision.
pub open spec fn printable_header(h: HeaderV) -> bool {
    &&& h.title matches Some(t) ==> printable_title(t)
    &&& printable_authors(h.authors)
    &&& h.revision != empty_revision() ==> printable_revision(h.revision)
}

proof fn lemma_title_line_at(s: Seq<char>, title: Option<Seq<char>>)
    requires
        title matches Some(t) ==> printable_title(t),
        title_line(title).len() <= s.len(),
        s.subrange(0, title_line(title).len() as int) == title_line(title),
    ensures
        header_title_at(s, 0) == Some((title, title_line(title).len() as int)),
{
    let ht = title_line(title);
    lemma_scan_bounds(s, 0, CharClass::Whitespace);
    let a0 = scan(s, 0, CharClass::Whitespace);
    lemma_scan_bounds(s, a0, CharClass::Equals);
    let b = scan(s, a0, CharClass::Equals);
    lemma_scan_bounds(s, b, CharClass::Space);
    match title {
        Some(t) => {
            lemma_heading_at(s, 0, 1, t);
        },
        None => {
            lemma_sub_char(s, 0, ht, 0);
            lemma_sub_char(s, 0, ht, 1);
            lemma_scan_end(s, 0, 0, CharClass::Whitespace);
            lemma_scan_end(s, 0, 1, CharClass::Equals);
            lemma_scan_end(s, 1, 1, CharClass::Space);
            lemma_scan_end(s, 1, 1, CharClass::NotControl);
        },
    }
}

/// A header printed at the start, followed by the end or by a heading, reads
/// back as itself.
#[verifier::rlimit(60)]
pub proof fn lemma_header_at(s: Seq<char>, h: HeaderV)
    requires
        printable_header(h),
        header_text(h).len() <= s.len(),
        s.subrange(0, header_text(h).len() as int) == header_text(h),
        header_text(h).len() == s.len() || heading_at(s, header_text(h).len() as int) is Some,
    ensures
        header_at(s, 0) == Some((h, header_text(h).len() as int)),
{
    let ht = title_line(h.title);
    let at = author_line(h);
    let rt = if h.revision != empty_revision() {
        revision_text(h.revision)
    } else {
        Seq::<char>::empty()
    };
    let n = header_text(h).len() as int;
    assert(header_text(h) == ht + at + rt);
    lemma_sub_split(s, 0, ht + at, rt);
    lemma_sub_split(s, 0, ht, at);
    let a = ht.len() as int;
    let b = a + at.len();
    lemma_title_line_at(s, h.title);
    if h.authors.len() > 0 {
        let v = h.authors;
        let vt = authors_text(v);
        lemma_sub_split(s, a, vt, seq!['\n']);
        lemma_sub_char(s, a + vt.len(), seq!['\n'], 0);
        lemma_authors_at(s, a, v);
        let f = v[0];
        assert(printable_author(f));
        lemma_author_text_len(f);
        lemma_sub_char(s, a, vt, 0);
        if v.len() > 1 {
            lemma_sub_split(s, a, author_text(f) + seq![';', ' '], authors_text(v.drop_first()));
            lemma_sub_split(s, a, author_text(f), seq![';', ' ']);
        }
        lemma_sub_char(s, a, author_text(f), 0);
        let ws = author_words(f);
        assert(ws[0] == f.first);
        if ws.len() > 1 {
            assert(words_text(ws) == ws[0] + seq![' '] + words_text(ws.drop_first()));
        }
        assert(author_text(f) == words_text(ws) + match f.email {
            Some(e) => seq!['<'] + e + seq!['>'],
            None => Seq::<char>::empty(),
        });
        assert(s[a] == f.first[0]);
        lemma_scan_end(s, a, a, CharClass::Whitespace);
        lemma_scan_end(s, a, a, CharClass::Equals);
        assert(line_present(s, a));
        let e = a + vt.len();
        lemma_scan_end(s, e, e, CharClass::NotControl);
        assert(eol(s, line_end(s, e)) == b);
    } else if h.revision != empty_revision() {
        lemma_sub_char(s, a, at, 0);
        lemma_sub_char(s, a, at, 1);
        lemma_scan_end(s, a, a, CharClass::Whitespace);
        lemma_scan_end(s, a, a, CharClass::Equals);
        assert(line_present(s, a));
        lemma_scan_end(s, a, a + 1, CharClass::BlankOrSemicolon);
        lemma_scan_end(s, a + 1, a + 1, CharClass::Blank);
        lemma_scan_end(s, a + 1, a + 1, CharClass::NameChar);
        assert(words_at(s, a + 1).0.len() == 0);
        assert(author_at(s, a) is None);
        assert(authors_at(s, a) == (Seq::<AuthorV>::empty(), a));
        lemma_scan_end(s, a, a + 1, CharClass::NotControl);
        assert(h.authors =~= Seq::<AuthorV>::empty());
    } else {
        assert(b == a);
    }
    if h.revision != empty_revision() {
        let r = h.revision;
        lemma_revision_at(s, b, r);
        lemma_sub_char(s, b, rt, 0);
        assert(s[b] == 'v' || s[b] == ',' || s[b] == ':') by {
            let vpart = if r.version.len() > 0 {
                seq!['v'] + version_text(r.version)
            } else {
                Seq::<char>::empty()
            };
            let dpart = match r.date {
                Some(d) => seq![',', ' '] + date_text(d),
                None => Seq::<char>::empty(),
            };
            assert(rt == vpart + dpart + seq![':', ' '] + r.remark + seq!['\n']);
        }
        lemma_scan_end(s, b, b, CharClass::Whitespace);
        lemma_scan_end(s, b, b, CharClass::Equals);
        assert(line_present(s, b));
    } else {
        assert(b == n);
        assert(!line_present(s, b));
    }
    if h.authors.len() == 0 && h.revision == empty_revision() {
        assert(!line_present(s, a));
        assert(h.authors =~= Seq::<AuthorV>::empty());
    }
}

fn digit_char_exec(d: u32) -> (r: char)
    ensures
        r == digit_char(d as int),
{
    match d {
        0 => '0',
        1 => '1',
        2 => '2',
        3 => '3',
        4 => '4',
        5 => '5',
        6 => '6',
        7 => '7',
        8 => '8',
        _ => '9',
    }
}

fn push_decimal(out: &mut String, n: u64)
    ensures
        final(out)@ == old(out)@ + decimal_text(n as nat),
    decreases n,
{
    if n >= 10 {
        push_decimal(out, n / 10);
    }
    push_char(out, digit_char_exec((n % 10) as u32));
    proof {
        if n < 10 {
            assert(decimal_text(n as nat) =~= seq![digit_char(n as int)]);
        }
    }
}

fn push_version(out: &mut String, v: &Vec<isize>, i: usize)
    requires
        i <= v@.len(),
    ensures
        printable_version(version_view(v@)) ==> final(out)@ == old(out)@ + version_text(
            version_view(v@).subrange(i as int, v@.len() as int),
        ),
    decreases v@.len() - i,
{
    let ghost rest = version_view(v@).subrange(i as int, v@.len() as int);
    if i < v.len() {
        let x = v[i];
        if x >= 0 {
            push_decimal(out, x as u64);
        } else {
            push_char(out, '0');
        }
        if i + 1 < v.len() {
            push_char(out, '.');
            push_version(out, v, i + 1);
            proof {
                assert(rest.drop_first() =~= version_view(v@).subrange(i + 1, v@.len() as int));
            }
        }
        proof {
            if printable_version(version_view(v@)) {
                assert(rest[0] == version_view(v@)[i as int]);
                assert(version_view(v@)[i as int] == x as int);
            }
        }
    } else {
        proof {
            assert(rest.len() == 0);
        }
    }
}

fn push_date(out: &mut String, d: &Date)
    ensures
        printable_date(d@) ==> final(out)@ == old(out)@ + date_text(d@),
{
    let y = d.year;
    if y >= 0 {
        let yu = y as u32;
        push_char(out, digit_char_exec(yu / 1000));
        push_char(out, digit_char_exec((yu / 100) % 10));
        push_char(out, digit_char_exec((yu / 10) % 10));
        push_char(out, digit_char_exec(yu % 10));
    }
    push_char(out, '-');
    push_char(out, digit_char_exec(d.month / 10));
    push_char(out, digit_char_exec(d.month % 10));
    push_char(out, '-');
    push_char(out, digit_char_exec(d.day / 10));
    push_char(out, digit_char_exec(d.day % 10));
    proof {
        if printable_date(d@) {
            assert(final(out)@ =~= old(out)@ + date_text(d@));
        }
    }
}

fn push_author(out: &mut String, a: &Author)
    ensures
        final(out)@ == old(out)@ + author_text(a@),
{
    let ghost start = out@;
    out.append(a.first_name.as_str());
    match &a.middle_name {
        Some(m) => {
            push_char(out, ' ');
            out.append(m.as_str());
        },
        None => {},
    }
    match &a.last_name {
        Some(l) => {
            push_char(out, ' ');
            out.append(l.as_str());
        },
        None => {},
    }
    let ghost names = out@;
    match &a.email {
        Some(e) => {
            push_char(out, '<');
            out.append(e.as_str());
            push_char(out, '>');
        },
        None => {},
    }
    proof {
        let ws = author_words(a@);
        let av = a@;
        match (av.middle, av.last) {
            (Some(m), Some(l)) => {
                assert(ws =~= seq![av.first, m, l]);
                assert(ws.drop_first() =~= seq![m, l]);
                assert(ws.drop_first().drop_first() =~= seq![l]);
                assert(words_text(ws.drop_first().drop_first()) == l);
                assert(words_text(ws.drop_first()) == m + seq![' '] + l);
                assert(words_text(ws) == av.first + seq![' '] + (m + seq![' '] + l));
            },
            (None, Some(l)) => {
                assert(ws =~= seq![av.first, l]);
                assert(ws.drop_first() =~= seq![l]);
                assert(words_text(ws.drop_first()) == l);
                assert(words_text(ws) == av.first + seq![' '] + l);
            },
            (Some(m), None) => {
                assert(ws =~= seq![av.first, m]);
                assert(ws.drop_first() =~= seq![m]);
                assert(words_text(ws.drop_first()) == m);
                assert(words_text(ws) == av.first + seq![' '] + m);
            },
            (None, None) => {
                assert(ws =~= seq![av.first]);
            },
        }
        assert(names =~= start + words_text(ws));
        assert(final(out)@ =~= old(out)@ + author_text(a@));
    }
}

fn push_authors(out: &mut String, v: &Vec<Author>, i: usize)
    requires
        i < v@.len(),
    ensures
        final(out)@ == old(out)@ + authors_text(
            authors_view(v@).subrange(i as int, v@.len() as int),
        ),
    decreases v@.len() - i,
{
    let ghost rest = authors_view(v@).subrange(i as int, v@.len() as int);
    push_author(out, &v[i]);
    proof {
        assert(rest[0] == v@[i as int]@);
    }
    if i < v.len() - 1 {
        push_char(out, ';');
        push_char(out, ' ');
        push_authors(out, v, i + 1);
        proof {
            assert(rest.drop_first() =~= authors_view(v@).subrange(i + 1, v@.len() as int));
        }
    }
}

fn push_revision(out: &mut String, r: &Revision)
    ensures
        printable_revision(r@) ==> final(out)@ == old(out)@ + revision_text(r@),
{
    let ghost start = out@;
    if r.version.len() > 0 {
        push_char(out, 'v');
        push_version(out, &r.version, 0);
    }
    let ghost after_version = out@;
    match &r.date {
        Some(d) => {
            push_char(out, ',');
            push_char(out, ' ');
            push_date(out, d);
        },
        None => {},
    }
    let ghost after_date = out@;
    push_char(out, ':');
    push_char(out, ' ');
    out.append(r.remark.as_str());
    push_char(out, '\n');
    proof {
        if printable_revision(r@) {
            assert(version_view(r.version@).subrange(0, r.version@.len() as int) =~= version_view(
                r.version@,
            ));
            let vpart = if r@.version.len() > 0 {
                seq!['v'] + version_text(r@.version)
            } else {
                Seq::<char>::empty()
            };
            let dpart = match r@.date {
                Some(d) => seq![',', ' '] + date_text(d),
                None => Seq::<char>::empty(),
            };
            assert(after_version =~= start + vpart);
            assert(after_date =~= start + vpart + dpart);
            assert(final(out)@ =~= old(out)@ + revision_text(r@));
        }
    }
}

/// The text of a header, as `header_text` gives it, where its revision is
/// printable or empty.
pub fn render_header(h: &DocumentHeader) -> (r: String)
    ensures
        (h@.revision == empty_revision() || printable_revision(h@.revision)) ==> r@
            == header_text(h@),
{
    let mut out = match &h.title {
        Some(t) => render_heading(1, t),
        None => {
            let mut o = String::new();
            push_char(&mut o, '=');
            push_char(&mut o, '\n');
            o
        },
    };
    let ghost after_title = out@;
    let r = &h.revision;
    let empty = r.version.len() == 0 && r.date.is_none() && r.remark.as_str().is_empty();
    proof {
        if h@.revision == empty_revision() {
            assert(version_view(r.version@).len() == 0);
        }
        if empty {
            assert(version_view(r.version@) =~= Seq::<int>::empty());
            assert(r.remark@ =~= Seq::<char>::empty());
            assert(h@.revision == empty_revision());
        }
        assert(after_title =~= title_line(h@.title));
    }
    if h.authors.len() > 0 {
        push_authors(&mut out, &h.authors, 0);
        push_char(&mut out, '\n');
        proof {
            assert(authors_view(h.authors@).subrange(0, h.authors@.len() as int) =~= authors_view(
                h.authors@,
            ));
        }
    } else if !empty {
        push_char(&mut out, ';');
        push_char(&mut out, '\n');
    }
    proof {
        assert(out@ =~= after_title + author_line(h@));
    }
    if !empty {
        push_revision(&mut out, r);
    }
    proof {
        if h@.revision == empty_revision() || printable_revision(h@.revision) {
            assert(out@ =~= header_text(h@));
        }
    }
    out
}

} // verus!
