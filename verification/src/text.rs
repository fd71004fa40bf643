//! The recognisers that the parsers are put together from: runs of one
//! class of characters, fixed pieces of text, and line endings.
use vstd::prelude::*;
use vstd::string::*;
use vstd::utf8::encode_utf8;
use crate::encoding::{
    lemma_boundary, lemma_byte_span_is, lemma_cut, lemma_encode_concat, lemma_encode_injective,
    lemma_last_byte, lemma_spans_agree,
};
use crate::error::{Expected, ParseError, Trace};
use crate::grammar;
use crate::grammar::{
    all_of, lemma_span, span, stops, target_char, variable_name_char, CharClass, Parsed,
};

verus! {

/// What a parser returned, over sequences of characters.
pub open spec fn model<'a, T: DeepView>(r: Result<(&'a str, T), ParseError<'a>>) -> Parsed<T::V> {
    match r {
        Ok((rest, out)) => Ok((rest@, out.deep_view())),
        Err(e) => Err(e@),
    }
}

/// Whether `c` may stand in the name of a variable: anything but `:`, `#`,
/// `=`, `!`, `?`, a space, a tab, a carriage return or a line feed.
pub fn is_variable_name(c: char) -> (r: bool)
    ensures
        r == variable_name_char(c),
{
    match c {
        ':' => false,
        '#' => false,
        '=' => false,
        '!' => false,
        '?' => false,
        ' ' => false,
        '\t' => false,
        '\r' => false,
        '\n' => false,
        _ => true,
    }
}

/// Whether `c` may stand in the name of a target or of a prerequisite:
/// anything but `#`, `%`, `:`, `|`, `"`, `<`, `>`, a space, a tab, a
/// carriage return or a line feed. The wildcard characters `*`, `?`, `[`
/// and `]` may, and so may the separators of a path.
pub fn is_target_character(c: char) -> (r: bool)
    ensures
        r == target_char(c),
{
    match c {
        '#' => false,
        '%' => false,
        ':' => false,
        '|' => false,
        '"' => false,
        '<' => false,
        '>' => false,
        ' ' => false,
        '\t' => false,
        '\r' => false,
        '\n' => false,
        _ => true,
    }
}

impl CharClass {
    /// Whether `c` belongs to the class.
    pub fn contains(self, c: char) -> (r: bool)
        ensures
            r == self.has(c),
    {
        match self {
            CharClass::Blank => c == ' ' || c == '\t',
            CharClass::VariableName => is_variable_name(c),
            CharClass::Target => is_target_character(c),
            CharClass::Line => !(c == '\r' || c == '\n'),
        }
    }

    /// Whether `b` is a byte of the encoding of a character of the class.
    pub fn contains_byte(self, b: u8) -> (r: bool)
        ensures
            r == self.has_byte(b),
    {
        if b < 0x80 {
            self.contains(b as char)
        } else {
            match self {
                CharClass::Blank => false,
                _ => true,
            }
        }
    }
}

/// Cuts `i` behind its longest prefix made of characters of `class`.
/// Returns what is left, then the prefix.
pub fn take_while<'a>(i: &'a str, class: CharClass) -> (r: (&'a str, &'a str))
    ensures
        r.1@ == i@.take(span(i@, class) as int),
        r.0@ == i@.skip(span(i@, class) as int),
        r.1@ + r.0@ == i@,
        all_of(r.1@, class),
        stops(r.0@, class),
{
    let bytes = i.as_bytes();
    let mut k: usize = 0;
    while k < bytes.len() && class.contains_byte(bytes[k])
        invariant
            k <= bytes.len(),
            forall|j: int| 0 <= j < k ==> class.has_byte(#[trigger] bytes@[j]),
        decreases bytes.len() - k,
    {
        k += 1;
    }
    let ghost n = span(i@, class) as int;
    proof {
        lemma_span(i@, class);
        lemma_byte_span_is(bytes@, class, k as int);
        lemma_spans_agree(i@, class);
        assert(i@ =~= i@.take(n) + i@.skip(n));
        lemma_boundary(i@.take(n), i@.skip(n));
        lemma_encode_concat(i@.take(n), i@.skip(n));
    }
    let (head, tail) = i.split_at(k);
    proof {
        assert(bytes@.subrange(0, k as int) =~= encode_utf8(i@.take(n)));
        assert(bytes@.subrange(k as int, bytes@.len() as int) =~= encode_utf8(i@.skip(n)));
        lemma_encode_injective(head@, i@.take(n));
        lemma_encode_injective(tail@, i@.skip(n));
    }
    (tail, head)
}

/// Cuts `i` behind the fixed text `t`, where `i` starts with it. Returns
/// what is left, then the piece of `i` that matched.
pub fn take_prefix<'a>(i: &'a str, t: &str) -> (r: Option<(&'a str, &'a str)>)
    ensures
        match r {
            Some((rest, matched)) => t@.is_prefix_of(i@) && rest@ == i@.skip(t@.len() as int)
                && matched@ == t@,
            None => !t@.is_prefix_of(i@),
        },
{
    let x = i.as_bytes();
    let y = t.as_bytes();
    let m = y.len();
    proof {
        if t@.is_prefix_of(i@) {
            let rest = i@.skip(t@.len() as int);
            assert(i@ =~= t@ + rest);
            lemma_encode_concat(t@, rest);
            lemma_boundary(t@, rest);
        }
    }
    if x.len() < m || !i.is_char_boundary(m) {
        return None;
    }
    let mut k: usize = 0;
    while k < m
        invariant
            k <= m == y@.len() <= x@.len(),
            t@.is_prefix_of(i@) ==> x@.subrange(0, m as int) == y@,
            forall|j: int| 0 <= j < k ==> x@[j] == y@[j],
        decreases m - k,
    {
        if x[k] != y[k] {
            assert(x@.subrange(0, m as int)[k as int] == x@[k as int]);
            return None;
        }
        k += 1;
    }
    let (head, tail) = i.split_at(m);
    proof {
        assert(x@.subrange(0, m as int) =~= y@);
        lemma_encode_injective(head@, t@);
        lemma_cut(i@, head@, tail@, m as int);
        assert(i@.subrange(0, t@.len() as int) =~= t@);
        assert(i@.skip(t@.len() as int) =~= tail@);
    }
    Some((tail, head))
}

/// Takes the fixed text `t` from the start of `i`. Returns what is left,
/// then the piece of `i` that matched.
pub fn tag<'a>(i: &'a str, t: &str) -> (r: Result<(&'a str, &'a str), ParseError<'a>>)
    ensures
        model(r) == grammar::tag(i@, t@),
{
    match take_prefix(i, t) {
        Some(found) => Ok(found),
        None => Err(ParseError::new(i, Expected::Tag)),
    }
}

/// Takes the blanks that `i` starts with, if any. Returns what is left,
/// then the blanks.
pub fn space0<'a>(i: &'a str) -> (r: (&'a str, &'a str))
    ensures
        r.0@ == grammar::after_blanks(i@),
        r.1@ == i@.take(span(i@, CharClass::Blank) as int),
{
    take_while(i, CharClass::Blank)
}

/// Takes the blanks that `i` starts with, of which there must be one at
/// least. Returns what is left, then the blanks.
pub fn space1<'a>(i: &'a str) -> (r: Result<(&'a str, &'a str), ParseError<'a>>)
    ensures
        model(r) == (if span(i@, CharClass::Blank) == 0 {
            Err::<(Seq<char>, Seq<char>), Trace>(grammar::mismatch(i@, Expected::Space))
        } else {
            Ok((grammar::after_blanks(i@), i@.take(span(i@, CharClass::Blank) as int)))
        }),
{
    let (rest, blanks) = take_while(i, CharClass::Blank);
    proof {
        lemma_span(i@, CharClass::Blank);
    }
    if blanks.is_empty() {
        Err(ParseError::new(i, Expected::Space))
    } else {
        Ok((rest, blanks))
    }
}

/// Takes one line ending, a line feed or a carriage return and a line feed,
/// from the start of `i`. Returns what is left, then the line ending.
pub fn line_ending<'a>(i: &'a str) -> (r: Result<(&'a str, &'a str), ParseError<'a>>)
    ensures
        model(r) == grammar::line_ending(i@),
{
    proof {
        reveal_strlit("\n");
        reveal_strlit("\r\n");
        grammar::lemma_tag_line_ending(i@);
        assert("\n"@ =~= seq!['\n']);
        assert("\r\n"@ =~= seq!['\r', '\n']);
    }
    match take_prefix(i, "\n") {
        Some(found) => Ok(found),
        None => match take_prefix(i, "\r\n") {
            Some(found) => Ok(found),
            None => Err(ParseError::new(i, Expected::CrLf)),
        },
    }
}

/// Takes the rest of the line that `i` starts with: all that stands before
/// the first line ending, or all of `i` where it has none. Returns what is
/// left, then the line. Fails where the line stops at a carriage return
/// that no line feed follows.
pub fn not_line_ending<'a>(i: &'a str) -> (r: Result<(&'a str, &'a str), ParseError<'a>>)
    ensures
        model(r) == grammar::not_line_ending(i@),
{
    let (rest, line) = take_while(i, CharClass::Line);
    proof {
        reveal_strlit("\r");
        reveal_strlit("\r\n");
        assert("\r"@ =~= seq!['\r']);
        assert("\r\n"@ =~= seq!['\r', '\n']);
        lemma_span(i@, CharClass::Line);
        grammar::lemma_tag_char(rest@, '\r');
        grammar::lemma_tag_line_ending(rest@);
    }
    if take_prefix(rest, "\r").is_some() && take_prefix(rest, "\r\n").is_none() {
        Err(ParseError::new(i, Expected::Tag))
    } else {
        Ok((rest, line))
    }
}

/// Drops the line endings that `i` starts with, if any.
pub fn skip_line_endings<'a>(i: &'a str) -> (r: &'a str)
    ensures
        r@ == grammar::after_line_endings(i@),
{
    proof {
        reveal_strlit("\n");
        reveal_strlit("\r\n");
        assert("\n"@ =~= seq!['\n']);
        assert("\r\n"@ =~= seq!['\r', '\n']);
    }
    let mut cur = i;
    loop
        invariant
            "\n"@ == seq!['\n'],
            "\r\n"@ == seq!['\r', '\n'],
            grammar::after_line_endings(i@) == grammar::after_line_endings(cur@),
        decreases cur@.len(),
    {
        proof {
            grammar::lemma_tag_line_ending(cur@);
        }
        if let Some((rest, _)) = take_prefix(cur, "\n") {
            cur = rest;
        } else if let Some((rest, _)) = take_prefix(cur, "\r\n") {
            cur = rest;
        } else {
            return cur;
        }
    }
}

/// Whether a line ends in a backslash, which continues it on the next one.
pub fn ends_with_backslash(line: &str) -> (r: bool)
    ensures
        r == grammar::is_continued(line@),
{
    let bytes = line.as_bytes();
    proof {
        lemma_last_byte(line@);
    }
    bytes.len() > 0 && bytes[bytes.len() - 1] == 0x5C
}

/// Whether two texts hold the same characters.
pub fn same_text(a: &str, b: &str) -> (r: bool)
    ensures
        r == (a@ == b@),
{
    let x = a.as_bytes();
    let y = b.as_bytes();
    proof {
        if x@ == y@ {
            lemma_encode_injective(a@, b@);
        }
    }
    if x.len() != y.len() {
        return false;
    }
    let mut k: usize = 0;
    while k < x.len()
        invariant
            k <= x.len() == y.len(),
            x@ == a.spec_bytes(),
            y@ == b.spec_bytes(),
            forall|j: int| 0 <= j < k ==> x@[j] == y@[j],
        decreases x.len() - k,
    {
        if x[k] != y[k] {
            return false;
        }
        k += 1;
    }
    assert(x@ =~= y@);
    true
}

} // verus!
