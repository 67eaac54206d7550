//! The lexical layer of the concrete syntax: blanks, comments, tokens and
//! names, read from the characters of the program text.

use crate::builder::ProgramBuilder;
use crate::effects::{read_token, spaced, unit_result};
use vstd::prelude::*;
use vstd::string::*;
use vstd::utf8::encode_utf8;
use TSPL::Parser;

verus! {

/// A position in a text by bytes, as the parser library counts.
pub struct Cursor<'i> {
    pub input: &'i str,
    pub index: usize,
}

impl<'i> Parser<'i> for Cursor<'i> {
    /// The text, which stays as it is, as does the position.
    fn input(&mut self) -> (text: &'i str)
        ensures
            text == old(self).input,
            *final(self) == *old(self),
    {
        self.input
    }

    /// The position in the text, in bytes, to read and to move: what is
    /// written there becomes the cursor's position, and the text stays.
    fn index(&mut self) -> (position: &mut usize)
        ensures
            *position == old(self).index,
            final(self).index == *final(position),
            final(self).input == old(self).input,
    {
        &mut self.index
    }
}

/// The message of the parser library for a text in which, at the byte
/// `offset`, `expected` was expected and not found.
pub uninterp spec fn expected_message(input: Seq<char>, offset: usize, expected: Seq<char>) -> Seq<
    char,
>;

/// Calls `TSPL::Parser::expected` at the byte `offset` of `input`. The
/// library formats a message that names `expected` and shows the line of
/// the offset; the contract only gives that message its name. The offset is
/// kept inside the text and below `usize::MAX`: the library adds one to it,
/// and pads the text with blanks up to that position.
#[verifier::external_body]
fn expected_at(input: &str, offset: usize, expected: &str) -> (message: String)
    requires
        offset <= input.len(),
        offset < usize::MAX,
    ensures
        message@ == expected_message(input@, offset, expected@),
{
    let mut cursor = Cursor { input, index: offset };
    String::from(cursor.expected::<()>(expected).unwrap_err())
}

/// The text `s` as the debugging format of the standard library writes a
/// string slice.
pub uninterp spec fn debug_form(s: Seq<char>) -> Seq<char>;

/// Formats `s` with `{:?}`, by `impl Debug for str` of the standard
/// library: the text between double quotes, with its quotes, backslashes,
/// control characters and other unprintable characters escaped. The
/// contract only gives that text its name.
#[verifier::external_body]
fn quoted(s: &str) -> (line: String)
    ensures
        line@ == debug_form(s@),
{
    format!("{:?}", s)
}

/// Blank characters: space, tab, line feed, form feed, carriage return.
pub open spec fn is_space(c: char) -> bool {
    c == ' ' || c == '\t' || c == '\n' || c == '\x0C' || c == '\r'
}

/// The punctuation that a name may hold.
pub open spec fn is_name_mark(c: char) -> bool {
    c == '.' || c == '!' || c == '#' || c == '$' || c == '%' || c == '&' || c == '/' || c == '?'
        || c == '*' || c == '-' || c == '_' || c == ':' || c == ';'
}

/// The decimal digits.
pub open spec fn is_digit(c: char) -> bool {
    '0' <= c <= '9'
}

/// The upper-case letters.
pub open spec fn is_upper(c: char) -> bool {
    'A' <= c <= 'Z'
}

/// The lower-case letters.
pub open spec fn is_lower(c: char) -> bool {
    'a' <= c <= 'z'
}

/// The characters that a name may hold after its first.
pub open spec fn is_name_char(c: char) -> bool {
    is_digit(c) || is_upper(c) || is_lower(c) || is_name_mark(c)
}

/// The characters that an agent name may begin with.
pub open spec fn is_ctr_start(c: char) -> bool {
    is_upper(c) || is_digit(c) || is_name_mark(c) || c == '~'
}

/// The position of the first character from `i` on that is not blank.
pub open spec fn skip_spaces(src: Seq<char>, i: int) -> int
    decreases src.len() - i,
{
    if 0 <= i < src.len() && is_space(src[i]) {
        skip_spaces(src, i + 1)
    } else {
        i
    }
}

/// The position of the first character from `i` on that is no name
/// character.
pub open spec fn name_end(src: Seq<char>, i: int) -> int
    decreases src.len() - i,
{
    if 0 <= i < src.len() && is_name_char(src[i]) {
        name_end(src, i + 1)
    } else {
        i
    }
}

/// The position after the line that holds `i`: after its line feed, or the
/// end of the text.
pub open spec fn next_line(src: Seq<char>, i: int) -> int
    decreases src.len() - i,
{
    if 0 <= i < src.len() {
        if src[i] == '\n' {
            i + 1
        } else {
            next_line(src, i + 1)
        }
    } else {
        i
    }
}

/// The position of the first character from `i` on that is neither blank
/// nor in a comment. A comment runs from `//` to the end of its line.
pub open spec fn skip_blank(src: Seq<char>, i: int) -> int
    decreases src.len() - i,
{
    if 0 <= i < src.len() {
        if is_space(src[i]) {
            skip_blank(src, i + 1)
        } else if src[i] == '/' && i + 1 < src.len() && src[i + 1] == '/' && i < next_line(src, i)
            <= src.len() {
            skip_blank(src, next_line(src, i))
        } else {
            i
        }
    } else {
        i
    }
}

/// Whether the text holds `token` at the position `i`.
pub open spec fn holds_at(src: Seq<char>, i: int, token: Seq<char>) -> bool {
    &&& 0 <= i
    &&& i + token.len() <= src.len()
    &&& src.subrange(i, i + token.len()) == token
}

/// The byte offset that an error at the character `index` is reported at:
/// the number of bytes that the characters before `index` take, kept inside
/// the text and below `usize::MAX`.
pub open spec fn error_offset(input: Seq<char>, index: int) -> usize {
    let n = encode_utf8(input.subrange(0, index)).len() as usize;
    let all = encode_utf8(input).len() as usize;
    let inside = if n <= all {
        n
    } else {
        all
    };
    if inside < usize::MAX {
        inside
    } else {
        (usize::MAX - 1) as usize
    }
}

/// The position after `token` where it stands at `i` after blanks and
/// comments.
pub open spec fn token_at(src: Seq<char>, i: int, token: Seq<char>) -> Option<int> {
    let at = skip_blank(src, i);
    if holds_at(src, at, token) {
        Some(at + token.len())
    } else {
        None
    }
}

/// The position of the first closing square bracket from `i` on, or the
/// end of the text.
pub open spec fn bracket_end(src: Seq<char>, i: int) -> int
    decreases src.len() - i,
{
    if 0 <= i < src.len() && src[i] != ']' {
        bracket_end(src, i + 1)
    } else {
        i
    }
}

/// The agent name that stands at `i` after blanks, and the position after
/// it.
pub open spec fn ctr_name_at(src: Seq<char>, i: int) -> Option<(Seq<char>, int)> {
    let at = skip_spaces(src, i);
    if 0 <= at < src.len() && is_ctr_start(src[at]) {
        Some((src.subrange(at, name_end(src, at + 1)), name_end(src, at + 1)))
    } else {
        None
    }
}

/// The variable name that stands at `i` after blanks, and the position
/// after it.
pub open spec fn var_name_at(src: Seq<char>, i: int) -> Option<(Seq<char>, int)> {
    let at = skip_spaces(src, i);
    if 0 <= at < src.len() && is_lower(src[at]) {
        Some((src.subrange(at, name_end(src, at + 1)), name_end(src, at + 1)))
    } else {
        None
    }
}

/// Whether a macro stands at `i`: an agent name and, after blanks, an
/// opening square bracket.
pub open spec fn is_macro_at(src: Seq<char>, i: int) -> bool {
    match ctr_name_at(src, i) {
        Some((name, e)) => {
            let after = skip_spaces(src, e);
            0 <= after < src.len() && src[after] == '['
        },
        None => false,
    }
}

/// A character that is neither blank nor the start of a comment is a token
/// where it stands.
pub proof fn lemma_token_here(src: Seq<char>, p: int, c: char)
    requires
        0 <= p < src.len(),
        src[p] == c,
        !is_space(c),
        c != '/',
    ensures
        token_at(src, p, seq![c]) == Some(p + 1),
{
    assert(src.subrange(p, p + 1) =~= seq![c]);
}

/// Skipping blanks moves forward, inside the text.
pub proof fn lemma_skip_spaces(src: Seq<char>, i: int)
    requires
        0 <= i <= src.len(),
    ensures
        i <= skip_spaces(src, i) <= src.len(),
    decreases src.len() - i,
{
    if i < src.len() && is_space(src[i]) {
        lemma_skip_spaces(src, i + 1);
    }
}

/// A name ends after its start, inside the text.
pub proof fn lemma_name_end(src: Seq<char>, i: int)
    requires
        0 <= i <= src.len(),
    ensures
        i <= name_end(src, i) <= src.len(),
    decreases src.len() - i,
{
    if i < src.len() && is_name_char(src[i]) {
        lemma_name_end(src, i + 1);
    }
}

/// The next line begins further on, inside the text.
pub proof fn lemma_next_line(src: Seq<char>, i: int)
    requires
        0 <= i <= src.len(),
    ensures
        i <= next_line(src, i) <= src.len(),
        i < src.len() ==> i < next_line(src, i),
    decreases src.len() - i,
{
    if i < src.len() && src[i] != '\n' {
        lemma_next_line(src, i + 1);
    }
}

/// Whether `c` is blank.
pub fn space(c: char) -> (b: bool)
    ensures
        b == is_space(c),
{
    c == ' ' || c == '\t' || c == '\n' || c == '\x0C' || c == '\r'
}

/// Whether `c` is punctuation that a name may hold.
pub fn name_mark(c: char) -> (b: bool)
    ensures
        b == is_name_mark(c),
{
    c == '.' || c == '!' || c == '#' || c == '$' || c == '%' || c == '&' || c == '/' || c == '?'
        || c == '*' || c == '-' || c == '_' || c == ':' || c == ';'
}

/// Whether a name may hold `c` after its first character.
pub fn is_name_character(c: char) -> (b: bool)
    ensures
        b == is_name_char(c),
{
    ('0' <= c && c <= '9') || ('A' <= c && c <= 'Z') || ('a' <= c && c <= 'z') || name_mark(c)
}

/// Whether an agent name may begin with `c`.
pub fn ctr_start(c: char) -> (b: bool)
    ensures
        b == is_ctr_start(c),
{
    ('A' <= c && c <= 'Z') || ('0' <= c && c <= '9') || name_mark(c) || c == '~'
}

impl<'i> ProgramBuilder<'i> {
    /// The builder can read: it is well formed, holds the characters of its
    /// text, stands inside the text, and has a scope.
    pub open spec fn ready(self) -> bool {
        &&& self.wf()
        &&& self.text@ == self.input@
        &&& self.index <= self.text@.len()
        &&& self.levels@.len() > 0
    }

    /// Everything but the position in the text is as in `other`.
    pub open spec fn moved_from(self, other: Self) -> bool {
        &&& self.input == other.input
        &&& self.text == other.text
        &&& self.levels == other.levels
        &&& self.def == other.def
        &&& self.agent_scope_back == other.agent_scope_back
        &&& self.arities == other.arities
        &&& self.next_agent_id == other.next_agent_id
        &&& self.interaction_system == other.interaction_system
        &&& self.output == other.output
    }

    /// The next character, if the text has one.
    pub fn peek_one(&self) -> (c: Option<char>)
        ensures
            c == (if self.index < self.text@.len() {
                Some(self.text@[self.index as int])
            } else {
                None
            }),
    {
        if self.index < self.text.len() {
            Some(self.text[self.index])
        } else {
            None
        }
    }

    /// Skips the blank characters at the position.
    pub fn skip_trivia(&mut self)
        requires
            old(self).index <= old(self).text@.len(),
        ensures
            final(self)@ == spaced(old(self)@),
            final(self).index == skip_spaces(old(self).text@, old(self).index as int),
            old(self).index <= final(self).index <= old(self).text@.len(),
            final(self).moved_from(*old(self)),
    {
        proof {
            lemma_skip_spaces(self.text@, self.index as int);
        }
        while self.index < self.text.len() && space(self.text[self.index])
            invariant
                old(self).index <= self.index <= self.text@.len(),
                self.moved_from(*old(self)),
                skip_spaces(self.text@, self.index as int) == skip_spaces(
                    old(self).text@,
                    old(self).index as int,
                ),
            decreases self.text@.len() - self.index,
        {
            self.index += 1;
        }
    }

    /// Skips the name characters at the position.
    pub fn skip_name(&mut self)
        requires
            old(self).index <= old(self).text@.len(),
        ensures
            final(self).index == name_end(old(self).text@, old(self).index as int),
            old(self).index <= final(self).index <= old(self).text@.len(),
            final(self).moved_from(*old(self)),
    {
        while self.index < self.text.len() && is_name_character(self.text[self.index])
            invariant
                old(self).index <= self.index <= self.text@.len(),
                self.moved_from(*old(self)),
                name_end(self.text@, self.index as int) == name_end(
                    old(self).text@,
                    old(self).index as int,
                ),
            decreases self.text@.len() - self.index,
        {
            self.index += 1;
        }
    }

    /// Skips the blank characters and the comments at the position.
    pub fn skip_blank(&mut self)
        requires
            old(self).index <= old(self).text@.len(),
        ensures
            final(self).index == skip_blank(old(self).text@, old(self).index as int),
            old(self).index <= final(self).index <= old(self).text@.len(),
            final(self).moved_from(*old(self)),
    {
        loop
            invariant
                old(self).index <= self.index <= self.text@.len(),
                self.moved_from(*old(self)),
                skip_blank(self.text@, self.index as int) == skip_blank(
                    old(self).text@,
                    old(self).index as int,
                ),
            ensures
                old(self).index <= self.index <= self.text@.len(),
                self.moved_from(*old(self)),
                self.index == skip_blank(old(self).text@, old(self).index as int),
            decreases self.text@.len() - self.index,
        {
            if self.index >= self.text.len() {
                break;
            }
            let c = self.text[self.index];
            if space(c) {
                self.index += 1;
            } else if c == '/' && self.index + 1 < self.text.len() && self.text[self.index + 1]
                == '/' {
                proof {
                    lemma_next_line(self.text@, self.index as int);
                }
                let ghost start = self.index as int;
                while self.index < self.text.len() && self.text[self.index] != '\n'
                    invariant
                        start <= self.index <= self.text@.len(),
                        self.moved_from(*old(self)),
                        next_line(self.text@, self.index as int) == next_line(self.text@, start),
                    decreases self.text@.len() - self.index,
                {
                    self.index += 1;
                }
                if self.index < self.text.len() {
                    self.index += 1;
                }
            } else {
                break;
            }
        }
    }

    /// The characters of the text from `from` up to `to`.
    pub fn slice(&self, from: usize, to: usize) -> (s: String)
        requires
            self.text@ == self.input@,
            from <= to <= self.text@.len(),
        ensures
            s@ == self.text@.subrange(from as int, to as int),
    {
        String::from_str(self.input.substring_char(from, to))
    }

    /// The rest of the text from the position on, as the debugging format
    /// writes it.
    pub fn rest_quoted(&self) -> (line: String)
        requires
            self.text@ == self.input@,
            self.index <= self.text@.len(),
        ensures
            line@ == debug_form(self.text@.subrange(self.index as int, self.text@.len() as int)),
    {
        let rest = self.slice(self.index, self.text.len());
        quoted(rest.as_str())
    }

    /// The message for `expected` missing at the position.
    pub fn expected(&self, expected: &str) -> (message: String)
        requires
            self.text@ == self.input@,
            self.index <= self.text@.len(),
        ensures
            message@ == expected_message(
                self.input@,
                error_offset(self.input@, self.index as int),
                expected@,
            ),
    {
        let prefix = self.input.substring_char(0, self.index);
        let n = prefix.len();
        let all = self.input.len();
        let inside = if n <= all {
            n
        } else {
            all
        };
        let offset = if inside < usize::MAX {
            inside
        } else {
            usize::MAX - 1
        };
        expected_at(self.input, offset, expected)
    }

    /// Whether the text holds `token` at the position.
    pub fn at_token(&self, token: &str) -> (b: bool)
        requires
            self.index <= self.text@.len(),
        ensures
            b == holds_at(self.text@, self.index as int, token@),
    {
        let n = token.unicode_len();
        if n > self.text.len() - self.index {
            return false;
        }
        let mut k: usize = 0;
        while k < n
            invariant
                k <= n,
                n == token@.len(),
                self.index + n <= self.text.len(),
                forall|j: int| 0 <= j < k ==> self.text@[self.index + j] == token@[j],
            decreases n - k,
        {
            if self.text[self.index + k] != token.get_char(k) {
                proof {
                    let part = self.text@.subrange(self.index as int, self.index + n);
                    assert(part[k as int] != token@[k as int]);
                }
                return false;
            }
            k += 1;
        }
        assert(self.text@.subrange(self.index as int, self.index + n) =~= token@);
        true
    }

    /// Skips blanks and comments, then reads `token`; without it, the error
    /// is the parser library's message at the position reached.
    pub fn consume(&mut self, token: &str) -> (r: Result<(), String>)
        requires
            old(self).text@ == old(self).input@,
            old(self).index <= old(self).text@.len(),
        ensures
            (final(self)@, unit_result(r)) == read_token(old(self)@, token@),
            final(self).moved_from(*old(self)),
            old(self).index <= final(self).index <= old(self).text@.len(),
            match token_at(old(self).text@, old(self).index as int, token@) {
                Some(end) => r is Ok && final(self).index == end,
                None => {
                    let at = skip_blank(old(self).text@, old(self).index as int);
                    r is Err && final(self).index == at && r->Err_0@ == expected_message(
                        old(self).input@,
                        error_offset(old(self).input@, at),
                        token@,
                    )
                },
            },
    {
        self.skip_blank();
        if self.at_token(token) {
            assert(self.index + token@.len() <= self.text.len());
            self.index += token.unicode_len();
            Ok(())
        } else {
            Err(self.expected(token))
        }
    }
}

} // verus!
