//! The lexer: characters to tokens.
use vstd::prelude::*;
use crate::errors::Error;
use crate::text::{chars_of, decimal_value, int_text, is_digit, lemma_decimal_value, string_of};
use crate::token::{Kind, Span, Token};

verus! {

/// Unicode `White_Space`, the characters that `char::is_whitespace` accepts.
pub open spec fn is_space(c: char) -> bool {
    ('\t' <= c && c <= '\r') || c == ' ' || c == '\u{85}' || c == '\u{a0}' || c == '\u{1680}' || (
    '\u{2000}' <= c && c <= '\u{200a}') || c == '\u{2028}' || c == '\u{2029}' || c == '\u{202f}' || c
        == '\u{205f}' || c == '\u{3000}'
}

/// A character that can start an identifier: an ASCII letter, `$` or `_`.
pub open spec fn is_first_id_spec(c: char) -> bool {
    ('a' <= c && c <= 'z') || ('A' <= c && c <= 'Z') || c == '$' || c == '_'
}

/// A character that can continue an identifier.
pub open spec fn is_rest_id_spec(c: char) -> bool {
    is_first_id_spec(c) || is_digit(c)
}

/// The character at `i`, or `'\0'` past the end.
pub open spec fn char_at(src: Seq<char>, i: int) -> char {
    if 0 <= i < src.len() {
        src[i]
    } else {
        '\0'
    }
}

/// Where whitespace and `//` comments starting at `i` end.
pub open spec fn skip(src: Seq<char>, i: int) -> int
    decreases src.len() - i, 1nat,
{
    if i < 0 || i >= src.len() {
        i
    } else if is_space(src[i]) {
        skip(src, i + 1)
    } else if src[i] == '/' && char_at(src, i + 1) == '/' {
        skip_comment(src, i)
    } else {
        i
    }
}

/// Where a comment running from `i` to the end of its line, and what
/// follows it, end.
pub open spec fn skip_comment(src: Seq<char>, i: int) -> int
    decreases src.len() - i, 0nat,
{
    if i < 0 || i >= src.len() {
        i
    } else if src[i] == '\n' {
        skip(src, i + 1)
    } else {
        skip_comment(src, i + 1)
    }
}

/// The end of the run of digits that starts at `i`.
pub open spec fn digits_end(src: Seq<char>, i: int) -> int
    decreases src.len() - i,
{
    if 0 <= i < src.len() && is_digit(src[i]) {
        digits_end(src, i + 1)
    } else {
        i
    }
}

/// The end of the run of identifier characters that starts at `i`.
pub open spec fn id_end(src: Seq<char>, i: int) -> int
    decreases src.len() - i,
{
    if 0 <= i < src.len() && is_rest_id_spec(src[i]) {
        id_end(src, i + 1)
    } else {
        i
    }
}

/// The kind of a word: a keyword or an identifier.
pub open spec fn word_kind(w: Seq<char>) -> Kind {
    if w == "if"@ {
        Kind::If
    } else if w == "else"@ {
        Kind::Else
    } else if w == "while"@ {
        Kind::While
    } else if w == "for"@ {
        Kind::For
    } else if w == "fun"@ {
        Kind::Fun
    } else {
        Kind::Id
    }
}

/// The character that an escape `\c` stands for.
pub open spec fn escape_of(c: char) -> Option<char> {
    if c == 'n' {
        Some('\n')
    } else if c == 't' {
        Some('\t')
    } else if c == 'r' {
        Some('\r')
    } else if c == '\\' {
        Some('\\')
    } else if c == '"' {
        Some('"')
    } else {
        None
    }
}

/// Why the lexer failed.
pub enum LexFault {
    /// No token starts at this offset.
    Syntax(int),
    /// The source ended inside a string.
    Eof,
    /// An unknown escape character and its offset.
    Escape(char, int),
}

/// The body of a string from `i` on: its unescaped text and the offset of
/// the closing quote.
pub open spec fn scan_str(src: Seq<char>, i: int) -> Result<(Seq<char>, int), LexFault>
    decreases src.len() - i,
{
    if i < 0 || i >= src.len() {
        Err(LexFault::Eof)
    } else if src[i] == '"' {
        Ok((Seq::empty(), i))
    } else if src[i] == '\\' {
        let e = char_at(src, i + 1);
        match escape_of(e) {
            None => Err(LexFault::Escape(e, i + 1)),
            Some(c) => match scan_str(src, i + 2) {
                Ok((v, q)) => Ok((seq![c] + v, q)),
                Err(f) => Err(f),
            },
        }
    } else {
        match scan_str(src, i + 1) {
            Ok((v, q)) => Ok((seq![src[i]] + v, q)),
            Err(f) => Err(f),
        }
    }
}

/// The operator at `i`: its kind and width. `<=`, `>=`, `!=` and `==` take
/// two characters.
pub open spec fn op_at(src: Seq<char>, i: int) -> Option<(Kind, int)> {
    let c = char_at(src, i);
    let d = char_at(src, i + 1);
    if c == '(' {
        Some((Kind::LPar, 1))
    } else if c == ')' {
        Some((Kind::RPar, 1))
    } else if c == '{' {
        Some((Kind::LBraces, 1))
    } else if c == '}' {
        Some((Kind::RBraces, 1))
    } else if c == '[' {
        Some((Kind::LBracket, 1))
    } else if c == ']' {
        Some((Kind::RBracket, 1))
    } else if c == '+' {
        Some((Kind::Add, 1))
    } else if c == '-' {
        Some((Kind::Sub, 1))
    } else if c == '/' {
        Some((Kind::Div, 1))
    } else if c == '*' {
        Some((Kind::Mul, 1))
    } else if c == '%' {
        Some((Kind::Mod, 1))
    } else if c == ';' {
        Some((Kind::Semi, 1))
    } else if c == ',' {
        Some((Kind::Comma, 1))
    } else if c == '<' {
        if d == '=' {
            Some((Kind::Lte, 2))
        } else {
            Some((Kind::Lt, 1))
        }
    } else if c == '>' {
        if d == '=' {
            Some((Kind::Gte, 2))
        } else {
            Some((Kind::Gt, 1))
        }
    } else if c == '!' {
        if d == '=' {
            Some((Kind::NotEq, 2))
        } else {
            Some((Kind::Not, 1))
        }
    } else if c == '=' {
        if d == '=' {
            Some((Kind::Eq, 2))
        } else {
            Some((Kind::Assign, 1))
        }
    } else {
        None
    }
}

/// What reading one token from offset `i` gives.
pub enum Scan {
    /// Only whitespace and comments were left.
    End,
    /// A token: kind, text, start and end offsets.
    Tok(Kind, Seq<char>, int, int),
    /// An error.
    Bad(LexFault),
}

/// The token that starts at `j`, which is no whitespace.
pub open spec fn scan_from(src: Seq<char>, j: int) -> Scan {
    let c = src[j];
    if is_digit(c) {
        let e = digits_end(src, j);
        Scan::Tok(Kind::Int, src.subrange(j, e), j, e)
    } else if is_first_id_spec(c) {
        let e = id_end(src, j);
        Scan::Tok(word_kind(src.subrange(j, e)), src.subrange(j, e), j, e)
    } else if c == '"' {
        match scan_str(src, j + 1) {
            Ok((v, q)) => Scan::Tok(Kind::Str, v, j, q + 1),
            Err(f) => Scan::Bad(f),
        }
    } else {
        match op_at(src, j) {
            Some((k, w)) => Scan::Tok(k, src.subrange(j, j + w), j, j + w),
            None => Scan::Bad(LexFault::Syntax(j)),
        }
    }
}

/// The token that starts after the whitespace and comments at `i`.
#[verifier::opaque]
pub open spec fn scan(src: Seq<char>, i: int) -> Scan {
    let j = skip(src, i);
    if j < 0 || j >= src.len() {
        Scan::End
    } else {
        scan_from(src, j)
    }
}

/// The error that the lexer reports for a fault.
pub open spec fn lex_error(f: LexFault, e: Error) -> bool {
    match f {
        LexFault::Syntax(at) => e == Error::SyntaxError(at as usize),
        LexFault::Eof => e == Error::UnexpectedEOF,
        LexFault::Escape(c, at) => e == Error::InvalidStringEscape(c, at as usize),
    }
}

/// `tk` is the token that `scan` finds.
pub open spec fn token_is(s: Scan, tk: Token) -> bool {
    s == Scan::Tok(tk.kind, tk.value@, tk.at.start as int, tk.at.end as int)
}

/// Where reading of the `k`-th token of `toks` starts.
pub open spec fn start_of(start: int, toks: Seq<Token>, k: int) -> int {
    if k == 0 {
        start
    } else {
        toks[k - 1].at.end as int
    }
}

/// The `k`-th token of `toks` is the one read where the previous ended.
pub open spec fn token_at(src: Seq<char>, start: int, toks: Seq<Token>, k: int) -> bool {
    token_is(scan(src, start_of(start, toks, k)), toks[k])
}

/// Reading `toks` one after the other from `start` gives exactly these
/// tokens.
pub open spec fn lexes(src: Seq<char>, start: int, toks: Seq<Token>) -> bool {
    forall|k: int| 0 <= k < toks.len() ==> #[trigger] token_at(src, start, toks, k)
}

/// Where reading stops after `toks`.
pub open spec fn after(start: int, toks: Seq<Token>) -> int {
    if toks.len() == 0 {
        start
    } else {
        toks.last().at.end as int
    }
}

/// Prefixes `p` to the text of a string scan.
pub open spec fn prepend(p: Seq<char>, r: Result<(Seq<char>, int), LexFault>) -> Result<(Seq<char>, int), LexFault> {
    match r {
        Ok((w, q)) => Ok((p + w, q)),
        Err(f) => Err(f),
    }
}

/// Skipping never goes back, nor past the end.
proof fn lemma_skip_bounds(src: Seq<char>, i: int)
    requires
        0 <= i,
    ensures
        i <= skip(src, i),
        i <= src.len() ==> skip(src, i) <= src.len(),
    decreases src.len() - i, 1nat,
{
    if i < src.len() {
        if is_space(src[i]) {
            lemma_skip_bounds(src, i + 1);
        } else if src[i] == '/' && char_at(src, i + 1) == '/' {
            lemma_skip_comment_bounds(src, i);
        }
    }
}

/// Comment skipping never goes back, nor past the end.
proof fn lemma_skip_comment_bounds(src: Seq<char>, i: int)
    requires
        0 <= i,
    ensures
        i <= skip_comment(src, i),
        i <= src.len() ==> skip_comment(src, i) <= src.len(),
    decreases src.len() - i, 0nat,
{
    if i < src.len() {
        if src[i] == '\n' {
            lemma_skip_bounds(src, i + 1);
        } else {
            lemma_skip_comment_bounds(src, i + 1);
        }
    }
}

/// A digit run ends after its start and within the source.
proof fn lemma_digits_end(src: Seq<char>, i: int)
    requires
        0 <= i <= src.len(),
    ensures
        i <= digits_end(src, i) <= src.len(),
        forall|k: int| i <= k < digits_end(src, i) ==> is_digit(#[trigger] src[k]),
    decreases src.len() - i,
{
    if i < src.len() && is_digit(src[i]) {
        lemma_digits_end(src, i + 1);
    }
}

/// An identifier run ends after its start and within the source.
proof fn lemma_id_end(src: Seq<char>, i: int)
    requires
        0 <= i <= src.len(),
    ensures
        i <= id_end(src, i) <= src.len(),
    decreases src.len() - i,
{
    if i < src.len() && is_rest_id_spec(src[i]) {
        lemma_id_end(src, i + 1);
    }
}

/// A string body closes at a quote within the source.
proof fn lemma_scan_str(src: Seq<char>, i: int)
    requires
        0 <= i,
    ensures
        scan_str(src, i) is Ok ==> i <= scan_str(src, i)->Ok_0.1 < src.len(),
    decreases src.len() - i,
{
    if 0 <= i < src.len() && src[i] != '"' {
        if src[i] == '\\' {
            if i + 2 <= src.len() {
                lemma_scan_str(src, i + 2);
            }
        } else {
            lemma_scan_str(src, i + 1);
        }
    }
}

/// A token ends after the offset that reading starts from, within the source.
proof fn lemma_scan_progress(src: Seq<char>, i: int)
    requires
        0 <= i,
    ensures
        scan(src, i) matches Scan::Tok(_, _, a, b) ==> i <= a < b <= src.len(),
        scan(src, i) is End ==> !(0 <= skip(src, i) < src.len()),
{
    reveal(scan);
    lemma_skip_bounds(src, i);
    let j = skip(src, i);
    if 0 <= j < src.len() {
        lemma_digits_end(src, j);
        lemma_id_end(src, j);
        lemma_digits_end(src, j + 1);
        lemma_id_end(src, j + 1);
        lemma_scan_str(src, j + 1);
        if let Some((k, w)) = op_at(src, j) {
            assert(w == 1 || (w == 2 && char_at(src, j + 1) == '='));
        }
    }
}

/// One more token read where the last one ended extends a reading.
proof fn lemma_lexes_push(src: Seq<char>, start: int, toks: Seq<Token>, tk: Token)
    requires
        lexes(src, start, toks),
        token_is(scan(src, after(start, toks)), tk),
    ensures
        lexes(src, start, toks.push(tk)),
        after(start, toks.push(tk)) == tk.at.end as int,
{
    let t = toks.push(tk);
    assert forall|k: int| 0 <= k < t.len() implies #[trigger] token_at(src, start, t, k) by {
        if k < toks.len() {
            assert(token_at(src, start, toks, k));
            assert(t[k] == toks[k]);
            if k > 0 {
                assert(t[k - 1] == toks[k - 1]);
            }
            assert(start_of(start, t, k) == start_of(start, toks, k));
        } else {
            assert(t[k] == tk);
            if k > 0 {
                assert(t[k - 1] == toks[k - 1]);
            }
            assert(start_of(start, t, k) == after(start, toks));
        }
    }
}

/// A lexer over the characters of a source text.
pub struct Lexer {
    source: Vec<char>,
    index: usize,
}

impl Lexer {
    /// The source characters.
    pub closed spec fn src(&self) -> Seq<char> {
        self.source@
    }

    /// The offset of the next character to read.
    pub closed spec fn pos(&self) -> int {
        self.index as int
    }

    /// A lexer at the start of `source`.
    pub fn new(source: &str) -> (r: Lexer)
        ensures
            r.src() == source@,
            r.pos() == 0,
    {
        Lexer { source: chars_of(source), index: 0 }
    }

    /// `true` at the end of the source.
    pub fn is_empty(&self) -> (r: bool)
        ensures
            r == (self.pos() >= self.src().len()),
    {
        self.index >= self.source.len()
    }

    /// The character at `offset` from the current one, or `'\0'` past the end.
    fn at(&self, offset: usize) -> (r: char)
        ensures
            r == char_at(self.src(), self.pos() + offset),
    {
        if offset < self.source.len() && self.index < self.source.len() - offset {
            self.source[self.index + offset]
        } else {
            '\0'
        }
    }

    /// The current character, or `'\0'` past the end.
    fn current(&self) -> (r: char)
        ensures
            r == char_at(self.src(), self.pos()),
    {
        self.at(0)
    }

    /// Skips whitespace and comments; `true` if the source has ended.
    fn skip_ws(&mut self) -> (r: bool)
        ensures
            final(self).src() == old(self).src(),
            final(self).pos() == skip(old(self).src(), old(self).pos()),
            r == (final(self).pos() >= final(self).src().len()),
    {
        let ghost src = self.src();
        proof {
            assert(src == self.source@ && self.pos() == self.index as int);
        }
        let ghost start = (self.index as int);
        while self.index < self.source.len()
            invariant
                self.source@ == src,
                src == old(self).src(),
                old(self).pos() == start,
                skip(src, start) == skip(src, (self.index as int)),
                0 <= (self.index as int),
            ensures
                self.source@ == src,
                skip(src, start) == skip(src, (self.index as int)),
                skip(src, self.index as int) == self.index as int,
            decreases src.len() - self.index,
        {
            let c = self.source[self.index];
            if is_whitespace(c) {
                self.index += 1;
            } else if c == '/' && self.index + 1 < self.source.len() && self.source[self.index + 1] == '/' {
                let ghost cs = self.index;
                proof {
                    assert(skip(src, (self.index as int)) == skip_comment(src, (self.index as int)));
                }
                while self.index < self.source.len() && self.source[self.index] != '\n'
                    invariant
                        cs <= self.index <= src.len(),
                        self.source@ == src,
                        src == old(self).src(),
                        old(self).pos() == start,
                        skip(src, start) == skip_comment(src, (self.index as int)),
                        0 <= (self.index as int),
                    decreases src.len() - self.index,
                {
                    self.index += 1;
                }
                proof {
                    if (self.index as int) < src.len() {
                        assert(src[(self.index as int)] == '\n');
                        assert(is_space('\n'));
                        assert(skip(src, self.index as int) == skip(src, self.index + 1));
                    }
                    assert(self.index > cs);
                }
            } else {
                proof {
                    assert(!is_space(src[self.index as int]));
                    assert(!(src[self.index as int] == '/' && char_at(src, self.index + 1) == '/'));
                    assert(skip(src, self.index as int) == self.index as int);
                }
                break;
            }
        }
        proof {
            assert(skip(src, start) == skip(src, self.index as int));
            assert(skip(src, self.index as int) == self.index as int);
            assert(self.src() == self.source@ && self.pos() == self.index as int);
        }
        self.is_empty()
    }

    /// Reads an integer literal.
    fn next_int(&mut self) -> (r: Token)
        requires
            0 <= old(self).pos() < old(self).src().len(),
            is_digit(old(self).src()[old(self).pos()]),
        ensures
            final(self).src() == old(self).src(),
            token_is(scan_from(old(self).src(), old(self).pos()), r),
            final(self).pos() == r.at.end,
    {
        let ghost src = self.src();
        proof {
            assert(src == self.source@ && self.pos() == self.index as int);
        }
        let start = self.index;
        let mut v: Vec<char> = Vec::new();
        while self.index < self.source.len() && is_digit_char(self.source[self.index])
            invariant
                self.source@ == src,
                src == old(self).src(),
                old(self).pos() == start,
                start <= (self.index as int) <= src.len(),
                v@ == src.subrange(start as int, (self.index as int)),
                digits_end(src, start as int) == digits_end(src, (self.index as int)),
            decreases src.len() - self.index,
        {
            v.push(self.source[self.index]);
            self.index += 1;
            assert(v@ =~= src.subrange(start as int, (self.index as int)));
        }
        Token { kind: Kind::Int, value: string_of(&v), at: Span { start, end: self.index } }
    }

    /// Reads an identifier or keyword.
    fn next_id(&mut self) -> (r: Token)
        requires
            0 <= old(self).pos() < old(self).src().len(),
            is_first_id_spec(old(self).src()[old(self).pos()]),
        ensures
            final(self).src() == old(self).src(),
            token_is(scan_from(old(self).src(), old(self).pos()), r),
            final(self).pos() == r.at.end,
    {
        let ghost src = self.src();
        proof {
            assert(src == self.source@ && self.pos() == self.index as int);
        }
        let start = self.index;
        let mut v: Vec<char> = Vec::new();
        while self.index < self.source.len() && is_rest_id(self.source[self.index])
            invariant
                self.source@ == src,
                src == old(self).src(),
                old(self).pos() == start,
                start <= (self.index as int) <= src.len(),
                v@ == src.subrange(start as int, (self.index as int)),
                id_end(src, start as int) == id_end(src, (self.index as int)),
            decreases src.len() - self.index,
        {
            v.push(self.source[self.index]);
            self.index += 1;
            assert(v@ =~= src.subrange(start as int, (self.index as int)));
        }
        let value = string_of(&v);
        Token { kind: keyword_kind(&value), value, at: Span { start, end: self.index } }
    }

    /// Reads a string literal.
    fn next_str(&mut self) -> (r: Result<Token, Error>)
        requires
            0 <= old(self).pos() < old(self).src().len(),
            old(self).src()[old(self).pos()] == '"',
        ensures
            final(self).src() == old(self).src(),
            match scan_str(old(self).src(), old(self).pos() + 1) {
                Ok((v, q)) => r is Ok && r->Ok_0.kind == Kind::Str && r->Ok_0.value@ == v && r->Ok_0.at == Span {
                    start: old(self).pos() as usize,
                    end: (q + 1) as usize,
                } && final(self).pos() == q + 1,
                Err(f) => r is Err && lex_error(f, r->Err_0),
            },
    {
        let ghost src = self.src();
        proof {
            assert(src == self.source@ && self.pos() == self.index as int);
        }
        let start = self.index;
        assert(self.index < self.source.len());
        self.index += 1;
        let mut v: Vec<char> = Vec::new();
        while self.index < self.source.len() && self.source[self.index] != '"'
            invariant
                self.source@ == src,
                src == old(self).src(),
                old(self).pos() == start,
                start < (self.index as int) <= src.len(),
                scan_str(src, start + 1) == prepend(v@, scan_str(src, (self.index as int))),
            decreases src.len() - self.index,
        {
            let ghost v0 = v@;
            let ghost i0 = self.index as int;
            let c = self.source[self.index];
            self.index += 1;
            if c == '\\' {
                let e = if self.index < self.source.len() {
                    self.source[self.index]
                } else {
                    '\0'
                };
                let x = match e {
                    'n' => '\n',
                    't' => '\t',
                    'r' => '\r',
                    '\\' => '\\',
                    '"' => '"',
                    _ => {
                        proof {
                            assert(self.src() == self.source@);
                        }
                        return Err(Error::InvalidStringEscape(e, self.index));
                    },
                };
                self.index += 1;
                v.push(x);
                proof {
                    assert(escape_of(src[i0 + 1]) == Some(x));
                    assert(scan_str(src, i0) == prepend(seq![x], scan_str(src, i0 + 2)));
                    match scan_str(src, i0 + 2) {
                        Ok((w, q)) => {
                            assert(v0 + (seq![x] + w) =~= v@ + w);
                        },
                        Err(_) => {},
                    }
                    assert(prepend(v0, scan_str(src, i0)) == prepend(v@, scan_str(src, self.index as int)));
                }
            } else {
                v.push(c);
                proof {
                    assert(scan_str(src, i0) == prepend(seq![c], scan_str(src, i0 + 1)));
                    match scan_str(src, i0 + 1) {
                        Ok((w, q)) => {
                            assert(v0 + (seq![c] + w) =~= v@ + w);
                        },
                        Err(_) => {},
                    }
                    assert(prepend(v0, scan_str(src, i0)) == prepend(v@, scan_str(src, self.index as int)));
                }
            }
        }
        if self.index >= self.source.len() {
            Err(Error::UnexpectedEOF)
        } else {
            self.index += 1;
            proof {
                assert(v@ + Seq::<char>::empty() =~= v@);
            }
            Ok(Token { kind: Kind::Str, value: string_of(&v), at: Span { start, end: self.index } })
        }
    }

    /// Reads an operator or punctuation token; a character that starts no
    /// token is a syntax error at its offset.
    pub fn next_op(&mut self) -> (r: Result<Token, Error>)
        ensures
            final(self).src() == old(self).src(),
            match op_at(old(self).src(), old(self).pos()) {
                Some((k, w)) => r is Ok && token_is(
                    Scan::Tok(k, old(self).src().subrange(old(self).pos(), old(self).pos() + w), old(self).pos(), old(self).pos() + w),
                    r->Ok_0,
                ) && final(self).pos() == old(self).pos() + w,
                None => r == Err::<Token, Error>(Error::SyntaxError(old(self).pos() as usize)),
            },
    {
        let ghost src = self.src();
        let start = self.index;
        let c = self.current();
        let d = self.at(1);
        let (kind, width): (Kind, usize) = if c == '(' {
            (Kind::LPar, 1)
        } else if c == ')' {
            (Kind::RPar, 1)
        } else if c == '{' {
            (Kind::LBraces, 1)
        } else if c == '}' {
            (Kind::RBraces, 1)
        } else if c == '[' {
            (Kind::LBracket, 1)
        } else if c == ']' {
            (Kind::RBracket, 1)
        } else if c == '+' {
            (Kind::Add, 1)
        } else if c == '-' {
            (Kind::Sub, 1)
        } else if c == '/' {
            (Kind::Div, 1)
        } else if c == '*' {
            (Kind::Mul, 1)
        } else if c == '%' {
            (Kind::Mod, 1)
        } else if c == ';' {
            (Kind::Semi, 1)
        } else if c == ',' {
            (Kind::Comma, 1)
        } else if c == '<' {
            if d == '=' {
                (Kind::Lte, 2)
            } else {
                (Kind::Lt, 1)
            }
        } else if c == '>' {
            if d == '=' {
                (Kind::Gte, 2)
            } else {
                (Kind::Gt, 1)
            }
        } else if c == '!' {
            if d == '=' {
                (Kind::NotEq, 2)
            } else {
                (Kind::Not, 1)
            }
        } else if c == '=' {
            if d == '=' {
                (Kind::Eq, 2)
            } else {
                (Kind::Assign, 1)
            }
        } else {
            return Err(Error::SyntaxError(self.index));
        };
        proof {
            assert(src == self.source@ && self.pos() == self.index as int);
            assert(op_at(src, start as int) == Some((kind, width as int)));
            assert(self.index < self.source.len());
            if width == 2 {
                assert(d == '=');
                assert(self.index + 1 < self.source.len());
            }
        }
        let mut v: Vec<char> = Vec::new();
        v.push(c);
        if width == 2 {
            v.push(d);
        }
        self.index = self.index + width;
        proof {
            assert(v@ =~= src.subrange(start as int, start + width));
        }
        Ok(Token { kind, value: string_of(&v), at: Span { start, end: self.index } })
    }

    /// Reads the next token: `Ok(None)` at the end of the source.
    pub fn next(&mut self) -> (r: Result<Option<Token>, Error>)
        ensures
            final(self).src() == old(self).src(),
            match scan(old(self).src(), old(self).pos()) {
                Scan::End => r == Ok::<Option<Token>, Error>(None),
                Scan::Tok(_, _, _, b) => r is Ok && r->Ok_0 is Some && token_is(
                    scan(old(self).src(), old(self).pos()),
                    r->Ok_0->0,
                ) && final(self).pos() == b,
                Scan::Bad(f) => r is Err && lex_error(f, r->Err_0),
            },
    {
        let ghost src = self.src();
        let ghost start = self.pos();
        proof {
            reveal(scan);
        }
        if self.skip_ws() {
            return Ok(None);
        }
        proof {
            lemma_skip_bounds(src, start);
            assert(scan(src, start) == scan_from(src, self.pos()));
        }
        let c = self.current();
        if is_digit_char(c) {
            Ok(Some(self.next_int()))
        } else if is_first_id(c) {
            Ok(Some(self.next_id()))
        } else if c == '"' {
            match self.next_str() {
                Ok(tk) => Ok(Some(tk)),
                Err(e) => Err(e),
            }
        } else {
            match self.next_op() {
                Ok(tk) => Ok(Some(tk)),
                Err(e) => Err(e),
            }
        }
    }

    /// Reads every remaining token, or the first error.
    pub fn collect(&mut self) -> (r: Result<Vec<Token>, Error>)
        ensures
            final(self).src() == old(self).src(),
            match r {
                Ok(toks) => lexes(old(self).src(), old(self).pos(), toks@) && scan(
                    old(self).src(),
                    after(old(self).pos(), toks@),
                ) is End,
                Err(e) => exists|toks: Seq<Token>|
                    #[trigger] lexes(old(self).src(), old(self).pos(), toks) && match scan(
                        old(self).src(),
                        after(old(self).pos(), toks),
                    ) {
                        Scan::Bad(f) => lex_error(f, e),
                        _ => false,
                    },
            },
    {
        let ghost src = self.src();
        let ghost start = self.pos();
        let mut tks: Vec<Token> = Vec::new();
        loop
            invariant
                self.src() == src,
                src == old(self).src(),
                start == old(self).pos(),
                lexes(src, start, tks@),
                self.pos() == after(start, tks@),
                tks@.len() > 0 ==> self.pos() <= src.len(),
            decreases (if self.pos() <= src.len() { src.len() - self.pos() + 1 } else { 0 }),
        {
            let ghost p0 = self.pos();
            proof {
                lemma_scan_progress(src, p0);
            }
            match self.next() {
                Ok(Some(tk)) => {
                    let ghost t0 = tks@;
                    proof {
                        lemma_lexes_push(src, start, t0, tk);
                    }
                    tks.push(tk);
                    assert(tks@ == t0.push(tk));
                },
                Ok(None) => {
                    return Ok(tks);
                },
                Err(e) => {
                    return Err(e);
                },
            }
        }
    }
}

/// `true` for an ASCII digit.
fn is_digit_char(c: char) -> (r: bool)
    ensures
        r == is_digit(c),
{
    '0' <= c && c <= '9'
}

/// `true` for a character that can continue an identifier.
fn is_rest_id(c: char) -> (r: bool)
    ensures
        r == is_rest_id_spec(c),
{
    ('a' <= c && c <= 'z') || ('A' <= c && c <= 'Z') || c == '$' || c == '_' || ('0' <= c && c <= '9')
}

/// `true` for a character that can start an identifier.
fn is_first_id(c: char) -> (r: bool)
    ensures
        r == is_first_id_spec(c),
{
    ('a' <= c && c <= 'z') || ('A' <= c && c <= 'Z') || c == '$' || c == '_'
}

/// The kind of a word: a keyword's own kind, else `Id`.
fn keyword_kind(w: &String) -> (r: Kind)
    ensures
        r == word_kind(w@),
{
    if *w == String::from_str("if") {
        Kind::If
    } else if *w == String::from_str("else") {
        Kind::Else
    } else if *w == String::from_str("while") {
        Kind::While
    } else if *w == String::from_str("for") {
        Kind::For
    } else if *w == String::from_str("fun") {
        Kind::Fun
    } else {
        Kind::Id
    }
}

/// `char::is_whitespace`, as `is_space` states it.
fn is_whitespace(c: char) -> (r: bool)
    ensures
        r == is_space(c),
{
    ('\t' <= c && c <= '\r') || c == ' ' || c == '\u{85}' || c == '\u{a0}' || c == '\u{1680}' || (
    '\u{2000}' <= c && c <= '\u{200a}') || c == '\u{2028}' || c == '\u{2029}' || c == '\u{202f}' || c
        == '\u{205f}' || c == '\u{3000}'
}

/// A digit run read from `i` reaches the end when all that follows is digits.
proof fn lemma_digits_to_end(src: Seq<char>, i: int)
    requires
        0 <= i <= src.len(),
        forall|k: int| i <= k < src.len() ==> is_digit(#[trigger] src[k]),
    ensures
        digits_end(src, i) == src.len(),
    decreases src.len() - i,
{
    if i < src.len() {
        lemma_digits_to_end(src, i + 1);
    }
}

/// The text of a non-negative integer reads back, through the lexer and
/// the literal parser, as that integer: one `Int` token over the whole
/// text, whose value is the integer.
pub proof fn law_int_text_reads_back(n: i64)
    requires
        n >= 0,
    ensures
        scan(int_text(n as int), 0) == Scan::Tok(Kind::Int, int_text(n as int), 0, int_text(n as int).len() as int),
        decimal_value(int_text(n as int)) == Some(n),
{
    reveal(scan);
    let s = int_text(n as int);
    lemma_decimal_value(n as nat);
    assert(is_digit(s[0]));
    assert(skip(s, 0) == 0);
    lemma_digits_to_end(s, 0);
    assert(s.subrange(0, s.len() as int) =~= s);
}

} // verus!
