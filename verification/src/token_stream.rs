//! Lexical scanning: turns raw text into a stream of typed tokens.
//!
//! `TokenStream` walks the text once, forward only. Each call of
//! `next_token` yields exactly one token; after the text is exhausted it
//! yields `EOF` indefinitely. The whole behaviour is pinned down by the
//! spec functions `spec_next` (one token) and `spec_tokens` (the full
//! sequence), so that tokenizing is a function of the text alone.

use vstd::prelude::*;

verus! {

/// One lexical unit of the configuration language.
#[derive(Clone, PartialEq, Eq, Debug)]
pub enum Token<'a> {
    /// An atomic word: a directive name or an argument.
    Val(&'a str),
    /// A line terminator (`\n` or `\r`).
    LineEnd,
    /// The `;` that terminates a single-line directive.
    DirectiveEntire,
    /// The `{` that opens a block.
    DirectiveBlockStart,
    /// The `}` that closes a block.
    DirectiveBlockEnd,
    /// End of the text; repeated forever once reached.
    EOF,
}

/// The mathematical value of a token: the same alternatives, with the
/// word carried as a sequence of characters.
pub enum Lexeme {
    Val(Seq<char>),
    LineEnd,
    DirectiveEntire,
    DirectiveBlockStart,
    DirectiveBlockEnd,
    EOF,
}

impl<'a> View for Token<'a> {
    type V = Lexeme;

    open spec fn view(&self) -> Lexeme {
        match *self {
            Token::Val(v) => Lexeme::Val(v@),
            Token::LineEnd => Lexeme::LineEnd,
            Token::DirectiveEntire => Lexeme::DirectiveEntire,
            Token::DirectiveBlockStart => Lexeme::DirectiveBlockStart,
            Token::DirectiveBlockEnd => Lexeme::DirectiveBlockEnd,
            Token::EOF => Lexeme::EOF,
        }
    }
}

/// Whether `c` may stand inside a word: anything but separators,
/// delimiters, comment marks and line terminators.
pub open spec fn is_word_char(c: char) -> bool {
    c != ' ' && c != '\t' && c != '#' && c != ';' && c != '\n' && c != '\r' && c != '{' && c != '}'
}

/// The outcome of scanning one token: the token and the cursor position
/// just after it.
pub struct ScanStep {
    pub tok: Lexeme,
    pub end: int,
}

/// One scanning step over `buf` from position `i`.
///
/// `start` is the position where the word currently being accumulated
/// began (`None` when no word is pending); `in_comment` says whether the
/// cursor stands inside a `#` line comment. The rules, in priority order
/// at each position: a separator emits the pending word, or is skipped;
/// `#` opens a comment that runs up to and including the next line
/// terminator and consumes no token; `;` and `{` first emit a pending
/// word without being consumed themselves; a line terminator emits
/// `LineEnd`, dropping any pending word; `}` is always consumed at once;
/// any other character extends the word. At the end of the text a
/// pending word is dropped and `EOF` is returned.
pub open spec fn scan(buf: Seq<char>, i: int, start: Option<int>, in_comment: bool) -> ScanStep
    decreases buf.len() - i,
{
    if i >= buf.len() {
        ScanStep { tok: Lexeme::EOF, end: i }
    } else if in_comment {
        scan(buf, i + 1, start, !(buf[i] == '\n' || buf[i] == '\r'))
    } else {
        let c = buf[i];
        if c == ' ' || c == '\t' {
            match start {
                Some(s) => ScanStep { tok: Lexeme::Val(buf.subrange(s, i)), end: i + 1 },
                None => scan(buf, i + 1, None, false),
            }
        } else if c == '#' {
            scan(buf, i + 1, start, true)
        } else if c == ';' {
            match start {
                Some(s) => ScanStep { tok: Lexeme::Val(buf.subrange(s, i)), end: i },
                None => ScanStep { tok: Lexeme::DirectiveEntire, end: i + 1 },
            }
        } else if c == '\n' || c == '\r' {
            ScanStep { tok: Lexeme::LineEnd, end: i + 1 }
        } else if c == '{' {
            match start {
                Some(s) => ScanStep { tok: Lexeme::Val(buf.subrange(s, i)), end: i },
                None => ScanStep { tok: Lexeme::DirectiveBlockStart, end: i + 1 },
            }
        } else if c == '}' {
            ScanStep { tok: Lexeme::DirectiveBlockEnd, end: i + 1 }
        } else {
            match start {
                Some(s) => scan(buf, i + 1, Some(s), false),
                None => scan(buf, i + 1, Some(i), false),
            }
        }
    }
}

/// The token that a fresh call of `next_token` returns at position `i`,
/// and the position it leaves the cursor at.
pub open spec fn spec_next(buf: Seq<char>, i: int) -> ScanStep {
    scan(buf, i, None, false)
}

/// The cursor never moves backwards, never leaves the text, and stops
/// exactly at the end when `EOF` is reached; a scan that starts with no
/// pending word moves the cursor forward unless it returns `EOF`.
pub proof fn lemma_scan_bounds(buf: Seq<char>, i: int, start: Option<int>, in_comment: bool)
    requires
        0 <= i <= buf.len(),
    ensures
        i <= scan(buf, i, start, in_comment).end <= buf.len(),
        scan(buf, i, start, in_comment).tok is EOF ==> scan(buf, i, start, in_comment).end
            == buf.len(),
        start is None && !in_comment && !(scan(buf, i, start, in_comment).tok is EOF) ==> scan(
            buf,
            i,
            start,
            in_comment,
        ).end > i,
    decreases buf.len() - i,
{
    if i < buf.len() {
        if in_comment {
            lemma_scan_bounds(buf, i + 1, start, !(buf[i] == '\n' || buf[i] == '\r'));
        } else {
            let c = buf[i];
            if c == ' ' || c == '\t' {
                if start is None {
                    lemma_scan_bounds(buf, i + 1, None, false);
                }
            } else if c == '#' {
                lemma_scan_bounds(buf, i + 1, start, true);
            } else if c == ';' || c == '\n' || c == '\r' || c == '{' || c == '}' {
            } else {
                match start {
                    Some(s) => lemma_scan_bounds(buf, i + 1, Some(s), false),
                    None => lemma_scan_bounds(buf, i + 1, Some(i), false),
                }
            }
        }
    }
}

/// The full token sequence of `buf` from position `i` on: one token per
/// call of `next_token`, up to but not including the final `EOF`.
pub open spec fn spec_tokens(buf: Seq<char>, i: int) -> Seq<Lexeme>
    decreases buf.len() - i,
        when 0 <= i <= buf.len()
        via spec_tokens_decreases
{
    let s = spec_next(buf, i);
    if s.tok is EOF {
        Seq::empty()
    } else {
        seq![s.tok] + spec_tokens(buf, s.end)
    }
}

#[via_fn]
proof fn spec_tokens_decreases(buf: Seq<char>, i: int) {
    lemma_scan_bounds(buf, i, None, false);
}

/// The pending-word state of the scanner: `token_start == len` is the
/// sentinel for "no word pending", any smaller value is the position at
/// which the pending word began.
pub open spec fn pending(token_start: int, len: int) -> Option<int> {
    if token_start == len {
        None
    } else {
        Some(token_start)
    }
}

/// A forward-only cursor over a borrowed text buffer.
pub struct TokenStream<'a> {
    buf: &'a str,
    offset: usize,
}

impl<'a> TokenStream<'a> {
    /// The text being scanned.
    pub closed spec fn text(self) -> Seq<char> {
        self.buf@
    }

    /// The current cursor position, in characters from the start.
    pub closed spec fn cursor(self) -> int {
        self.offset as int
    }

    /// The cursor stands inside the text or just past its end.
    pub closed spec fn wf(self) -> bool {
        self.offset <= self.buf@.len()
    }

    pub fn new(buf: &'a str) -> (s: Self)
        ensures
            s.wf(),
            s.text() == buf@,
            s.cursor() == 0,
    {
        TokenStream { buf, offset: 0 }
    }

    /// Advances the cursor over the text and returns exactly one token;
    /// repeated calls after exhaustion return `EOF` indefinitely.
    pub fn next_token(&mut self) -> (r: Token<'a>)
        requires
            old(self).wf(),
        ensures
            final(self).wf(),
            final(self).text() == old(self).text(),
            r@ == spec_next(old(self).text(), old(self).cursor()).tok,
            final(self).cursor() == spec_next(old(self).text(), old(self).cursor()).end,
    {
        let len = self.buf.unicode_len();
        let ghost orig = spec_next(self.buf@, self.offset as int);
        let mut token_start: usize = len;
        while self.offset < len
            invariant
                self.buf@ == old(self).buf@,
                len == self.buf@.len(),
                self.offset <= len,
                token_start == len || token_start < self.offset,
                orig == scan(
                    self.buf@,
                    self.offset as int,
                    pending(token_start as int, len as int),
                    false,
                ),
                orig == spec_next(old(self).text(), old(self).cursor()),
            decreases len - self.offset,
        {
            let c = self.buf.get_char(self.offset);
            match c {
                ' ' | '\t' => {
                    if token_start != len {
                        let v = self.buf.substring_char(token_start, self.offset);
                        self.offset = self.offset + 1;
                        return Token::Val(v);
                    }
                },
                '#' => {
                    let ghost entry_offset = self.offset as int;
                    self.offset = self.offset + 1;
                    let mut in_comment = true;
                    while in_comment && self.offset < len
                        invariant
                            entry_offset < self.offset as int,
                            self.buf@ == old(self).buf@,
                            len == self.buf@.len(),
                            self.offset <= len,
                            token_start == len || token_start < self.offset,
                            orig == scan(
                                self.buf@,
                                self.offset as int,
                                pending(token_start as int, len as int),
                                in_comment,
                            ),
                        decreases len - self.offset,
                    {
                        let cc = self.buf.get_char(self.offset);
                        self.offset = self.offset + 1;
                        if cc == '\n' || cc == '\r' {
                            in_comment = false;
                        }
                    }
                    continue;
                },
                ';' => {
                    if token_start != len {
                        let v = self.buf.substring_char(token_start, self.offset);
                        return Token::Val(v);
                    }
                    self.offset = self.offset + 1;
                    return Token::DirectiveEntire;
                },
                '\n' | '\r' => {
                    self.offset = self.offset + 1;
                    return Token::LineEnd;
                },
                '{' => {
                    if token_start != len {
                        let v = self.buf.substring_char(token_start, self.offset);
                        return Token::Val(v);
                    }
                    self.offset = self.offset + 1;
                    return Token::DirectiveBlockStart;
                },
                '}' => {
                    self.offset = self.offset + 1;
                    return Token::DirectiveBlockEnd;
                },
                _ => {
                    if token_start == len {
                        token_start = self.offset;
                    }
                },
            }
            self.offset = self.offset + 1;
        }
        Token::EOF
    }

    /// One step of draining the stream: `Some` for each token before
    /// exhaustion, `None` once `EOF` is reached. The ensures walk
    /// `spec_tokens` one element at a time, so that a full drain yields
    /// exactly `spec_tokens(text, cursor)`.
    pub fn next(&mut self) -> (r: Option<Token<'a>>)
        requires
            old(self).wf(),
        ensures
            final(self).wf(),
            final(self).text() == old(self).text(),
            ({
                let toks = spec_tokens(old(self).text(), old(self).cursor());
                match r {
                    Some(t) => toks.len() > 0 && t@ == toks[0] && spec_tokens(
                        final(self).text(),
                        final(self).cursor(),
                    ) == toks.subrange(1, toks.len() as int),
                    None => toks.len() == 0 && spec_tokens(
                        final(self).text(),
                        final(self).cursor(),
                    ).len() == 0,
                }
            }),
    {
        proof {
            lemma_scan_bounds(self.buf@, self.offset as int, None, false);
        }
        let t = self.next_token();
        let ghost toks = spec_tokens(old(self).text(), old(self).cursor());
        match t {
            Token::EOF => None,
            _ => {
                proof {
                    assert(toks.subrange(1, toks.len() as int) =~= spec_tokens(
                        self.buf@,
                        self.offset as int,
                    ));
                }
                Some(t)
            },
        }
    }
}

/// What well-formedness guarantees to callers: the cursor stands
/// between the start and the end of the text.
pub proof fn lemma_wf_cursor(s: TokenStream)
    requires
        s.wf(),
    ensures
        0 <= s.cursor() <= s.text().len(),
{
}

/// Tokenizing is a function of the text alone: two scans of equal texts
/// from equal positions yield the same token sequence, so a fresh
/// tokenizer drained twice over one buffer gives identical results.
pub proof fn lemma_tokenize_deterministic(a: TokenStream, b: TokenStream)
    requires
        a.text() == b.text(),
        a.cursor() == b.cursor(),
    ensures
        spec_tokens(a.text(), a.cursor()) == spec_tokens(b.text(), b.cursor()),
{
}

} // verus!
