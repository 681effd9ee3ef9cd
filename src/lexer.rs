use vstd::prelude::*;
use crate::token::{EvalError, Token, TokenKind};

verus! {

/// A token as the contracts see it.
pub ghost struct TokenView {
    pub kind: TokenKind,
    pub lexeme: Seq<char>,
    pub start: int,
    pub end: int,
}

impl View for Token {
    type V = TokenView;

    open spec fn view(&self) -> TokenView {
        TokenView { kind: self.kind, lexeme: self.lexeme@, start: self.start as int, end: self.end as int }
    }
}

pub open spec fn views(ts: Seq<Token>) -> Seq<TokenView> {
    ts.map_values(|t: Token| t@)
}

pub open spec fn is_decimal_digit(c: char) -> bool {
    '0' <= c && c <= '9'
}

/// The token of kind `k` scanned from the characters `[start, stop)` of `s`.
pub open spec fn token_at(s: Seq<char>, k: TokenKind, start: int, stop: int) -> TokenView {
    TokenView { kind: k, lexeme: s.subrange(start, stop), start, end: stop - 1 }
}

/// Offset of the first character at or after `i` that is not a digit.
pub open spec fn digits_end(s: Seq<char>, i: int) -> int
    decreases s.len() - i,
{
    if 0 <= i < s.len() && is_decimal_digit(s[i]) {
        digits_end(s, i + 1)
    } else {
        i
    }
}

/// Offset just past the optional fraction of a number whose integer digits
/// end at `j`: a `.` is taken, with the digits after it, only where at least
/// one digit follows.
pub open spec fn fraction_end(s: Seq<char>, j: int) -> int {
    if j + 1 < s.len() && s[j] == '.' && is_decimal_digit(s[j + 1]) {
        digits_end(s, j + 2)
    } else {
        j
    }
}

/// Offset just past the number that starts with the digit at `start`: its
/// integer digits, then a `.` with the digits after it if at least one follows.
pub open spec fn number_end(s: Seq<char>, start: int) -> int {
    fraction_end(s, digits_end(s, start + 1))
}

/// A minus is unary at the start and after any token but a number or `)`.
pub open spec fn minus_kind(acc: Seq<TokenView>) -> TokenKind {
    if acc.len() == 0 || (acc.last().kind != TokenKind::Number && acc.last().kind
        != TokenKind::RightParen) {
        TokenKind::UnaryMinus
    } else {
        TokenKind::Minus
    }
}

/// The kind of a token of one character, if `c` makes one.
pub open spec fn single_kind(c: char, acc: Seq<TokenView>) -> Option<TokenKind> {
    if c == '+' {
        Some(TokenKind::Plus)
    } else if c == '-' {
        Some(minus_kind(acc))
    } else if c == '*' {
        Some(TokenKind::Star)
    } else if c == '/' {
        Some(TokenKind::Slash)
    } else if c == '(' {
        Some(TokenKind::LeftParen)
    } else if c == ')' {
        Some(TokenKind::RightParen)
    } else {
        None
    }
}

/// One scanning step at offset `i` after the tokens `acc`: the offset where
/// the next step begins and the tokens then, or the error for `s[i]`.
pub open spec fn scan_step(s: Seq<char>, i: int, acc: Seq<TokenView>) -> Result<
    (int, Seq<TokenView>),
    EvalError,
> {
    let c = s[i];
    if c == ' ' {
        Ok((i + 1, acc))
    } else if is_decimal_digit(c) {
        let e = number_end(s, i);
        Ok((e, acc.push(token_at(s, TokenKind::Number, i, e))))
    } else {
        match single_kind(c, acc) {
            Some(k) => Ok((i + 1, acc.push(token_at(s, k, i, i + 1)))),
            None => Err(EvalError::LexError { ch: c, offset: i as usize }),
        }
    }
}

/// Scanning from offset `i` after the tokens `acc`, up to the end of the
/// input or its first newline.
pub open spec fn scan_from(s: Seq<char>, i: int, acc: Seq<TokenView>) -> Result<
    Seq<TokenView>,
    EvalError,
>
    decreases s.len() - i,
{
    if i < 0 || i >= s.len() || s[i] == '\n' {
        Ok(acc)
    } else {
        match scan_step(s, i, acc) {
            Ok((j, acc2)) => {
                proof {
                    lemma_scan_step_advances(s, i, acc);
                }
                scan_from(s, j, acc2)
            },
            Err(e) => Err(e),
        }
    }
}

/// The tokens of the first line of `s`, or the first lexical error.
pub open spec fn scan_spec(s: Seq<char>) -> Result<Seq<TokenView>, EvalError> {
    scan_from(s, 0, Seq::empty())
}

/// The outcome of a scan, with the tokens as views.
pub open spec fn scan_outcome(r: Result<Vec<Token>, EvalError>) -> Result<Seq<TokenView>, EvalError> {
    match r {
        Ok(ts) => Ok(views(ts@)),
        Err(e) => Err(e),
    }
}
pub proof fn lemma_digits_end(s: Seq<char>, i: int)
    requires
        0 <= i <= s.len(),
    ensures
        i <= digits_end(s, i) <= s.len(),
        forall|k: int| i <= k < digits_end(s, i) ==> is_decimal_digit(#[trigger] s[k]),
        digits_end(s, i) < s.len() ==> !is_decimal_digit(s[digits_end(s, i)]),
    decreases s.len() - i,
{
    if i < s.len() && is_decimal_digit(s[i]) {
        lemma_digits_end(s, i + 1);
    }
}

pub proof fn lemma_number_end(s: Seq<char>, start: int)
    requires
        0 <= start < s.len(),
    ensures
        start < number_end(s, start) <= s.len(),
{
    lemma_digits_end(s, start + 1);
    let j = digits_end(s, start + 1);
    if j + 1 < s.len() && s[j] == '.' && is_decimal_digit(s[j + 1]) {
        lemma_digits_end(s, j + 2);
    }
}

pub proof fn lemma_scan_step_advances(s: Seq<char>, i: int, acc: Seq<TokenView>)
    requires
        0 <= i < s.len(),
    ensures
        scan_step(s, i, acc) matches Ok((j, _)) ==> i < j <= s.len(),
{
    if is_decimal_digit(s[i]) {
        lemma_number_end(s, i);
    }
}

proof fn lemma_digits_end_prefix(s: Seq<char>, t: Seq<char>, i: int)
    requires
        0 <= i <= s.len(),
        t.len() > s.len(),
        t.subrange(0, s.len() as int) == s,
        !is_decimal_digit(t[s.len() as int]),
    ensures
        digits_end(t, i) == digits_end(s, i),
    decreases s.len() - i,
{
    if i < s.len() {
        assert(t[i] == s[i]);
        lemma_digits_end_prefix(s, t, i + 1);
    }
}

proof fn lemma_scan_from_prefix(s: Seq<char>, t: Seq<char>, i: int, acc: Seq<TokenView>)
    requires
        0 <= i <= s.len(),
        t.len() > s.len(),
        t.subrange(0, s.len() as int) == s,
        t[s.len() as int] == '\n',
    ensures
        scan_from(t, i, acc) == scan_from(s, i, acc),
    decreases s.len() - i,
{
    if i < s.len() {
        assert(t[i] == s[i]);
        if s[i] != '\n' {
            let c = s[i];
            if is_decimal_digit(c) {
                lemma_digits_end(s, i + 1);
                lemma_digits_end_prefix(s, t, i + 1);
                let j = digits_end(s, i + 1);
                if j < s.len() {
                    assert(t[j] == s[j]);
                }
                if j + 1 < s.len() {
                    assert(t[j + 1] == s[j + 1]);
                }
                if j + 1 < s.len() && s[j] == '.' && is_decimal_digit(s[j + 1]) {
                    lemma_digits_end_prefix(s, t, j + 2);
                }
                assert(number_end(t, i) == number_end(s, i));
                lemma_number_end(s, i);
                assert(t.subrange(i, number_end(s, i)) =~= s.subrange(i, number_end(s, i)));
            } else {
                assert(t.subrange(i, i + 1) =~= s.subrange(i, i + 1));
            }
            assert(scan_step(t, i, acc) == scan_step(s, i, acc));
            lemma_scan_step_advances(s, i, acc);
            if let Ok((j, acc2)) = scan_step(s, i, acc) {
                lemma_scan_from_prefix(s, t, j, acc2);
            }
        }
    }
}

/// Only the first line is scanned: what follows the first newline does not
/// change the outcome.
pub proof fn lemma_scan_first_line_only(line: Seq<char>, rest: Seq<char>)
    requires
        !line.contains('\n'),
    ensures
        scan_spec(line + seq!['\n'] + rest) == scan_spec(line),
{
    let t = line + seq!['\n'] + rest;
    assert(t.subrange(0, line.len() as int) =~= line);
    assert(t[line.len() as int] == '\n');
    lemma_scan_from_prefix(line, t, 0, Seq::empty());
}

/// A character that makes a token of its own, a space, or a digit.
pub open spec fn is_plain_char(c: char) -> bool {
    c == '+' || c == '-' || c == '*' || c == '/' || c == '(' || c == ')' || c == ' '
        || is_decimal_digit(c)
}

/// The `.` at `k` separates the integer digits of a number from its fraction
/// digits: a digit on each side, and no other `.` just before those integer
/// digits.
pub open spec fn is_decimal_point(s: Seq<char>, k: int) -> bool {
    &&& 0 < k && k + 1 < s.len()
    &&& is_decimal_digit(s[k - 1])
    &&& is_decimal_digit(s[k + 1])
    &&& forall|m: int|
        0 <= m < k && (forall|q: int| m < q < k ==> is_decimal_digit(#[trigger] s[q])) ==> s[m]
            != '.'
}

/// A line of operators, parentheses, spaces and well-formed numbers only.
pub open spec fn is_clean_line(s: Seq<char>) -> bool {
    forall|k: int|
        0 <= k < s.len() ==> is_plain_char(#[trigger] s[k]) || (s[k] == '.' && is_decimal_point(
            s,
            k,
        ))
}

proof fn lemma_clean_scan_from(s: Seq<char>, i: int, acc: Seq<TokenView>)
    requires
        is_clean_line(s),
        0 <= i <= s.len(),
        i < s.len() ==> s[i] != '.',
    ensures
        scan_from(s, i, acc) is Ok,
    decreases s.len() - i,
{
    if i < s.len() {
        let c = s[i];
        assert(is_plain_char(s[i]));
        lemma_scan_step_advances(s, i, acc);
        let next: int;
        if is_decimal_digit(c) {
            lemma_digits_end(s, i + 1);
            let j = digits_end(s, i + 1);
            if j + 1 < s.len() && s[j] == '.' && is_decimal_digit(s[j + 1]) {
                lemma_digits_end(s, j + 2);
                let e = digits_end(s, j + 2);
                if e < s.len() && s[e] == '.' {
                    assert(is_plain_char(s[e]) || is_decimal_point(s, e));
                    assert(forall|q: int| j < q < e ==> is_decimal_digit(#[trigger] s[q]));
                    assert(false);
                }
            } else if j < s.len() && s[j] == '.' {
                assert(is_plain_char(s[j]) || is_decimal_point(s, j));
                assert(false);
            }
            next = number_end(s, i);
        } else {
            if i + 1 < s.len() && s[i + 1] == '.' {
                assert(is_plain_char(s[i + 1]) || is_decimal_point(s, i + 1));
                assert(false);
            }
            next = i + 1;
        }
        if s[i] != '\n' {
            let (j, acc2) = scan_step(s, i, acc).unwrap();
            assert(j == next);
            lemma_clean_scan_from(s, j, acc2);
        }
    }
}

/// A line made only of operators, parentheses, spaces and well-formed
/// numbers scans without a lexical error.
pub proof fn lemma_clean_line_scans(s: Seq<char>)
    requires
        is_clean_line(s),
    ensures
        scan_spec(s) is Ok,
{
    if s.len() > 0 && s[0] == '.' {
        assert(is_plain_char(s[0]) || is_decimal_point(s, 0));
    }
    lemma_clean_scan_from(s, 0, Seq::empty());
}

/// Relies on String::push: the character is appended.
#[verifier::external_body]
fn push_char(s: &mut String, c: char)
    ensures
        final(s)@ == old(s)@.push(c),
{
    s.push(c)
}

fn is_digit(c: char) -> (r: bool)
    ensures
        r == is_decimal_digit(c),
{
    '0' <= c && c <= '9'
}

/// Cursor state of one scan over one line of characters.
pub struct Scanner {
    chars: Vec<char>,
    tokens: Vec<Token>,
    start: usize,
    current: usize,
}

impl Scanner {
    /// The characters being scanned.
    pub closed spec fn source(&self) -> Seq<char> {
        self.chars@
    }

    /// The offset of the next character to scan.
    pub closed spec fn position(&self) -> int {
        self.current as int
    }

    /// The tokens scanned so far.
    pub closed spec fn scanned(&self) -> Seq<TokenView> {
        views(self.tokens@)
    }

    pub closed spec fn wf(&self) -> bool {
        self.start <= self.current <= self.chars@.len()
    }

    pub fn new(chars: Vec<char>) -> (r: Scanner)
        ensures
            r.wf(),
            r.source() == chars@,
            r.position() == 0,
            r.scanned() == Seq::<TokenView>::empty(),
    {
        let r = Scanner { chars: chars, tokens: Vec::new(), start: 0, current: 0 };
        assert(views(r.tokens@) =~= Seq::<TokenView>::empty());
        r
    }

    /// Scans from the current position to the end of the line.
    pub fn scan_tokens(self) -> (r: Result<Vec<Token>, EvalError>)
        requires
            self.wf(),
        ensures
            scan_outcome(r) == scan_from(self.source(), self.position(), self.scanned()),
    {
        let mut this = self;
        while !this.is_at_end() && this.peek() != '\n'
            invariant
                this.wf(),
                this.chars@ == self.chars@,
                scan_from(self.source(), self.position(), self.scanned()) == scan_from(
                    this.chars@,
                    this.current as int,
                    views(this.tokens@),
                ),
            decreases this.chars@.len() - this.current,
        {
            this.start = this.current;
            proof {
                lemma_scan_step_advances(this.chars@, this.current as int, views(this.tokens@));
            }
            let step = this.scan_token();
            if let Err(e) = step {
                return Err(e);
            }
        }
        Ok(this.tokens)
    }

    /// Scans one token, or skips one space, from the current position.
    fn scan_token(&mut self) -> (r: Result<(), EvalError>)
        requires
            old(self).wf(),
            old(self).start == old(self).current,
            old(self).current < old(self).chars@.len(),
        ensures
            final(self).wf(),
            final(self).chars == old(self).chars,
            match scan_step(old(self).chars@, old(self).current as int, views(old(self).tokens@)) {
                Ok((j, acc)) => r is Ok && final(self).current == j && views(final(self).tokens@)
                    == acc,
                Err(e) => r == Err::<(), EvalError>(e) && final(self).tokens@ == old(self).tokens@,
            },
    {
        proof {
            lemma_scan_step_advances(self.chars@, self.current as int, views(self.tokens@));
        }
        let c = self.advance();
        if c == '+' {
            self.add_token(TokenKind::Plus);
        } else if c == '-' {
            let n = self.tokens.len();
            if n < 1 || (self.tokens[n - 1].kind != TokenKind::Number && self.tokens[n - 1].kind
                != TokenKind::RightParen) {
                self.add_token(TokenKind::UnaryMinus);
            } else {
                self.add_token(TokenKind::Minus);
            }
        } else if c == '*' {
            self.add_token(TokenKind::Star);
        } else if c == '/' {
            self.add_token(TokenKind::Slash);
        } else if c == '(' {
            self.add_token(TokenKind::LeftParen);
        } else if c == ')' {
            self.add_token(TokenKind::RightParen);
        } else if c == ' ' {
        } else if is_digit(c) {
            self.number();
        } else {
            return Err(EvalError::LexError { ch: c, offset: self.current - 1 });
        }
        Ok(())
    }

    fn is_at_end(&self) -> (r: bool)
        ensures
            r == (self.current >= self.chars@.len()),
    {
        self.current >= self.chars.len()
    }

    fn advance(&mut self) -> (r: char)
        requires
            old(self).current < old(self).chars@.len(),
        ensures
            r == old(self).chars@[old(self).current as int],
            final(self).current == old(self).current + 1,
            final(self).chars == old(self).chars,
            final(self).tokens == old(self).tokens,
            final(self).start == old(self).start,
    {
        let c = self.chars[self.current];
        assert(self.chars@.len() == self.chars.len());
        self.current = self.current + 1;
        c
    }

    /// Appends the token of kind `kind` made of the characters `[start, current)`.
    fn add_token(&mut self, kind: TokenKind)
        requires
            old(self).wf(),
            old(self).start < old(self).current,
        ensures
            final(self).chars == old(self).chars,
            final(self).start == old(self).start,
            final(self).current == old(self).current,
            views(final(self).tokens@) == views(old(self).tokens@).push(
                token_at(old(self).chars@, kind, old(self).start as int, old(self).current as int),
            ),
    {
        let lexeme = self.make_lexeme();
        let t = Token { kind: kind, lexeme: lexeme, start: self.start, end: self.current - 1 };
        let ghost before = self.tokens@;
        self.tokens.push(t);
        assert(views(self.tokens@) =~= views(before).push(t@));
    }

    /// Scans the rest of a number whose first digits `[start, current)` were
    /// just consumed.
    fn number(&mut self)
        requires
            old(self).wf(),
            old(self).start < old(self).current,
            forall|k: int|
                old(self).start <= k < old(self).current ==> is_decimal_digit(
                    #[trigger] old(self).chars@[k],
                ),
        ensures
            final(self).wf(),
            final(self).chars == old(self).chars,
            final(self).start == old(self).start,
            final(self).current == fraction_end(
                old(self).chars@,
                digits_end(old(self).chars@, old(self).current as int),
            ),
            views(final(self).tokens@) == views(old(self).tokens@).push(
                token_at(
                    old(self).chars@,
                    TokenKind::Number,
                    old(self).start as int,
                    final(self).current as int,
                ),
            ),
    {
        let ghost s = self.chars@;
        let ghost first = self.current as int;
        proof {
            lemma_digits_end(s, first);
        }
        while is_digit(self.peek())
            invariant
                self.chars == old(self).chars,
                self.chars@ == s,
                self.tokens == old(self).tokens,
                self.start == old(self).start,
                first <= self.current <= digits_end(s, first),
                digits_end(s, self.current as int) == digits_end(s, first),
            decreases s.len() - self.current,
        {
            self.advance();
            proof {
                lemma_digits_end(s, self.current as int);
            }
        }
        if self.peek() == '.' && is_digit(self.peek_next()) {
            self.advance();
            let ghost frac = self.current as int;
            proof {
                lemma_digits_end(s, frac);
            }
            while is_digit(self.peek())
                invariant
                    self.chars == old(self).chars,
                    self.chars@ == s,
                    self.tokens == old(self).tokens,
                    self.start == old(self).start,
                    frac <= self.current <= digits_end(s, frac),
                    digits_end(s, self.current as int) == digits_end(s, frac),
                decreases s.len() - self.current,
            {
                self.advance();
                proof {
                    lemma_digits_end(s, self.current as int);
                }
            }
        }
        self.add_token(TokenKind::Number);
    }

    fn peek(&self) -> (r: char)
        ensures
            self.current < self.chars@.len() ==> r == self.chars@[self.current as int],
            self.current >= self.chars@.len() ==> r == '\0',
    {
        if self.is_at_end() {
            return '\0';
        }
        self.chars[self.current]
    }

    fn peek_next(&self) -> (r: char)
        ensures
            self.current + 1 < self.chars@.len() ==> r == self.chars@[self.current + 1],
            self.current + 1 >= self.chars@.len() ==> r == '\0',
    {
        if self.current >= self.chars.len() || self.current + 1 >= self.chars.len() {
            return '\0';
        }
        self.chars[self.current + 1]
    }

    /// The characters `[start, current)` as a string.
    fn make_lexeme(&self) -> (r: String)
        requires
            self.wf(),
        ensures
            r@ == self.chars@.subrange(self.start as int, self.current as int),
    {
        let mut string = String::new();
        let mut i: usize = self.start;
        while i < self.current
            invariant
                self.start <= i <= self.current <= self.chars@.len(),
                string@ == self.chars@.subrange(self.start as int, i as int),
            decreases self.current - i,
        {
            push_char(&mut string, self.chars[i]);
            assert(self.chars@.subrange(self.start as int, i + 1) =~= self.chars@.subrange(
                self.start as int,
                i as int,
            ).push(self.chars@[i as int]));
            i = i + 1;
        }
        string
    }
}

/// The tokens of the first line of `chars`, or the first lexical error.
pub fn scan(chars: Vec<char>) -> (r: Result<Vec<Token>, EvalError>)
    ensures
        scan_outcome(r) == scan_spec(chars@),
{
    Scanner::new(chars).scan_tokens()
}

} // verus!
