use vstd::prelude::*;

verus! {

/// A lexical token.
///
/// A numeric literal carries the text of its numeral. A numeral that is not
/// well formed (two decimal points, or no digit at all) is read as `0`.
#[derive(PartialEq, Clone, Debug)]
pub enum Token {
    Eof,
    Def,
    Extern,
    Identifier(String),
    Number(String),
    Char(char),
}

/// The mathematical value of a token.
pub enum TokenModel {
    Eof,
    Def,
    Extern,
    Identifier(Seq<char>),
    Number(Seq<char>),
    Char(char),
}

impl Token {
    pub open spec fn view(&self) -> TokenModel {
        match self {
            Token::Eof => TokenModel::Eof,
            Token::Def => TokenModel::Def,
            Token::Extern => TokenModel::Extern,
            Token::Identifier(name) => TokenModel::Identifier(name@),
            Token::Number(text) => TokenModel::Number(text@),
            Token::Char(c) => TokenModel::Char(*c),
        }
    }
}

pub open spec fn is_space(c: char) -> bool {
    c == ' ' || c == '\t' || c == '\n' || c == '\u{c}' || c == '\r'
}

pub open spec fn is_alpha(c: char) -> bool {
    ('a' <= c && c <= 'z') || ('A' <= c && c <= 'Z')
}

pub open spec fn is_digit(c: char) -> bool {
    '0' <= c && c <= '9'
}

pub open spec fn is_alnum(c: char) -> bool {
    is_alpha(c) || is_digit(c)
}

pub open spec fn is_numeral_char(c: char) -> bool {
    is_digit(c) || c == '.'
}

pub open spec fn is_line_break(c: char) -> bool {
    c == '\r' || c == '\n'
}

/// The first position at or after `p` that does not hold whitespace.
pub open spec fn skip_space(s: Seq<char>, p: int) -> int
    decreases s.len() - p,
{
    if 0 <= p < s.len() && is_space(s[p]) {
        skip_space(s, p + 1)
    } else {
        p
    }
}

/// The first position at or after `p` that does not hold a letter or digit.
pub open spec fn word_end(s: Seq<char>, p: int) -> int
    decreases s.len() - p,
{
    if 0 <= p < s.len() && is_alnum(s[p]) {
        word_end(s, p + 1)
    } else {
        p
    }
}

/// The first position at or after `p` that does not hold a digit or `.`.
pub open spec fn numeral_end(s: Seq<char>, p: int) -> int
    decreases s.len() - p,
{
    if 0 <= p < s.len() && is_numeral_char(s[p]) {
        numeral_end(s, p + 1)
    } else {
        p
    }
}

/// The first position at or after `p` that holds a line break, or the end.
pub open spec fn line_end(s: Seq<char>, p: int) -> int
    decreases s.len() - p,
{
    if 0 <= p < s.len() && !is_line_break(s[p]) {
        line_end(s, p + 1)
    } else {
        p
    }
}

/// The number of decimal points in `t`.
pub open spec fn count_points(t: Seq<char>) -> nat
    decreases t.len(),
{
    if t.len() == 0 {
        0
    } else {
        count_points(t.drop_last()) + if t.last() == '.' { 1nat } else { 0nat }
    }
}

/// A numeral reads as a number when it has a digit and at most one point.
pub open spec fn numeral_is_valid(t: Seq<char>) -> bool {
    count_points(t) <= 1 && exists|i: int| 0 <= i < t.len() && is_digit(#[trigger] t[i])
}

/// The text that a numeric token carries for the numeral `t`.
pub open spec fn numeral_text(t: Seq<char>) -> Seq<char> {
    if numeral_is_valid(t) {
        t
    } else {
        seq!['0']
    }
}

/// The token for a word: a keyword or an identifier.
pub open spec fn word_token(w: Seq<char>) -> TokenModel {
    if w == seq!['d', 'e', 'f'] {
        TokenModel::Def
    } else if w == seq!['e', 'x', 't', 'e', 'r', 'n'] {
        TokenModel::Extern
    } else {
        TokenModel::Identifier(w)
    }
}

/// The token read from `s` when the current character is at `p`, and the
/// position of the current character afterwards.
pub open spec fn lex(s: Seq<char>, p: int) -> (TokenModel, int)
    decreases s.len() - p,
{
    let q = skip_space(s, p);
    if !(0 <= q < s.len()) {
        (TokenModel::Eof, s.len() as int)
    } else {
        let c = s[q];
        if is_alpha(c) {
            let e = word_end(s, q + 1);
            (word_token(s.subrange(q, e)), e)
        } else if is_numeral_char(c) {
            let e = numeral_end(s, q + 1);
            (TokenModel::Number(numeral_text(s.subrange(q, e))), e)
        } else if c == '#' {
            let e = line_end(s, q + 1);
            if e < s.len() {
                proof {
                    lemma_skip_space(s, p);
                    lemma_line_end(s, q + 1);
                }
                lex(s, e)
            } else {
                (TokenModel::Eof, s.len() as int)
            }
        } else {
            (TokenModel::Char(c), q + 1)
        }
    }
}

pub proof fn lemma_skip_space(s: Seq<char>, p: int)
    requires
        0 <= p <= s.len(),
    ensures
        p <= skip_space(s, p) <= s.len(),
        forall|i: int| p <= i < skip_space(s, p) ==> is_space(#[trigger] s[i]),
        skip_space(s, p) < s.len() ==> !is_space(s[skip_space(s, p)]),
    decreases s.len() - p,
{
    if p < s.len() && is_space(s[p]) {
        lemma_skip_space(s, p + 1);
    }
}

pub proof fn lemma_word_end(s: Seq<char>, p: int)
    requires
        0 <= p <= s.len(),
    ensures
        p <= word_end(s, p) <= s.len(),
        word_end(s, p) < s.len() ==> !is_alnum(s[word_end(s, p)]),
    decreases s.len() - p,
{
    if p < s.len() && is_alnum(s[p]) {
        lemma_word_end(s, p + 1);
    }
}

pub proof fn lemma_numeral_end(s: Seq<char>, p: int)
    requires
        0 <= p <= s.len(),
    ensures
        p <= numeral_end(s, p) <= s.len(),
    decreases s.len() - p,
{
    if p < s.len() && is_numeral_char(s[p]) {
        lemma_numeral_end(s, p + 1);
    }
}

/// Reading a token never moves back, stays within the source, and moves
/// forward unless it reads the end of input, which it reads at the end.
pub proof fn lemma_lex_progress(s: Seq<char>, p: int)
    ensures
        0 <= lex(s, p).1 <= s.len(),
        lex(s, p).0 is Eof ==> lex(s, p).1 == s.len(),
        !(lex(s, p).0 is Eof) ==> 0 <= p < lex(s, p).1,
    decreases s.len() - p,
{
    if 0 <= p <= s.len() {
        lemma_skip_space(s, p);
        let q = skip_space(s, p);
        if 0 <= q < s.len() {
            let c = s[q];
            if is_alpha(c) {
                lemma_word_end(s, q + 1);
            } else if is_numeral_char(c) {
                lemma_numeral_end(s, q + 1);
            } else if c == '#' {
                lemma_line_end(s, q + 1);
                let e = line_end(s, q + 1);
                if e < s.len() {
                    lemma_lex_progress(s, e);
                }
            }
        }
    }
}

pub proof fn lemma_line_end(s: Seq<char>, p: int)
    requires
        0 <= p <= s.len(),
    ensures
        p <= line_end(s, p) <= s.len(),
    decreases s.len() - p,
{
    if p < s.len() && !is_line_break(s[p]) {
        lemma_line_end(s, p + 1);
    }
}

/// Whether the source holds only whitespace and comments from `p` on.
pub open spec fn only_trivia(s: Seq<char>, p: int) -> bool
    decreases s.len() - p,
{
    if !(0 <= p < s.len()) {
        true
    } else if is_space(s[p]) {
        only_trivia(s, p + 1)
    } else if s[p] == '#' {
        proof {
            lemma_line_end(s, p + 1);
        }
        line_end(s, p + 1) >= s.len() || only_trivia(s, line_end(s, p + 1))
    } else {
        false
    }
}

/// Whitespace and comments read as the end of input, and the end of input
/// keeps reading as the end of input.
pub proof fn lemma_trivia_is_eof(s: Seq<char>, p: int)
    requires
        only_trivia(s, p),
    ensures
        lex(s, p) == (TokenModel::Eof, s.len() as int),
        lex(s, s.len() as int) == (TokenModel::Eof, s.len() as int),
    decreases s.len() - p,
{
    if 0 <= p < s.len() {
        if is_space(s[p]) {
            lemma_trivia_is_eof(s, p + 1);
            assert(skip_space(s, p) == skip_space(s, p + 1));
        } else {
            lemma_line_end(s, p + 1);
            let e = line_end(s, p + 1);
            if e < s.len() {
                lemma_trivia_is_eof(s, e);
            }
        }
    }
}

proof fn lemma_numeral_run(s: Seq<char>, p: int)
    requires
        0 <= p <= s.len(),
        forall|i: int| p <= i < s.len() ==> is_numeral_char(#[trigger] s[i]),
    ensures
        numeral_end(s, p) == s.len(),
    decreases s.len() - p,
{
    if p < s.len() {
        lemma_numeral_run(s, p + 1);
    }
}

/// A numeral read on its own gives one numeric token carrying its text when
/// it is well formed (as the decimal form of any non-negative finite number
/// is), and `0` when it holds two or more points.
pub proof fn lemma_numeral_round_trip(t: Seq<char>)
    requires
        t.len() > 0,
        forall|i: int| 0 <= i < t.len() ==> is_numeral_char(#[trigger] t[i]),
    ensures
        lex(t, 0) == (TokenModel::Number(numeral_text(t)), t.len() as int),
        numeral_is_valid(t) ==> numeral_text(t) == t,
        count_points(t) >= 2 ==> numeral_text(t) == seq!['0'],
        lex(t, t.len() as int) == (TokenModel::Eof, t.len() as int),
{
    assert(is_numeral_char(t[0]));
    lemma_numeral_run(t, 1);
    assert(t.subrange(0, t.len() as int) =~= t);
}

/// The tokens read from `p` on, up to the end of input.
pub open spec fn tokens(s: Seq<char>, p: int) -> Seq<TokenModel>
    decreases s.len() - p,
{
    if lex(s, p).0 is Eof {
        Seq::empty()
    } else {
        proof {
            lemma_lex_progress(s, p);
        }
        seq![lex(s, p).0] + tokens(s, lex(s, p).1)
    }
}

/// The words from `p` on, in order: each starts at the next character that is
/// not whitespace and runs over the letters and digits that follow it.
pub open spec fn words(s: Seq<char>, p: int) -> Seq<Seq<char>>
    decreases s.len() - p,
{
    let q = skip_space(s, p);
    if !(0 <= p <= s.len()) || !(q < s.len()) {
        Seq::empty()
    } else {
        proof {
            lemma_skip_space(s, p);
            lemma_word_end(s, q + 1);
        }
        seq![s.subrange(q, word_end(s, q + 1))] + words(s, word_end(s, q + 1))
    }
}

/// Whether `s` holds, from `p` on, only whitespace and words of letters and
/// digits that start with a letter.
pub open spec fn only_plain_words(s: Seq<char>, p: int) -> bool {
    &&& forall|i: int| p <= i < s.len() ==> is_alnum(#[trigger] s[i]) || is_space(s[i])
    &&& forall|i: int|
        p <= i < s.len() && is_digit(#[trigger] s[i]) ==> i > p && is_alnum(s[i - 1])
}

pub open spec fn is_keyword(w: Seq<char>) -> bool {
    w == seq!['d', 'e', 'f'] || w == seq!['e', 'x', 't', 'e', 'r', 'n']
}

proof fn lemma_words_at(s: Seq<char>, p: int)
    requires
        0 <= p <= s.len(),
        only_plain_words(s, p),
        forall|k: int| 0 <= k < words(s, p).len() ==> !is_keyword(#[trigger] words(s, p)[k]),
    ensures
        tokens(s, p) == words(s, p).map_values(|w: Seq<char>| TokenModel::Identifier(w)),
    decreases s.len() - p,
{
    lemma_skip_space(s, p);
    let q = skip_space(s, p);
    if q < s.len() {
        assert(is_alnum(s[q]) || is_space(s[q]));
        if q > p {
            assert(is_space(s[q - 1]));
        }
        assert(is_alpha(s[q]));
        lemma_word_end(s, q + 1);
        lemma_lex_progress(s, p);
        let e = word_end(s, q + 1);
        let w = s.subrange(q, e);
        let rest = words(s, e);
        assert(words(s, p) == seq![w] + rest);
        assert(words(s, p)[0] == w);
        assert forall|k: int| 0 <= k < rest.len() implies !is_keyword(#[trigger] rest[k]) by {
            assert(words(s, p)[k + 1] == rest[k]);
        }
        if e < s.len() {
            assert(is_alnum(s[e]) || is_space(s[e]));
            assert(!is_digit(s[e]));
        }
        lemma_words_at(s, e);
        assert((seq![w] + rest).map_values(|w: Seq<char>| TokenModel::Identifier(w)) =~= seq![
            TokenModel::Identifier(w),
        ] + rest.map_values(|w: Seq<char>| TokenModel::Identifier(w)));
    } else {
        assert(words(s, p) =~= Seq::<Seq<char>>::empty());
    }
}

/// Input made, from the current position `p` on, of words of letters and
/// digits that start with a letter, none of them a keyword, reads as one
/// identifier per word, in order, and then as the end of input.
pub proof fn lemma_words_are_identifiers(s: Seq<char>, p: int)
    requires
        0 <= p <= s.len(),
        only_plain_words(s, p),
        forall|k: int| 0 <= k < words(s, p).len() ==> !is_keyword(#[trigger] words(s, p)[k]),
    ensures
        tokens(s, p) == words(s, p).map_values(|w: Seq<char>| TokenModel::Identifier(w)),
{
    lemma_words_at(s, p);
}

/// Relies on `String::push`: the character is appended at the end.
#[verifier::external_body]
fn push_char(s: &mut String, c: char)
    ensures
        final(s)@ == old(s)@.push(c),
{
    s.push(c)
}

fn char_is_space(c: char) -> (r: bool)
    ensures
        r == is_space(c),
{
    c == ' ' || c == '\t' || c == '\n' || c == '\u{c}' || c == '\r'
}

fn char_is_alpha(c: char) -> (r: bool)
    ensures
        r == is_alpha(c),
{
    ('a' <= c && c <= 'z') || ('A' <= c && c <= 'Z')
}

fn char_is_digit(c: char) -> (r: bool)
    ensures
        r == is_digit(c),
{
    '0' <= c && c <= '9'
}

/// A tokenizer over a sequence of characters, holding one character of
/// lookahead.
pub struct Lexer {
    input: Vec<char>,
    pos: usize,
}

impl Lexer {
    /// The characters the tokenizer reads.
    pub closed spec fn source(&self) -> Seq<char> {
        self.input@
    }

    /// The position of the current character; the length of the source once
    /// it is exhausted.
    pub closed spec fn position(&self) -> int {
        self.pos as int
    }

    pub open spec fn wf(&self) -> bool {
        0 <= self.position() <= self.source().len()
    }

    /// The current character, if the source is not exhausted.
    pub open spec fn current(&self) -> Option<char> {
        if self.position() < self.source().len() {
            Some(self.source()[self.position()])
        } else {
            None
        }
    }

    pub fn new(input: Vec<char>) -> (r: Lexer)
        ensures
            r.wf(),
            r.source() == input@,
            r.position() == 0,
    {
        Lexer { input, pos: 0 }
    }

    /// Moves to the next character and returns it.
    pub fn step(&mut self) -> (r: Option<char>)
        requires
            old(self).wf(),
        ensures
            final(self).wf(),
            final(self).source() == old(self).source(),
            final(self).position() == if old(self).position() < old(self).source().len() {
                old(self).position() + 1
            } else {
                old(self).position()
            },
            r == final(self).current(),
    {
        if self.pos < self.input.len() {
            self.pos = self.pos + 1;
        }
        if self.pos < self.input.len() {
            Some(self.input[self.pos])
        } else {
            None
        }
    }

    /// Reads the next token.
    pub fn next_token(&mut self) -> (t: Token)
        requires
            old(self).wf(),
        ensures
            final(self).wf(),
            final(self).source() == old(self).source(),
            (t@, final(self).position()) == lex(old(self).source(), old(self).position()),
        decreases old(self).source().len() - old(self).position(),
    {
        let ghost s = self.input@;
        let ghost entry_pos = self.pos as int;
        while self.pos < self.input.len() && char_is_space(self.input[self.pos])
            invariant
                self.wf(),
                self.input@ == s,
                entry_pos <= self.pos,
                skip_space(s, self.pos as int) == skip_space(s, entry_pos),
            decreases s.len() - self.pos,
        {
            self.step();
        }
        if self.pos >= self.input.len() {
            return Token::Eof;
        }
        let start = self.pos;
        let c = self.input[start];
        if char_is_alpha(c) {
            let mut identifier = String::new();
            push_char(&mut identifier, c);
            self.step();
            while self.pos < self.input.len() && (char_is_alpha(self.input[self.pos])
                || char_is_digit(self.input[self.pos]))
                invariant
                    self.wf(),
                    self.input@ == s,
                    start < self.pos,
                    identifier@ == s.subrange(start as int, self.pos as int),
                    word_end(s, self.pos as int) == word_end(s, start + 1),
                decreases s.len() - self.pos,
            {
                push_char(&mut identifier, self.input[self.pos]);
                self.step();
                assert(identifier@ =~= s.subrange(start as int, self.pos as int));
            }
            proof {
                reveal_strlit("def");
                reveal_strlit("extern");
                assert("def"@ =~= seq!['d', 'e', 'f']);
                assert("extern"@ =~= seq!['e', 'x', 't', 'e', 'r', 'n']);
            }
            if identifier.eq(&"def".to_owned()) {
                return Token::Def;
            }
            if identifier.eq(&"extern".to_owned()) {
                return Token::Extern;
            }
            return Token::Identifier(identifier);
        }
        if char_is_digit(c) || c == '.' {
            let mut num = String::new();
            push_char(&mut num, c);
            let mut points: usize = if c == '.' { 1 } else { 0 };
            let mut has_digit = c != '.';
            proof {
                assert(num@.drop_last() =~= Seq::<char>::empty());
                assert(count_points(Seq::<char>::empty()) == 0);
                if has_digit {
                    assert(is_digit(num@[0]));
                }
            }
            self.step();
            while self.pos < self.input.len() && (char_is_digit(self.input[self.pos])
                || self.input[self.pos] == '.')
                invariant
                    self.wf(),
                    self.input@ == s,
                    start < self.pos,
                    points <= self.pos - start,
                    num@ == s.subrange(start as int, self.pos as int),
                    numeral_end(s, self.pos as int) == numeral_end(s, start + 1),
                    points == count_points(num@),
                    has_digit == exists|i: int| 0 <= i < num@.len() && is_digit(#[trigger] num@[i]),
                decreases s.len() - self.pos,
            {
                let d = self.input[self.pos];
                let ghost prev = num@;
                push_char(&mut num, d);
                if d == '.' {
                    points = points + 1;
                } else {
                    has_digit = true;
                }
                self.step();
                proof {
                    assert(num@.drop_last() =~= prev);
                    assert(num@ =~= s.subrange(start as int, self.pos as int));
                    if is_digit(d) {
                        assert(is_digit(num@[prev.len() as int]));
                    }
                    if exists|i: int| 0 <= i < num@.len() && is_digit(#[trigger] num@[i]) {
                        let i = choose|i: int| 0 <= i < num@.len() && is_digit(#[trigger] num@[i]);
                        if i < prev.len() {
                            assert(is_digit(prev[i]));
                        }
                    }
                }
            }
            if points <= 1 && has_digit {
                return Token::Number(num);
            }
            proof {
                reveal_strlit("0");
                assert("0"@ =~= seq!['0']);
            }
            return Token::Number("0".to_owned());
        }
        if c == '#' {
            self.step();
            while self.pos < self.input.len() && !(self.input[self.pos] == '\r'
                || self.input[self.pos] == '\n')
                invariant
                    self.wf(),
                    self.input@ == s,
                    start < self.pos,
                    line_end(s, self.pos as int) == line_end(s, start + 1),
                decreases s.len() - self.pos,
            {
                self.step();
            }
            if self.pos < self.input.len() {
                return self.next_token();
            }
            return Token::Eof;
        }
        self.step();
        Token::Char(c)
    }
}

} // verus!
