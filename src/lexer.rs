//! Tokenizer for the small SQL dialect.
use vstd::prelude::*;
use vstd::string::StrSliceExecFns;

verus! {

/// A token of the SQL dialect. Identifiers are folded to upper case.
#[derive(Debug, PartialEq, Eq, Clone)]
pub enum Token {
    Create,
    Table,
    Select,
    From,
    Where,
    Not,
    Null,
    Index,
    On,
    LParen,
    RParen,
    Semicolon,
    Dot,
    Comma,
    Star,
    Equals,
    StringLiteral(String),
    Identifier(String),
    Primary,
    Key,
    AutoIncrement,
    Eof,
}

/// The mathematical value of a [`Token`]: text is a sequence of characters.
pub enum TokenView {
    Create,
    Table,
    Select,
    From,
    Where,
    Not,
    Null,
    Index,
    On,
    LParen,
    RParen,
    Semicolon,
    Dot,
    Comma,
    Star,
    Equals,
    StringLiteral(Seq<char>),
    Identifier(Seq<char>),
    Primary,
    Key,
    AutoIncrement,
    Eof,
}

impl View for Token {
    type V = TokenView;

    open spec fn view(&self) -> TokenView {
        match self {
            Token::Create => TokenView::Create,
            Token::Table => TokenView::Table,
            Token::Select => TokenView::Select,
            Token::From => TokenView::From,
            Token::Where => TokenView::Where,
            Token::Not => TokenView::Not,
            Token::Null => TokenView::Null,
            Token::Index => TokenView::Index,
            Token::On => TokenView::On,
            Token::LParen => TokenView::LParen,
            Token::RParen => TokenView::RParen,
            Token::Semicolon => TokenView::Semicolon,
            Token::Dot => TokenView::Dot,
            Token::Comma => TokenView::Comma,
            Token::Star => TokenView::Star,
            Token::Equals => TokenView::Equals,
            Token::StringLiteral(s) => TokenView::StringLiteral(s@),
            Token::Identifier(s) => TokenView::Identifier(s@),
            Token::Primary => TokenView::Primary,
            Token::Key => TokenView::Key,
            Token::AutoIncrement => TokenView::AutoIncrement,
            Token::Eof => TokenView::Eof,
        }
    }
}

/// The views of a sequence of tokens.
pub open spec fn tokens_view(ts: Seq<Token>) -> Seq<TokenView> {
    ts.map_values(|t: Token| t@)
}

/// Why a text could not be split into tokens.
#[derive(Debug, Clone, Copy, PartialEq, Eq, Structural)]
pub enum LexError {
    /// A character that starts no token.
    UnexpectedCharacter(char),
    /// A quoted literal without its closing quote.
    UnterminatedLiteral,
    /// A `--` comment that no line break ends.
    UnterminatedComment,
}

pub open spec fn is_letter(c: char) -> bool {
    ('a' <= c && c <= 'z') || ('A' <= c && c <= 'Z')
}

pub open spec fn is_ident_char(c: char) -> bool {
    is_letter(c) || c == '_'
}

/// Unicode white space, the characters that `char::is_whitespace` accepts.
pub open spec fn is_space(c: char) -> bool {
    ('\t' <= c && c <= '\r') || c == ' ' || c == '\u{85}' || c == '\u{a0}' || c == '\u{1680}'
        || ('\u{2000}' <= c && c <= '\u{200a}') || c == '\u{2028}' || c == '\u{2029}' || c
        == '\u{202f}' || c == '\u{205f}' || c == '\u{3000}'
}

pub open spec fn upper_char(c: char) -> char {
    if 'a' <= c && c <= 'z' {
        ((c as int) - 32) as char
    } else {
        c
    }
}

/// ASCII upper case: `a` to `z` become `A` to `Z`, all else stays.
pub open spec fn ascii_upper(s: Seq<char>) -> Seq<char> {
    s.map_values(|c: char| upper_char(c))
}

/// The first position at or after `i` that holds `c`.
pub open spec fn find_char(s: Seq<char>, i: int, c: char) -> Option<int>
    decreases s.len() - i,
{
    if i < 0 || i >= s.len() {
        None
    } else if s[i] == c {
        Some(i)
    } else {
        find_char(s, i + 1, c)
    }
}

/// The end of the run of identifier characters that starts at `i`.
pub open spec fn ident_end(s: Seq<char>, i: int) -> int
    decreases s.len() - i,
{
    if 0 <= i < s.len() && is_ident_char(s[i]) {
        ident_end(s, i + 1)
    } else {
        i
    }
}

/// The keyword that an upper-case word spells, if any.
pub open spec fn keyword_of(w: Seq<char>) -> Option<TokenView> {
    if w == "AUTOINCREMENT"@ {
        Some(TokenView::AutoIncrement)
    } else if w == "CREATE"@ {
        Some(TokenView::Create)
    } else if w == "TABLE"@ {
        Some(TokenView::Table)
    } else if w == "PRIMARY"@ {
        Some(TokenView::Primary)
    } else if w == "KEY"@ {
        Some(TokenView::Key)
    } else if w == "SELECT"@ {
        Some(TokenView::Select)
    } else if w == "FROM"@ {
        Some(TokenView::From)
    } else if w == "WHERE"@ {
        Some(TokenView::Where)
    } else if w == "NOT"@ {
        Some(TokenView::Not)
    } else if w == "NULL"@ {
        Some(TokenView::Null)
    } else if w == "INDEX"@ {
        Some(TokenView::Index)
    } else if w == "ON"@ {
        Some(TokenView::On)
    } else {
        None
    }
}

/// The token that punctuation character `c` stands for, if any.
pub open spec fn punctuation_of(c: char) -> Option<TokenView> {
    if c == '(' {
        Some(TokenView::LParen)
    } else if c == ')' {
        Some(TokenView::RParen)
    } else if c == ';' {
        Some(TokenView::Semicolon)
    } else if c == '.' {
        Some(TokenView::Dot)
    } else if c == ',' {
        Some(TokenView::Comma)
    } else if c == '=' {
        Some(TokenView::Equals)
    } else if c == '*' {
        Some(TokenView::Star)
    } else {
        None
    }
}

/// The next token of `s` from position `i`, with the position after it.
/// White space and `--` comments (up to a line break) are skipped; the end
/// of the text gives `Eof`.
pub open spec fn token_at(s: Seq<char>, i: int) -> Result<(TokenView, int), LexError>
    decreases s.len() - i,
{
    if i < 0 || i >= s.len() {
        Ok((TokenView::Eof, i))
    } else if punctuation_of(s[i]) is Some {
        Ok((punctuation_of(s[i])->0, i + 1))
    } else if s[i] == '-' {
        if i + 1 < s.len() && s[i + 1] == '-' {
            match find_char(s, i + 2, '\n') {
                Some(j) => if i < j <= s.len() {
                    token_at(s, j)
                } else {
                    Err(LexError::UnterminatedComment)
                },
                None => Err(LexError::UnterminatedComment),
            }
        } else {
            Err(LexError::UnexpectedCharacter('-'))
        }
    } else if s[i] == '\'' || s[i] == '"' {
        match find_char(s, i + 1, s[i]) {
            Some(j) => Ok((TokenView::StringLiteral(s.subrange(i + 1, j)), j + 1)),
            None => Err(LexError::UnterminatedLiteral),
        }
    } else if is_letter(s[i]) {
        let j = ident_end(s, i);
        let w = ascii_upper(s.subrange(i, j));
        match keyword_of(w) {
            Some(k) => Ok((k, j)),
            None => Ok((TokenView::Identifier(w), j)),
        }
    } else if is_space(s[i]) {
        token_at(s, i + 1)
    } else {
        Err(LexError::UnexpectedCharacter(s[i]))
    }
}

proof fn lemma_find_char_range(s: Seq<char>, i: int, c: char)
    ensures
        find_char(s, i, c) matches Some(j) ==> i <= j < s.len() && s[j] == c,
    decreases s.len() - i,
{
    if 0 <= i < s.len() && s[i] != c {
        lemma_find_char_range(s, i + 1, c);
    }
}

proof fn lemma_ident_end_range(s: Seq<char>, i: int)
    requires
        0 <= i <= s.len(),
    ensures
        i <= ident_end(s, i) <= s.len(),
        i < s.len() && is_ident_char(s[i]) ==> i < ident_end(s, i),
    decreases s.len() - i,
{
    if i < s.len() && is_ident_char(s[i]) {
        lemma_ident_end_range(s, i + 1);
    }
}

/// A token other than `Eof` is never empty and never runs past the end.
pub proof fn lemma_token_at_advances(s: Seq<char>, i: int)
    requires
        0 <= i <= s.len(),
    ensures
        token_at(s, i) matches Ok((t, j)) ==> (if t is Eof {
            j >= s.len()
        } else {
            i < j <= s.len()
        }),
    decreases s.len() - i,
{
    if i < s.len() {
        if punctuation_of(s[i]) is Some {
        } else if s[i] == '-' {
            lemma_find_char_range(s, i + 2, '\n');
            if let Some(j) = find_char(s, i + 2, '\n') {
                lemma_token_at_advances(s, j);
            }
        } else if s[i] == '\'' || s[i] == '"' {
            lemma_find_char_range(s, i + 1, s[i]);
        } else if is_letter(s[i]) {
            lemma_ident_end_range(s, i);
        } else if is_space(s[i]) {
            lemma_token_at_advances(s, i + 1);
        }
    }
}

/// All tokens of `s` from position `i`, ending with `Eof`.
pub open spec fn tokens_from(s: Seq<char>, i: int) -> Result<Seq<TokenView>, LexError>
    decreases s.len() + 1 - i,
{
    match token_at(s, i) {
        Err(e) => Err(e),
        Ok((t, j)) => if t is Eof {
            Ok(seq![t])
        } else if i < j <= s.len() {
            match tokens_from(s, j) {
                Ok(rest) => Ok(seq![t] + rest),
                Err(e) => Err(e),
            }
        } else {
            Err(LexError::UnexpectedCharacter(s[i]))
        },
    }
}

/// All tokens of `s`.
pub open spec fn lex_spec(s: Seq<char>) -> Result<Seq<TokenView>, LexError> {
    tokens_from(s, 0)
}

/// Relies on `str::to_ascii_uppercase`: ASCII letters `a` to `z` become
/// `A` to `Z`, every other character is unchanged.
#[verifier::external_body]
pub(crate) fn to_upper(s: &str) -> (r: String)
    ensures
        r@ == ascii_upper(s@),
{
    s.to_ascii_uppercase()
}

fn is_letter_exec(c: char) -> (r: bool)
    ensures
        r == is_letter(c),
{
    ('a' <= c && c <= 'z') || ('A' <= c && c <= 'Z')
}

fn is_space_exec(c: char) -> (r: bool)
    ensures
        r == is_space(c),
{
    ('\t' <= c && c <= '\r') || c == ' ' || c == '\u{85}' || c == '\u{a0}' || c == '\u{1680}'
        || ('\u{2000}' <= c && c <= '\u{200a}') || c == '\u{2028}' || c == '\u{2029}' || c
        == '\u{202f}' || c == '\u{205f}' || c == '\u{3000}'
}

fn punctuation_exec(c: char) -> (r: Option<Token>)
    ensures
        match r {
            Some(t) => punctuation_of(c) == Some(t@),
            None => punctuation_of(c) is None,
        },
{
    if c == '(' {
        Some(Token::LParen)
    } else if c == ')' {
        Some(Token::RParen)
    } else if c == ';' {
        Some(Token::Semicolon)
    } else if c == '.' {
        Some(Token::Dot)
    } else if c == ',' {
        Some(Token::Comma)
    } else if c == '=' {
        Some(Token::Equals)
    } else if c == '*' {
        Some(Token::Star)
    } else {
        None
    }
}

pub(crate) fn same_text(a: &String, b: &str) -> (r: bool)
    ensures
        r == (a@ == b@),
{
    let b2 = b.to_owned();
    *a == b2
}

fn keyword_exec(w: &String) -> (r: Option<Token>)
    ensures
        match r {
            Some(t) => keyword_of(w@) == Some(t@),
            None => keyword_of(w@) is None,
        },
{
    if same_text(w, "AUTOINCREMENT") {
        Some(Token::AutoIncrement)
    } else if same_text(w, "CREATE") {
        Some(Token::Create)
    } else if same_text(w, "TABLE") {
        Some(Token::Table)
    } else if same_text(w, "PRIMARY") {
        Some(Token::Primary)
    } else if same_text(w, "KEY") {
        Some(Token::Key)
    } else if same_text(w, "SELECT") {
        Some(Token::Select)
    } else if same_text(w, "FROM") {
        Some(Token::From)
    } else if same_text(w, "WHERE") {
        Some(Token::Where)
    } else if same_text(w, "NOT") {
        Some(Token::Not)
    } else if same_text(w, "NULL") {
        Some(Token::Null)
    } else if same_text(w, "INDEX") {
        Some(Token::Index)
    } else if same_text(w, "ON") {
        Some(Token::On)
    } else {
        None
    }
}

/// A cursor over a SQL text.
#[derive(Debug)]
pub struct Lexer {
    input: String,
    position: usize,
}

impl Lexer {
    /// The text being split.
    pub closed spec fn text(&self) -> Seq<char> {
        self.input@
    }

    /// The position, in characters, of the next token.
    pub closed spec fn pos(&self) -> int {
        self.position as int
    }

    /// The position lies within the text.
    pub closed spec fn wf(&self) -> bool {
        self.position <= self.input@.len()
    }

    pub fn new(input: String) -> (l: Lexer)
        ensures
            l.text() == input@,
            l.pos() == 0,
            l.wf(),
    {
        Lexer { input, position: 0 }
    }

    fn find_char_exec(&self, from: usize, c: char, len: usize) -> (r: Option<usize>)
        requires
            len == self.input@.len(),
            from <= len,
        ensures
            match r {
                Some(j) => find_char(self.input@, from as int, c) == Some(j as int),
                None => find_char(self.input@, from as int, c) is None,
            },
    {
        let mut j = from;
        while j < len
            invariant
                from <= j <= len,
                len == self.input@.len(),
                find_char(self.input@, from as int, c) == find_char(self.input@, j as int, c),
            decreases len - j,
        {
            if self.input.as_str().get_char(j) == c {
                return Some(j);
            }
            j = j + 1;
        }
        None
    }

    fn ident_end_exec(&self, from: usize, len: usize) -> (r: usize)
        requires
            len == self.input@.len(),
            from <= len,
        ensures
            r as int == ident_end(self.input@, from as int),
            from <= r <= len,
    {
        let mut j = from;
        while j < len
            invariant
                from <= j <= len,
                len == self.input@.len(),
                ident_end(self.input@, from as int) == ident_end(self.input@, j as int),
            decreases len - j,
        {
            let c = self.input.as_str().get_char(j);
            if !(is_letter_exec(c) || c == '_') {
                return j;
            }
            j = j + 1;
        }
        j
    }

    /// Reads the next token. On success the position moves past it; `Eof`
    /// leaves the position where it is.
    pub fn next_token(&mut self) -> (r: Result<Token, LexError>)
        requires
            old(self).wf(),
        ensures
            final(self).wf(),
            final(self).text() == old(self).text(),
            match token_at(old(self).text(), old(self).pos()) {
                Ok((t, j)) => r matches Ok(tok) && tok@ == t && final(self).pos() == j,
                Err(e) => r == Err::<Token, LexError>(e),
            },
    {
        let len = self.input.as_str().unicode_len();
        let ghost s = self.input@;
        let ghost start = self.position as int;
        loop
            invariant
                s == self.input@,
                s == old(self).text(),
                start == old(self).pos(),
                self.input == old(self).input,
                self.position <= len,
                len == s.len(),
                token_at(s, start) == token_at(s, self.position as int),
            decreases len - self.position,
        {
            if self.position >= len {
                return Ok(Token::Eof);
            }
            let i = self.position;
            let c = self.input.as_str().get_char(i);
            if let Some(t) = punctuation_exec(c) {
                self.position = i + 1;
                return Ok(t);
            } else if c == '-' {
                if i + 1 < len && self.input.as_str().get_char(i + 1) == '-' {
                    proof {
                    lemma_find_char_range(s, i + 2, '\n');
                }
                match self.find_char_exec(i + 2, '\n', len) {
                        Some(j) => {
                            self.position = j;
                        },
                        None => {
                            return Err(LexError::UnterminatedComment);
                        },
                    }
                } else {
                    return Err(LexError::UnexpectedCharacter('-'));
                }
            } else if c == '\'' || c == '"' {
                proof {
                    lemma_find_char_range(s, i + 1, c);
                }
                match self.find_char_exec(i + 1, c, len) {
                    Some(j) => {
                        let text = self.input.as_str().substring_char(i + 1, j).to_owned();
                        self.position = j + 1;
                        return Ok(Token::StringLiteral(text));
                    },
                    None => {
                        return Err(LexError::UnterminatedLiteral);
                    },
                }
            } else if is_letter_exec(c) {
                let j = self.ident_end_exec(i, len);
                let word = to_upper(self.input.as_str().substring_char(i, j));
                self.position = j;
                match keyword_exec(&word) {
                    Some(k) => {
                        return Ok(k);
                    },
                    None => {
                        return Ok(Token::Identifier(word));
                    },
                }
            } else if is_space_exec(c) {
                self.position = i + 1;
            } else {
                return Err(LexError::UnexpectedCharacter(c));
            }
        }
    }

    /// Splits the rest of the text into tokens, ending with `Eof`.
    pub fn lex(&mut self) -> (r: Result<Vec<Token>, LexError>)
        requires
            old(self).wf(),
        ensures
            match tokens_from(old(self).text(), old(self).pos()) {
                Ok(ts) => r matches Ok(v) && tokens_view(v@) == ts,
                Err(e) => r == Err::<Vec<Token>, LexError>(e),
            },
    {
        let mut tokens: Vec<Token> = Vec::new();
        let ghost s = self.text();
        let ghost start = self.pos();
        loop
            invariant
                s == self.text(),
                s == old(self).text(),
                start == old(self).pos(),
                self.wf(),
                0 <= self.pos() <= s.len(),
                tokens_from(s, start) == (match tokens_from(s, self.pos()) {
                    Ok(rest) => Ok(tokens_view(tokens@) + rest),
                    Err(e) => Err(e),
                }),
            decreases s.len() - self.pos(),
        {
            let ghost i = self.pos();
            let t = self.next_token();
            match t {
                Err(e) => {
                    return Err(e);
                },
                Ok(tok) => {
                    let is_eof = matches!(tok, Token::Eof);
                    let ghost old_tokens = tokens@;
                    let ghost tv = tok@;
                    proof {
                        lemma_token_at_advances(s, i);
                    }
                    tokens.push(tok);
                    proof {
                        assert(tokens_view(tokens@) =~= tokens_view(old_tokens) + seq![tv]);
                        if let Ok(rest) = tokens_from(s, self.pos()) {
                            assert(tokens_view(old_tokens) + (seq![tv] + rest) =~= tokens_view(
                                tokens@,
                            ) + rest);
                        }
                    }
                    if is_eof {
                        return Ok(tokens);
                    }
                },
            }
        }
    }
}

} // verus!
