use vstd::prelude::*;
use crate::file_info::{FileInfo, FI};
use crate::text::{str_eq, push_char, push_signed_decimal, push_decimal, decimal, signed_decimal};
use crate::parser::tokens_wf;

verus! {

pub type TT = TokenType;
pub type KW = Keyword;

/// A classified piece of source text and where it stands.
#[derive(Debug, PartialEq, Clone)]
pub struct Token {
    pub fi: FileInfo,
    pub token_type: TokenType,
}

impl Token {
    pub fn new(token_type: TokenType, fi: FileInfo) -> (r: Token)
        ensures
            r.token_type == token_type,
            r.fi == fi,
    {
        Token { fi, token_type }
    }
}

#[derive(Debug, PartialEq, Clone)]
pub enum TokenType {
    EOF,
    Illegal,
    Ident(String),
    Keyword(Keyword),
    U64(u64),
    I64(i64),
    LParen,
    RParen,
    LBrace,
    RBrace,
    LBracket,
    RBracket,
    ReturnArrow,
    Comma,
    Semicolon,
    Colon,
    Assign,
    Eq,
    NotEq,
    Lt,
    Gt,
    Plus,
    Minus,
    Asterisk,
    Slash,
    Percent,
    Newline,
    Whitespace,
    Comment(String),
}

#[derive(Debug, PartialEq, Eq, Clone, Copy, Structural)]
pub enum Keyword {
    Fn,
    Global,
    If,
    Else,
    While,
    Do,
    Return,
    Let,
    ASM,
    U64,
    I64,
}

/// The spelling of a keyword.
pub open spec fn keyword_text(k: Keyword) -> Seq<char> {
    match k {
        Keyword::Fn => "fn"@,
        Keyword::Global => "global"@,
        Keyword::If => "if"@,
        Keyword::Else => "else"@,
        Keyword::While => "while"@,
        Keyword::Do => "do"@,
        Keyword::Return => "return"@,
        Keyword::Let => "let"@,
        Keyword::ASM => "asm"@,
        Keyword::U64 => "u64"@,
        Keyword::I64 => "i64"@,
    }
}

/// The keyword spelt `s`, if any.
pub open spec fn keyword_of(s: Seq<char>) -> Option<Keyword> {
    if s == "fn"@ {
        Some(Keyword::Fn)
    } else if s == "if"@ {
        Some(Keyword::If)
    } else if s == "else"@ {
        Some(Keyword::Else)
    } else if s == "while"@ {
        Some(Keyword::While)
    } else if s == "do"@ {
        Some(Keyword::Do)
    } else if s == "return"@ {
        Some(Keyword::Return)
    } else if s == "let"@ {
        Some(Keyword::Let)
    } else if s == "asm"@ {
        Some(Keyword::ASM)
    } else if s == "global"@ {
        Some(Keyword::Global)
    } else if s == "u64"@ {
        Some(Keyword::U64)
    } else if s == "i64"@ {
        Some(Keyword::I64)
    } else {
        None
    }
}

/// The text that a token of this type stands for.
pub open spec fn token_text(tt: TokenType) -> Seq<char> {
    match tt {
        TokenType::EOF => Seq::empty(),
        TokenType::Illegal => "Illegal"@,
        TokenType::Ident(s) => s@,
        TokenType::Keyword(k) => keyword_text(k),
        TokenType::U64(n) => decimal(n as nat),
        TokenType::I64(n) => signed_decimal(n as int),
        TokenType::LParen => "("@,
        TokenType::RParen => ")"@,
        TokenType::LBrace => "{"@,
        TokenType::RBrace => "}"@,
        TokenType::LBracket => "["@,
        TokenType::RBracket => "]"@,
        TokenType::ReturnArrow => "->"@,
        TokenType::Comma => ","@,
        TokenType::Semicolon => ";"@,
        TokenType::Colon => ":"@,
        TokenType::Assign => "="@,
        TokenType::Eq => "=="@,
        TokenType::NotEq => "!="@,
        TokenType::Lt => "<"@,
        TokenType::Gt => ">"@,
        TokenType::Plus => "+"@,
        TokenType::Minus => "-"@,
        TokenType::Asterisk => "*"@,
        TokenType::Slash => "/"@,
        TokenType::Percent => "%"@,
        TokenType::Newline => "\n"@,
        TokenType::Whitespace => " "@,
        TokenType::Comment(s) => "//"@ + s@,
    }
}

/// A keyword for the spelling of one, else an identifier.
fn keyword_or_ident(ident: &str) -> (r: TokenType)
    ensures
        match keyword_of(ident@) {
            Some(k) => r == TokenType::Keyword(k),
            None => r matches TokenType::Ident(s) && s@ == ident@,
        },
{
    if str_eq(ident, "fn") {
        TT::Keyword(KW::Fn)
    } else if str_eq(ident, "if") {
        TT::Keyword(KW::If)
    } else if str_eq(ident, "else") {
        TT::Keyword(KW::Else)
    } else if str_eq(ident, "while") {
        TT::Keyword(KW::While)
    } else if str_eq(ident, "do") {
        TT::Keyword(KW::Do)
    } else if str_eq(ident, "return") {
        TT::Keyword(KW::Return)
    } else if str_eq(ident, "let") {
        TT::Keyword(KW::Let)
    } else if str_eq(ident, "asm") {
        TT::Keyword(KW::ASM)
    } else if str_eq(ident, "global") {
        TT::Keyword(KW::Global)
    } else if str_eq(ident, "u64") {
        TT::Keyword(KW::U64)
    } else if str_eq(ident, "i64") {
        TT::Keyword(KW::I64)
    } else {
        TT::Ident(String::from_str(ident))
    }
}

impl TokenType {
    /// The text that the token stands for.
    pub fn string(&self) -> (r: String)
        ensures
            r@ == token_text(*self),
    {
        match self {
            TT::EOF => String::new(),
            TT::Illegal => String::from_str("Illegal"),
            TT::Ident(s) => s.clone(),
            TT::Keyword(kw) => match kw {
                KW::Fn => String::from_str("fn"),
                KW::Global => String::from_str("global"),
                KW::If => String::from_str("if"),
                KW::Else => String::from_str("else"),
                KW::While => String::from_str("while"),
                KW::Do => String::from_str("do"),
                KW::Return => String::from_str("return"),
                KW::Let => String::from_str("let"),
                KW::ASM => String::from_str("asm"),
                KW::U64 => String::from_str("u64"),
                KW::I64 => String::from_str("i64"),
            },
            TT::U64(n) => {
                let mut s = String::new();
                push_decimal(&mut s, *n as u128);
                s
            },
            TT::I64(n) => {
                let mut s = String::new();
                push_signed_decimal(&mut s, *n);
                s
            },
            TT::LParen => String::from_str("("),
            TT::RParen => String::from_str(")"),
            TT::LBrace => String::from_str("{"),
            TT::RBrace => String::from_str("}"),
            TT::LBracket => String::from_str("["),
            TT::RBracket => String::from_str("]"),
            TT::ReturnArrow => String::from_str("->"),
            TT::Comma => String::from_str(","),
            TT::Semicolon => String::from_str(";"),
            TT::Colon => String::from_str(":"),
            TT::Assign => String::from_str("="),
            TT::Eq => String::from_str("=="),
            TT::NotEq => String::from_str("!="),
            TT::Lt => String::from_str("<"),
            TT::Gt => String::from_str(">"),
            TT::Plus => String::from_str("+"),
            TT::Minus => String::from_str("-"),
            TT::Asterisk => String::from_str("*"),
            TT::Slash => String::from_str("/"),
            TT::Percent => String::from_str("%"),
            TT::Newline => String::from_str("\n"),
            TT::Whitespace => String::from_str(" "),
            TT::Comment(c) => {
                let mut s = String::from_str("//");
                s.append(c.as_str());
                s
            },
        }
    }
}

pub open spec fn is_digit(c: char) -> bool {
    '0' <= c <= '9'
}

pub open spec fn is_ident_start(c: char) -> bool {
    ('a' <= c <= 'z') || ('A' <= c <= 'Z') || c == '_'
}

pub open spec fn is_ident_char(c: char) -> bool {
    is_ident_start(c) || is_digit(c)
}

/// The number that a string of decimal digits spells.
pub open spec fn digits_value(s: Seq<char>) -> nat
    decreases s.len(),
{
    if s.len() == 0 {
        0
    } else {
        digits_value(s.drop_last()) * 10 + ((s.last() as nat) - 48) as nat
    }
}

/// `text` is what a token of type `tt` is read from: its spelling; for a
/// number, its digits; for blank space, one space or tab; for an illegal
/// token, what could not be read.
pub open spec fn spelled_by(tt: TokenType, text: Seq<char>) -> bool {
    match tt {
        TokenType::Whitespace => text == seq![' '] || text == seq!['\t'],
        TokenType::U64(n) => {
            &&& text.len() > 0
            &&& forall|k: int| 0 <= k < text.len() ==> is_digit(#[trigger] text[k])
            &&& n == digits_value(text)
        },
        TokenType::Illegal => text.len() > 0,
        _ => token_text(tt) == text,
    }
}

/// A name or a number runs as far as it can: the character after it, if
/// any, could not continue it.
pub open spec fn token_maximal(tt: TokenType, cs: Seq<char>, end: int) -> bool {
    &&& (tt is Ident || tt is Keyword) ==> end >= cs.len() || !is_ident_char(cs[end])
    &&& tt is U64 ==> end >= cs.len() || !is_digit(cs[end])
}

/// The tokens lie end to end over `n` characters, the last one an empty
/// end-of-input token.
pub open spec fn tokens_cover(tokens: Seq<Token>, n: int) -> bool {
    &&& tokens.len() >= 1
    &&& tokens[0].fi.offset == 0
    &&& tokens.last().token_type is EOF
    &&& tokens.last().fi.length == 0
    &&& tokens.last().fi.offset == n
    &&& forall|i: int| 0 <= i < tokens.len() - 1 ==> #[trigger] tokens[i].fi.end() == tokens[i + 1].fi.offset
}

/// Splits source text into tokens. Text that no token spells (an unknown
/// character, a number too large for 64 bits) becomes an `Illegal` token,
/// which the parser rejects.
pub fn tokenize(input: &str) -> (r: Vec<Token>)
    requires
        input@.len() < usize::MAX,
    ensures
        tokens_wf(r@),
        tokens_cover(r@, input@.len() as int),
        forall|i: int|
            0 <= i < r@.len() - 1 ==> #[trigger] spelled_by(
                r@[i].token_type,
                input@.subrange(r@[i].fi.offset as int, r@[i].fi.end()),
            ),
        forall|i: int| 0 <= i < r@.len() - 1 ==> #[trigger] token_maximal(r@[i].token_type, input@, r@[i].fi.end()),
{
    let n = input.unicode_len();
    let mut cs: Vec<char> = Vec::new();
    let mut i: usize = 0;
    while i < n
        invariant
            i <= n,
            n == input@.len(),
            cs@ == input@.subrange(0, i as int),
        decreases n - i,
    {
        cs.push(input.get_char(i));
        assert(cs@ =~= input@.subrange(0, i + 1));
        i = i + 1;
    }
    assert(cs@ == input@);

    let mut tokens: Vec<Token> = Vec::new();
    let mut p: usize = 0;
    while p < n
        invariant
            p <= n,
            n == cs@.len(),
            n < usize::MAX,
            tokens_wf(tokens@),
            forall|i: int| 0 <= i < tokens@.len() ==> #[trigger] tokens@[i].fi.end() <= p,
            tokens@.len() == 0 ==> p == 0,
            tokens@.len() > 0 ==> tokens@[0].fi.offset == 0 && tokens@.last().fi.end() == p,
            forall|i: int| 0 <= i < tokens@.len() - 1 ==> #[trigger] tokens@[i].fi.end() == tokens@[i + 1].fi.offset,
            forall|i: int|
                0 <= i < tokens@.len() ==> #[trigger] spelled_by(
                    tokens@[i].token_type,
                    cs@.subrange(tokens@[i].fi.offset as int, tokens@[i].fi.end()),
                ),
            forall|i: int| 0 <= i < tokens@.len() ==> #[trigger] token_maximal(tokens@[i].token_type, cs@, tokens@[i].fi.end()),
        decreases n - p,
    {
        let c = cs[p];
        proof {
            assert(cs@.subrange(p as int, p + 1) =~= seq![c]);
            reveal_strlit("\n");
            assert("\n"@ =~= seq!['\n']);
        }
        let (tt, q) = if c == ' ' || c == '\t' {
            (TT::Whitespace, p + 1)
        } else if c == '\n' {
            (TT::Newline, p + 1)
        } else if '0' <= c && c <= '9' {
            tokenize_int(&cs, p)
        } else if ('a' <= c && c <= 'z') || ('A' <= c && c <= 'Z') || c == '_' {
            tokenize_ident(&cs, p)
        } else {
            tokenize_simbol(&cs, p)
        };
        let ghost before = tokens@;
        tokens.push(Token::new(tt, FI::new(q - p, p)));
        proof {
            assert(tokens@ == before.push(tokens@.last()));
            assert forall|i: int, j: int| 0 <= i < j < tokens@.len() implies #[trigger] tokens@[i].fi.end() <= #[trigger] tokens@[j].fi.offset by {
                if j < before.len() {
                    assert(tokens@[i] == before[i] && tokens@[j] == before[j]);
                } else {
                    assert(tokens@[i] == before[i]);
                }
            }
            assert forall|i: int| 0 <= i < tokens@.len() - 1 implies #[trigger] tokens@[i].fi.end() == tokens@[i + 1].fi.offset by {
                assert(tokens@[i] == before[i]);
                if i + 1 < before.len() {
                    assert(tokens@[i + 1] == before[i + 1]);
                }
            }
            assert forall|i: int| 0 <= i < tokens@.len() implies #[trigger] spelled_by(
                tokens@[i].token_type,
                cs@.subrange(tokens@[i].fi.offset as int, tokens@[i].fi.end()),
            ) by {
                if i < before.len() {
                    assert(tokens@[i] == before[i]);
                }
            }
        }
        p = q;
    }
    let ghost before = tokens@;
    tokens.push(Token::new(TT::EOF, FI::new(0, n)));
    proof {
        assert forall|i: int, j: int| 0 <= i < j < tokens@.len() implies #[trigger] tokens@[i].fi.end() <= #[trigger] tokens@[j].fi.offset by {
            if j < before.len() {
                assert(tokens@[i] == before[i] && tokens@[j] == before[j]);
            } else {
                assert(tokens@[i] == before[i]);
            }
        }
        assert forall|i: int| 0 <= i < tokens@.len() - 1 implies #[trigger] tokens@[i].fi.end() == tokens@[i + 1].fi.offset by {
            assert(tokens@[i] == before[i]);
            if i + 1 < before.len() {
                assert(tokens@[i + 1] == before[i + 1]);
            }
        }
        assert forall|i: int| 0 <= i < tokens@.len() - 1 implies #[trigger] spelled_by(
            tokens@[i].token_type,
            input@.subrange(tokens@[i].fi.offset as int, tokens@[i].fi.end()),
        ) by {
            assert(tokens@[i] == before[i]);
        }
    }
    tokens
}

/// The characters `cs[from..to]` as a string.
fn text_of(cs: &Vec<char>, from: usize, to: usize) -> (r: String)
    requires
        from <= to <= cs.len(),
    ensures
        r@ == cs@.subrange(from as int, to as int),
{
    let mut s = String::new();
    let mut i = from;
    while i < to
        invariant
            from <= i <= to <= cs.len(),
            s@ == cs@.subrange(from as int, i as int),
        decreases to - i,
    {
        push_char(&mut s, cs[i]);
        assert(s@ =~= cs@.subrange(from as int, i + 1));
        i = i + 1;
    }
    s
}

/// A punctuation or operator token starting at `pos`, the longer spelling
/// first where two share a first character; a line comment after `//`.
fn tokenize_simbol(cs: &Vec<char>, pos: usize) -> (r: (TokenType, usize))
    requires
        pos < cs.len(),
    ensures
        pos < r.1 <= cs.len(),
        spelled_by(r.0, cs@.subrange(pos as int, r.1 as int)),
        !(r.0 is Ident || r.0 is Keyword || r.0 is U64),
        cs@[pos as int] == '(' ==> r.0 == TokenType::LParen && r.1 == pos + 1,
        cs@[pos as int] == ')' ==> r.0 == TokenType::RParen && r.1 == pos + 1,
        cs@[pos as int] == '{' ==> r.0 == TokenType::LBrace && r.1 == pos + 1,
        cs@[pos as int] == '}' ==> r.0 == TokenType::RBrace && r.1 == pos + 1,
        cs@[pos as int] == '[' ==> r.0 == TokenType::LBracket && r.1 == pos + 1,
        cs@[pos as int] == ']' ==> r.0 == TokenType::RBracket && r.1 == pos + 1,
        cs@[pos as int] == ';' ==> r.0 == TokenType::Semicolon && r.1 == pos + 1,
        cs@[pos as int] == ':' ==> r.0 == TokenType::Colon && r.1 == pos + 1,
        cs@[pos as int] == ',' ==> r.0 == TokenType::Comma && r.1 == pos + 1,
        cs@[pos as int] == '+' ==> r.0 == TokenType::Plus && r.1 == pos + 1,
        cs@[pos as int] == '*' ==> r.0 == TokenType::Asterisk && r.1 == pos + 1,
        cs@[pos as int] == '%' ==> r.0 == TokenType::Percent && r.1 == pos + 1,
        cs@[pos as int] == '<' ==> r.0 == TokenType::Lt && r.1 == pos + 1,
        cs@[pos as int] == '>' ==> r.0 == TokenType::Gt && r.1 == pos + 1,
        cs@[pos as int] != '(' && cs@[pos as int] != ')' && cs@[pos as int] != '{' && cs@[pos as int] != '}' && cs@[pos as int] != '[' && cs@[pos as int] != ']' && cs@[pos as int] != ';' && cs@[pos as int] != ':' && cs@[pos as int] != ',' && cs@[pos as int] != '+' && cs@[pos as int] != '*' && cs@[pos as int] != '%' && cs@[pos as int] != '<' && cs@[pos as int] != '>' && cs@[pos as int] != '=' && cs@[pos as int] != '!' && cs@[pos as int] != '-' && cs@[pos as int] != '/' ==> r.0 == TokenType::Illegal && r.1 == pos + 1,
        cs@[pos as int] == '=' ==> if pos + 1 < cs.len() && cs@[pos + 1] == '=' {
            r.0 == TokenType::Eq && r.1 == pos + 2
        } else {
            r.0 == TokenType::Assign && r.1 == pos + 1
        },
        cs@[pos as int] == '!' ==> if pos + 1 < cs.len() && cs@[pos + 1] == '=' {
            r.0 == TokenType::NotEq && r.1 == pos + 2
        } else {
            r.0 == TokenType::Illegal && r.1 == pos + 1
        },
        cs@[pos as int] == '-' ==> if pos + 1 < cs.len() && cs@[pos + 1] == '>' {
            r.0 == TokenType::ReturnArrow && r.1 == pos + 2
        } else {
            r.0 == TokenType::Minus && r.1 == pos + 1
        },
        cs@[pos as int] == '/' ==> if pos + 1 < cs.len() && cs@[pos + 1] == '/' {
            &&& r.0 is Comment
            &&& forall|k: int| pos + 2 <= k < r.1 ==> cs@[k] != '\n'
            &&& (r.1 == cs.len() || cs@[r.1 as int] == '\n')
        } else {
            r.0 == TokenType::Slash && r.1 == pos + 1
        },
{
    let c = cs[pos];
    proof {
        assert(cs@.subrange(pos as int, pos + 1) =~= seq![c]);
        if pos + 1 < cs.len() {
            assert(cs@.subrange(pos as int, pos + 2) =~= seq![c, cs@[pos + 1]]);
        }
        reveal_strlit("(");
        assert("("@ =~= seq!['(']);
        reveal_strlit(")");
        assert(")"@ =~= seq![')']);
        reveal_strlit("{");
        assert("{"@ =~= seq!['{']);
        reveal_strlit("}");
        assert("}"@ =~= seq!['}']);
        reveal_strlit("[");
        assert("["@ =~= seq!['[']);
        reveal_strlit("]");
        assert("]"@ =~= seq![']']);
        reveal_strlit(";");
        assert(";"@ =~= seq![';']);
        reveal_strlit(":");
        assert(":"@ =~= seq![':']);
        reveal_strlit(",");
        assert(","@ =~= seq![',']);
        reveal_strlit("=");
        assert("="@ =~= seq!['=']);
        reveal_strlit("+");
        assert("+"@ =~= seq!['+']);
        reveal_strlit("-");
        assert("-"@ =~= seq!['-']);
        reveal_strlit("*");
        assert("*"@ =~= seq!['*']);
        reveal_strlit("/");
        assert("/"@ =~= seq!['/']);
        reveal_strlit("%");
        assert("%"@ =~= seq!['%']);
        reveal_strlit("<");
        assert("<"@ =~= seq!['<']);
        reveal_strlit(">");
        assert(">"@ =~= seq!['>']);
        reveal_strlit("==");
        assert("=="@ =~= seq!['=', '=']);
        reveal_strlit("!=");
        assert("!="@ =~= seq!['!', '=']);
        reveal_strlit("->");
        assert("->"@ =~= seq!['-', '>']);
        reveal_strlit("//");
        assert("//"@ =~= seq!['/', '/']);
    }
    let next: Option<char> = if pos + 1 < cs.len() {
        Some(cs[pos + 1])
    } else {
        None
    };
    if c == '(' {
        (TT::LParen, pos + 1)
    } else if c == ')' {
        (TT::RParen, pos + 1)
    } else if c == '{' {
        (TT::LBrace, pos + 1)
    } else if c == '}' {
        (TT::RBrace, pos + 1)
    } else if c == '[' {
        (TT::LBracket, pos + 1)
    } else if c == ']' {
        (TT::RBracket, pos + 1)
    } else if c == ';' {
        (TT::Semicolon, pos + 1)
    } else if c == ':' {
        (TT::Colon, pos + 1)
    } else if c == ',' {
        (TT::Comma, pos + 1)
    } else if c == '=' {
        if next == Some('=') {
            (TT::Eq, pos + 2)
        } else {
            (TT::Assign, pos + 1)
        }
    } else if c == '!' {
        if next == Some('=') {
            (TT::NotEq, pos + 2)
        } else {
            (TT::Illegal, pos + 1)
        }
    } else if c == '+' {
        (TT::Plus, pos + 1)
    } else if c == '-' {
        if next == Some('>') {
            (TT::ReturnArrow, pos + 2)
        } else {
            (TT::Minus, pos + 1)
        }
    } else if c == '*' {
        (TT::Asterisk, pos + 1)
    } else if c == '/' {
        if next == Some('/') {
            let mut q = pos + 2;
            while q < cs.len() && cs[q] != '\n'
                invariant
                    pos + 2 <= q <= cs.len(),
                    forall|k: int| pos + 2 <= k < q ==> cs@[k] != '\n',
                decreases cs.len() - q,
            {
                q = q + 1;
            }
            proof {
                assert(cs@.subrange(pos as int, q as int) =~= "//"@ + cs@.subrange(pos + 2, q as int));
            }
            (TT::Comment(text_of(cs, pos + 2, q)), q)
        } else {
            (TT::Slash, pos + 1)
        }
    } else if c == '%' {
        (TT::Percent, pos + 1)
    } else if c == '<' {
        (TT::Lt, pos + 1)
    } else if c == '>' {
        (TT::Gt, pos + 1)
    } else {
        (TT::Illegal, pos + 1)
    }
}

/// A decimal number starting at `pos`; `Illegal` where it does not fit in
/// 64 bits.
fn tokenize_int(cs: &Vec<char>, pos: usize) -> (r: (TokenType, usize))
    requires
        pos < cs.len(),
        is_digit(cs@[pos as int]),
    ensures
        pos < r.1 <= cs.len(),
        forall|k: int| pos <= k < r.1 ==> is_digit(#[trigger] cs@[k]),
        r.1 < cs.len() ==> !is_digit(cs@[r.1 as int]),
        r.0 is U64 || r.0 is Illegal,
        r.0 matches TokenType::U64(n) ==> n == digits_value(cs@.subrange(pos as int, r.1 as int)),
        r.0 is Illegal ==> digits_value(cs@.subrange(pos as int, r.1 as int)) > u64::MAX,
        spelled_by(r.0, cs@.subrange(pos as int, r.1 as int)),
{
    let mut q = pos;
    let mut value: u64 = 0;
    let mut overflow = false;
    while q < cs.len() && '0' <= cs[q] && cs[q] <= '9'
        invariant
            pos <= q <= cs.len(),
            forall|k: int| pos <= k < q ==> is_digit(#[trigger] cs@[k]),
            !overflow ==> value == digits_value(cs@.subrange(pos as int, q as int)),
            overflow ==> digits_value(cs@.subrange(pos as int, q as int)) > u64::MAX,
        decreases cs.len() - q,
    {
        let d = (cs[q] as u32 - 48) as u64;
        let ghost prev = cs@.subrange(pos as int, q as int);
        assert(cs@.subrange(pos as int, q + 1).drop_last() == prev);
        if !overflow {
            match value.checked_mul(10) {
                Some(m) => match m.checked_add(d) {
                    Some(v) => {
                        value = v;
                    },
                    None => {
                        overflow = true;
                    },
                },
                None => {
                    overflow = true;
                },
            }
        } else {
            assert(digits_value(cs@.subrange(pos as int, q + 1)) >= digits_value(prev) * 10) by (nonlinear_arith)
                requires
                    digits_value(cs@.subrange(pos as int, q + 1)) == digits_value(prev) * 10 + (d as nat);
        }
        q = q + 1;
    }
    proof {
        let text = cs@.subrange(pos as int, q as int);
        assert forall|k: int| 0 <= k < text.len() implies is_digit(#[trigger] text[k]) by {
            assert(text[k] == cs@[pos + k]);
        }
    }
    if overflow {
        (TT::Illegal, q)
    } else {
        (TT::U64(value), q)
    }
}

/// An identifier or keyword starting at `pos`.
fn tokenize_ident(cs: &Vec<char>, pos: usize) -> (r: (TokenType, usize))
    requires
        pos < cs.len(),
        is_ident_start(cs@[pos as int]),
    ensures
        pos < r.1 <= cs.len(),
        r.0 matches TokenType::Ident(s) ==> s@ == cs@.subrange(pos as int, r.1 as int),
        spelled_by(r.0, cs@.subrange(pos as int, r.1 as int)),
        forall|k: int| pos <= k < r.1 ==> is_ident_char(#[trigger] cs@[k]),
        r.1 < cs.len() ==> !is_ident_char(cs@[r.1 as int]),
{
    let mut q = pos;
    while q < cs.len() && (('a' <= cs[q] && cs[q] <= 'z') || ('A' <= cs[q] && cs[q] <= 'Z') || cs[q] == '_' || ('0'
        <= cs[q] && cs[q] <= '9'))
        invariant
            pos <= q <= cs.len(),
            forall|k: int| pos < k < q ==> is_ident_char(#[trigger] cs@[k]),
            q > pos ==> is_ident_char(cs@[pos as int]),
        decreases cs.len() - q,
    {
        q = q + 1;
    }
    let ident = text_of(cs, pos, q);
    (keyword_or_ident(ident.as_str()), q)
}

} // verus!
