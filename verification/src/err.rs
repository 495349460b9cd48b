//! Located, user-facing compile-time diagnostics.
//!
//! A diagnostic carries an optional message and the source span of the
//! offending token.  The span's length is derived from the token kind:
//! text tokens span their text, keywords and operators use a fixed table.

use vstd::prelude::*;
use vstd::string::StringExecFns;
use vstd::utf8::encode_utf8;

use crate::lex::{Token, Type};

verus! {

/// The decimal digit character for `d`.
pub open spec fn digit_char(d: nat) -> char {
    if d == 0 {
        '0'
    } else if d == 1 {
        '1'
    } else if d == 2 {
        '2'
    } else if d == 3 {
        '3'
    } else if d == 4 {
        '4'
    } else if d == 5 {
        '5'
    } else if d == 6 {
        '6'
    } else if d == 7 {
        '7'
    } else if d == 8 {
        '8'
    } else {
        '9'
    }
}

/// The decimal rendering of an unsigned number, most significant digit
/// first.
pub open spec fn dec_digits(n: nat) -> Seq<char>
    decreases n,
{
    if n < 10 {
        seq![digit_char(n)]
    } else {
        dec_digits(n / 10).push(digit_char(n % 10))
    }
}

/// A compile-time error with its source location.
#[derive(Debug)]
pub struct PgError {
    pub msg: Option<String>,
    pub line: usize,
    pub start: usize,
    pub end: usize,
}

/// The rendered width of a token: literal or identifier byte length for
/// text tokens, a fixed length for keywords and operators.
pub open spec fn token_len(t: Type) -> nat {
    match t {
        Type::String(i) => (encode_utf8(i@).len() as usize) as nat,
        Type::Ident(i) => (encode_utf8(i@).len() as usize) as nat,
        Type::Double { text, bits } => (encode_utf8(text@).len() as usize) as nat,
        Type::Integer(i) => (encode_utf8(i@).len() as usize) as nat,
        Type::True => 4,
        Type::False => 5,
        Type::Match => 5,
        Type::Let => 3,
        Type::Std => 3,
        Type::For => 3,
        Type::Fn => 2,
        Type::DoubleColon => 2,
        _ => 1,
    }
}

/// Where a token's span ends: its column plus its width, clamped to the
/// machine range.
pub open spec fn span_end(col: nat, len: nat) -> nat {
    if col + len <= usize::MAX as nat {
        col + len
    } else {
        usize::MAX as nat
    }
}

impl PgError {
    /// The width of `t` as rendered in source text.
    fn token_width(t: &Type) -> (n: usize)
        ensures
            n as nat == token_len(*t),
    {
        match t {
            Type::String(i) => i.as_str().len(),
            Type::Ident(i) => i.as_str().len(),
            Type::Double { text, bits } => text.as_str().len(),
            Type::Integer(i) => i.as_str().len(),
            Type::True => 4,
            Type::False => 5,
            Type::Match => 5,
            Type::Let => 3,
            Type::Std => 3,
            Type::For => 3,
            Type::Fn => 2,
            Type::DoubleColon => 2,
            _ => 1,
        }
    }

    /// The diagnostic for `token`, carrying `msg`.
    pub fn with_msg(msg: String, token: &Token) -> (r: PgError)
        ensures
            r.msg == Some(msg),
            r.line == token.line,
            r.start == token.col,
            r.end as nat == span_end(token.col as nat, token_len(token.t)),
    {
        let mut e = Self::from_token(token);
        e.msg = Some(msg);
        e
    }

    /// The bare diagnostic for `token`, without a message.
    pub fn from_token(token: &Token) -> (r: PgError)
        ensures
            r.msg == None::<String>,
            r.line == token.line,
            r.start == token.col,
            r.end as nat == span_end(token.col as nat, token_len(token.t)),
    {
        let len = Self::token_width(&token.t);
        let end = if token.col <= usize::MAX - len {
            token.col + len
        } else {
            usize::MAX
        };
        PgError { msg: None, line: token.line, start: token.col, end }
    }

    /// The bare diagnostic for a syntax node: located at its token.
    pub fn from_node(node: &crate::ast::Node) -> (r: PgError)
        ensures
            r.msg == None::<String>,
            r.line == node.token.line,
            r.start == node.token.col,
            r.end as nat == span_end(node.token.col as nat, token_len(node.token.t)),
    {
        Self::from_token(&node.token)
    }

    /// The rendered diagnostic: `err: <message> at l:<line>:<start>-<end>`.
    pub fn render_string(&self) -> (r: String)
        ensures
            r@ == rendered(*self),
    {
        let mut s = String::from_str("err: ");
        match &self.msg {
            Some(m) => {
                s.append(m.as_str());
            },
            None => {},
        }
        s.append(" at l:");
        let line = render_usize(self.line);
        s.append(line.as_str());
        s.append(":");
        let start = render_usize(self.start);
        s.append(start.as_str());
        s.append("-");
        let end = render_usize(self.end);
        s.append(end.as_str());
        proof {
            assert(s@ =~= rendered(*self));
        }
        s
    }
}

/// The character sequence a diagnostic renders to.
pub open spec fn rendered(e: PgError) -> Seq<char> {
    let m = match e.msg {
        Some(m) => m@,
        None => Seq::<char>::empty(),
    };
    "err: "@ + m + " at l:"@ + dec_digits(e.line as nat) + ":"@ + dec_digits(e.start as nat)
        + "-"@ + dec_digits(e.end as nat)
}

fn digit_str(d: usize) -> (r: &'static str)
    requires
        d < 10,
    ensures
        r@ =~= seq![digit_char(d as nat)],
{
    let r: &'static str = match d {
        0 => "0",
        1 => "1",
        2 => "2",
        3 => "3",
        4 => "4",
        5 => "5",
        6 => "6",
        7 => "7",
        8 => "8",
        _ => "9",
    };
    proof {
        reveal_strlit("0");
        reveal_strlit("1");
        reveal_strlit("2");
        reveal_strlit("3");
        reveal_strlit("4");
        reveal_strlit("5");
        reveal_strlit("6");
        reveal_strlit("7");
        reveal_strlit("8");
        reveal_strlit("9");
    }
    r
}

/// Renders an unsigned number in decimal.
pub fn render_usize(n: usize) -> (s: String)
    ensures
        s@ == dec_digits(n as nat),
    decreases n,
{
    if n < 10 {
        let mut s = String::new();
        s.append(digit_str(n));
        proof {
            assert(s@ =~= dec_digits(n as nat));
        }
        s
    } else {
        let mut s = render_usize(n / 10);
        s.append(digit_str(n % 10));
        proof {
            assert(s@ =~= dec_digits(n as nat));
        }
        s
    }
}

} // verus!
