//! Tokens: the kind tag, the verbatim text and the source span.
use vstd::prelude::*;

verus! {

/// The closed set of token kinds.
#[derive(Debug, Clone, Copy, PartialEq, Eq, Structural)]
pub enum Kind {
    Int,
    Str,
    Id,
    If,
    Else,
    While,
    For,
    Fun,
    Add,
    Sub,
    Mul,
    Div,
    Mod,
    Lt,
    Lte,
    Gt,
    Gte,
    Assign,
    Eq,
    Not,
    NotEq,
    LPar,
    RPar,
    LBraces,
    RBraces,
    LBracket,
    RBracket,
    Semi,
    Comma,
}

/// A half-open range `start..end` of character offsets into the source.
#[derive(Debug, Clone, Copy, PartialEq, Eq, Structural)]
pub struct Span {
    pub start: usize,
    pub end: usize,
}

/// A token: its kind, its text as read (unescaped for strings) and where it
/// stands in the source.
#[derive(Debug)]
pub struct Token {
    pub kind: Kind,
    pub value: String,
    pub at: Span,
}

impl Clone for Token {
    fn clone(&self) -> (r: Token)
        ensures
            r == *self,
    {
        Token { kind: self.kind, value: self.value.clone(), at: self.at }
    }
}

impl Kind {
    /// The name of the kind, as error reports show it.
    pub open spec fn name_spec(self) -> Seq<char> {
        match self {
            Kind::Int => "Int"@,
            Kind::Str => "Str"@,
            Kind::Id => "Id"@,
            Kind::If => "If"@,
            Kind::Else => "Else"@,
            Kind::While => "While"@,
            Kind::For => "For"@,
            Kind::Fun => "Fun"@,
            Kind::Add => "Add"@,
            Kind::Sub => "Sub"@,
            Kind::Mul => "Mul"@,
            Kind::Div => "Div"@,
            Kind::Mod => "Mod"@,
            Kind::Lt => "Lt"@,
            Kind::Lte => "Lte"@,
            Kind::Gt => "Gt"@,
            Kind::Gte => "Gte"@,
            Kind::Assign => "Assign"@,
            Kind::Eq => "Eq"@,
            Kind::Not => "Not"@,
            Kind::NotEq => "NotEq"@,
            Kind::LPar => "LPar"@,
            Kind::RPar => "RPar"@,
            Kind::LBraces => "LBraces"@,
            Kind::RBraces => "RBraces"@,
            Kind::LBracket => "LBracket"@,
            Kind::RBracket => "RBracket"@,
            Kind::Semi => "Semi"@,
            Kind::Comma => "Comma"@,
        }
    }

    /// The name of the kind, as error reports show it.
    pub fn name(&self) -> (r: &'static str)
        ensures
            r@ == self.name_spec(),
    {
        let r = match self {
            Kind::Int => "Int",
            Kind::Str => "Str",
            Kind::Id => "Id",
            Kind::If => "If",
            Kind::Else => "Else",
            Kind::While => "While",
            Kind::For => "For",
            Kind::Fun => "Fun",
            Kind::Add => "Add",
            Kind::Sub => "Sub",
            Kind::Mul => "Mul",
            Kind::Div => "Div",
            Kind::Mod => "Mod",
            Kind::Lt => "Lt",
            Kind::Lte => "Lte",
            Kind::Gt => "Gt",
            Kind::Gte => "Gte",
            Kind::Assign => "Assign",
            Kind::Eq => "Eq",
            Kind::Not => "Not",
            Kind::NotEq => "NotEq",
            Kind::LPar => "LPar",
            Kind::RPar => "RPar",
            Kind::LBraces => "LBraces",
            Kind::RBraces => "RBraces",
            Kind::LBracket => "LBracket",
            Kind::RBracket => "RBracket",
            Kind::Semi => "Semi",
            Kind::Comma => "Comma",
        };
        proof {
            reveal_strlit("Int");
            reveal_strlit("Str");
            reveal_strlit("Id");
            reveal_strlit("If");
            reveal_strlit("Else");
            reveal_strlit("While");
            reveal_strlit("For");
            reveal_strlit("Fun");
            reveal_strlit("Add");
            reveal_strlit("Sub");
            reveal_strlit("Mul");
            reveal_strlit("Div");
            reveal_strlit("Mod");
            reveal_strlit("Lt");
            reveal_strlit("Lte");
            reveal_strlit("Gt");
            reveal_strlit("Gte");
            reveal_strlit("Assign");
            reveal_strlit("Eq");
            reveal_strlit("Not");
            reveal_strlit("NotEq");
            reveal_strlit("LPar");
            reveal_strlit("RPar");
            reveal_strlit("LBraces");
            reveal_strlit("RBraces");
            reveal_strlit("LBracket");
            reveal_strlit("RBracket");
            reveal_strlit("Semi");
            reveal_strlit("Comma");
        }
        r
    }
}

} // verus!
