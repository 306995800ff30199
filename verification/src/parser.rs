//! Turns tokens into the nodes of a program.
use vstd::prelude::*;
use crate::lexer::{Token, TokenView};
use crate::syntax::{BinaryOp, FunctionDefinition, Keyword, LiteralKind, StructDefinition};

verus! {

/// A named constant and its value.
#[derive(Debug)]
pub struct Declaration {
    pub name: String,
    pub value: Expression,
}

/// An expression of the language.
#[derive(Debug)]
pub enum Expression {
    Call { args: Vec<Expression> },
    Literal { value: String, kind: LiteralKind },
    Symbol(String),
    BinaryOperation(Box<Expression>, BinaryOp, Box<Expression>),
}

/// A top-level item of a program.
#[derive(Debug)]
pub enum Node {
    Function(FunctionDefinition),
    ConstDecl(Declaration),
    StructDef(StructDefinition),
}

/// Reads the nodes of a program from its tokens.
pub struct Parser<'a> {
    tokens: &'a [Token],
    pos: usize,
    nodes: Vec<Node>,
}

/// Why tokens could not be parsed.
#[derive(Debug)]
pub enum ParseError {
    UnexpectedToken(Token),
    UnexpectedKeyword(Keyword),
}

/// Whether a token opens a constant or a function definition, whose parsing
/// the parser does not provide.
pub open spec fn opens_definition(t: TokenView) -> bool {
    t matches TokenView::Keyword(k) && (k == Keyword::Const || k == Keyword::Func)
}

impl<'a> Parser<'a> {
    /// The tokens that remain to be read.
    pub closed spec fn remaining(&self) -> Seq<Token> {
        self.tokens@.subrange(self.pos as int, self.tokens@.len() as int)
    }

    /// The nodes read so far.
    pub closed spec fn parsed(&self) -> Seq<Node> {
        self.nodes@
    }

    /// The parser's position lies within its tokens.
    pub closed spec fn wf(&self) -> bool {
        self.pos <= self.tokens.len()
    }

    /// Creates a parser at the first of `tokens`.
    pub fn new(tokens: &'a [Token]) -> (p: Parser<'a>)
        ensures
            p.wf(),
            p.remaining() == tokens@,
            p.parsed().len() == 0,
    {
        let p = Parser { tokens, pos: 0, nodes: Vec::new() };
        assert(p.remaining() =~= tokens@);
        p
    }

    /// Parses the remaining tokens. With none left it returns the nodes
    /// read so far. Otherwise the first token decides: one that is not a
    /// keyword is unexpected, and so is any keyword but `const` and `func`;
    /// those two open definitions, whose parsing is not provided, so the
    /// first token must not be one of them.
    pub fn parse(self) -> (r: Result<Vec<Node>, ParseError>)
        requires
            self.wf(),
            self.remaining().len() > 0 ==> !opens_definition(self.remaining()[0]@),
        ensures
            self.remaining().len() == 0 ==> r is Ok && r->Ok_0@ == self.parsed(),
            self.remaining().len() > 0 ==> match self.remaining()[0] {
                Token::Keyword(k) => r matches Err(ParseError::UnexpectedKeyword(j)) && j == k,
                t => r matches Err(ParseError::UnexpectedToken(u)) && u == t,
            },
    {
        if self.pos < self.tokens.len() {
            let token = &self.tokens[self.pos];
            assert(*token == self.remaining()[0]);
            match token {
                Token::Keyword(keyword) => Err(ParseError::UnexpectedKeyword(*keyword)),
                _ => Err(ParseError::UnexpectedToken(token.clone())),
            }
        } else {
            Ok(self.nodes)
        }
    }
}

} // verus!
