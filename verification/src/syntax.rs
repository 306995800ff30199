//! The vocabulary of the language: operators, literal kinds, keywords and
//! the definitions that the symbol tables refer to.
use vstd::prelude::*;
use crate::text::{str_chars, word1, word2, word_eq};

verus! {

/// A binary operator of the language.
#[derive(Clone, Copy, Debug, PartialEq, Eq, Structural)]
pub enum BinaryOp {
    Multiply,
    Divide,
    Modulo,
    Add,
    Subtract,
    ShiftL,
    ShiftR,
    BitAnd,
    Xor,
    BitOr,
    Equal,
    Unequal,
    LessThan,
    GreaterThan,
    LessOrEqual,
    GreaterOrEqual,
    And,
    Or,
}

/// The text that could not be read as a binary operator.
#[derive(Debug)]
pub struct OperatorConversionError(pub String);

impl Clone for OperatorConversionError {
    fn clone(&self) -> (r: Self)
        ensures
            r == *self,
    {
        OperatorConversionError(self.0.clone())
    }
}

/// The operator that a piece of text spells, if any.
pub open spec fn binary_op_of(s: Seq<char>) -> Option<BinaryOp> {
    if s == seq!['*'] {
        Some(BinaryOp::Multiply)
    } else if s == seq!['/'] {
        Some(BinaryOp::Divide)
    } else if s == seq!['%'] {
        Some(BinaryOp::Modulo)
    } else if s == seq!['+'] {
        Some(BinaryOp::Add)
    } else if s == seq!['-'] {
        Some(BinaryOp::Subtract)
    } else if s == seq!['<', '<'] {
        Some(BinaryOp::ShiftL)
    } else if s == seq!['>', '>'] {
        Some(BinaryOp::ShiftR)
    } else if s == seq!['&'] {
        Some(BinaryOp::BitAnd)
    } else if s == seq!['^'] {
        Some(BinaryOp::Xor)
    } else if s == seq!['|'] {
        Some(BinaryOp::BitOr)
    } else if s == seq!['=', '='] {
        Some(BinaryOp::Equal)
    } else if s == seq!['!', '='] {
        Some(BinaryOp::Unequal)
    } else if s == seq!['<'] {
        Some(BinaryOp::LessThan)
    } else if s == seq!['>'] {
        Some(BinaryOp::GreaterThan)
    } else if s == seq!['<', '='] {
        Some(BinaryOp::LessOrEqual)
    } else if s == seq!['>', '='] {
        Some(BinaryOp::GreaterOrEqual)
    } else if s == seq!['&', '&'] {
        Some(BinaryOp::And)
    } else if s == seq!['|', '|'] {
        Some(BinaryOp::Or)
    } else {
        None
    }
}

/// The operator spelled by the characters `v`, if any.
fn binary_op_from_chars(v: &Vec<char>) -> (r: Option<BinaryOp>)
    ensures
        r == binary_op_of(v@),
{
    if word1(v, '*') {
        Some(BinaryOp::Multiply)
    } else if word1(v, '/') {
        Some(BinaryOp::Divide)
    } else if word1(v, '%') {
        Some(BinaryOp::Modulo)
    } else if word1(v, '+') {
        Some(BinaryOp::Add)
    } else if word1(v, '-') {
        Some(BinaryOp::Subtract)
    } else if word2(v, '<', '<') {
        Some(BinaryOp::ShiftL)
    } else if word2(v, '>', '>') {
        Some(BinaryOp::ShiftR)
    } else if word1(v, '&') {
        Some(BinaryOp::BitAnd)
    } else if word1(v, '^') {
        Some(BinaryOp::Xor)
    } else if word1(v, '|') {
        Some(BinaryOp::BitOr)
    } else if word2(v, '=', '=') {
        Some(BinaryOp::Equal)
    } else if word2(v, '!', '=') {
        Some(BinaryOp::Unequal)
    } else if word1(v, '<') {
        Some(BinaryOp::LessThan)
    } else if word1(v, '>') {
        Some(BinaryOp::GreaterThan)
    } else if word2(v, '<', '=') {
        Some(BinaryOp::LessOrEqual)
    } else if word2(v, '>', '=') {
        Some(BinaryOp::GreaterOrEqual)
    } else if word2(v, '&', '&') {
        Some(BinaryOp::And)
    } else if word2(v, '|', '|') {
        Some(BinaryOp::Or)
    } else {
        None
    }
}

impl TryFrom<String> for BinaryOp {
    type Error = OperatorConversionError;

    fn try_from(value: String) -> (r: Result<Self, Self::Error>)
        ensures
            r == match binary_op_of(value@) {
                Some(op) => Ok(op),
                None => Err(OperatorConversionError(value)),
            },
    {
        let chars = str_chars(value.as_str());
        match binary_op_from_chars(&chars) {
            Some(op) => Ok(op),
            None => Err(OperatorConversionError(value)),
        }
    }
}

impl vstd::std_specs::convert::TryFromSpecImpl<String> for BinaryOp {
    open spec fn obeys_try_from_spec() -> bool {
        true
    }

    open spec fn try_from_spec(v: String) -> Result<Self, Self::Error> {
        match binary_op_of(v@) {
            Some(op) => Ok(op),
            None => Err(OperatorConversionError(v)),
        }
    }
}

impl TryFrom<&str> for BinaryOp {
    type Error = OperatorConversionError;

    fn try_from(value: &str) -> (r: Result<Self, Self::Error>)
        ensures
            match binary_op_of(value@) {
                Some(op) => r == Ok::<BinaryOp, OperatorConversionError>(op),
                None => r is Err && r->Err_0.0@ == value@,
            },
    {
        let owned = String::from_str(value);
        Self::try_from(owned)
    }
}

impl vstd::std_specs::convert::TryFromSpecImpl<&str> for BinaryOp {
    /// What is returned is stated on `try_from` itself, over the text's view.
    open spec fn obeys_try_from_spec() -> bool {
        false
    }

    open spec fn try_from_spec(v: &str) -> Result<Self, Self::Error> {
        arbitrary()
    }
}

/// The kind of a literal value.
#[derive(Clone, Copy, Debug, PartialEq, Eq, Structural)]
pub enum LiteralKind {
    Char,
    Integer,
    Float,
    String,
}

/// A keyword of the language.
#[derive(Clone, Copy, Debug, PartialEq, Eq, Structural)]
pub enum Keyword {
    Const,
    Continue,
    Break,
    For,
    Func,
    Else,
    If,
    Let,
    Match,
    Return,
    Struct,
}

/// The keyword that a word spells, if any. `const` is not among the words
/// that are read as keywords.
pub open spec fn keyword_of(s: Seq<char>) -> Option<Keyword> {
    if s == seq!['c', 'o', 'n', 't', 'i', 'n', 'u', 'e'] {
        Some(Keyword::Continue)
    } else if s == seq!['b', 'r', 'e', 'a', 'k'] {
        Some(Keyword::Break)
    } else if s == seq!['f', 'o', 'r'] {
        Some(Keyword::For)
    } else if s == seq!['f', 'u', 'n', 'c'] {
        Some(Keyword::Func)
    } else if s == seq!['e', 'l', 's', 'e'] {
        Some(Keyword::Else)
    } else if s == seq!['i', 'f'] {
        Some(Keyword::If)
    } else if s == seq!['l', 'e', 't'] {
        Some(Keyword::Let)
    } else if s == seq!['m', 'a', 't', 'c', 'h'] {
        Some(Keyword::Match)
    } else if s == seq!['r', 'e', 't', 'u', 'r', 'n'] {
        Some(Keyword::Return)
    } else if s == seq!['s', 't', 'r', 'u', 'c', 't'] {
        Some(Keyword::Struct)
    } else {
        None
    }
}

/// The keyword spelled by the characters `v`, if any.
pub(crate) fn keyword_from_chars(v: &Vec<char>) -> (r: Option<Keyword>)
    ensures
        r == keyword_of(v@),
{
    if word_eq(v, &['c', 'o', 'n', 't', 'i', 'n', 'u', 'e']) {
        Some(Keyword::Continue)
    } else if word_eq(v, &['b', 'r', 'e', 'a', 'k']) {
        Some(Keyword::Break)
    } else if word_eq(v, &['f', 'o', 'r']) {
        Some(Keyword::For)
    } else if word_eq(v, &['f', 'u', 'n', 'c']) {
        Some(Keyword::Func)
    } else if word_eq(v, &['e', 'l', 's', 'e']) {
        Some(Keyword::Else)
    } else if word2(v, 'i', 'f') {
        Some(Keyword::If)
    } else if word_eq(v, &['l', 'e', 't']) {
        Some(Keyword::Let)
    } else if word_eq(v, &['m', 'a', 't', 'c', 'h']) {
        Some(Keyword::Match)
    } else if word_eq(v, &['r', 'e', 't', 'u', 'r', 'n']) {
        Some(Keyword::Return)
    } else if word_eq(v, &['s', 't', 'r', 'u', 'c', 't']) {
        Some(Keyword::Struct)
    } else {
        None
    }
}

impl Keyword {
    /// Reads a keyword from its spelling.
    pub fn from_str(s: &str) -> (r: Result<Keyword, ()>)
        ensures
            r == match keyword_of(s@) {
                Some(k) => Ok(k),
                None => Err(()),
            },
    {
        let chars = str_chars(s);
        match keyword_from_chars(&chars) {
            Some(k) => Ok(k),
            None => Err(()),
        }
    }
}

impl core::str::FromStr for Keyword {
    type Err = ();

    fn from_str(s: &str) -> (r: Result<Self, Self::Err>)
        ensures
            r == match keyword_of(s@) {
                Some(k) => Ok(k),
                None => Err(()),
            },
    {
        Keyword::from_str(s)
    }
}

/// How an operator is written in source text.
pub open spec fn binary_op_spelling(op: BinaryOp) -> Seq<char> {
    match op {
        BinaryOp::Multiply => seq!['*'],
        BinaryOp::Divide => seq!['/'],
        BinaryOp::Modulo => seq!['%'],
        BinaryOp::Add => seq!['+'],
        BinaryOp::Subtract => seq!['-'],
        BinaryOp::ShiftL => seq!['<', '<'],
        BinaryOp::ShiftR => seq!['>', '>'],
        BinaryOp::BitAnd => seq!['&'],
        BinaryOp::Xor => seq!['^'],
        BinaryOp::BitOr => seq!['|'],
        BinaryOp::Equal => seq!['=', '='],
        BinaryOp::Unequal => seq!['!', '='],
        BinaryOp::LessThan => seq!['<'],
        BinaryOp::GreaterThan => seq!['>'],
        BinaryOp::LessOrEqual => seq!['<', '='],
        BinaryOp::GreaterOrEqual => seq!['>', '='],
        BinaryOp::And => seq!['&', '&'],
        BinaryOp::Or => seq!['|', '|'],
    }
}

/// Text is read as an operator exactly when it is that operator's spelling:
/// every other text, such as `=>` or `===`, is refused.
pub proof fn lemma_binary_op_exact_spelling(s: Seq<char>, op: BinaryOp)
    ensures
        binary_op_of(s) == Some(op) <==> s == binary_op_spelling(op),
{
    if binary_op_of(s) == Some(op) {
        assert(s == binary_op_spelling(op));
    }
    if s == binary_op_spelling(op) {
        let t = binary_op_spelling(op);
        assert(t.len() == 1 ==> t =~= seq![t[0]]);
        assert(t.len() == 2 ==> t =~= seq![t[0], t[1]]);
        assert(binary_op_of(s) == Some(op));
    }
}

/// How a keyword is written in source text.
pub open spec fn keyword_spelling(k: Keyword) -> Seq<char> {
    match k {
        Keyword::Const => seq!['c', 'o', 'n', 's', 't'],
        Keyword::Continue => seq!['c', 'o', 'n', 't', 'i', 'n', 'u', 'e'],
        Keyword::Break => seq!['b', 'r', 'e', 'a', 'k'],
        Keyword::For => seq!['f', 'o', 'r'],
        Keyword::Func => seq!['f', 'u', 'n', 'c'],
        Keyword::Else => seq!['e', 'l', 's', 'e'],
        Keyword::If => seq!['i', 'f'],
        Keyword::Let => seq!['l', 'e', 't'],
        Keyword::Match => seq!['m', 'a', 't', 'c', 'h'],
        Keyword::Return => seq!['r', 'e', 't', 'u', 'r', 'n'],
        Keyword::Struct => seq!['s', 't', 'r', 'u', 'c', 't'],
    }
}

/// A word is read as a keyword exactly when it is that keyword's spelling,
/// and `const` is never read as one: a longer or shorter word, such as
/// `function` or `fun`, stays a plain word.
pub proof fn lemma_keyword_exact_spelling(s: Seq<char>, k: Keyword)
    ensures
        keyword_of(s) == Some(k) <==> (k != Keyword::Const && s == keyword_spelling(k)),
{
    if keyword_of(s) == Some(k) {
        assert(k != Keyword::Const && s == keyword_spelling(k));
    }
    if k != Keyword::Const && s == keyword_spelling(k) {
        assert(keyword_of(s) == Some(k));
    }
}

/// The index of a symbol in a symbol table.
#[derive(Clone, Copy, Debug, PartialEq, Eq, Structural)]
pub struct IdentifierId(pub usize);

/// The index of a type in a type table.
#[derive(Clone, Copy, Debug, PartialEq, Eq, Structural)]
pub struct TypeId(pub usize);

/// A function: its name and the names of its parameters.
#[derive(Debug)]
pub struct FunctionDefinition {
    pub name: String,
    pub params: Vec<String>,
}

/// A struct type: its name and the names of its fields.
#[derive(Debug)]
pub struct StructDefinition {
    pub name: String,
    pub fields: Vec<String>,
}

impl Clone for StructDefinition {
    fn clone(&self) -> (r: Self)
        ensures
            r.name == self.name,
            r.fields@ == self.fields@,
    {
        let fields = self.fields.clone();
        proof {
            assert(fields@ =~= self.fields@);
        }
        StructDefinition { name: self.name.clone(), fields }
    }
}

/// A type of the language.
#[derive(Debug)]
pub enum Type {
    Struct(StructDefinition),
}

impl Type {
    /// The type's name, as the spec sees it.
    pub open spec fn name_view(&self) -> Seq<char> {
        match self {
            Type::Struct(s) => s.name@,
        }
    }

    /// The type's name.
    pub fn name(&self) -> (r: &str)
        ensures
            r@ == self.name_view(),
    {
        match self {
            Type::Struct(s) => s.name.as_str(),
        }
    }
}

} // verus!
