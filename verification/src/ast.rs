use vstd::prelude::*;

use crate::lexer::{Span, Token};

verus! {

/// A whole program: its root module.
#[derive(Debug)]
pub struct Program {
    pub module: Module,
}

/// A module: the top levels of a file, or those of a `mod` block.
#[derive(Debug)]
pub struct Module {
    pub name: Option<Ident>,
    pub top_levels: Vec<TopLevel>,
    pub is_inline: bool,
    pub filepath: Option<String>,
    pub comment: Option<String>,
}

/// The top levels of a module, before it is named.
#[derive(Debug)]
pub struct ModuleInner {
    pub top_levels: Vec<TopLevel>,
}

#[derive(Debug)]
pub struct ModuleDecl(pub Module);

#[derive(Debug)]
pub struct TopLevel {
    pub ident: Ident,
    pub kind: TopLevelKind,
}

#[derive(Debug)]
pub enum TopLevelKind {
    InfixOperator(u8, String),
    MacroDecl(MacroDecl),
    MacroInvoc(MacroInvoc),
    FunctionDecl(FunctionDecl),
    FunctionSig(FunctionSig),
    StructDecl(StructDecl),
    TraitDecl(TraitDecl),
    EnumDecl(EnumDecl),
    Impl(Impl),
    Module(ModuleDecl),
    Extern(FunctionSig),
    NewType(ParseTypeInner, ParseType),
    Comment(String),
    Import(IdentifierPath),
    Export(IdentifierPath),
}

#[derive(Debug)]
pub struct StructDecl {
    pub name: ParseTypeInner,
    pub fields: Vec<StructDeclField>,
}

#[derive(Debug)]
pub struct StructDeclField {
    pub name: Ident,
    pub ty: ParseType,
    pub public: bool,
}

#[derive(Debug)]
pub struct EnumDecl {
    pub name: ParseTypeInner,
    pub variants: Vec<EnumVariant>,
}

#[derive(Debug)]
pub struct EnumVariant {
    pub name: ParseTypeInner,
    pub fields: NamedFieldsOrTypesList,
}

#[derive(Debug)]
pub enum NamedFieldsOrTypesList {
    NamedFields(Vec<StructDeclField>),
    TypesList(Vec<ParseType>),
}

/// A trait: its methods and signatures, each name once.
#[derive(Debug)]
pub struct TraitDecl {
    pub name: ParseTypeInner,
    pub methods: Vec<(Ident, FunctionDecl)>,
    pub signatures: Vec<(Ident, ParseType)>,
}

/// The methods of a type, each name once.
#[derive(Debug)]
pub struct Impl {
    pub name: ParseTypeInner,
    pub methods: Vec<(Ident, FunctionDecl)>,
}

/// A named type with its generic arguments, like `Map K, V`.
#[derive(Debug, PartialEq)]
pub struct ParseTypeInner {
    pub name: String,
    pub span: Span,
    pub generics: Vec<ParseType>,
}

#[derive(Debug, PartialEq)]
pub enum ParseType {
    Type(ParseTypeInner),
    /// The argument types then the return type.
    Function(Vec<ParseType>),
    Array(Box<ParseType>),
    Tuple(Vec<ParseType>),
    Unit,
}

#[derive(Debug, PartialEq)]
pub struct MacroDecl {
    pub name: Ident,
    pub entries: Vec<MacroEntry>,
}

#[derive(Debug, PartialEq)]
pub struct MacroEntry {
    pub defs: Vec<MacroFragment>,
    pub body: Vec<MacroFragment>,
}

#[derive(Debug, PartialEq)]
pub enum MacroFragment {
    Ident(Ident),
    Token(Token),
    Repetition(Vec<MacroFragment>),
}

#[derive(Debug, PartialEq)]
pub struct MacroInvoc {
    pub name: Ident,
    pub args: Vec<Token>,
}

#[derive(Debug, PartialEq)]
pub struct FunctionDecl {
    pub name: Ident,
    pub lambda: LambdaDecl,
    /// Written `@name = ...`: the method takes `self`.
    pub inject_self: bool,
}

#[derive(Debug, PartialEq)]
pub struct FunctionSig {
    pub name: Ident,
    pub sig: ParseType,
}

#[derive(Debug, PartialEq)]
pub struct LambdaDecl {
    pub parameters: Vec<Pattern>,
    pub body: Block,
    /// The tokens of a shorthand such as `(+2)`, when the lambda was one.
    pub shorthand_tokens: Option<Vec<Token>>,
}

#[derive(Debug, PartialEq)]
pub struct Block {
    pub statements: Vec<Statement>,
}

#[derive(Debug, PartialEq)]
pub enum Statement {
    Expression(Expression),
    Assignment(Assignment),
    Return(Option<Expression>),
    Continue(Option<Expression>),
    Break(Option<Expression>),
    EmptyLine,
}

#[derive(Debug, PartialEq)]
pub struct Assignment {
    pub lhs: AssignmentLHS,
    pub rhs: Expression,
}

#[derive(Debug, PartialEq)]
pub enum AssignmentLHS {
    Pattern(Pattern),
    Expression(UnaryExpr),
}

#[derive(Debug, PartialEq)]
pub enum Expression {
    BinopExpr(UnaryExpr, Operator, Box<Expression>),
    UnaryExpr(UnaryExpr),
}

#[derive(Debug, PartialEq)]
pub enum UnaryExpr {
    PrimaryExpr(PrimaryExpr),
    UnaryExpr(Operator, Box<UnaryExpr>),
}

#[derive(Debug, PartialEq)]
pub struct PrimaryExpr {
    pub operand: Operand,
    pub secondaries: Option<Vec<SecondaryExpr>>,
    pub type_annotation: Option<ParseType>,
}

#[derive(Debug, PartialEq)]
pub enum Operand {
    Literal(Literal),
    Ident(IdentifierPath),
    /// Ident prefixed with a @ are desugared to self.ident
    SelfIdent(Ident),
    Instance(Instance),
    LambdaDecl(LambdaDecl),
    If(Box<If>),
    Loop(Box<Loop>),
    Match(Box<Match>),
    Tuple(Tuple),
    Unsafe(Block),
    Expression(Box<Expression>),  // parenthesis
}

/// A struct or enum value: its path and its fields, each name once.
#[derive(Debug, PartialEq)]
pub struct Instance {
    pub name: IdentifierPath,
    pub fields: Vec<(Ident, Expression)>,
}

#[derive(Debug, PartialEq)]
pub struct Tuple {
    pub elements: Vec<Expression>,
}

#[derive(Debug, PartialEq)]
pub struct If {
    pub condition: Expression,
    pub then: Block,
    pub else_: Option<Else>,
}

#[derive(Debug, PartialEq)]
pub enum Else {
    If(Box<If>),
    Block(Block),
}

#[derive(Debug, PartialEq)]
pub enum Loop {
    While(Expression, Block),
    For(Ident, Expression, Block),
    Loop(Block),
}

#[derive(Debug, PartialEq)]
pub struct Match {
    pub expr: Expression,
    pub arms: Vec<MatchArm>,
}

#[derive(Debug, PartialEq)]
pub struct MatchArm {
    pub pattern: Pattern,
    pub condition: Option<Expression>,
    pub body: Block,
}

#[derive(Debug, PartialEq)]
pub struct Pattern {
    /// Written `name @ pattern`.
    pub binding: Option<Ident>,
    pub kind: PatternKind,
}

#[derive(Debug, PartialEq)]
pub enum PatternKind {
    Tuple(Vec<Pattern>),
    Nested(Box<Pattern>),
    Array(Vec<ArrayPattern>),
    Instance(InstancePattern),
    Ident(Ident),
    Wildcard,
    Literal(Literal),
}

#[derive(Debug, PartialEq)]
pub enum ArrayPattern {
    Rest(Ident),
    Pattern(Pattern),
}

#[derive(Debug, PartialEq)]
pub struct InstancePattern {
    pub name: IdentifierPath,
    pub args: FieldsPatternOrArgumentsPattern,
}

#[derive(Debug, PartialEq)]
pub enum FieldsPatternOrArgumentsPattern {
    Fields(Vec<FieldPattern>),
    Arguments(Vec<Pattern>),
}

#[derive(Debug, PartialEq)]
pub struct FieldPattern {
    pub name: Ident,
    pub pattern: Pattern,
}

#[derive(Debug, PartialEq)]
pub struct IdentifierPath {
    pub path: Vec<IdentOrType>,
}

#[derive(Debug, PartialEq)]
pub enum IdentOrType {
    Ident(Ident),
    Type(ParseType),
}

/// What follows a dot: a field name, or the index of a tuple element.
#[derive(Debug, PartialEq)]
pub enum IdentOrNumber {
    Ident(Ident),
    Number(u64),
}

#[derive(Debug, PartialEq)]
pub struct Literal {
    pub kind: LiteralKind,
    pub span: Span,
}

#[derive(Debug, PartialEq)]
pub enum LiteralKind {
    Bool(bool),
    Number(u64),
    /// The text of a number with a fractional part.
    Float(String),
    Array(Array),
    String(String),
    Char(char),
}

#[derive(Debug, PartialEq)]
pub struct Array {
    pub elements: Vec<Expression>,
}

#[derive(Debug, PartialEq)]
pub enum SecondaryExpr {
    Arguments(Vec<Argument>),
    Indice(Box<Expression>),  // Boxing here to keep the enum size low
    Dot(IdentOrNumber),
    DoubleDot(Ident),
    Interogation,
}

#[derive(Debug, PartialEq)]
pub struct Argument {
    pub arg: Expression,
}

/// A name and where it was written; two names are equal when they are
/// spelled the same.
#[derive(Debug, Default)]
pub struct Ident {
    pub name: String,
    pub span: Span,
}

impl Clone for Ident {
    fn clone(&self) -> (res: Self)
        ensures
            res == *self,
    {
        Ident { name: self.name.clone(), span: self.span.clone() }
    }
}

impl PartialEq for Ident {
    fn eq(&self, other: &Self) -> (res: bool) {
        self.name == other.name
    }
}

impl vstd::std_specs::cmp::PartialEqSpecImpl for Ident {
    open spec fn obeys_eq_spec() -> bool {
        true
    }

    open spec fn eq_spec(&self, other: &Ident) -> bool {
        self.name@ == other.name@
    }
}

#[derive(Debug)]
pub struct Number {
    pub value: String,
    pub span: Span,
}

impl PartialEq for Number {
    fn eq(&self, other: &Self) -> (res: bool) {
        self.value == other.value
    }
}

impl vstd::std_specs::cmp::PartialEqSpecImpl for Number {
    open spec fn obeys_eq_spec() -> bool {
        true
    }

    open spec fn eq_spec(&self, other: &Number) -> bool {
        self.value@ == other.value@
    }
}

#[derive(Debug)]
pub struct Operator {
    pub value: String,
    pub span: Span,
}

impl PartialEq for Operator {
    fn eq(&self, other: &Self) -> (res: bool) {
        self.value == other.value
    }
}

impl vstd::std_specs::cmp::PartialEqSpecImpl for Operator {
    open spec fn obeys_eq_spec() -> bool {
        true
    }

    open spec fn eq_spec(&self, other: &Operator) -> bool {
        self.value@ == other.value@
    }
}

} // verus!
