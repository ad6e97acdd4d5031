use vstd::prelude::*;
use vstd::string::StringExecFns;

use crate::text::{decimal_of, render_i32};

verus! {

/// A binary arithmetic operator of the expression language.
#[derive(Debug, Clone, Copy, PartialEq, Eq, Structural)]
pub enum BiOperation {
    Add,
    Subtract,
    Multiply,
    Exponentiate,
}

/// A unary arithmetic operator of the expression language.
#[derive(Debug, Clone, Copy, PartialEq, Eq, Structural)]
pub enum UnOperation {
    Minus,
}

/// An arithmetic expression tree; each node owns its subtrees.
#[derive(Debug, PartialEq, Eq)]
pub enum Expression {
    Value(i32),
    Variable(String),
    Unary(UnOperation, Box<Expression>),
    Binary(BiOperation, Box<Expression>, Box<Expression>),
}

/// A statement of a command region.
#[derive(Debug, Clone, PartialEq, Eq)]
pub enum Command {
    Let(String, i32),
    Assign(String, i32),
    Add(String, i32),
    Subtract(String, i32),
    /// The operand text of a `write` statement: an expression, or a variable name.
    Write(String),
}

/// One item of a parsed document, in document order.
#[derive(Debug, Clone, PartialEq, Eq)]
pub enum Content {
    Text(String),
    Command(Command),
}

/// A lexical token of an expression.
#[derive(Debug, Clone, PartialEq, Eq)]
pub enum Token {
    Number(i32),
    Operator(char),
    Variable(String),
}

/// The mathematical value of an `Expression`.
pub enum ExprV {
    Value(i32),
    Variable(Seq<char>),
    Unary(UnOperation, Box<ExprV>),
    Binary(BiOperation, Box<ExprV>, Box<ExprV>),
}

/// The mathematical value of a `Command`.
pub enum CommandV {
    Let(Seq<char>, i32),
    Assign(Seq<char>, i32),
    Add(Seq<char>, i32),
    Subtract(Seq<char>, i32),
    Write(Seq<char>),
}

/// The mathematical value of a `Content` item.
pub enum ContentV {
    Text(Seq<char>),
    Command(CommandV),
}

/// The mathematical value of a `Token`.
pub enum TokenV {
    Number(i32),
    Operator(char),
    Variable(Seq<char>),
}

pub open spec fn expr_view(e: Expression) -> ExprV
    decreases e,
{
    match e {
        Expression::Value(v) => ExprV::Value(v),
        Expression::Variable(n) => ExprV::Variable(n@),
        Expression::Unary(op, x) => ExprV::Unary(op, Box::new(expr_view(*x))),
        Expression::Binary(op, l, r) => ExprV::Binary(
            op,
            Box::new(expr_view(*l)),
            Box::new(expr_view(*r)),
        ),
    }
}

impl View for Expression {
    type V = ExprV;

    open spec fn view(&self) -> ExprV {
        expr_view(*self)
    }
}

impl View for Command {
    type V = CommandV;

    open spec fn view(&self) -> CommandV {
        match self {
            Command::Let(n, v) => CommandV::Let(n@, *v),
            Command::Assign(n, v) => CommandV::Assign(n@, *v),
            Command::Add(n, v) => CommandV::Add(n@, *v),
            Command::Subtract(n, v) => CommandV::Subtract(n@, *v),
            Command::Write(t) => CommandV::Write(t@),
        }
    }
}

impl View for Content {
    type V = ContentV;

    open spec fn view(&self) -> ContentV {
        match self {
            Content::Text(t) => ContentV::Text(t@),
            Content::Command(c) => ContentV::Command(c@),
        }
    }
}

impl View for Token {
    type V = TokenV;

    open spec fn view(&self) -> TokenV {
        match self {
            Token::Number(v) => TokenV::Number(*v),
            Token::Operator(c) => TokenV::Operator(*c),
            Token::Variable(n) => TokenV::Variable(n@),
        }
    }
}

pub open spec fn contents_view(s: Seq<Content>) -> Seq<ContentV> {
    s.map_values(|c: Content| c@)
}

pub open spec fn commands_view(s: Seq<Command>) -> Seq<CommandV> {
    s.map_values(|c: Command| c@)
}

pub open spec fn tokens_view(s: Seq<Token>) -> Seq<TokenV> {
    s.map_values(|t: Token| t@)
}

pub open spec fn exprs_view(s: Seq<Expression>) -> Seq<ExprV> {
    s.map_values(|e: Expression| e@)
}

/// A one-line description of a command.
pub open spec fn command_description(c: CommandV) -> Seq<char> {
    "[Command] "@ + match c {
        CommandV::Let(n, v) => "Let "@ + n + " be "@ + decimal_of(v as int),
        CommandV::Assign(n, v) => "Set "@ + n + " to be "@ + decimal_of(v as int),
        CommandV::Add(n, v) => "Add "@ + decimal_of(v as int) + " to "@ + n,
        CommandV::Subtract(n, v) => "Subtract "@ + decimal_of(v as int) + " from "@ + n,
        CommandV::Write(t) => "Write the variable "@ + t,
    } + " |"@
}

/// The text of an item: a text span as it is, a command described.
pub open spec fn content_description(c: ContentV) -> Seq<char> {
    match c {
        ContentV::Text(t) => t,
        ContentV::Command(cmd) => command_description(cmd),
    }
}

impl Command {
    /// A one-line description of the command.
    pub fn describe(&self) -> (r: String)
        ensures
            r@ == command_description(self@),
    {
        let mut body: String;
        match self {
            Command::Let(var, v) => {
                body = String::from_str("Let ");
                body.append(var.as_str());
                body.append(" be ");
                body.append(render_i32(*v).as_str());
            },
            Command::Assign(var, v) => {
                body = String::from_str("Set ");
                body.append(var.as_str());
                body.append(" to be ");
                body.append(render_i32(*v).as_str());
            },
            Command::Add(var, v) => {
                body = String::from_str("Add ");
                body.append(render_i32(*v).as_str());
                body.append(" to ");
                body.append(var.as_str());
            },
            Command::Subtract(var, v) => {
                body = String::from_str("Subtract ");
                body.append(render_i32(*v).as_str());
                body.append(" from ");
                body.append(var.as_str());
            },
            Command::Write(var) => {
                body = String::from_str("Write the variable ");
                body.append(var.as_str());
            },
        }
        let mut r = String::from_str("[Command] ");
        r.append(body.as_str());
        r.append(" |");
        r
    }
}

impl Content {
    /// The text of the item: a text span as it is, a command described.
    pub fn describe(&self) -> (r: String)
        ensures
            r@ == content_description(self@),
    {
        match self {
            Content::Text(t) => t.clone(),
            Content::Command(c) => c.describe(),
        }
    }
}

} // verus!
