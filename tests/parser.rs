use textcmd::error::ParsingErr;
use textcmd::expr::parseExpression;
use textcmd::lexer::{parseToken, tokenizeExpression};
use textcmd::parser::{parseCommand, parseFile};
use textcmd::types::{BiOperation, Command, Content, Expression, Token, UnOperation};

#[test]
fn expression() {
    assert_eq!(
        parseExpression("1 + 2".to_string()),
        Ok(Expression::Binary(
            BiOperation::Add,
            Box::new(Expression::Value(1)),
            Box::new(Expression::Value(2))
        ))
    );

    assert_eq!(
        parseExpression("1 + 2 * 3".to_string()),
        Ok(Expression::Binary(
            BiOperation::Add,
            Box::new(Expression::Value(1)),
            Box::new(Expression::Binary(
                BiOperation::Multiply,
                Box::new(Expression::Value(2)),
                Box::new(Expression::Value(3))
            ))
        ))
    );
}

#[test]
fn tokenizer() {
    assert_eq!(
        tokenizeExpression("1+2".to_string()),
        Ok(vec![
            Token::Number(1),
            Token::Operator('+'),
            Token::Number(2)
        ])
    );
    assert_eq!(
        tokenizeExpression("1  +    2".to_string()),
        Ok(vec![
            Token::Number(1),
            Token::Operator('+'),
            Token::Number(2)
        ])
    );

    assert_eq!(
        tokenizeExpression("1*2 + (3 1 - test))".to_string()),
        Ok(vec![
            Token::Number(1),
            Token::Operator('*'),
            Token::Number(2),
            Token::Operator('+'),
            Token::Operator('('),
            Token::Number(3),
            Token::Number(1),
            Token::Operator('-'),
            Token::Variable("test".to_string()),
            Token::Operator(')'),
            Token::Operator(')'),
        ])
    );
}

#[test]
fn command() {
    assert_eq!(
        parseCommand("let a".to_string()),
        Err(ParsingErr::InvalidNumberOfArguments)
    );

    assert_eq!(
        parseCommand("another test whatever".to_string()),
        Err(ParsingErr::UnrecognizedCommand("another".to_string()))
    );

    assert_eq!(
        parseCommand("let it be...".to_string()),
        Err(ParsingErr::NumberParsing(
            "be...".parse::<i32>().expect_err("")
        ))
    );

    assert_eq!(
        parseCommand("subtract zero -1".to_string()),
        Ok(vec![Command::Subtract("zero".to_string(), -1)])
    );

    assert_eq!(
        parseCommand("subtract zero -1; let a 10".to_string()),
        Ok(vec![
            Command::Subtract("zero".to_string(), -1),
            Command::Let("a".to_string(), 10)
        ])
    );
}

#[test]
fn wholeText() {
    let wrongInput: String = String::from("$unclosed command");
    assert_eq!(parseFile(wrongInput), Err(ParsingErr::CommandLeftOpen));

    let goodInput: String = String::from(
        "This is text\n$let variable -1$More text\n$add variable 2$Variable is $write variable$",
    );
    assert_eq!(
        parseFile(goodInput),
        Ok(vec![
            Content::Text("This is text\n".to_string()),
            Content::Command(Command::Let("variable".to_string(), -1)),
            Content::Text("More text\n".to_string()),
            Content::Command(Command::Add("variable".to_string(), 2)),
            Content::Text("Variable is ".to_string()),
            Content::Command(Command::Write("variable".to_string()))
        ])
    );
}

fn num(v: i32) -> Box<Expression> {
    Box::new(Expression::Value(v))
}

#[test]
fn precedence_is_not_left_to_right() {
    assert_eq!(
        parseExpression("2 * 3 + 1".to_string()),
        Ok(Expression::Binary(
            BiOperation::Add,
            Box::new(Expression::Binary(BiOperation::Multiply, num(2), num(3))),
            num(1)
        ))
    );
    assert_ne!(
        parseExpression("1 + 2 * 3".to_string()),
        Ok(Expression::Binary(
            BiOperation::Multiply,
            Box::new(Expression::Binary(BiOperation::Add, num(1), num(2))),
            num(3)
        ))
    );
}

#[test]
fn associativity() {
    assert_eq!(
        parseExpression("8 - 3 - 2".to_string()),
        Ok(Expression::Binary(
            BiOperation::Subtract,
            Box::new(Expression::Binary(BiOperation::Subtract, num(8), num(3))),
            num(2)
        ))
    );
    assert_eq!(
        parseExpression("2 ^ 3 ^ 2".to_string()),
        Ok(Expression::Binary(
            BiOperation::Exponentiate,
            num(2),
            Box::new(Expression::Binary(BiOperation::Exponentiate, num(3), num(2)))
        ))
    );
}

#[test]
fn unary_and_binary_minus() {
    assert_eq!(
        tokenizeExpression("-1 + 2".to_string()),
        Ok(vec![
            Token::Operator('-'),
            Token::Number(1),
            Token::Operator('+'),
            Token::Number(2)
        ])
    );
    assert_eq!(
        parseExpression("-1 + 2".to_string()),
        Ok(Expression::Binary(
            BiOperation::Add,
            Box::new(Expression::Unary(UnOperation::Minus, num(1))),
            num(2)
        ))
    );
    assert_eq!(
        parseExpression("3 - 1".to_string()),
        Ok(Expression::Binary(BiOperation::Subtract, num(3), num(1)))
    );
    assert_eq!(
        parseExpression("-2 ^ 2".to_string()),
        Ok(Expression::Unary(
            UnOperation::Minus,
            Box::new(Expression::Binary(BiOperation::Exponentiate, num(2), num(2)))
        ))
    );
    assert_eq!(
        parseExpression("x * -y".to_string()),
        Ok(Expression::Binary(
            BiOperation::Multiply,
            Box::new(Expression::Variable("x".to_string())),
            Box::new(Expression::Unary(
                UnOperation::Minus,
                Box::new(Expression::Variable("y".to_string()))
            ))
        ))
    );
}

#[test]
fn malformed_expressions() {
    assert_eq!(
        parseExpression(String::new()),
        Err(ParsingErr::ExpressionParsing)
    );
    assert_eq!(
        parseExpression("1 +".to_string()),
        Err(ParsingErr::ExpressionParsing)
    );
    assert_eq!(
        parseExpression("1 + * 2".to_string()),
        Err(ParsingErr::ExpressionParsing)
    );
    assert_eq!(
        parseExpression("3 1".to_string()),
        Err(ParsingErr::ExpressionParsing)
    );
    assert_eq!(
        parseExpression("(1 + 2)".to_string()),
        Err(ParsingErr::ExpressionParsing)
    );
    assert_eq!(
        tokenizeExpression("1 & 2".to_string()),
        Err(ParsingErr::ExpressionParsing)
    );
    assert_eq!(
        tokenizeExpression("99999999999 + 1".to_string()),
        Err(ParsingErr::UnrecognizedExpression("99999999999".to_string()))
    );
}

#[test]
fn tokens_of_runs() {
    assert_eq!(parseToken("123".to_string()), Ok(Token::Number(123)));
    assert_eq!(
        parseToken("abc".to_string()),
        Ok(Token::Variable("abc".to_string()))
    );
    assert_eq!(
        parseToken("a1".to_string()),
        Err(ParsingErr::UnrecognizedExpression("a1".to_string()))
    );
    assert_eq!(
        tokenizeExpression("ab12cd\n3".to_string()),
        Ok(vec![
            Token::Variable("ab".to_string()),
            Token::Number(12),
            Token::Variable("cd".to_string()),
            Token::Number(3)
        ])
    );
}

#[test]
fn command_arity_and_statements() {
    assert_eq!(
        parseCommand("write".to_string()),
        Err(ParsingErr::InvalidNumberOfArguments)
    );
    assert_eq!(
        parseCommand("let a 1 2".to_string()),
        Err(ParsingErr::InvalidNumberOfArguments)
    );
    assert_eq!(
        parseCommand("let a 1;  ".to_string()),
        Err(ParsingErr::InvalidNumberOfArguments)
    );
    assert_eq!(
        parseCommand("set a +7\nadd b 3;;".to_string()),
        Ok(vec![
            Command::Assign("a".to_string(), 7),
            Command::Add("b".to_string(), 3)
        ])
    );
    assert_eq!(
        parseCommand("write a + b".to_string()),
        Ok(vec![Command::Write("a+b".to_string())])
    );
    assert_eq!(
        parseCommand("write a +".to_string()),
        Err(ParsingErr::ExpressionParsing)
    );
    assert_eq!(
        parseCommand("let x 99999999999".to_string()),
        Err(ParsingErr::NumberParsing(
            "99999999999".parse::<i32>().expect_err("")
        ))
    );
}

#[test]
fn document_segments() {
    assert_eq!(parseFile(String::new()), Ok(vec![]));
    assert_eq!(
        parseFile("plain".to_string()),
        Ok(vec![Content::Text("plain".to_string())])
    );
    assert_eq!(
        parseFile("$let a 1$".to_string()),
        Ok(vec![
            Content::Text(String::new()),
            Content::Command(Command::Let("a".to_string(), 1))
        ])
    );
    assert_eq!(
        parseFile("x$$y".to_string()),
        Ok(vec![
            Content::Text("x".to_string()),
            Content::Text("y".to_string())
        ])
    );
    assert_eq!(
        parseFile("é$let ü 1$ñ".to_string()),
        Ok(vec![
            Content::Text("é".to_string()),
            Content::Command(Command::Let("ü".to_string(), 1)),
            Content::Text("ñ".to_string())
        ])
    );
}

#[test]
fn sentinel_parity() {
    assert_eq!(
        parseFile("$let a 1$ and $write a".to_string()),
        Err(ParsingErr::CommandLeftOpen)
    );
    assert_eq!(
        parseFile("$bad$ text $let a 1".to_string()),
        Err(ParsingErr::UnrecognizedCommand("bad".to_string()))
    );
}
