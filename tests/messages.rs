use textcmd::error::{Error, ParsingErr, RunErr};
use textcmd::types::{Command, Content};

#[test]
fn command_descriptions() {
    assert_eq!(
        Command::Let("x".to_string(), -3).describe(),
        "[Command] Let x be -3 |"
    );
    assert_eq!(
        Command::Assign("x".to_string(), 10).describe(),
        "[Command] Set x to be 10 |"
    );
    assert_eq!(
        Command::Add("x".to_string(), 2).describe(),
        "[Command] Add 2 to x |"
    );
    assert_eq!(
        Command::Subtract("x".to_string(), 5).describe(),
        "[Command] Subtract 5 from x |"
    );
    assert_eq!(
        Command::Write("x".to_string()).describe(),
        "[Command] Write the variable x |"
    );
    assert_eq!(Content::Text("plain".to_string()).describe(), "plain");
    assert_eq!(
        Content::Command(Command::Write("y".to_string())).describe(),
        "[Command] Write the variable y |"
    );
}

#[test]
fn error_messages() {
    assert_eq!(
        RunErr::TriedToGetNonexistentVariable.message(),
        "Tried to get a nonexistent variable"
    );
    assert_eq!(
        ParsingErr::UnrecognizedCommand("foo".to_string()).message(),
        "Unrecognized command: foo"
    );
    assert_eq!(
        ParsingErr::CommandLeftOpen.message(),
        "The command at the end of the file was left open"
    );
    let cause = "x".parse::<i32>().expect_err("not a number");
    assert_eq!(
        ParsingErr::NumberParsing(cause.clone()).message(),
        format!("Failed conversion to i32: '{}'", cause)
    );
    assert_eq!(
        Error::from(RunErr::TriedToModifyNonexistentVariable).message(),
        "[Runtime] Tried to modify a nonexistent variable"
    );
    assert_eq!(
        Error::from(ParsingErr::ExpressionParsing).message(),
        "[Parsing] There was an error with expression parsing!"
    );
    assert_eq!(Error::IO("gone".to_string()).message(), "[IO] gone");
    assert_eq!(
        Error::from(ParsingErr::InvalidNumberOfArguments),
        Error::Parse(ParsingErr::InvalidNumberOfArguments)
    );
}
