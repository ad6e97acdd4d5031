use vstd::prelude::*;
use vstd::string::StringExecFns;

verus! {

/// A failure while splitting, tokenizing or parsing a document.
#[derive(Debug, PartialEq, Eq)]
pub enum ParsingErr {
    UnrecognizedExpression(String),
    ExpressionParsing,
    InvalidNumberOfArguments,
    CommandLeftOpen,
    UnrecognizedCommand(String),
    NumberParsing(std::num::ParseIntError),
}

/// A failure while running a parsed document against a store.
#[derive(Debug, Clone, Copy, PartialEq, Eq, Structural)]
pub enum RunErr {
    MissingInput,
    TriedToInitializeExistingVariable,
    TriedToModifyNonexistentVariable,
    TriedToGetNonexistentVariable,
    /// An arithmetic result outside `i32`, or a negative exponent.
    InvalidArithmetic,
}

/// Any failure of a whole run: reading the input, parsing it, or running it.
#[derive(Debug, PartialEq, Eq)]
pub enum Error {
    IO(String),
    Parse(ParsingErr),
    Runtime(RunErr),
}

/// The mathematical value of a `ParsingErr`; a number's parse failure is
/// abstracted to its variant.
pub enum ParsingErrV {
    UnrecognizedExpression(Seq<char>),
    ExpressionParsing,
    InvalidNumberOfArguments,
    CommandLeftOpen,
    UnrecognizedCommand(Seq<char>),
    NumberParsing,
}

impl View for ParsingErr {
    type V = ParsingErrV;

    open spec fn view(&self) -> ParsingErrV {
        match self {
            ParsingErr::UnrecognizedExpression(s) => ParsingErrV::UnrecognizedExpression(s@),
            ParsingErr::ExpressionParsing => ParsingErrV::ExpressionParsing,
            ParsingErr::InvalidNumberOfArguments => ParsingErrV::InvalidNumberOfArguments,
            ParsingErr::CommandLeftOpen => ParsingErrV::CommandLeftOpen,
            ParsingErr::UnrecognizedCommand(s) => ParsingErrV::UnrecognizedCommand(s@),
            ParsingErr::NumberParsing(_) => ParsingErrV::NumberParsing,
        }
    }
}

/// The message of a run error.
pub open spec fn run_message(e: RunErr) -> Seq<char> {
    match e {
        RunErr::MissingInput => "Input the name of the file as the first argument"@,
        RunErr::TriedToInitializeExistingVariable => "Tried to initialize already existing variable"@,
        RunErr::TriedToModifyNonexistentVariable => "Tried to modify a nonexistent variable"@,
        RunErr::TriedToGetNonexistentVariable => "Tried to get a nonexistent variable"@,
        RunErr::InvalidArithmetic => "Arithmetic result out of range, or a negative exponent"@,
    }
}

/// The message of a parsing error; `cause` is the description of why a
/// number did not parse, and matters only for `NumberParsing`.
pub open spec fn parsing_message(e: ParsingErrV, cause: Seq<char>) -> Seq<char> {
    match e {
        ParsingErrV::UnrecognizedExpression(x) => "Unrecognized expression: "@ + x,
        ParsingErrV::ExpressionParsing => "There was an error with expression parsing!"@,
        ParsingErrV::InvalidNumberOfArguments => "Invalid number of arguments provided to a command"@,
        ParsingErrV::CommandLeftOpen => "The command at the end of the file was left open"@,
        ParsingErrV::UnrecognizedCommand(c) => "Unrecognized command: "@ + c,
        ParsingErrV::NumberParsing => "Failed conversion to i32: '"@ + cause + "'"@,
    }
}

/// Relies on `<ParseIntError as Display>` (through `ToString::to_string`):
/// the description of why a number did not parse.
#[verifier::external_body]
fn cause_text(e: &std::num::ParseIntError) -> (r: String) {
    e.to_string()
}

impl RunErr {
    /// A sentence describing the error.
    pub fn message(&self) -> (r: String)
        ensures
            r@ == run_message(*self),
    {
        match self {
            RunErr::MissingInput => String::from_str("Input the name of the file as the first argument"),
            RunErr::TriedToInitializeExistingVariable => String::from_str(
                "Tried to initialize already existing variable",
            ),
            RunErr::TriedToModifyNonexistentVariable => String::from_str(
                "Tried to modify a nonexistent variable",
            ),
            RunErr::TriedToGetNonexistentVariable => String::from_str(
                "Tried to get a nonexistent variable",
            ),
            RunErr::InvalidArithmetic => String::from_str(
                "Arithmetic result out of range, or a negative exponent",
            ),
        }
    }
}

impl ParsingErr {
    /// A sentence describing the error.
    pub fn message(&self) -> (r: String)
        ensures
            !(self is NumberParsing) ==> r@ == parsing_message(self@, Seq::empty()),
            self is NumberParsing ==> exists|cause: Seq<char>| r@ == parsing_message(self@, cause),
    {
        match self {
            ParsingErr::UnrecognizedExpression(expr) => {
                let mut r = String::from_str("Unrecognized expression: ");
                r.append(expr.as_str());
                r
            },
            ParsingErr::ExpressionParsing => String::from_str(
                "There was an error with expression parsing!",
            ),
            ParsingErr::InvalidNumberOfArguments => String::from_str(
                "Invalid number of arguments provided to a command",
            ),
            ParsingErr::CommandLeftOpen => String::from_str(
                "The command at the end of the file was left open",
            ),
            ParsingErr::UnrecognizedCommand(command) => {
                let mut r = String::from_str("Unrecognized command: ");
                r.append(command.as_str());
                r
            },
            ParsingErr::NumberParsing(parse_int_error) => {
                let cause = cause_text(parse_int_error);
                let mut r = String::from_str("Failed conversion to i32: '");
                r.append(cause.as_str());
                r.append("'");
                assert(r@ == parsing_message(self@, cause@));
                r
            },
        }
    }
}

impl Error {
    /// A sentence describing the error, tagged with the stage that failed.
    pub fn message(&self) -> (r: String)
        ensures
            self matches Error::IO(s) ==> r@ == "[IO] "@ + s@,
            self matches Error::Runtime(e) ==> r@ == "[Runtime] "@ + run_message(*e),
            self matches Error::Parse(e) ==> exists|cause: Seq<char>|
                r@ == "[Parsing] "@ + parsing_message(e@, cause),
            self matches Error::Parse(e) ==> (!(e is NumberParsing) ==> r@ == "[Parsing] "@
                + parsing_message(e@, Seq::empty())),
    {
        match self {
            Error::IO(io_err) => {
                let mut r = String::from_str("[IO] ");
                r.append(io_err.as_str());
                r
            },
            Error::Parse(parsing_err) => {
                let text = parsing_err.message();
                let mut r = String::from_str("[Parsing] ");
                r.append(text.as_str());
                r
            },
            Error::Runtime(run_err) => {
                let text = run_err.message();
                let mut r = String::from_str("[Runtime] ");
                r.append(text.as_str());
                r
            },
        }
    }
}

impl From<RunErr> for Error {
    fn from(err: RunErr) -> (r: Error)
        ensures
            r == Error::Runtime(err),
    {
        Error::Runtime(err)
    }
}

impl vstd::std_specs::convert::FromSpecImpl<RunErr> for Error {
    open spec fn obeys_from_spec() -> bool {
        true
    }

    open spec fn from_spec(v: RunErr) -> Error {
        Error::Runtime(v)
    }
}

impl From<ParsingErr> for Error {
    fn from(err: ParsingErr) -> (r: Error)
        ensures
            r == Error::Parse(err),
    {
        Error::Parse(err)
    }
}

impl vstd::std_specs::convert::FromSpecImpl<ParsingErr> for Error {
    open spec fn obeys_from_spec() -> bool {
        true
    }

    open spec fn from_spec(v: ParsingErr) -> Error {
        Error::Parse(v)
    }
}

} // verus!
