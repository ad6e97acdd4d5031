use textcmd::engine::Storage;
use textcmd::error::RunErr;
use textcmd::interpreter::run;
use textcmd::parser::parseFile;
use textcmd::types::{Command, Content};

#[test]
fn functionality() {
    let mut storage = Storage::new();

    assert_eq!(
        run(
            &mut storage,
            vec![Content::Command(Command::Add(String::new(), 1))]
        ),
        Err(RunErr::TriedToModifyNonexistentVariable)
    );

    assert_eq!(
        run(
            &mut storage,
            vec![Content::Command(Command::Write(String::new()))]
        ),
        Err(RunErr::TriedToGetNonexistentVariable)
    );

    let commands: Vec<Content> = (vec![
        Command::Let("test".to_string(), 1),
        Command::Write("test".to_string()),
        Command::Add("test".to_string(), 1),
        Command::Write("test".to_string()),
        Command::Assign("test".to_string(), 10),
        Command::Write("test".to_string()),
        Command::Subtract("test".to_string(), 5),
        Command::Write("test".to_string()),
    ])
    .into_iter()
    .map(|c| Content::Command(c))
    .collect();

    assert_eq!(run(&mut storage, commands), Ok("12105".to_string()));

    storage.clear();
    storage.createVariable("test".to_string(), 1).expect("WHAT");

    assert_eq!(
        run(
            &mut storage,
            vec![Content::Command(Command::Let(String::from("test"), 1))]
        ),
        Err(RunErr::TriedToInitializeExistingVariable)
    );
}

fn run_text(text: &str) -> Result<String, RunErr> {
    let mut storage = Storage::new();
    let parsed = parseFile(text.to_string()).expect("document should parse");
    run(&mut storage, parsed)
}

#[test]
fn end_to_end_document() {
    let input = "This is text\n$let variable -1$More text\n$add variable 2$Variable is $write variable$";
    assert_eq!(
        run_text(input),
        Ok("This is text\nMore text\nVariable is 1".to_string())
    );
}

#[test]
fn command_series_in_one_region() {
    let input = "$let t 1; write t; add t 1; write t; set t 10; write t; subtract t 5; write t$";
    assert_eq!(run_text(input), Ok("12105".to_string()));
}

#[test]
fn text_without_sentinels_runs_to_itself() {
    let input = "no commands here, only text\nand a second line";
    assert_eq!(run_text(input), Ok(input.to_string()));
}

#[test]
fn store_create_twice_fails() {
    let mut storage = Storage::new();
    assert_eq!(storage.createVariable("x".to_string(), 1), Ok(()));
    assert_eq!(
        storage.createVariable("x".to_string(), 2),
        Err(RunErr::TriedToInitializeExistingVariable)
    );
    assert_eq!(storage.getValue("x".to_string()), Ok(1));
}

#[test]
fn store_missing_names_fail() {
    let mut storage = Storage::new();
    assert_eq!(
        storage.getValue("y".to_string()),
        Err(RunErr::TriedToGetNonexistentVariable)
    );
    assert_eq!(
        storage.modifyVariable("y".to_string(), |v| v + 1),
        Err(RunErr::TriedToModifyNonexistentVariable)
    );
    storage.createVariable("y".to_string(), 4).expect("fresh name");
    assert_eq!(storage.modifyVariable("y".to_string(), |v| v * 3), Ok(()));
    assert_eq!(storage.getValue("y".to_string()), Ok(12));
    storage.clear();
    assert_eq!(
        storage.getValue("y".to_string()),
        Err(RunErr::TriedToGetNonexistentVariable)
    );
}

#[test]
fn store_persists_across_runs() {
    let mut storage = Storage::new();
    let first = parseFile("$let a 4$".to_string()).expect("parses");
    assert_eq!(run(&mut storage, first), Ok(String::new()));
    let second = parseFile("a is $write a$".to_string()).expect("parses");
    assert_eq!(run(&mut storage, second), Ok("a is 4".to_string()));
}

#[test]
fn write_evaluates_expressions() {
    assert_eq!(run_text("$let a 5$$write a * a + 1$"), Ok("26".to_string()));
    assert_eq!(run_text("$write 2 ^ 10$"), Ok("1024".to_string()));
    assert_eq!(run_text("$write 2 ^ 3 ^ 2$"), Ok("512".to_string()));
    assert_eq!(run_text("$write 10 - 3 - 2$"), Ok("5".to_string()));
    assert_eq!(run_text("$write -2 ^ 2$"), Ok("-4".to_string()));
    assert_eq!(run_text("$write 7 * -2$"), Ok("-14".to_string()));
    assert_eq!(run_text("$write 0 ^ 0$"), Ok("1".to_string()));
    assert_eq!(run_text("$write -1 ^ 5$"), Ok("-1".to_string()));
}

#[test]
fn write_unknown_variable_in_expression() {
    assert_eq!(
        run_text("$write 1 + nothing$"),
        Err(RunErr::TriedToGetNonexistentVariable)
    );
}

#[test]
fn arithmetic_out_of_range() {
    assert_eq!(run_text("$write 2 ^ 31$"), Err(RunErr::InvalidArithmetic));
    assert_eq!(run_text("$write 2 ^ -1$"), Err(RunErr::InvalidArithmetic));
    assert_eq!(
        run_text("$let a 2147483647; add a 1$"),
        Err(RunErr::InvalidArithmetic)
    );
    assert_eq!(
        run_text("$let a -2147483648; subtract a 1$"),
        Err(RunErr::InvalidArithmetic)
    );
    assert_eq!(
        run_text("$write 65536 * 65536$"),
        Err(RunErr::InvalidArithmetic)
    );
    assert_eq!(run_text("$write -2 ^ 31$"), Err(RunErr::InvalidArithmetic));
}

#[test]
fn first_error_stops_the_run() {
    let mut storage = Storage::new();
    let parsed = parseFile("a$let a 1$b$add zz 1$c$let b 2$".to_string()).expect("parses");
    assert_eq!(
        run(&mut storage, parsed),
        Err(RunErr::TriedToModifyNonexistentVariable)
    );
    assert_eq!(storage.getValue("a".to_string()), Ok(1));
    assert_eq!(
        storage.getValue("b".to_string()),
        Err(RunErr::TriedToGetNonexistentVariable)
    );
}

#[test]
fn default_store_is_empty() {
    let mut storage = Storage::default();
    assert_eq!(
        storage.getValue("a".to_string()),
        Err(RunErr::TriedToGetNonexistentVariable)
    );
    let parsed = parseFile("$let a 3; add a 4; write a$".to_string()).expect("parses");
    assert_eq!(run(&mut storage, parsed), Ok("7".to_string()));
}
