use noesh_mini::executor::{Dispatch, Execute};
use noesh_mini::lexer::lex;
use noesh_mini::parser::{Command, Parser, AST};

fn command(name: &str, args: &[&str]) -> Command {
    Command {
        name: name.to_string(),
        args: args.iter().map(|s| s.to_string()).collect(),
    }
}

fn names(cmds: &[Command]) -> Vec<String> {
    cmds.iter().map(|c| c.name.clone()).collect()
}

#[test]
fn shell_test() {
    let mut executor = Execute {};
    let ast = AST::Command(Command {
        name: "echo".into(),
        args: vec!["name".into()],
    });

    let mut cmd = executor.flatten(&ast);
    assert_eq!(cmd.len(), 1);
    assert_eq!(cmd[0].name, "echo");
    assert_eq!(cmd[0].args, vec!["name".to_string()]);
    assert_eq!(executor.run_commands(&mut cmd), Dispatch::Execute);
    assert_eq!(cmd.len(), 1);
}

#[test]
fn flatten_lists_commands_left_to_right() {
    let executor = Execute {};
    let ast = AST::Pipe(
        Box::new(AST::Command(command("echo", &["hello"]))),
        Box::new(AST::Pipe(
            Box::new(AST::Command(command("grep", &["h"]))),
            Box::new(AST::Command(command("wc", &["-l"]))),
        )),
    );
    let cmds = executor.flatten(&ast);
    assert_eq!(names(&cmds), vec!["echo", "grep", "wc"]);
    assert_eq!(cmds[2].args, vec!["-l".to_string()]);
}

#[test]
fn run_commands_by_count() {
    let mut executor = Execute {};
    assert_eq!(executor.run_commands(&mut vec![]), Dispatch::Nothing);
    assert_eq!(executor.run_commands(&mut vec![command("ls", &[])]), Dispatch::Execute);
    let mut two = vec![command("echo", &["hi"]), command("wc", &[])];
    assert_eq!(executor.run_commands(&mut two), Dispatch::PipeExecute);
    assert_eq!(names(&two), vec!["echo", "wc"]);
}

#[test]
fn convert_args_puts_the_name_first() {
    let (bin, args) = Execute::convert_args(&command("echo", &["hello", "world"]));
    assert_eq!(bin, "echo");
    assert_eq!(args, vec!["echo", "hello", "world"]);
    let (bin, args) = Execute::convert_args(&command("ls", &[]));
    assert_eq!(bin, "ls");
    assert_eq!(args, vec!["ls"]);
}

#[test]
fn flattening_a_parsed_line_gives_its_commands_in_order() {
    let executor = Execute {};
    let mut parser = Parser::new(lex("cat f | grep a b | sort | uniq").unwrap());
    let ast = parser.parser();
    let cmds = executor.flatten(&ast);
    assert_eq!(names(&cmds), vec!["cat", "grep", "sort", "uniq"]);
    assert_eq!(cmds[1].args, vec!["a".to_string(), "b".to_string()]);
}
