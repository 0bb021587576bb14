use aurashell::environment::Environment;
use aurashell::parser::{parse, Command, Connector, Pipeline, Script};
use aurashell::tokenizer::{tokenize, Scope};

fn parsed(line: &str) -> Result<Option<Script>, String> {
    parse(tokenize(line, &Scope { vars: Environment::new(), status: 0, pid: 1 }))
}

fn script(line: &str) -> Script {
    parsed(line).unwrap().unwrap()
}

#[test]
fn a_single_command() {
    let s = script("ls -la /etc");
    assert_eq!(s.pipelines.len(), 1);
    assert!(s.connectors.is_empty());
    assert!(!s.pipelines[0].background);
    assert_eq!(s.pipelines[0].commands[0].argv, ["ls", "-la", "/etc"]);
}

#[test]
fn pipes_of_any_depth() {
    let s = script("cat /etc/passwd | grep root | wc -l");
    assert_eq!(s.pipelines.len(), 1);
    assert_eq!(s.pipelines[0].commands.len(), 3);
    assert_eq!(s.pipelines[0].commands[2].argv, ["wc", "-l"]);
}

#[test]
fn connectors_stand_between_pipelines() {
    let s = script("a ; b && c || d");
    assert_eq!(s.pipelines.len(), 4);
    assert_eq!(s.connectors, [Connector::Semi, Connector::And, Connector::Or]);
}

#[test]
fn an_ampersand_puts_into_the_background() {
    let s = script("sleep 10 & echo x");
    assert!(s.pipelines[0].background);
    assert!(!s.pipelines[1].background);
    assert_eq!(s.connectors, [Connector::Semi]);
}

#[test]
fn redirections_are_recorded() {
    let s = script("cmd < in > out 2>> err arg");
    let c = &s.pipelines[0].commands[0];
    assert_eq!(c.argv, ["cmd", "arg"]);
    assert_eq!(c.infile.as_deref(), Some("in"));
    assert_eq!(c.outfile.as_deref(), Some("out"));
    assert!(!c.append);
    assert_eq!(c.errfile.as_deref(), Some("err"));
    assert!(c.err_append);
    assert!(!c.err_to_out);
}

#[test]
fn the_last_redirection_counts() {
    let s = script("cmd > a >> b 2> c 2>&1");
    let c = &s.pipelines[0].commands[0];
    assert_eq!(c.outfile.as_deref(), Some("b"));
    assert!(c.append);
    assert!(c.err_to_out);
    let s = script("cmd 2>&1 2> c");
    let c = &s.pipelines[0].commands[0];
    assert_eq!(c.errfile.as_deref(), Some("c"));
    assert!(!c.err_to_out);
}

#[test]
fn nothing_is_no_script() {
    assert!(parsed("").unwrap().is_none());
    assert!(parsed("# comment").unwrap().is_none());
}

#[test]
fn missing_file_names_are_errors() {
    for (line, op) in [("a <", "<"), ("a >", ">"), ("a >>", ">>"), ("a 2>", "2>"), ("a 2>>", "2>>")] {
        assert_eq!(
            parsed(line).unwrap_err(),
            format!("syntax error: expected filename after '{}'", op)
        );
    }
    assert_eq!(parsed("a > | b").unwrap_err(), "syntax error: expected filename after '>'");
}

#[test]
fn defaults_are_empty() {
    let c = Command::default();
    assert!(c.argv.is_empty() && c.infile.is_none() && !c.err_to_out);
    let p = Pipeline::default();
    assert!(p.commands.is_empty() && !p.background);
    let s = Script::default();
    assert!(s.pipelines.is_empty() && s.connectors.is_empty());
}

#[test]
fn misplaced_operators() {
    assert_eq!(parsed("| a").unwrap_err(), "syntax error near '|'");
    assert_eq!(parsed("a | | b").unwrap_err(), "syntax error near '|'");
    assert_eq!(parsed("> out").unwrap_err(), "syntax error: redirection without command");
    assert_eq!(parsed("a ; 2>&1").unwrap_err(), "syntax error: redirection without command");
}

#[test]
fn empty_statements_are_left_out() {
    let s = script("; ; a ; ; b ;");
    assert_eq!(s.pipelines.len(), 2);
    assert_eq!(s.connectors, [Connector::Semi, Connector::Semi]);
    assert!(parsed("> out ;").unwrap().is_none());
    assert_eq!(script("a |").pipelines[0].commands.len(), 1);
}

#[test]
fn a_written_script_is_read_back() {
    let line = "a b < in > out 2>> err | c 2>&1 && d >> more & e || f";
    let s = script(line);
    assert_eq!(s.connectors, [Connector::And, Connector::Semi, Connector::Or]);
    assert!(s.pipelines[1].background);
    assert_eq!(s.pipelines[1].commands[0].outfile.as_deref(), Some("more"));
    assert!(s.pipelines[1].commands[0].append);
    assert!(s.pipelines[0].commands[1].err_to_out);
    assert_eq!(s.pipelines[3].commands[0].argv, ["f"]);
}

#[test]
fn a_connector_behind_an_ampersand_joins() {
    for (line, connector) in [
        ("a & && b", Connector::And),
        ("a & || b", Connector::Or),
        ("a & ; b", Connector::Semi),
        ("a & b", Connector::Semi),
        ("a & & b", Connector::Semi),
        ("a & ; && b", Connector::Semi),
    ] {
        let s = script(line);
        assert_eq!(s.pipelines.len(), 2, "{}", line);
        assert!(s.pipelines[0].background && !s.pipelines[1].background, "{}", line);
        assert_eq!(s.connectors, [connector], "{}", line);
    }
    assert_eq!(script("a &").connectors, [Connector::Semi]);
    assert_eq!(script("& && a").connectors, []);
}
