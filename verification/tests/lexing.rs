use aurashell::environment::Environment;
use aurashell::tokenizer::{tokenize, Scope, Token};

fn scope() -> Scope {
    let mut vars = Environment::new();
    vars.set("HOME", "/home/ada");
    vars.set("GREETING", "hello  world; ls | wc");
    vars.set("été", "summer");
    Scope { vars, status: 3, pid: 4242 }
}

fn word(s: &str) -> Token {
    Token::Word(s.to_string())
}

fn words(line: &str) -> Vec<String> {
    tokenize(line, &scope())
        .into_iter()
        .map(|t| match t {
            Token::Word(w) => w,
            other => panic!("not a word: {:?}", other),
        })
        .collect()
}

#[test]
fn words_and_operators() {
    assert_eq!(
        tokenize("cat < in | grep x >> out 2>&1 && a || b ; c > d 2> e 2>> f &", &scope()),
        vec![
            word("cat"),
            Token::RedirIn,
            word("in"),
            Token::Pipe,
            word("grep"),
            word("x"),
            Token::RedirAppend,
            word("out"),
            Token::Redir2ToOut,
            Token::AndAnd,
            word("a"),
            Token::OrOr,
            word("b"),
            Token::Semi,
            word("c"),
            Token::RedirOut,
            word("d"),
            Token::Redir2Out,
            word("e"),
            Token::Redir2Append,
            word("f"),
            Token::Amp,
        ]
    );
}

#[test]
fn operators_need_no_space() {
    assert_eq!(
        tokenize("a|b||c&&d&e;f>g>>h<i", &scope()),
        vec![
            word("a"),
            Token::Pipe,
            word("b"),
            Token::OrOr,
            word("c"),
            Token::AndAnd,
            word("d"),
            Token::Amp,
            word("e"),
            Token::Semi,
            word("f"),
            Token::RedirOut,
            word("g"),
            Token::RedirAppend,
            word("h"),
            Token::RedirIn,
            word("i"),
        ]
    );
}

#[test]
fn a_two_before_an_arrow_ends_a_word() {
    assert_eq!(
        tokenize("x2>y", &scope()),
        vec![word("x"), Token::Redir2Out, word("y")]
    );
    assert_eq!(tokenize("x2 >y", &scope()), vec![word("x2"), Token::RedirOut, word("y")]);
    assert_eq!(tokenize("2>&2", &scope()), vec![Token::Redir2Out, Token::Amp, word("2")]);
}

#[test]
fn single_quotes_keep_everything() {
    assert_eq!(words("echo '$HOME | \"x\" \\ # y'"), ["echo", "$HOME | \"x\" \\ # y"]);
    assert_eq!(words("'unclosed $HOME"), ["unclosed $HOME"]);
    assert_eq!(words("''"), [""]);
}

#[test]
fn double_quotes_expand_and_escape() {
    assert_eq!(words("\"a $HOME ${HOME}!\""), ["a /home/ada /home/ada!"]);
    assert_eq!(words("\"\\\" \\\\ \\$HOME \\` \\n\""), ["\" \\ $HOME ` \\n"]);
    assert_eq!(words("\"unclosed"), ["unclosed"]);
}

#[test]
fn backslashes_escape_outside_quotes() {
    assert_eq!(words("a\\ b \\$HOME \\| \\#x"), ["a b", "$HOME", "|", "#x"]);
    assert_eq!(words("end\\"), ["end\\"]);
}

#[test]
fn variables_expand_to_one_word_each() {
    assert_eq!(words("$GREETING"), ["hello  world; ls | wc"]);
    assert_eq!(words("x${GREETING}y"), ["xhello  world; ls | wcy"]);
    assert_eq!(words("$HOME/bin $UNSET- ${UNSET}"), ["/home/ada/bin", "-", ""]);
    assert_eq!(words("${HOME"), ["/home/ada"]);
    assert_eq!(words("$été"), ["summer"]);
}

#[test]
fn status_and_pid_are_expanded() {
    assert_eq!(words("$? $$ \"$?\""), ["3", "4242", "3"]);
}

#[test]
fn a_lone_dollar_stays() {
    assert_eq!(words("$ $1 a$ $-x"), ["$", "$1", "a$", "$-x"]);
}

#[test]
fn comments_and_blanks_give_nothing() {
    assert!(tokenize("", &scope()).is_empty());
    assert!(tokenize("  \t\u{a0} ", &scope()).is_empty());
    assert!(tokenize("   # ls | wc", &scope()).is_empty());
    assert_eq!(words("ls # all"), ["ls"]);
    assert_eq!(words("a#b"), ["a"]);
    assert_eq!(words("'#' \"#\""), ["#", "#"]);
}

#[test]
fn digits_beyond_ascii_belong_to_names() {
    let mut s = scope();
    s.vars.set("x²", "squared");
    assert_eq!(tokenize("$x²", &s), vec![word("squared")]);
    assert_eq!(tokenize("$²", &s), vec![word("$²")]);
}
