//! Lexer: an input line becomes a list of tokens.
//!
//!   - white space separates words
//!   - operators: `|` `||` `<` `>` `>>` `&&` `&` `;` `2>` `2>>` `2>&1`
//!   - single quotes: literal, no expansion
//!   - double quotes: expansion, and backslash escapes for `"` `\` `$` and the backquote
//!   - a backslash outside quotes escapes the next character
//!   - `$VAR`, `${VAR}`, `$?` and `$$` are expanded
//!   - `#` starts a comment until the end of the line

use crate::environment::{value_of, Environment, Vars};
use crate::number::{decimal, push_decimal};
use crate::text::{
    alphabetic, alphanumeric, chars_of, find, find_char, is_alphabetic, is_alphanumeric, is_space,
    lemma_find, lemma_find_is, space, string_of,
};
use vstd::prelude::*;
use vstd::slice::slice_subrange;

verus! {

#[derive(Debug, Clone, PartialEq)]
pub enum Token {
    Word(String),
    Pipe,
    /// `||`: run the next pipeline only if the previous one failed
    OrOr,
    RedirIn,
    RedirOut,
    RedirAppend,
    /// `2>`: redirect stderr to a file (truncate)
    Redir2Out,
    /// `2>>`: redirect stderr to a file (append)
    Redir2Append,
    /// `2>&1`: merge stderr into stdout
    Redir2ToOut,
    /// `&&`: run the next pipeline only if the previous one succeeded
    AndAnd,
    Amp,
    Semi,
}

/// A token, with a word given by its characters.
pub enum Lexeme {
    Word(Seq<char>),
    Pipe,
    OrOr,
    RedirIn,
    RedirOut,
    RedirAppend,
    Redir2Out,
    Redir2Append,
    Redir2ToOut,
    AndAnd,
    Amp,
    Semi,
}

impl View for Token {
    type V = Lexeme;

    open spec fn view(&self) -> Lexeme {
        match *self {
            Token::Word(s) => Lexeme::Word(s@),
            Token::Pipe => Lexeme::Pipe,
            Token::OrOr => Lexeme::OrOr,
            Token::RedirIn => Lexeme::RedirIn,
            Token::RedirOut => Lexeme::RedirOut,
            Token::RedirAppend => Lexeme::RedirAppend,
            Token::Redir2Out => Lexeme::Redir2Out,
            Token::Redir2Append => Lexeme::Redir2Append,
            Token::Redir2ToOut => Lexeme::Redir2ToOut,
            Token::AndAnd => Lexeme::AndAnd,
            Token::Amp => Lexeme::Amp,
            Token::Semi => Lexeme::Semi,
        }
    }
}

/// The tokens of a list, with their words given by their characters.
pub open spec fn lexemes(tokens: Seq<Token>) -> Seq<Lexeme> {
    Seq::new(tokens.len(), |i: int| tokens[i]@)
}

/// What expansions refer to: the variables, the last exit status and the
/// process id of the shell.
pub struct Scope {
    pub vars: Environment,
    pub status: i32,
    pub pid: u32,
}

/// The model of a `Scope`.
pub struct ScopeView {
    pub vars: Vars,
    pub status: int,
    pub pid: int,
}

impl View for Scope {
    type V = ScopeView;

    open spec fn view(&self) -> ScopeView {
        ScopeView { vars: self.vars@, status: self.status as int, pid: self.pid as int }
    }
}

// ---------------------------------------------------------------------------
// What a line means
// ---------------------------------------------------------------------------

/// What is read from the front of a text: the characters that it contributes
/// to a word, and how many characters of the text it takes up.
pub struct Piece {
    pub text: Seq<char>,
    pub used: int,
}

/// The value that a name expands to: nothing if it is not set.
pub open spec fn expansion(name: Seq<char>, scope: ScopeView) -> Seq<char> {
    match value_of(scope.vars, name) {
        Some(v) => v,
        None => seq![],
    }
}

pub open spec fn is_name_char(c: char) -> bool {
    is_alphanumeric(c) || c == '_'
}

/// How many characters at the front of `s` can continue a name.
pub open spec fn name_length(s: Seq<char>) -> int
    decreases s.len(),
{
    if s.len() > 0 && is_name_char(s[0]) {
        1 + name_length(s.skip(1))
    } else {
        0
    }
}

/// The length of a quoted text, with the closing mark if there is one: `k` is
/// the position of the mark, or the length of the text.
pub open spec fn closed_at(k: int, len: int) -> int {
    if k < len {
        k + 1
    } else {
        k
    }
}

/// The expansion at the front of `s`, which starts with a dollar sign.
pub open spec fn dollar(s: Seq<char>, scope: ScopeView) -> Piece {
    if s.len() == 1 {
        Piece { text: seq!['$'], used: 1 }
    } else if s[1] == '?' {
        Piece { text: decimal(scope.status), used: 2 }
    } else if s[1] == '$' {
        Piece { text: decimal(scope.pid), used: 2 }
    } else if s[1] == '{' {
        let t = s.skip(2);
        let k = find(t, '}');
        Piece { text: expansion(t.take(k), scope), used: 2 + closed_at(k, t.len() as int) }
    } else if !is_alphabetic(s[1]) && s[1] != '_' {
        Piece { text: seq!['$'], used: 1 }
    } else {
        let k = name_length(s.skip(1));
        Piece { text: expansion(s.skip(1).take(k), scope), used: 1 + k }
    }
}

/// The characters that a backslash escapes inside double quotes.
pub open spec fn is_escapable(c: char) -> bool {
    c == '"' || c == '\\' || c == '$' || c == '`'
}

/// `p`, followed by `rest`.
pub open spec fn then_piece(p: Piece, rest: Piece) -> Piece {
    Piece { text: p.text + rest.text, used: p.used + rest.used }
}

/// What is inside double quotes: `s` starts behind the opening quote, and the
/// closing one is part of what is used.
pub open spec fn double_quoted(s: Seq<char>, scope: ScopeView) -> Piece
    decreases s.len(),
    via double_quoted_decreases
{
    if s.len() == 0 {
        Piece { text: seq![], used: 0 }
    } else if s[0] == '"' {
        Piece { text: seq![], used: 1 }
    } else if s[0] == '\\' && s.len() > 1 && is_escapable(s[1]) {
        then_piece(Piece { text: seq![s[1]], used: 2 }, double_quoted(s.skip(2), scope))
    } else if s[0] == '$' {
        then_piece(dollar(s, scope), double_quoted(s.skip(dollar(s, scope).used), scope))
    } else {
        then_piece(Piece { text: seq![s[0]], used: 1 }, double_quoted(s.skip(1), scope))
    }
}

#[via_fn]
proof fn double_quoted_decreases(s: Seq<char>, scope: ScopeView) {
    if s.len() > 0 && s[0] == '$' {
        lemma_dollar(s, scope);
    }
}

/// One unit of a word: a quoted text, an escaped character, an expansion or a
/// plain character.
pub open spec fn unit(s: Seq<char>, scope: ScopeView) -> Piece {
    if s[0] == '\'' {
        let t = s.skip(1);
        let k = find(t, '\'');
        Piece { text: t.take(k), used: 1 + closed_at(k, t.len() as int) }
    } else if s[0] == '"' {
        let p = double_quoted(s.skip(1), scope);
        Piece { text: p.text, used: 1 + p.used }
    } else if s[0] == '\\' && s.len() > 1 {
        Piece { text: seq![s[1]], used: 2 }
    } else if s[0] == '$' {
        dollar(s, scope)
    } else {
        Piece { text: seq![s[0]], used: 1 }
    }
}

/// The characters that end a word wherever they stand unquoted.
pub open spec fn is_break(c: char) -> bool {
    is_space(c) || c == '|' || c == '<' || c == '>' || c == '&' || c == ';' || c == '#'
}

/// Whether a word ends in front of `s`. A `2>` ends it only if the word has
/// characters already.
pub open spec fn ends_word(s: Seq<char>, begun: bool) -> bool {
    ||| s.len() == 0
    ||| is_break(s[0])
    ||| begun && s.len() > 1 && s[0] == '2' && s[1] == '>'
}

/// The rest of a word, of which `begun` says whether it has characters already.
pub open spec fn word(s: Seq<char>, begun: bool, scope: ScopeView) -> Piece
    decreases s.len(),
    via word_decreases
{
    if ends_word(s, begun) {
        Piece { text: seq![], used: 0 }
    } else {
        let u = unit(s, scope);
        then_piece(u, word(s.skip(u.used), begun || u.text.len() > 0, scope))
    }
}

#[via_fn]
proof fn word_decreases(s: Seq<char>, begun: bool, scope: ScopeView) {
    if s.len() > 0 {
        lemma_unit(s, scope);
    }
}

pub open spec fn at(s: Seq<char>, i: int, c: char) -> bool {
    i < s.len() && s[i] == c
}

/// The operator at the front of `s` and its length: the longest one that fits.
pub open spec fn operator(s: Seq<char>) -> Option<(Lexeme, int)> {
    if at(s, 0, '|') && at(s, 1, '|') {
        Some((Lexeme::OrOr, 2))
    } else if at(s, 0, '|') {
        Some((Lexeme::Pipe, 1))
    } else if at(s, 0, '<') {
        Some((Lexeme::RedirIn, 1))
    } else if at(s, 0, '>') && at(s, 1, '>') {
        Some((Lexeme::RedirAppend, 2))
    } else if at(s, 0, '>') {
        Some((Lexeme::RedirOut, 1))
    } else if at(s, 0, '2') && at(s, 1, '>') && at(s, 2, '&') && at(s, 3, '1') {
        Some((Lexeme::Redir2ToOut, 4))
    } else if at(s, 0, '2') && at(s, 1, '>') && at(s, 2, '>') {
        Some((Lexeme::Redir2Append, 3))
    } else if at(s, 0, '2') && at(s, 1, '>') {
        Some((Lexeme::Redir2Out, 2))
    } else if at(s, 0, '&') && at(s, 1, '&') {
        Some((Lexeme::AndAnd, 2))
    } else if at(s, 0, '&') {
        Some((Lexeme::Amp, 1))
    } else if at(s, 0, ';') {
        Some((Lexeme::Semi, 1))
    } else {
        None
    }
}

/// The tokens of a line.
pub open spec fn lex(s: Seq<char>, scope: ScopeView) -> Seq<Lexeme>
    decreases s.len(),
    via lex_decreases
{
    if s.len() == 0 || s[0] == '#' {
        seq![]
    } else if is_space(s[0]) {
        lex(s.skip(1), scope)
    } else {
        match operator(s) {
            Some((op, n)) => seq![op] + lex(s.skip(n), scope),
            None => {
                let w = word(s, false, scope);
                seq![Lexeme::Word(w.text)] + lex(s.skip(w.used), scope)
            },
        }
    }
}

#[via_fn]
proof fn lex_decreases(s: Seq<char>, scope: ScopeView) {
    if s.len() > 0 && !is_space(s[0]) && s[0] != '#' && operator(s) is None {
        lemma_word(s, false, scope);
    }
}

// ---------------------------------------------------------------------------
// Reading stays within the text and moves forward
// ---------------------------------------------------------------------------

proof fn lemma_name_length(s: Seq<char>)
    ensures
        0 <= name_length(s) <= s.len(),
        s.len() > 0 && is_name_char(s[0]) ==> name_length(s) >= 1,
    decreases s.len(),
{
    if s.len() > 0 && is_name_char(s[0]) {
        lemma_name_length(s.skip(1));
    }
}

proof fn lemma_name_length_is(s: Seq<char>, k: int)
    requires
        0 <= k <= s.len(),
        forall|j: int| 0 <= j < k ==> is_name_char(s[j]),
        k < s.len() ==> !is_name_char(s[k]),
    ensures
        name_length(s) == k,
    decreases k,
{
    if k > 0 {
        let t = s.skip(1);
        assert forall|j: int| 0 <= j < k - 1 implies is_name_char(t[j]) by {
            assert(t[j] == s[j + 1]);
        }
        assert(k - 1 < t.len() ==> t[k - 1] == s[k]);
        assert(is_name_char(s[0]));
        lemma_name_length_is(t, k - 1);
    }
}

proof fn lemma_dollar(s: Seq<char>, scope: ScopeView)
    requires
        s.len() > 0,
    ensures
        1 <= dollar(s, scope).used <= s.len(),
{
    if s.len() > 1 {
        lemma_name_length(s.skip(1));
        lemma_find(s.skip(2), '}');
    }
}

proof fn lemma_double_quoted(s: Seq<char>, scope: ScopeView)
    ensures
        0 <= double_quoted(s, scope).used <= s.len(),
    decreases s.len(),
{
    if s.len() == 0 || s[0] == '"' {
    } else if s[0] == '\\' && s.len() > 1 && is_escapable(s[1]) {
        lemma_double_quoted(s.skip(2), scope);
    } else if s[0] == '$' {
        lemma_dollar(s, scope);
        lemma_double_quoted(s.skip(dollar(s, scope).used), scope);
    } else {
        lemma_double_quoted(s.skip(1), scope);
    }
}

proof fn lemma_unit(s: Seq<char>, scope: ScopeView)
    requires
        s.len() > 0,
    ensures
        1 <= unit(s, scope).used <= s.len(),
{
    lemma_find(s.skip(1), '\'');
    lemma_double_quoted(s.skip(1), scope);
    lemma_dollar(s, scope);
}

proof fn lemma_word(s: Seq<char>, begun: bool, scope: ScopeView)
    ensures
        0 <= word(s, begun, scope).used <= s.len(),
        !ends_word(s, begun) ==> word(s, begun, scope).used >= 1,
    decreases s.len(),
{
    if !ends_word(s, begun) {
        let u = unit(s, scope);
        lemma_unit(s, scope);
        lemma_word(s.skip(u.used), begun || u.text.len() > 0, scope);
    }
}

// ---------------------------------------------------------------------------
// Reading
// ---------------------------------------------------------------------------

/// Appends what `name` expands to.
fn push_expansion(out: &mut String, name: &[char], scope: &Scope)
    ensures
        final(out)@ == old(out)@ + expansion(name@, scope@),
{
    let key: String = string_of(name);
    match scope.vars.get(key.as_str()) {
        Some(v) => out.append(v),
        None => {
            assert(out@ =~= old(out)@ + expansion(name@, scope@));
        },
    }
}

/// Appends the expansion at the front of `s`, which starts with a dollar sign,
/// and says how many characters it takes up.
fn expand_var(s: &[char], scope: &Scope, out: &mut String) -> (used: usize)
    requires
        s@.len() > 0,
    ensures
        used == dollar(s@, scope@).used,
        1 <= used <= s@.len(),
        final(out)@ == old(out)@ + dollar(s@, scope@).text,
{
    proof {
        lemma_dollar(s@, scope@);
    }
    if s.len() == 1 {
        out.push('$');
        assert(out@ =~= old(out)@ + seq!['$']);
        return 1;
    }
    let c: char = s[1];
    if c == '?' {
        push_decimal(out, scope.status as i64);
        return 2;
    }
    if c == '$' {
        push_decimal(out, scope.pid as i64);
        return 2;
    }
    if c == '{' {
        let t = slice_subrange(s, 2, s.len());
        assert(t@ =~= s@.skip(2));
        let k: usize = find_char(t, '}');
        let name = slice_subrange(t, 0, k);
        assert(name@ =~= t@.take(k as int));
        push_expansion(out, name, scope);
        return if k < t.len() { k + 3 } else { k + 2 };
    }
    if !alphabetic(c) && c != '_' {
        out.push('$');
        assert(out@ =~= old(out)@ + seq!['$']);
        return 1;
    }
    let t = slice_subrange(s, 1, s.len());
    assert(t@ =~= s@.skip(1));
    let mut k: usize = 0;
    while k < t.len() && (alphanumeric(t[k]) || t[k] == '_')
        invariant
            k <= t@.len(),
            forall|j: int| 0 <= j < k ==> is_name_char(t@[j]),
        decreases t@.len() - k,
    {
        k += 1;
    }
    proof {
        lemma_name_length_is(t@, k as int);
    }
    let name = slice_subrange(t, 0, k);
    assert(name@ =~= t@.take(k as int));
    push_expansion(out, name, scope);
    k + 1
}

/// Appends what stands inside double quotes, and says how many characters it
/// takes up together with the closing quote.
fn read_double_quoted(s: &[char], scope: &Scope, out: &mut String) -> (used: usize)
    ensures
        used == double_quoted(s@, scope@).used,
        used <= s@.len(),
        final(out)@ == old(out)@ + double_quoted(s@, scope@).text,
{
    let ghost whole = double_quoted(s@, scope@);
    let mut i: usize = 0;
    assert(s@.skip(0) =~= s@);
    while i < s.len() && s[i] != '"'
        invariant
            i <= s@.len(),
            whole == double_quoted(s@, scope@),
            whole.used == i + double_quoted(s@.skip(i as int), scope@).used,
            old(out)@ + whole.text == out@ + double_quoted(s@.skip(i as int), scope@).text,
        decreases s@.len() - i,
    {
        let ghost rest = s@.skip(i as int);
        let ghost before = out@;
        let t = slice_subrange(s, i, s.len());
        assert(t@ =~= rest);
        let ghost mut n: int = 1;
        if t[0] == '\\' && t.len() > 1 && (t[1] == '"' || t[1] == '\\' || t[1] == '$' || t[1] == '`') {
            out.push(t[1]);
            i += 2;
            proof {
                n = 2;
            }
            assert(out@ =~= before + seq![rest[1]]);
        } else if t[0] == '$' {
            let used: usize = expand_var(t, scope, out);
            i += used;
            proof {
                n = used as int;
            }
        } else {
            out.push(t[0]);
            i += 1;
            assert(out@ =~= before + seq![rest[0]]);
        }
        proof {
            assert(rest.skip(n) =~= s@.skip(i as int));
            let tail = double_quoted(rest.skip(n), scope@);
            let head = double_quoted(rest, scope@);
            assert(before + head.text =~= out@ + tail.text);
        }
    }
    assert(out@ =~= out@ + Seq::<char>::empty());
    if i < s.len() {
        i + 1
    } else {
        i
    }
}

/// Appends the unit at the front of `s`, and says how many characters it takes
/// up.
fn read_unit(s: &[char], scope: &Scope, out: &mut String) -> (used: usize)
    requires
        s@.len() > 0,
    ensures
        used == unit(s@, scope@).used,
        1 <= used <= s@.len(),
        final(out)@ == old(out)@ + unit(s@, scope@).text,
{
    proof {
        lemma_unit(s@, scope@);
    }
    let c: char = s[0];
    if c == '\'' {
        let t = slice_subrange(s, 1, s.len());
        assert(t@ =~= s@.skip(1));
        let k: usize = find_char(t, '\'');
        let inside = slice_subrange(t, 0, k);
        assert(inside@ =~= t@.take(k as int));
        out.append(string_of(inside).as_str());
        if k < t.len() {
            k + 2
        } else {
            k + 1
        }
    } else if c == '"' {
        let t = slice_subrange(s, 1, s.len());
        assert(t@ =~= s@.skip(1));
        read_double_quoted(t, scope, out) + 1
    } else if c == '\\' && s.len() > 1 {
        out.push(s[1]);
        assert(out@ =~= old(out)@ + seq![s@[1]]);
        2
    } else if c == '$' {
        expand_var(s, scope, out)
    } else {
        out.push(c);
        assert(out@ =~= old(out)@ + seq![s@[0]]);
        1
    }
}

/// The word at the front of `s`, and how many characters it takes up.
fn read_word(s: &[char], scope: &Scope) -> (r: (String, usize))
    ensures
        r.0@ == word(s@, false, scope@).text,
        r.1 == word(s@, false, scope@).used,
        r.1 <= s@.len(),
{
    let ghost whole = word(s@, false, scope@);
    let mut out = String::new();
    let mut i: usize = 0;
    assert(s@.skip(0) =~= s@);
    assert(whole.text =~= out@ + whole.text);
    loop
        invariant
            i <= s@.len(),
            whole == word(s@, false, scope@),
            whole.used == i + word(s@.skip(i as int), out@.len() > 0, scope@).used,
            whole.text == out@ + word(s@.skip(i as int), out@.len() > 0, scope@).text,
        ensures
            ends_word(s@.skip(i as int), out@.len() > 0),
        decreases s@.len() - i,
    {
        if i >= s.len() {
            break;
        }
        let ghost rest = s@.skip(i as int);
        let ghost before = out@;
        let t = slice_subrange(s, i, s.len());
        assert(t@ =~= rest);
        let c: char = t[0];
        if space(c) || c == '|' || c == '<' || c == '>' || c == '&' || c == ';' || c == '#' {
            break;
        }
        if c == '2' && t.len() > 1 && t[1] == '>' && !out.as_str().is_empty() {
            break;
        }
        let used: usize = read_unit(t, scope, &mut out);
        i += used;
        proof {
            assert(rest.skip(used as int) =~= s@.skip(i as int));
            let tail = word(rest.skip(used as int), out@.len() > 0, scope@);
            assert(before + (unit(rest, scope@).text + tail.text) =~= out@ + tail.text);
        }
    }
    assert(whole.text =~= out@);
    (out, i)
}

/// The operator at the front of `s` and its length.
fn read_operator(s: &[char]) -> (r: Option<(Token, usize)>)
    ensures
        match r {
            Some((t, n)) => operator(s@) == Some((t@, n as int)) && 1 <= n <= s@.len(),
            None => operator(s@) is None,
        },
{
    let n: usize = s.len();
    if n == 0 {
        return None;
    }
    let second: Option<char> = if n > 1 { Some(s[1]) } else { None };
    match s[0] {
        '|' => match second {
            Some('|') => Some((Token::OrOr, 2)),
            _ => Some((Token::Pipe, 1)),
        },
        '<' => Some((Token::RedirIn, 1)),
        '>' => match second {
            Some('>') => Some((Token::RedirAppend, 2)),
            _ => Some((Token::RedirOut, 1)),
        },
        '2' => match second {
            Some('>') => {
                if n > 3 && s[2] == '&' && s[3] == '1' {
                    Some((Token::Redir2ToOut, 4))
                } else if n > 2 && s[2] == '>' {
                    Some((Token::Redir2Append, 3))
                } else {
                    Some((Token::Redir2Out, 2))
                }
            },
            _ => None,
        },
        '&' => match second {
            Some('&') => Some((Token::AndAnd, 2)),
            _ => Some((Token::Amp, 1)),
        },
        ';' => Some((Token::Semi, 1)),
        _ => None,
    }
}

proof fn lemma_lexemes_push(tokens: Seq<Token>, t: Token)
    ensures
        lexemes(tokens.push(t)) == lexemes(tokens).push(t@),
{
    assert(lexemes(tokens.push(t)) =~= lexemes(tokens).push(t@));
}

/// Turns a line into tokens, with expansions taken from `scope`.
pub fn tokenize(line: &str, scope: &Scope) -> (tokens: Vec<Token>)
    ensures
        lexemes(tokens@) == lex(line@, scope@),
{
    let chars: Vec<char> = chars_of(line);
    let s = chars.as_slice();
    let mut tokens: Vec<Token> = Vec::new();
    let mut i: usize = 0;
    assert(s@.skip(0) =~= s@);
    assert(lex(s@, scope@) =~= lexemes(tokens@) + lex(s@, scope@));
    while i < s.len()
        invariant
            i <= s@.len(),
            s@ == line@,
            lex(line@, scope@) == lexemes(tokens@) + lex(s@.skip(i as int), scope@),
        decreases s@.len() - i,
    {
        let ghost rest = s@.skip(i as int);
        let ghost before = lexemes(tokens@);
        let t = slice_subrange(s, i, s.len());
        assert(t@ =~= rest);
        if t[0] == '#' {
            assert(lex(line@, scope@) =~= lexemes(tokens@));
            return tokens;
        }
        if space(t[0]) {
            i += 1;
            assert(rest.skip(1) =~= s@.skip(i as int));
            continue;
        }
        let ghost n: int;
        let token: Token;
        match read_operator(t) {
            Some((op, len)) => {
                token = op;
                i += len;
                proof {
                    n = len as int;
                }
            },
            None => {
                let (text, len) = read_word(t, scope);
                proof {
                    lemma_word(rest, false, scope@);
                }
                token = Token::Word(text);
                i += len;
                proof {
                    n = len as int;
                }
            },
        }
        proof {
            lemma_lexemes_push(tokens@, token);
            assert(rest.skip(n) =~= s@.skip(i as int));
            let tail = lex(rest.skip(n), scope@);
            assert(before + (seq![token@] + tail) =~= before.push(token@) + tail);
        }
        tokens.push(token);
    }
    assert(lex(line@, scope@) =~= lexemes(tokens@));
    tokens
}

// ---------------------------------------------------------------------------
// Laws
// ---------------------------------------------------------------------------

/// `mark`, then `text`, then `mark` again.
pub open spec fn enclosed(mark: char, text: Seq<char>) -> Seq<char> {
    seq![mark] + text + seq![mark]
}

/// A text in single quotes is one word, kept to the letter: nothing in it is
/// expanded, escaped or split.
pub proof fn single_quotes_are_literal(text: Seq<char>, scope: ScopeView)
    requires
        forall|i: int| 0 <= i < text.len() ==> text[i] != '\'',
    ensures
        lex(enclosed('\'', text), scope) == seq![Lexeme::Word(text)],
{
    let s = enclosed('\'', text);
    let t = s.skip(1);
    assert forall|j: int| 0 <= j < text.len() implies t[j] != '\'' by {
        assert(t[j] == text[j]);
    }
    lemma_find_is(t, '\'', text.len() as int);
    assert(t.take(text.len() as int) =~= text);
    lemma_single_unit(s, text, scope);
}

/// A line that is taken up by one unit is one word.
proof fn lemma_single_unit(s: Seq<char>, text: Seq<char>, scope: ScopeView)
    requires
        s.len() > 0,
        !is_break(s[0]),
        operator(s) is None,
        unit(s, scope).used == s.len(),
        unit(s, scope).text == text,
    ensures
        lex(s, scope) == seq![Lexeme::Word(text)],
{
    let rest = s.skip(s.len() as int);
    assert(rest.len() == 0);
    assert(word(rest, text.len() > 0, scope).text =~= Seq::<char>::empty());
    assert(word(s, false, scope).text =~= text);
    assert(word(s, false, scope).used == s.len());
    assert(lex(rest, scope) =~= Seq::<Lexeme>::empty());
    assert(lex(s, scope) =~= seq![Lexeme::Word(text)]);
}

/// Inside double quotes every character but the quote, the backslash and the
/// dollar sign stands for itself.
pub proof fn double_quotes_keep_plain_text(text: Seq<char>, scope: ScopeView)
    requires
        forall|i: int| 0 <= i < text.len() ==> text[i] != '"' && text[i] != '\\' && text[i] != '$',
    ensures
        lex(enclosed('"', text), scope) == seq![Lexeme::Word(text)],
{
    let s = enclosed('"', text);
    assert(s.skip(1) =~= text + seq!['"']);
    lemma_plain_in_quotes(text, scope);
    lemma_single_unit(s, text, scope);
}

proof fn lemma_plain_in_quotes(text: Seq<char>, scope: ScopeView)
    requires
        forall|i: int| 0 <= i < text.len() ==> text[i] != '"' && text[i] != '\\' && text[i] != '$',
    ensures
        double_quoted(text + seq!['"'], scope) == (Piece { text, used: (text.len() + 1) as int }),
    decreases text.len(),
{
    let s = text + seq!['"'];
    if text.len() == 0 {
        assert(double_quoted(s, scope).text =~= text);
    } else {
        assert forall|i: int| 0 <= i < text.skip(1).len() implies text.skip(1)[i] != '"'
            && text.skip(1)[i] != '\\' && text.skip(1)[i] != '$' by {
            assert(text.skip(1)[i] == text[i + 1]);
        }
        lemma_plain_in_quotes(text.skip(1), scope);
        assert(s.skip(1) =~= text.skip(1) + seq!['"']);
        assert(s[0] == text[0]);
        assert(seq![text[0]] + text.skip(1) =~= text);
    }
}

/// A backslash outside quotes makes the next character, whatever it is, stand
/// for itself.
pub proof fn backslash_escapes(c: char, scope: ScopeView)
    ensures
        lex(seq!['\\', c], scope) == seq![Lexeme::Word(seq![c])],
{
    lemma_single_unit(seq!['\\', c], seq![c], scope);
}

/// The names that can follow a dollar sign without braces.
pub open spec fn is_name(name: Seq<char>) -> bool {
    &&& name.len() > 0
    &&& is_alphabetic(name[0]) || name[0] == '_'
    &&& forall|i: int| 0 <= i < name.len() ==> is_name_char(#[trigger] name[i])
}

/// `$NAME` is the value of the variable, as one word that is neither split nor
/// read again, whatever the value holds; it is the same inside double quotes.
pub proof fn variables_expand_to_one_word(name: Seq<char>, scope: ScopeView)
    ensures
        is_name(name) ==> lex(seq!['$'] + name, scope) == seq![
            Lexeme::Word(expansion(name, scope)),
        ],
        is_name(name) ==> lex(enclosed('"', seq!['$'] + name), scope) == seq![
            Lexeme::Word(expansion(name, scope)),
        ],
{
    if is_name(name) {
        let v = expansion(name, scope);
        let s = seq!['$'] + name;
        assert(s.skip(1) =~= name);
        lemma_name_length_is(name, name.len() as int);
        assert(name.take(name.len() as int) =~= name);
        assert(s[1] == name[0]);
        assert(is_name_char(name[0]));
        lemma_single_unit(s, v, scope);

        let q = enclosed('"', s);
        let t = q.skip(1);
        assert(t =~= seq!['$'] + name + seq!['"']);
        let n = t.skip(1);
        assert(n =~= name + seq!['"']);
        assert forall|j: int| 0 <= j < name.len() implies is_name_char(n[j]) by {
            assert(n[j] == name[j]);
        }
        assert(!is_name_char(n[name.len() as int]));
        lemma_name_length_is(n, name.len() as int);
        assert(n.take(name.len() as int) =~= name);
        assert(t[1] == name[0]);
        let rest = t.skip((1 + name.len()) as int);
        assert(rest =~= seq!['"']);
        assert(dollar(t, scope) == (Piece { text: v, used: (1 + name.len()) as int }));
        assert(double_quoted(rest, scope).text =~= Seq::<char>::empty());
        assert(double_quoted(t, scope).text =~= v);
        lemma_single_unit(q, v, scope);
    }
}

/// `${NAME}` is the value of the variable as one word, for every name without
/// a closing brace.
pub proof fn braced_variables_expand_to_one_word(name: Seq<char>, scope: ScopeView)
    requires
        forall|i: int| 0 <= i < name.len() ==> name[i] != '}',
    ensures
        lex(seq!['$', '{'] + name + seq!['}'], scope) == seq![
            Lexeme::Word(expansion(name, scope)),
        ],
{
    let s = seq!['$', '{'] + name + seq!['}'];
    let t = s.skip(2);
    assert forall|j: int| 0 <= j < name.len() implies t[j] != '}' by {
        assert(t[j] == name[j]);
    }
    lemma_find_is(t, '}', name.len() as int);
    assert(t.take(name.len() as int) =~= name);
    lemma_single_unit(s, expansion(name, scope), scope);
}

/// `$?` is the last exit status and `$$` the process id, in decimal.
pub proof fn status_and_pid_expand(scope: ScopeView)
    ensures
        lex(seq!['$', '?'], scope) == seq![Lexeme::Word(decimal(scope.status))],
        lex(seq!['$', '$'], scope) == seq![Lexeme::Word(decimal(scope.pid))],
{
    lemma_single_unit(seq!['$', '?'], decimal(scope.status), scope);
    lemma_single_unit(seq!['$', '$'], decimal(scope.pid), scope);
}

/// The characters without a meaning of their own to the lexer.
pub open spec fn is_ordinary(c: char) -> bool {
    !is_break(c) && c != '\'' && c != '"' && c != '\\' && c != '$'
}

pub open spec fn all_ordinary(s: Seq<char>) -> bool {
    forall|i: int| 0 <= i < s.len() ==> is_ordinary(#[trigger] s[i])
}

/// Ordinary characters form a word that extends to the next white space,
/// operator or comment, and no further. What follows is read on its own.
pub proof fn words_end_at_breaks(w: Seq<char>, s: Seq<char>, scope: ScopeView)
    requires
        all_ordinary(w),
        w.len() > 0,
        s.len() == 0 || is_break(s[0]),
        !(w.last() == '2' && at(s, 0, '>')),
    ensures
        lex(w + s, scope) == seq![Lexeme::Word(w)] + lex(s, scope),
{
    let t = w + s;
    assert(is_ordinary(w[0]));
    assert(t[0] == w[0]);
    if w.len() > 1 {
        assert(is_ordinary(w[1]));
    }
    assert(operator(t) is None);
    lemma_ordinary_word(w, s, false, scope);
    assert(t.skip(w.len() as int) =~= s);
}

/// A `2` in front of a `>` belongs to the redirection, also right behind a word.
pub proof fn words_end_at_stderr_redirections(w: Seq<char>, s: Seq<char>, scope: ScopeView)
    requires
        all_ordinary(w),
        w.len() > 0,
    ensures
        lex(w + (seq!['2', '>'] + s), scope) == seq![Lexeme::Word(w)] + lex(
            seq!['2', '>'] + s,
            scope,
        ),
{
    let r = seq!['2', '>'] + s;
    let t = w + r;
    assert(is_ordinary(w[0]));
    assert(t[0] == w[0]);
    if w.len() > 1 {
        assert(is_ordinary(w[1]));
    }
    assert(operator(t) is None);
    lemma_ordinary_word(w, r, false, scope);
    assert(t.skip(w.len() as int) =~= r);
}

proof fn lemma_ordinary_word(w: Seq<char>, s: Seq<char>, begun: bool, scope: ScopeView)
    requires
        all_ordinary(w),
        ends_word(s, begun || w.len() > 0),
        !(w.len() > 0 && w.last() == '2' && at(s, 0, '>') && (begun || w.len() > 1)),
        begun || w.len() > 0,
    ensures
        word(w + s, begun, scope) == (Piece { text: w, used: w.len() as int }),
    decreases w.len(),
{
    let t = w + s;
    if w.len() == 0 {
        assert(t =~= s);
        assert(word(t, begun, scope).text =~= w);
    } else {
        let v = w.skip(1);
        assert forall|i: int| 0 <= i < v.len() implies is_ordinary(#[trigger] v[i]) by {
            assert(v[i] == w[i + 1]);
        }
        assert(is_ordinary(w[0]));
        assert(t[0] == w[0]);
        if w.len() > 1 {
            assert(is_ordinary(w[1]));
            assert(t[1] == w[1]);
        }
        assert(t.skip(1) =~= v + s);
        lemma_ordinary_word(v, s, true, scope);
        assert(seq![w[0]] + v =~= w);
    }
}

/// White space in front of a line changes nothing.
pub proof fn leading_space_is_ignored(blank: Seq<char>, s: Seq<char>, scope: ScopeView)
    requires
        forall|i: int| 0 <= i < blank.len() ==> is_space(#[trigger] blank[i]),
    ensures
        lex(blank + s, scope) == lex(s, scope),
    decreases blank.len(),
{
    if blank.len() == 0 {
        assert(blank + s =~= s);
    } else {
        assert(is_space(blank[0]));
        assert((blank + s).skip(1) =~= blank.skip(1) + s);
        assert forall|i: int| 0 <= i < blank.skip(1).len() implies is_space(
            #[trigger] blank.skip(1)[i],
        ) by {
            assert(blank.skip(1)[i] == blank[i + 1]);
        }
        leading_space_is_ignored(blank.skip(1), s, scope);
    }
}

/// Outside quotes and escapes, everything from a `#` on is ignored.
pub proof fn comments_are_ignored(s: Seq<char>, comment: Seq<char>, scope: ScopeView)
    requires
        forall|i: int|
            0 <= i < s.len() ==> is_ordinary(#[trigger] s[i]) || is_break(s[i]),
    ensures
        lex(s + seq!['#'] + comment, scope) == lex(s, scope),
    decreases s.len(),
{
    let t = s + seq!['#'] + comment;
    if s.len() == 0 {
        assert(t[0] == '#');
        assert(lex(t, scope) =~= lex(s, scope));
    } else {
        assert(t[0] == s[0]);
        assert forall|i: int, c: char| 0 <= i <= s.len() && c != '#' implies at(t, i, c) == at(
            s,
            i,
            c,
        ) by {}
        assert(operator(t) == operator(s));
        let n: int = if s[0] == '#' || is_space(s[0]) {
            1
        } else {
            match operator(s) {
                Some((_, n)) => n,
                None => {
                    lemma_word_before_comment(s, comment, false, scope);
                    lemma_word(s, false, scope);
                    word(s, false, scope).used
                },
            }
        };
        let rest = s.skip(n);
        assert forall|i: int| 0 <= i < rest.len() implies is_ordinary(#[trigger] rest[i])
            || is_break(rest[i]) by {
            assert(rest[i] == s[i + n]);
        }
        assert(t.skip(n) =~= rest + seq!['#'] + comment);
        comments_are_ignored(rest, comment, scope);
    }
}

proof fn lemma_word_before_comment(
    s: Seq<char>,
    comment: Seq<char>,
    begun: bool,
    scope: ScopeView,
)
    requires
        forall|i: int|
            0 <= i < s.len() ==> is_ordinary(#[trigger] s[i]) || is_break(s[i]),
    ensures
        word(s + seq!['#'] + comment, begun, scope) == word(s, begun, scope),
    decreases s.len(),
{
    let t = s + seq!['#'] + comment;
    if s.len() == 0 {
        assert(t[0] == '#');
    } else {
        assert(t[0] == s[0]);
        assert(is_ordinary(s[0]) || is_break(s[0]));
        if s.len() > 1 {
            assert(t[1] == s[1]);
        } else {
            assert(t[1] == '#');
        }
        if !ends_word(s, begun) {
            let rest = s.skip(1);
            assert forall|i: int| 0 <= i < rest.len() implies is_ordinary(#[trigger] rest[i])
                || is_break(rest[i]) by {
                assert(rest[i] == s[i + 1]);
            }
            assert(t.skip(1) =~= rest + seq!['#'] + comment);
            lemma_word_before_comment(rest, comment, true, scope);
        }
    }
}

// ---------------------------------------------------------------------------
// Lines that are written out
// ---------------------------------------------------------------------------

/// Something that starts with a dollar sign.
pub enum Expansion {
    /// `$NAME`
    Name(Seq<char>),
    /// `${NAME}`
    Braced(Seq<char>),
    /// `${NAME` at the end of a line
    OpenBraced(Seq<char>),
    /// `$?`
    Status,
    /// `$$`
    Pid,
    /// a dollar sign that stands for itself
    Dollar,
}

impl Expansion {
    pub open spec fn text(self) -> Seq<char> {
        match self {
            Expansion::Name(name) => seq!['$'] + name,
            Expansion::Braced(name) => seq!['$', '{'] + name + seq!['}'],
            Expansion::OpenBraced(name) => seq!['$', '{'] + name,
            Expansion::Status => seq!['$', '?'],
            Expansion::Pid => seq!['$', '$'],
            Expansion::Dollar => seq!['$'],
        }
    }

    pub open spec fn value(self, scope: ScopeView) -> Seq<char> {
        match self {
            Expansion::Name(name) => value_or_nothing(scope.vars, name),
            Expansion::Braced(name) => value_or_nothing(scope.vars, name),
            Expansion::OpenBraced(name) => value_or_nothing(scope.vars, name),
            Expansion::Status => decimal(scope.status),
            Expansion::Pid => decimal(scope.pid),
            Expansion::Dollar => seq!['$'],
        }
    }

    /// Whether this can be written in front of `after`.
    pub open spec fn fits(self, after: Seq<char>) -> bool {
        match self {
            Expansion::Name(name) => {
                &&& name.len() > 0
                &&& is_alphabetic(name[0]) || name[0] == '_'
                &&& forall|i: int|
                    0 <= i < name.len() ==> is_alphanumeric(#[trigger] name[i]) || name[i] == '_'
                &&& after.len() > 0 ==> !is_alphanumeric(after[0]) && after[0] != '_'
            },
            Expansion::Braced(name) => !name.contains('}'),
            Expansion::OpenBraced(name) => !name.contains('}') && after.len() == 0,
            Expansion::Status => true,
            Expansion::Pid => true,
            Expansion::Dollar => after.len() > 0 ==> !is_alphabetic(after[0]) && after[0] != '_'
                && after[0] != '?' && after[0] != '$' && after[0] != '{',
        }
    }
}

/// The value of a variable; nothing if it is not set.
pub open spec fn value_or_nothing(vars: Vars, name: Seq<char>) -> Seq<char> {
    match value_of(vars, name) {
        Some(v) => v,
        None => seq![],
    }
}

/// An item of a text in double quotes.
pub enum Item {
    Plain(char),
    /// a backslash in front of a character that it escapes
    Escaped(char),
    /// a backslash in front of a character that it does not escape
    Kept(char),
    /// a backslash at the end of a line
    LastBackslash,
    Expanded(Expansion),
}

impl Item {
    pub open spec fn text(self) -> Seq<char> {
        match self {
            Item::Plain(c) => seq![c],
            Item::Escaped(c) => seq!['\\', c],
            Item::Kept(c) => seq!['\\', c],
            Item::LastBackslash => seq!['\\'],
            Item::Expanded(x) => x.text(),
        }
    }

    pub open spec fn value(self, scope: ScopeView) -> Seq<char> {
        match self {
            Item::Plain(c) => seq![c],
            Item::Escaped(c) => seq![c],
            Item::Kept(c) => seq!['\\', c],
            Item::LastBackslash => seq!['\\'],
            Item::Expanded(x) => x.value(scope),
        }
    }

    /// Whether this can be written in front of `after`.
    pub open spec fn fits(self, after: Seq<char>) -> bool {
        match self {
            Item::Plain(c) => c != '"' && c != '\\' && c != '$',
            Item::Escaped(c) => c == '"' || c == '\\' || c == '$' || c == '`',
            Item::Kept(c) => c != '"' && c != '\\' && c != '$' && c != '`',
            Item::LastBackslash => after.len() == 0,
            Item::Expanded(x) => x.fits(after),
        }
    }
}

/// Items side by side.
pub open spec fn items_text(items: Seq<Item>) -> Seq<char>
    decreases items.len(),
{
    if items.len() == 0 {
        seq![]
    } else {
        items[0].text() + items_text(items.skip(1))
    }
}

/// What items side by side stand for.
pub open spec fn items_value(items: Seq<Item>, scope: ScopeView) -> Seq<char>
    decreases items.len(),
{
    if items.len() == 0 {
        seq![]
    } else {
        items[0].value(scope) + items_value(items.skip(1), scope)
    }
}

/// Whether items can be written side by side in front of `after`.
pub open spec fn items_fit(items: Seq<Item>, after: Seq<char>) -> bool
    decreases items.len(),
{
    items.len() > 0 ==> items[0].fits(items_text(items.skip(1)) + after) && items_fit(
        items.skip(1),
        after,
    )
}

/// A part of a word.
pub enum Part {
    Plain(char),
    Escaped(char),
    /// a backslash at the end of a line
    LastBackslash,
    Single(Seq<char>),
    /// a single quote that is not closed
    OpenSingle(Seq<char>),
    Double(Seq<Item>),
    /// a double quote that is not closed
    OpenDouble(Seq<Item>),
    Expanded(Expansion),
}

impl Part {
    pub open spec fn text(self) -> Seq<char> {
        match self {
            Part::Plain(c) => seq![c],
            Part::Escaped(c) => seq!['\\', c],
            Part::LastBackslash => seq!['\\'],
            Part::Single(t) => seq!['\''] + t + seq!['\''],
            Part::OpenSingle(t) => seq!['\''] + t,
            Part::Double(items) => seq!['"'] + items_text(items) + seq!['"'],
            Part::OpenDouble(items) => seq!['"'] + items_text(items),
            Part::Expanded(x) => x.text(),
        }
    }

    pub open spec fn value(self, scope: ScopeView) -> Seq<char> {
        match self {
            Part::Plain(c) => seq![c],
            Part::Escaped(c) => seq![c],
            Part::LastBackslash => seq!['\\'],
            Part::Single(t) => t,
            Part::OpenSingle(t) => t,
            Part::Double(items) => items_value(items, scope),
            Part::OpenDouble(items) => items_value(items, scope),
            Part::Expanded(x) => x.value(scope),
        }
    }

    /// Whether this can be written in front of `after`.
    pub open spec fn fits(self, after: Seq<char>) -> bool {
        match self {
            Part::Plain(c) => !is_space(c) && c != '|' && c != '<' && c != '>' && c != '&' && c
                != ';' && c != '#' && c != '\'' && c != '"' && c != '\\' && c != '$',
            Part::Escaped(_) => true,
            Part::LastBackslash => after.len() == 0,
            Part::Single(t) => !t.contains('\''),
            Part::OpenSingle(t) => !t.contains('\'') && after.len() == 0,
            Part::Double(items) => items_fit(items, seq!['"'] + after),
            Part::OpenDouble(items) => items_fit(items, after) && after.len() == 0,
            Part::Expanded(x) => x.fits(after),
        }
    }
}

/// Parts side by side.
pub open spec fn parts_text(parts: Seq<Part>) -> Seq<char>
    decreases parts.len(),
{
    if parts.len() == 0 {
        seq![]
    } else {
        parts[0].text() + parts_text(parts.skip(1))
    }
}

/// What parts side by side stand for: what each of them stands for, in order.
pub open spec fn parts_value(parts: Seq<Part>, scope: ScopeView) -> Seq<char>
    decreases parts.len(),
{
    if parts.len() == 0 {
        seq![]
    } else {
        parts[0].value(scope) + parts_value(parts.skip(1), scope)
    }
}

/// Whether parts can be written side by side in front of `after`.
pub open spec fn parts_fit(parts: Seq<Part>, after: Seq<char>) -> bool
    decreases parts.len(),
{
    parts.len() > 0 ==> parts[0].fits(parts_text(parts.skip(1)) + after) && parts_fit(
        parts.skip(1),
        after,
    )
}

/// A word or an operator.
pub enum Written {
    Word(Seq<Part>),
    Operator(Lexeme),
}

/// An operator as it is written.
pub open spec fn operator_text(op: Lexeme) -> Seq<char> {
    match op {
        Lexeme::Word(_) => seq![],
        Lexeme::Pipe => seq!['|'],
        Lexeme::OrOr => seq!['|', '|'],
        Lexeme::RedirIn => seq!['<'],
        Lexeme::RedirOut => seq!['>'],
        Lexeme::RedirAppend => seq!['>', '>'],
        Lexeme::Redir2Out => seq!['2', '>'],
        Lexeme::Redir2Append => seq!['2', '>', '>'],
        Lexeme::Redir2ToOut => seq!['2', '>', '&', '1'],
        Lexeme::AndAnd => seq!['&', '&'],
        Lexeme::Amp => seq!['&'],
        Lexeme::Semi => seq![';'],
    }
}

/// Whether `s` has `c` at `i`.
pub open spec fn has_at(s: Seq<char>, i: int, c: char) -> bool {
    i < s.len() && s[i] == c
}

impl Written {
    pub open spec fn text(self) -> Seq<char> {
        match self {
            Written::Word(parts) => parts_text(parts),
            Written::Operator(op) => operator_text(op),
        }
    }

    pub open spec fn value(self, scope: ScopeView) -> Lexeme {
        match self {
            Written::Word(parts) => Lexeme::Word(parts_value(parts, scope)),
            Written::Operator(op) => op,
        }
    }

    /// Whether this can be written in front of `after`. A word needs white space,
    /// an operator or a comment behind it; a `2` is not a word in front of a `>`.
    /// An operator must not become a longer one.
    pub open spec fn fits(self, after: Seq<char>, scope: ScopeView) -> bool {
        match self {
            Written::Word(parts) => {
                &&& parts.len() > 0
                &&& parts_fit(parts, after)
                &&& after.len() > 0 ==> {
                    ||| is_space(after[0])
                    ||| after[0] == '|'
                    ||| after[0] == '<'
                    ||| after[0] == '>' && parts.last() != Part::Plain('2')
                    ||| after[0] == '&'
                    ||| after[0] == ';'
                    ||| after[0] == '#'
                    ||| has_at(after, 0, '2') && has_at(after, 1, '>') && parts_value(
                        parts,
                        scope,
                    ).len() > 0
                }
            },
            Written::Operator(op) => match op {
                Lexeme::Word(_) => false,
                Lexeme::Pipe => !has_at(after, 0, '|'),
                Lexeme::RedirOut => !has_at(after, 0, '>'),
                Lexeme::Redir2Out => !has_at(after, 0, '>') && !(has_at(after, 0, '&') && has_at(
                    after,
                    1,
                    '1',
                )),
                Lexeme::Amp => !has_at(after, 0, '&'),
                _ => true,
            },
        }
    }
}

/// Words and operators, each behind white space or none, and `tail`.
pub open spec fn line_text(line: Seq<(Seq<char>, Written)>, tail: Seq<char>) -> Seq<char>
    decreases line.len(),
{
    if line.len() == 0 {
        tail
    } else {
        line[0].0 + (line[0].1.text() + line_text(line.skip(1), tail))
    }
}

/// Whether words and operators can be written in front of `tail`.
pub open spec fn line_fits(
    line: Seq<(Seq<char>, Written)>,
    tail: Seq<char>,
    scope: ScopeView,
) -> bool
    decreases line.len(),
{
    line.len() > 0 ==> {
        &&& all_space(line[0].0)
        &&& line[0].1.fits(line_text(line.skip(1), tail), scope)
        &&& line_fits(line.skip(1), tail, scope)
    }
}

pub open spec fn all_space(s: Seq<char>) -> bool {
    forall|i: int| 0 <= i < s.len() ==> is_space(#[trigger] s[i])
}

/// White space, and a comment behind it if there is one.
pub open spec fn tail_text(blank: Seq<char>, comment: Option<Seq<char>>) -> Seq<char> {
    blank + match comment {
        Some(text) => seq!['#'] + text,
        None => seq![],
    }
}

/// What is written is what is read. A word is made of parts that stand side by
/// side: plain and escaped characters, quoted texts and expansions; it stands
/// for what its parts stand for, in order. Words and operators come out one by
/// one, with white space between them or none, and a comment is left out.
pub proof fn lines_are_read_as_written(
    line: Seq<(Seq<char>, Written)>,
    blank: Seq<char>,
    comment: Option<Seq<char>>,
    scope: ScopeView,
)
    requires
        all_space(blank),
        line_fits(line, tail_text(blank, comment), scope),
    ensures
        lex(line_text(line, tail_text(blank, comment)), scope) == Seq::new(
            line.len(),
            |i: int| line[i].1.value(scope),
        ),
    decreases line.len(),
{
    let tail = tail_text(blank, comment);
    let whole = line_text(line, tail);
    let values = Seq::new(line.len(), |i: int| line[i].1.value(scope));
    if line.len() == 0 {
        let end = match comment {
            Some(text) => seq!['#'] + text,
            None => seq![],
        };
        leading_space_is_ignored(blank, end, scope);
        assert(lex(end, scope) =~= seq![]);
        assert(values =~= seq![]);
    } else {
        let (gap, w) = line[0];
        let after = line_text(line.skip(1), tail);
        let s = w.text() + after;
        leading_space_is_ignored(gap, s, scope);
        lines_are_read_as_written(line.skip(1), blank, comment, scope);
        assert(Seq::new(line.skip(1).len(), |i: int| line.skip(1)[i].1.value(scope))
            =~= values.skip(1));
        match w {
            Written::Word(parts) => {
                lemma_first_char(parts, after);
                lemma_parts(parts, after, false, scope);
                assert(s.skip(parts_text(parts).len() as int) =~= after);
                assert(operator(s) is None);
            },
            Written::Operator(op) => {
                assert forall|i: int, c: char|
                    0 <= i < operator_text(op).len() implies has_at(s, i, c) == has_at(
                    operator_text(op),
                    i,
                    c,
                ) by {}
                assert forall|i: int, c: char|
                    i >= operator_text(op).len() implies #[trigger] has_at(s, i, c) == has_at(
                    after,
                    i - operator_text(op).len(),
                    c,
                ) by {}
                assert forall|i: int, c: char| #[trigger] at(s, i, c) == has_at(s, i, c) by {}
                assert(operator(s) == Some((op, operator_text(op).len() as int)));
                assert(s[0] == operator_text(op)[0]);
                assert(s.skip(operator_text(op).len() as int) =~= after);
            },
        }
        assert(seq![w.value(scope)] + values.skip(1) =~= values);
    }
}

proof fn lemma_expansion(x: Expansion, after: Seq<char>, scope: ScopeView)
    requires
        x.fits(after),
    ensures
        dollar(x.text() + after, scope) == (Piece {
            text: x.value(scope),
            used: x.text().len() as int,
        }),
        x.text().len() > 0,
        x.text()[0] == '$',
{
    let s = x.text() + after;
    match x {
        Expansion::Name(name) => {
            let t = s.skip(1);
            assert(t =~= name + after);
            assert forall|j: int| 0 <= j < name.len() implies is_name_char(t[j]) by {
                assert(t[j] == name[j]);
            }
            lemma_name_length_is(t, name.len() as int);
            assert(t.take(name.len() as int) =~= name);
            assert(s[1] == name[0]);
            assert(is_alphanumeric(name[0]) || name[0] == '_');
        },
        Expansion::Braced(name) => {
            let t = s.skip(2);
            assert(t =~= name + seq!['}'] + after);
            assert forall|j: int| 0 <= j < name.len() implies t[j] != '}' by {
                assert(t[j] == name[j]);
                assert(name.contains(name[j]));
            }
            lemma_find_is(t, '}', name.len() as int);
            assert(t.take(name.len() as int) =~= name);
        },
        Expansion::OpenBraced(name) => {
            let t = s.skip(2);
            assert(t =~= name);
            assert forall|j: int| 0 <= j < name.len() implies t[j] != '}' by {
                assert(name.contains(name[j]));
            }
            lemma_find_is(t, '}', name.len() as int);
            assert(t.take(name.len() as int) =~= name);
        },
        Expansion::Dollar => {
            if after.len() > 0 {
                assert(s[1] == after[0]);
            }
        },
        _ => {},
    }
}

/// What is in double quotes, which are closed or end with the line.
proof fn lemma_items(items: Seq<Item>, after: Seq<char>, closed: bool, scope: ScopeView)
    requires
        closed ==> after.len() > 0 && after[0] == '"',
        !closed ==> after.len() == 0,
        items_fit(items, after),
    ensures
        double_quoted(items_text(items) + after, scope) == (Piece {
            text: items_value(items, scope),
            used: items_text(items).len() as int + if closed {
                1int
            } else {
                0
            },
        }),
    decreases items.len(),
{
    let s = items_text(items) + after;
    if items.len() == 0 {
        assert(s =~= after);
        assert(double_quoted(s, scope).text =~= items_value(items, scope));
    } else {
        let item = items[0];
        let rest = items_text(items.skip(1)) + after;
        assert(s =~= item.text() + rest);
        lemma_items(items.skip(1), after, closed, scope);
        match item {
            Item::Plain(c) => {
                assert(s[0] == c);
                assert(s.skip(1) =~= rest);
            },
            Item::Escaped(c) => {
                assert(s[0] == '\\' && s[1] == c);
                assert(s.skip(2) =~= rest);
            },
            Item::LastBackslash => {
                assert(s.skip(1) =~= rest);
            },
            Item::Kept(c) => {
                reveal_with_fuel(double_quoted, 3);
                assert(s[0] == '\\' && s[1] == c);
                let t = s.skip(1);
                assert(t[0] == c);
                assert(t.skip(1) =~= rest);
                let tail = items_value(items.skip(1), scope);
                assert(seq!['\\'] + (seq![c] + tail) =~= seq!['\\', c] + tail);
            },
            Item::Expanded(x) => {
                lemma_expansion(x, rest, scope);
                assert(s[0] == x.text()[0]);
                assert(s.skip(x.text().len() as int) =~= rest);
            },
        }
    }
}

proof fn lemma_part(part: Part, after: Seq<char>, scope: ScopeView)
    requires
        part.fits(after),
    ensures
        unit(part.text() + after, scope) == (Piece {
            text: part.value(scope),
            used: part.text().len() as int,
        }),
        part.text().len() > 0,
        !is_break(part.text()[0]),
        part.text()[0] == '2' ==> part == Part::Plain('2'),
{
    let s = part.text() + after;
    match part {
        Part::Single(t) => {
            let u = s.skip(1);
            assert(u =~= t + seq!['\''] + after);
            assert forall|j: int| 0 <= j < t.len() implies u[j] != '\'' by {
                assert(u[j] == t[j]);
                assert(t.contains(t[j]));
            }
            lemma_find_is(u, '\'', t.len() as int);
            assert(u.take(t.len() as int) =~= t);
        },
        Part::OpenSingle(t) => {
            let u = s.skip(1);
            assert(u =~= t);
            assert forall|j: int| 0 <= j < t.len() implies u[j] != '\'' by {
                assert(t.contains(t[j]));
            }
            lemma_find_is(u, '\'', t.len() as int);
            assert(u.take(t.len() as int) =~= t);
        },
        Part::Double(items) => {
            assert(s.skip(1) =~= items_text(items) + (seq!['"'] + after));
            lemma_items(items, seq!['"'] + after, true, scope);
        },
        Part::OpenDouble(items) => {
            assert(s.skip(1) =~= items_text(items) + after);
            lemma_items(items, after, false, scope);
        },
        Part::Expanded(x) => {
            lemma_expansion(x, after, scope);
            assert(s[0] == x.text()[0]);
        },
        _ => {},
    }
}

/// The first characters of a word.
proof fn lemma_first_char(parts: Seq<Part>, after: Seq<char>)
    requires
        parts.len() > 0,
        parts_fit(parts, after),
    ensures
        ({
            let s = parts_text(parts) + after;
            &&& s.len() > 0
            &&& !is_break(s[0])
            &&& s[0] == '2' && s.len() > 1 && s[1] == '>' ==> parts.len() == 1 && parts[0]
                == Part::Plain('2') && after.len() > 0 && after[0] == '>'
        }),
{
    let s = parts_text(parts) + after;
    let rest = parts_text(parts.skip(1)) + after;
    let scope = arbitrary::<ScopeView>();
    lemma_part(parts[0], rest, scope);
    assert(s =~= parts[0].text() + rest);
    assert(s[0] == parts[0].text()[0]);
    if s[0] == '2' && s.len() > 1 && s[1] == '>' {
        assert(s[1] == rest[0]);
        if parts.len() > 1 {
            let more = parts.skip(1);
            let last = parts_text(more.skip(1)) + after;
            assert(parts_fit(more, after));
            lemma_part(more[0], last, scope);
            assert(rest =~= more[0].text() + last);
            assert(rest[0] == more[0].text()[0]);
        } else {
            assert(parts_text(parts.skip(1)).len() == 0);
            assert(rest =~= after);
        }
    }
}

/// Parts side by side, in front of something that ends a word.
proof fn lemma_parts(parts: Seq<Part>, after: Seq<char>, begun: bool, scope: ScopeView)
    requires
        parts_fit(parts, after),
        ends_word(after, begun || parts_value(parts, scope).len() > 0),
        parts.len() > 0 && after.len() > 0 && after[0] == '>' ==> parts.last() != Part::Plain('2'),
    ensures
        word(parts_text(parts) + after, begun, scope) == (Piece {
            text: parts_value(parts, scope),
            used: parts_text(parts).len() as int,
        }),
    decreases parts.len(),
{
    let s = parts_text(parts) + after;
    if parts.len() == 0 {
        assert(s =~= after);
        assert(word(s, begun, scope).text =~= parts_value(parts, scope));
    } else {
        let part = parts[0];
        let more = parts.skip(1);
        let rest = parts_text(more) + after;
        lemma_part(part, rest, scope);
        lemma_first_char(parts, after);
        assert(s =~= part.text() + rest);
        assert(s.skip(part.text().len() as int) =~= rest);
        if more.len() > 0 {
            assert(more.last() == parts.last());
        }
        assert(!ends_word(s, begun));
        lemma_parts(more, after, begun || part.value(scope).len() > 0, scope);
    }
}

} // verus!
