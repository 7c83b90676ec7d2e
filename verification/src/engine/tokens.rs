//! The token reader of the file-backed engine: commands are split into
//! tokens first, then read with compound filters.
use vstd::prelude::*;
use crate::engine::compiler::{unquote, unquote_spec};
use crate::engine::statement::{ClauseModel, ComparisonOp, Statement, StatementModel, WhereClause};
use crate::engine::syntax::{split_quoted, split_quoted_spec};
use crate::error::Error;
use crate::parser::{agrees, lemma_with_prefix_twice, tok_at, with_prefix, Reading};
use crate::text::{
    alphanumeric, chars_of, concat_str, is_alphanumeric, is_whitespace, is_ws, lowercase,
    push_string, slice_chars, str_eq, string_of, to_lowercase,
};
use crate::types::{Cell, Value};

verus! {

// ---------------------------------------------------------------------------
// Tokens
// ---------------------------------------------------------------------------

/// Characters of comparison operators.
pub open spec fn is_op_char(c: char) -> bool {
    c == '!' || c == '<' || c == '>' || c == '='
}

/// Characters that are a token on their own.
pub open spec fn is_punct(c: char) -> bool {
    c == '(' || c == ')' || c == ',' || c == '*' || c == '|' || c == ';'
}

/// Characters of names and bare values.
pub open spec fn is_word_char(c: char) -> bool {
    alphanumeric(c) || c == '_' || c == '-'
}

/// The end of the run of characters satisfying `p` from `i`.
pub open spec fn run_end(s: Seq<char>, i: int, p: spec_fn(char) -> bool) -> int
    decreases s.len() - i,
{
    if 0 <= i < s.len() && p(s[i]) {
        run_end(s, i + 1, p)
    } else {
        i
    }
}

pub proof fn lemma_run_end(s: Seq<char>, i: int, p: spec_fn(char) -> bool)
    requires
        0 <= i <= s.len(),
    ensures
        i <= run_end(s, i, p) <= s.len(),
        i < s.len() && p(s[i]) ==> i < run_end(s, i, p),
    decreases s.len() - i,
{
    if i < s.len() && p(s[i]) {
        lemma_run_end(s, i + 1, p);
    }
}

/// Just past the first quote at or after `j`, or the end of the input.
pub open spec fn quote_close(s: Seq<char>, j: int) -> int
    decreases s.len() - j,
{
    if j < 0 || j >= s.len() {
        s.len() as int
    } else if s[j] == '\'' {
        j + 1
    } else {
        quote_close(s, j + 1)
    }
}

pub proof fn lemma_quote_close(s: Seq<char>, j: int)
    requires
        0 <= j <= s.len(),
    ensures
        j <= quote_close(s, j) <= s.len(),
    decreases s.len() - j,
{
    if j < s.len() && s[j] != '\'' {
        lemma_quote_close(s, j + 1);
    }
}

/// `t` in front of the tokens `rest`.
pub open spec fn cons_tok(t: Seq<char>, rest: Option<Seq<Seq<char>>>) -> Option<Seq<Seq<char>>> {
    match rest {
        Some(r) => Some(seq![t] + r),
        None => None,
    }
}

/// The tokens of `s` from `i` on; `None` where a character starts no token.
pub open spec fn tokens_from(s: Seq<char>, i: int) -> Option<Seq<Seq<char>>>
    decreases s.len() - i,
{
    if i < 0 || i >= s.len() {
        Some(Seq::empty())
    } else if is_ws(s[i]) {
        tokens_from(s, i + 1)
    } else if s[i] == '\'' {
        let e = quote_close(s, i + 1);
        proof {
            lemma_quote_close(s, i + 1);
        }
        cons_tok(s.subrange(i, e), tokens_from(s, e))
    } else if is_op_char(s[i]) {
        let e = run_end(s, i, |c: char| is_op_char(c));
        proof {
            lemma_run_end(s, i, |c: char| is_op_char(c));
        }
        cons_tok(s.subrange(i, e), tokens_from(s, e))
    } else if is_punct(s[i]) {
        cons_tok(seq![s[i]], tokens_from(s, i + 1))
    } else {
        let e = run_end(s, i, |c: char| is_word_char(c));
        proof {
            lemma_run_end(s, i, |c: char| is_word_char(c));
        }
        if e == i {
            None
        } else {
            cons_tok(s.subrange(i, e), tokens_from(s, e))
        }
    }
}

/// All tokens before `rest`.
pub open spec fn cons_all(pre: Seq<Seq<char>>, rest: Option<Seq<Seq<char>>>) -> Option<Seq<Seq<char>>> {
    match rest {
        Some(r) => Some(pre + r),
        None => None,
    }
}

/// The tokens of `s`, when every character of it can be read.
pub open spec fn tokens_of(s: Seq<char>) -> Option<Seq<Seq<char>>> {
    tokens_from(s, 0)
}

fn push_token(tokens: &mut Vec<String>, cs: &Vec<char>, lo: usize, hi: usize)
    requires
        lo <= hi <= cs@.len(),
    ensures
        final(tokens).deep_view() == old(tokens).deep_view().push(cs@.subrange(lo as int, hi as int)),
{
    let piece = slice_chars(cs.as_slice(), lo, hi);
    push_string(tokens, string_of(piece.as_slice()));
}

/// The tokens of `sql`, or `None` where a character starts no token.
pub fn tokenize_checked(sql: &str) -> (r: Option<Vec<String>>)
    ensures
        match r {
            Some(v) => tokens_of(sql@) == Some(v.deep_view()),
            None => tokens_of(sql@) is None,
        },
{
    let cs = chars_of(sql);
    let n = cs.len();
    let ghost s = sql@;
    let mut tokens: Vec<String> = Vec::new();
    let mut i: usize = 0;
    while i < n
        invariant
            n == cs.len(),
            cs@ == s,
            s == sql@,
            i <= n,
            tokens_of(s) == cons_all(tokens.deep_view(), tokens_from(s, i as int)),
        decreases n - i,
    {
        let ch = cs[i];
        let ghost before = tokens.deep_view();
        if is_whitespace(ch) {
            i = i + 1;
        } else if ch == '\'' {
            let mut j: usize = i + 1;
            while j < n && cs[j] != '\''
                invariant
                    n == cs.len(),
                    cs@ == s,
                    i < j <= n,
                    quote_close(s, j as int) == quote_close(s, i + 1),
                decreases n - j,
            {
                j = j + 1;
            }
            let e = if j < n { j + 1 } else { n };
            proof {
                lemma_quote_close(s, i + 1);
            }
            push_token(&mut tokens, &cs, i, e);
            proof {
                if let Some(rest) = tokens_from(s, e as int) {
                    assert(before.push(s.subrange(i as int, e as int)) + rest == before + (seq![s.subrange(i as int, e as int)] + rest));
                }
            }
            i = e;
        } else if ch == '!' || ch == '<' || ch == '>' || ch == '=' {
            let mut e: usize = i;
            while e < n && (cs[e] == '!' || cs[e] == '<' || cs[e] == '>' || cs[e] == '=')
                invariant
                    n == cs.len(),
                    cs@ == s,
                    i <= e <= n,
                    run_end(s, e as int, |c: char| is_op_char(c)) == run_end(s, i as int, |c: char| is_op_char(c)),
                decreases n - e,
            {
                e = e + 1;
            }
            proof {
                lemma_run_end(s, i as int, |c: char| is_op_char(c));
            }
            push_token(&mut tokens, &cs, i, e);
            proof {
                if let Some(rest) = tokens_from(s, e as int) {
                    assert(before.push(s.subrange(i as int, e as int)) + rest == before + (seq![s.subrange(i as int, e as int)] + rest));
                }
            }
            i = e;
        } else if ch == '(' || ch == ')' || ch == ',' || ch == '*' || ch == '|' || ch == ';' {
            push_token(&mut tokens, &cs, i, i + 1);
            proof {
                assert(s.subrange(i as int, i + 1) =~= seq![ch]);
                if let Some(rest) = tokens_from(s, i + 1) {
                    assert(before.push(seq![ch]) + rest == before + (seq![seq![ch]] + rest));
                }
            }
            i = i + 1;
        } else {
            let mut e: usize = i;
            while e < n && (is_alphanumeric(cs[e]) || cs[e] == '_' || cs[e] == '-')
                invariant
                    n == cs.len(),
                    cs@ == s,
                    i <= e <= n,
                    run_end(s, e as int, |c: char| is_word_char(c)) == run_end(s, i as int, |c: char| is_word_char(c)),
                decreases n - e,
            {
                e = e + 1;
            }
            proof {
                lemma_run_end(s, i as int, |c: char| is_word_char(c));
            }
            if e == i {
                proof {
                    assert(tokens_from(s, i as int) is None);
                }
                return None;
            }
            push_token(&mut tokens, &cs, i, e);
            proof {
                if let Some(rest) = tokens_from(s, e as int) {
                    assert(before.push(s.subrange(i as int, e as int)) + rest == before + (seq![s.subrange(i as int, e as int)] + rest));
                }
            }
            i = e;
        }
    }
    proof {
        assert(tokens.deep_view() + Seq::<Seq<char>>::empty() == tokens.deep_view());
    }
    Some(tokens)
}

/// Splits a command into tokens: a quoted literal up to and including the
/// next quote, runs of `! < > =`, the single characters `( ) , * | ;`, and
/// runs of letters, digits, `_` and `-`.
pub fn tokenize(sql: &str) -> (r: Vec<String>)
    requires
        tokens_of(sql@) is Some,
    ensures
        Some(r.deep_view()) == tokens_of(sql@),
{
    match tokenize_checked(sql) {
        Some(v) => v,
        None => Vec::new(),
    }
}


// ---------------------------------------------------------------------------
// Grammar
// ---------------------------------------------------------------------------

/// What reading a part of a command from a token position gives.
pub enum Step<T> {
    /// The part, and the position after it.
    Read(T, int),
    /// A parse error with this message.
    Refused(Seq<char>),
    /// A column named twice, the first repeated name.
    Duplicate(Seq<char>),
    /// The reader panics (a lone quote to unquote).
    Stuck,
}

/// `pre` in front of what was read.
pub open spec fn step_prefix<A>(pre: Seq<A>, r: Step<Seq<A>>) -> Step<Seq<A>> {
    match r {
        Step::Read(x, q) => Step::Read(pre + x, q),
        Step::Refused(m) => Step::Refused(m),
        Step::Duplicate(c) => Step::Duplicate(c),
        Step::Stuck => Step::Stuck,
    }
}

pub proof fn lemma_step_prefix_twice<A>(a: Seq<A>, b: Seq<A>, r: Step<Seq<A>>)
    ensures
        step_prefix(a, step_prefix(b, r)) == step_prefix(a + b, r),
{
    if let Step::Read(x, q) = r {
        assert(a + (b + x) =~= (a + b) + x);
    }
}

/// Whether the token at `p` is the keyword `kw` (compared in lowercase).
pub open spec fn kw_at(toks: Seq<Seq<char>>, p: int, kw: Seq<char>) -> bool {
    0 <= p < toks.len() && lowercase(toks[p]) == kw
}

/// Column names up to `)`, commas skipped.
pub open spec fn columns_until_close(toks: Seq<Seq<char>>, q: int) -> Step<Seq<Seq<char>>>
    decreases toks.len() - q,
{
    if 0 <= q < toks.len() {
        if toks[q] == ")"@ {
            Step::Read(Seq::empty(), q + 1)
        } else if toks[q] == ","@ {
            columns_until_close(toks, q + 1)
        } else {
            step_prefix(seq![toks[q]], columns_until_close(toks, q + 1))
        }
    } else {
        Step::Refused("Missing ')'"@)
    }
}

/// Value tokens up to `)`.
pub open spec fn tokens_until_close(toks: Seq<Seq<char>>, q: int) -> Step<Seq<Seq<char>>>
    decreases toks.len() - q,
{
    if 0 <= q < toks.len() {
        if toks[q] == ")"@ {
            Step::Read(Seq::empty(), q + 1)
        } else {
            step_prefix(seq![toks[q]], tokens_until_close(toks, q + 1))
        }
    } else {
        Step::Refused("Missing ')'"@)
    }
}

/// Selected columns, commas skipped, up to the token before FROM.
pub open spec fn columns_until_from(toks: Seq<Seq<char>>, q: int) -> Step<Seq<Seq<char>>>
    decreases toks.len() - q,
{
    if 0 <= q < toks.len() {
        if toks[q] == ","@ {
            columns_until_from(toks, q + 1)
        } else if kw_at(toks, q + 1, "from"@) {
            Step::Read(seq![toks[q]], q + 1)
        } else {
            step_prefix(seq![toks[q]], columns_until_from(toks, q + 1))
        }
    } else {
        Step::Refused("Unexpected end in SELECT columns"@)
    }
}

/// The first name of `cols` that an earlier name repeats.
pub open spec fn first_dup(cols: Seq<Seq<char>>) -> Option<Seq<char>>
    decreases cols.len(),
{
    if cols.len() == 0 {
        None
    } else {
        match first_dup(cols.drop_last()) {
            Some(c) => Some(c),
            None => if cols.drop_last().contains(cols.last()) {
                Some(cols.last())
            } else {
                None
            },
        }
    }
}

/// The comparison operator that `op` writes.
pub open spec fn operator_of(op: Seq<char>) -> Option<ComparisonOp> {
    if op == "="@ {
        Some(ComparisonOp::Eq)
    } else if op == "!="@ || op == "<>"@ {
        Some(ComparisonOp::Ne)
    } else if op == "<"@ {
        Some(ComparisonOp::Lt)
    } else if op == ">"@ {
        Some(ComparisonOp::Gt)
    } else if op == "<="@ {
        Some(ComparisonOp::Le)
    } else if op == ">="@ {
        Some(ComparisonOp::Ge)
    } else if lowercase(op) == "like"@ {
        Some(ComparisonOp::Like)
    } else {
        None
    }
}

/// A filter at `p`: `column op value`, then optionally AND or OR and a
/// further filter (grouping to the right).
pub open spec fn clause_at(toks: Seq<Seq<char>>, p: int) -> Step<ClauseModel>
    decreases toks.len() - p,
{
    if !(0 <= p < toks.len()) {
        Step::Refused("Missing column in WHERE"@)
    } else if !(p + 1 < toks.len()) {
        Step::Refused("Missing operator in WHERE"@)
    } else if !(p + 2 < toks.len()) {
        Step::Refused("Missing value in WHERE"@)
    } else {
        match operator_of(toks[p + 1]) {
            None => Step::Refused("Unknown operator: "@ + toks[p + 1]),
            Some(operator) => match unquote_spec(toks[p + 2]) {
                None => Step::Stuck,
                Some(u) => {
                    let cond = ClauseModel::Condition { column: toks[p], operator, value: Cell::Text(u) };
                    if kw_at(toks, p + 3, "and"@) {
                        match clause_at(toks, p + 4) {
                            Step::Read(right, q) => Step::Read(ClauseModel::And(Box::new(cond), Box::new(right)), q),
                            Step::Refused(m) => Step::Refused(m),
                            Step::Duplicate(c) => Step::Duplicate(c),
                            Step::Stuck => Step::Stuck,
                        }
                    } else if kw_at(toks, p + 3, "or"@) {
                        match clause_at(toks, p + 4) {
                            Step::Read(right, q) => Step::Read(ClauseModel::Or(Box::new(cond), Box::new(right)), q),
                            Step::Refused(m) => Step::Refused(m),
                            Step::Duplicate(c) => Step::Duplicate(c),
                            Step::Stuck => Step::Stuck,
                        }
                    } else {
                        Step::Read(cond, p + 3)
                    }
                },
            },
        }
    }
}

/// `TABLE name ( columns )`, after CREATE.
pub open spec fn create_at(toks: Seq<Seq<char>>, p: int) -> Step<StatementModel> {
    if !kw_at(toks, p, "table"@) {
        Step::Refused("Expected 'TABLE' after CREATE"@)
    } else if !(p + 1 < toks.len()) {
        Step::Refused("Missing table name"@)
    } else if !(p + 2 < toks.len() && toks[p + 2] == "("@) {
        Step::Refused("Missing '(' after table name"@)
    } else {
        match columns_until_close(toks, p + 3) {
            Step::Read(columns, q) => match first_dup(columns) {
                Some(c) => Step::Duplicate(c),
                None => Step::Read(StatementModel::CreateTable { name: toks[p + 1], columns }, q),
            },
            Step::Refused(m) => Step::Refused(m),
            Step::Duplicate(c) => Step::Duplicate(c),
            Step::Stuck => Step::Stuck,
        }
    }
}

/// `INTO table VALUES ( v1 | v2 ... )`, after INSERT.
pub open spec fn insert_at(toks: Seq<Seq<char>>, p: int) -> Step<StatementModel> {
    if !kw_at(toks, p, "into"@) {
        Step::Refused("Expected 'INTO' after INSERT"@)
    } else if !(p + 1 < toks.len()) {
        Step::Refused("Missing table name"@)
    } else if !kw_at(toks, p + 2, "values"@) {
        Step::Refused("Expected 'VALUES' after table name"@)
    } else if !(p + 3 < toks.len() && toks[p + 3] == "("@) {
        Step::Refused("Missing '(' after VALUES"@)
    } else {
        match tokens_until_close(toks, p + 4) {
            Step::Read(vals, q) => match crate::engine::compiler::unquoted_cells(
                split_quoted_spec(crate::text::join(vals, ""@), '|'),
            ) {
                None => Step::Stuck,
                Some(values) => Step::Read(StatementModel::Insert { table: toks[p + 1], values }, q),
            },
            Step::Refused(m) => Step::Refused(m),
            Step::Duplicate(c) => Step::Duplicate(c),
            Step::Stuck => Step::Stuck,
        }
    }
}

/// `columns FROM table [WHERE filter]`, after SELECT.
pub open spec fn select_at(toks: Seq<Seq<char>>, p: int) -> Step<StatementModel> {
    match columns_until_from(toks, p) {
        Step::Read(columns, q) => if !(q + 1 < toks.len()) {
            Step::Refused("Missing table name after FROM"@)
        } else if kw_at(toks, q + 2, "where"@) {
            match clause_at(toks, q + 3) {
                Step::Read(c, r) => Step::Read(
                    StatementModel::Select { columns, table: toks[q + 1], condition: Some(c) },
                    r,
                ),
                Step::Refused(m) => Step::Refused(m),
                Step::Duplicate(c) => Step::Duplicate(c),
                Step::Stuck => Step::Stuck,
            }
        } else {
            Step::Read(StatementModel::Select { columns, table: toks[q + 1], condition: None }, q + 2)
        },
        Step::Refused(m) => Step::Refused(m),
        Step::Duplicate(c) => Step::Duplicate(c),
        Step::Stuck => Step::Stuck,
    }
}

/// `table SET column = value WHERE filter`, after UPDATE.
pub open spec fn update_at(toks: Seq<Seq<char>>, p: int) -> Step<StatementModel> {
    if !(0 <= p < toks.len()) {
        Step::Refused("Missing table name in UPDATE"@)
    } else if !kw_at(toks, p + 1, "set"@) {
        Step::Refused("Expected 'SET' in UPDATE"@)
    } else if !(p + 2 < toks.len()) {
        Step::Refused("Missing column in SET"@)
    } else if !(p + 3 < toks.len() && toks[p + 3] == "="@) {
        Step::Refused("Expected '=' in SET"@)
    } else if !(p + 4 < toks.len()) {
        Step::Refused("Missing value in SET"@)
    } else {
        match unquote_spec(toks[p + 4]) {
            None => Step::Stuck,
            Some(u) => if !kw_at(toks, p + 5, "where"@) {
                Step::Refused("Expected 'WHERE' in UPDATE"@)
            } else {
                match clause_at(toks, p + 6) {
                    Step::Read(c, r) => Step::Read(
                        StatementModel::Update {
                            table: toks[p],
                            set_col: toks[p + 2],
                            set_val: Cell::Text(u),
                            condition: c,
                        },
                        r,
                    ),
                    Step::Refused(m) => Step::Refused(m),
                    Step::Duplicate(c) => Step::Duplicate(c),
                    Step::Stuck => Step::Stuck,
                }
            },
        }
    }
}

/// `FROM table WHERE filter`, after DELETE.
pub open spec fn delete_at(toks: Seq<Seq<char>>, p: int) -> Step<StatementModel> {
    if !kw_at(toks, p, "from"@) {
        Step::Refused("Expected 'FROM' in DELETE"@)
    } else if !(p + 1 < toks.len()) {
        Step::Refused("Missing table name in DELETE"@)
    } else if !kw_at(toks, p + 2, "where"@) {
        Step::Refused("Expected 'WHERE' in DELETE"@)
    } else {
        match clause_at(toks, p + 3) {
            Step::Read(c, r) => Step::Read(StatementModel::Delete { table: toks[p + 1], condition: c }, r),
            Step::Refused(m) => Step::Refused(m),
            Step::Duplicate(c) => Step::Duplicate(c),
            Step::Stuck => Step::Stuck,
        }
    }
}

/// A whole command, picked by its first token (case matters).
pub open spec fn statement_of(toks: Seq<Seq<char>>) -> Step<StatementModel> {
    if toks.len() == 0 {
        Step::Refused("Empty query"@)
    } else if toks[0] == "create"@ {
        create_at(toks, 1)
    } else if toks[0] == "insert"@ {
        insert_at(toks, 1)
    } else if toks[0] == "select"@ {
        select_at(toks, 1)
    } else if toks[0] == "update"@ {
        update_at(toks, 1)
    } else if toks[0] == "delete"@ {
        delete_at(toks, 1)
    } else {
        Step::Refused("Unknown command: "@ + toks[0])
    }
}

/// What reading the command `sql` gives.
pub open spec fn parse_outcome(sql: Seq<char>) -> Step<StatementModel> {
    match tokens_of(sql) {
        None => Step::Stuck,
        Some(toks) => statement_of(toks),
    }
}


// ---------------------------------------------------------------------------
// The reader
// ---------------------------------------------------------------------------

/// Why reading stopped: an error, or a panic of the reader.
enum Halt {
    Fail(Error),
    Panic,
}

/// Whether `r` is what `o` describes, the cursor having stopped at `q`.
spec fn halts_as<T: DeepView>(r: Result<T, Halt>, o: Step<T::V>, q: int) -> bool {
    match o {
        Step::Read(m, p) => (r matches Ok(v) && v.deep_view() == m) && q == p,
        Step::Refused(msg) => r matches Err(Halt::Fail(Error::Parse(e))) && e@ == msg,
        Step::Duplicate(c) => r matches Err(Halt::Fail(Error::DuplicateColumn(e))) && e@ == c,
        Step::Stuck => r matches Err(Halt::Panic),
    }
}

fn refuse<T>(msg: &str) -> (r: Result<T, Halt>)
    ensures
        r matches Err(Halt::Fail(Error::Parse(e))) && e@ == msg@,
{
    Err(Halt::Fail(Error::Parse(msg.to_string())))
}

/// `s` trimmed and unquoted, or `None` for a lone quote.
fn unquote_checked(s: &str) -> (r: Option<String>)
    ensures
        match unquote_spec(s@) {
            Some(u) => r matches Some(x) && x@ == u,
            None => r is None,
        },
{
    let cs = chars_of(s);
    let t = crate::text::trim_chars(cs.as_slice());
    let n = t.len();
    if n == 1 && t[0] == '\'' {
        return None;
    }
    Some(unquote(s))
}

/// Whether the token at `p` is `lit`.
fn tok_is(toks: &Vec<String>, p: usize, lit: &str) -> (r: bool)
    ensures
        r == (p < toks@.len() && toks.deep_view()[p as int] == lit@),
{
    if p < toks.len() {
        proof {
            assert(toks.deep_view()[p as int] == toks@[p as int]@);
        }
        str_eq(toks[p].as_str(), lit)
    } else {
        false
    }
}

/// Whether the token at `p` is the keyword `kw`, compared in lowercase.
fn at_kw(toks: &Vec<String>, p: usize, kw: &str) -> (r: bool)
    ensures
        r == kw_at(toks.deep_view(), p as int, kw@),
{
    if p < toks.len() {
        proof {
            assert(toks.deep_view()[p as int] == toks@[p as int]@);
        }
        let low = to_lowercase(toks[p].as_str());
        str_eq(low.as_str(), kw)
    } else {
        false
    }
}

/// A copy of the token at `p`.
fn token(toks: &Vec<String>, p: usize) -> (r: String)
    requires
        p < toks@.len(),
    ensures
        r@ == toks.deep_view()[p as int],
{
    proof {
        assert(toks.deep_view()[p as int] == toks@[p as int]@);
    }
    toks[p].clone()
}

fn read_columns_until_close(toks: &Vec<String>, pos: &mut usize) -> (r: Result<Vec<String>, Halt>)
    requires
        *old(pos) <= toks@.len(),
    ensures
        *final(pos) <= toks@.len(),
        halts_as(r, columns_until_close(toks.deep_view(), *old(pos) as int), *final(pos) as int),
{
    let ghost tv = toks.deep_view();
    let ghost start = *pos as int;
    let mut cols: Vec<String> = Vec::new();
    loop
        invariant
            tv == toks.deep_view(),
            start == *old(pos) as int,
            *pos <= toks@.len(),
            columns_until_close(tv, start) == step_prefix(cols.deep_view(), columns_until_close(tv, *pos as int)),
        decreases toks@.len() - *pos,
    {
        if *pos >= toks.len() {
            return refuse("Missing ')'");
        }
        if tok_is(toks, *pos, ")") {
            *pos = *pos + 1;
            proof {
                assert(cols.deep_view() + Seq::<Seq<char>>::empty() =~= cols.deep_view());
            }
            return Ok(cols);
        }
        if !tok_is(toks, *pos, ",") {
            let t = token(toks, *pos);
            let ghost before = cols.deep_view();
            let ghost tvv = t@;
            push_string(&mut cols, t);
            proof {
                lemma_step_prefix_twice(before, seq![tvv], columns_until_close(tv, *pos + 1));
                assert(cols.deep_view() =~= before + seq![tvv]);
            }
        }
        *pos = *pos + 1;
    }
}

fn read_tokens_until_close(toks: &Vec<String>, pos: &mut usize) -> (r: Result<Vec<String>, Halt>)
    requires
        *old(pos) <= toks@.len(),
    ensures
        *final(pos) <= toks@.len(),
        halts_as(r, tokens_until_close(toks.deep_view(), *old(pos) as int), *final(pos) as int),
{
    let ghost tv = toks.deep_view();
    let ghost start = *pos as int;
    let mut vals: Vec<String> = Vec::new();
    loop
        invariant
            tv == toks.deep_view(),
            start == *old(pos) as int,
            *pos <= toks@.len(),
            tokens_until_close(tv, start) == step_prefix(vals.deep_view(), tokens_until_close(tv, *pos as int)),
        decreases toks@.len() - *pos,
    {
        if *pos >= toks.len() {
            return refuse("Missing ')'");
        }
        if tok_is(toks, *pos, ")") {
            *pos = *pos + 1;
            proof {
                assert(vals.deep_view() + Seq::<Seq<char>>::empty() =~= vals.deep_view());
            }
            return Ok(vals);
        }
        let t = token(toks, *pos);
        let ghost before = vals.deep_view();
        let ghost tvv = t@;
        push_string(&mut vals, t);
        proof {
            lemma_step_prefix_twice(before, seq![tvv], tokens_until_close(tv, *pos + 1));
            assert(vals.deep_view() =~= before + seq![tvv]);
        }
        *pos = *pos + 1;
    }
}

fn read_columns_until_from(toks: &Vec<String>, pos: &mut usize) -> (r: Result<Vec<String>, Halt>)
    requires
        *old(pos) <= toks@.len(),
    ensures
        *final(pos) <= toks@.len(),
        halts_as(r, columns_until_from(toks.deep_view(), *old(pos) as int), *final(pos) as int),
{
    let ghost tv = toks.deep_view();
    let ghost start = *pos as int;
    let mut cols: Vec<String> = Vec::new();
    loop
        invariant
            tv == toks.deep_view(),
            start == *old(pos) as int,
            *pos <= toks@.len(),
            columns_until_from(tv, start) == step_prefix(cols.deep_view(), columns_until_from(tv, *pos as int)),
        decreases toks@.len() - *pos,
    {
        if *pos >= toks.len() {
            return refuse("Unexpected end in SELECT columns");
        }
        if tok_is(toks, *pos, ",") {
            *pos = *pos + 1;
        } else {
            let t = token(toks, *pos);
            let ghost before = cols.deep_view();
            let ghost tvv = t@;
            push_string(&mut cols, t);
            if at_kw(toks, *pos + 1, "from") {
                *pos = *pos + 1;
                proof {
                    assert(before + seq![tvv] =~= cols.deep_view());
                }
                return Ok(cols);
            }
            proof {
                lemma_step_prefix_twice(before, seq![tvv], columns_until_from(tv, *pos + 1));
                assert(cols.deep_view() =~= before + seq![tvv]);
            }
            *pos = *pos + 1;
        }
    }
}

proof fn lemma_first_dup_prefix(cols: Seq<Seq<char>>, k: int)
    requires
        0 <= k <= cols.len(),
        first_dup(cols.take(k)) is Some,
    ensures
        first_dup(cols) == first_dup(cols.take(k)),
    decreases cols.len() - k,
{
    if k == cols.len() {
        assert(cols.take(k) =~= cols);
    } else {
        assert(cols.take(k + 1).drop_last() =~= cols.take(k));
        lemma_first_dup_prefix(cols, k + 1);
    }
}

/// The first name of `cols` that an earlier one repeats.
fn find_duplicate(cols: &Vec<String>) -> (r: Option<String>)
    ensures
        match first_dup(cols.deep_view()) {
            Some(c) => r matches Some(x) && x@ == c,
            None => r is None,
        },
{
    let ghost cv = cols.deep_view();
    let mut i: usize = 0;
    while i < cols.len()
        invariant
            i <= cols@.len(),
            cv == cols.deep_view(),
            first_dup(cv.take(i as int)) is None,
        decreases cols@.len() - i,
    {
        let mut j: usize = 0;
        while j < i
            invariant
                j <= i < cols@.len(),
                cv == cols.deep_view(),
                first_dup(cv.take(i as int)) is None,
                forall|k: int| 0 <= k < j ==> cv[k] != cv[i as int],
            decreases i - j,
        {
            proof {
                assert(cv[j as int] == cols@[j as int]@);
                assert(cv[i as int] == cols@[i as int]@);
            }
            if str_eq(cols[j].as_str(), cols[i].as_str()) {
                proof {
                    let pre = cv.take(i + 1);
                    assert(pre.drop_last() =~= cv.take(i as int));
                    assert(pre.drop_last()[j as int] == pre.last());
                    assert(pre.drop_last().contains(pre.last()));
                    assert(first_dup(pre) == Some(cv[i as int]));
                    lemma_first_dup_prefix(cv, i + 1);
                }
                return Some(cols[i].clone());
            }
            j = j + 1;
        }
        proof {
            let pre = cv.take(i + 1);
            assert(pre.drop_last() =~= cv.take(i as int));
            assert(!pre.drop_last().contains(pre.last())) by {
                if pre.drop_last().contains(pre.last()) {
                    let k = choose|k: int| 0 <= k < pre.drop_last().len() && pre.drop_last()[k] == pre.last();
                    assert(cv[k] == cv[i as int]);
                }
            }
        }
        i = i + 1;
    }
    proof {
        assert(cv.take(cols@.len() as int) =~= cv);
    }
    None
}


/// The comparison operator that `op` writes.
fn operator_from(op: &str) -> (r: Option<ComparisonOp>)
    ensures
        r == operator_of(op@),
{
    if str_eq(op, "=") {
        Some(ComparisonOp::Eq)
    } else if str_eq(op, "!=") || str_eq(op, "<>") {
        Some(ComparisonOp::Ne)
    } else if str_eq(op, "<") {
        Some(ComparisonOp::Lt)
    } else if str_eq(op, ">") {
        Some(ComparisonOp::Gt)
    } else if str_eq(op, "<=") {
        Some(ComparisonOp::Le)
    } else if str_eq(op, ">=") {
        Some(ComparisonOp::Ge)
    } else {
        let low = to_lowercase(op);
        if str_eq(low.as_str(), "like") {
            Some(ComparisonOp::Like)
        } else {
            None
        }
    }
}

/// Reads a filter: comparisons joined by AND or OR, grouped to the right.
fn parse_where_clause(toks: &Vec<String>, pos: &mut usize) -> (r: Result<WhereClause, Halt>)
    requires
        *old(pos) <= toks@.len(),
    ensures
        *final(pos) <= toks@.len(),
        halts_as(r, clause_at(toks.deep_view(), *old(pos) as int), *final(pos) as int),
    decreases toks@.len() - *old(pos),
{
    let p = *pos;
    if p >= toks.len() {
        return refuse("Missing column in WHERE");
    }
    if p >= toks.len() || p + 1 >= toks.len() {
        return refuse("Missing operator in WHERE");
    }
    if p + 2 >= toks.len() {
        return refuse("Missing value in WHERE");
    }
    let column = token(toks, p);
    let op = token(toks, p + 1);
    let raw = token(toks, p + 2);
    let operator = match operator_from(op.as_str()) {
        Some(o) => o,
        None => {
            return Err(Halt::Fail(Error::Parse(concat_str("Unknown operator: ", op.as_str()))));
        },
    };
    let u = match unquote_checked(raw.as_str()) {
        Some(u) => u,
        None => {
            return Err(Halt::Panic);
        },
    };
    let ghost tv = toks.deep_view();
    let ghost cm = ClauseModel::Condition { column: tv[p as int], operator, value: Cell::Text(u@) };
    let cond = WhereClause::Condition { column, operator, value: Value::Text(u) };
    assert(cond.deep_view() == cm);
    *pos = p + 3;
    if at_kw(toks, p + 3, "and") {
        *pos = p + 4;
        let right = match parse_where_clause(toks, pos) {
            Ok(c) => c,
            Err(h) => {
                return Err(h);
            },
        };
        let r = WhereClause::And(Box::new(cond), Box::new(right));
        proof {
            let rm = right.deep_view();
            assert(r.deep_view() == ClauseModel::And(Box::new(cm), Box::new(rm)));
            assert(clause_at(tv, p + 4) matches Step::Read(x, q) && x == rm && q == *pos);
        }
        return Ok(r);
    }
    if at_kw(toks, p + 3, "or") {
        *pos = p + 4;
        let right = match parse_where_clause(toks, pos) {
            Ok(c) => c,
            Err(h) => {
                return Err(h);
            },
        };
        let r = WhereClause::Or(Box::new(cond), Box::new(right));
        proof {
            let rm = right.deep_view();
            assert(r.deep_view() == ClauseModel::Or(Box::new(cm), Box::new(rm)));
            assert(clause_at(tv, p + 4) matches Step::Read(x, q) && x == rm && q == *pos);
        }
        return Ok(r);
    }
    Ok(cond)
}

fn parse_create(toks: &Vec<String>, pos: &mut usize) -> (r: Result<Statement, Halt>)
    requires
        *old(pos) <= toks@.len(),
    ensures
        *final(pos) <= toks@.len(),
        halts_as(r, create_at(toks.deep_view(), *old(pos) as int), *final(pos) as int),
{
    let p = *pos;
    if !at_kw(toks, p, "table") {
        return refuse("Expected 'TABLE' after CREATE");
    }
    assert(toks.deep_view().len() == toks@.len());
    if p >= toks.len() || p + 1 >= toks.len() {
        return refuse("Missing table name");
    }
    let name = token(toks, p + 1);
    if !tok_is(toks, p + 2, "(") {
        return refuse("Missing '(' after table name");
    }
    *pos = p + 3;
    let columns = match read_columns_until_close(toks, pos) {
        Ok(c) => c,
        Err(h) => {
            return Err(h);
        },
    };
    match find_duplicate(&columns) {
        Some(c) => Err(Halt::Fail(Error::DuplicateColumn(c))),
        None => Ok(Statement::CreateTable { name, columns }),
    }
}

/// The text values of the unquoted pieces, or `None` for a lone quote.
fn text_values_checked(raw: &Vec<String>) -> (r: Option<Vec<Value>>)
    ensures
        match crate::engine::compiler::unquoted_cells(raw.deep_view()) {
            Some(cells) => r matches Some(v) && v.deep_view() == cells,
            None => r is None,
        },
{
    let ghost rv = raw.deep_view();
    let mut out: Vec<Value> = Vec::new();
    let mut i: usize = 0;
    while i < raw.len()
        invariant
            i <= raw@.len(),
            rv == raw.deep_view(),
            forall|k: int| 0 <= k < i ==> unquote_spec(#[trigger] rv[k]) is Some,
            out.deep_view() == Seq::new(i as nat, |k: int| Cell::Text(unquote_spec(rv[k])->0)),
        decreases raw@.len() - i,
    {
        proof {
            assert(rv[i as int] == raw@[i as int]@);
        }
        let u = match unquote_checked(raw[i].as_str()) {
            Some(u) => u,
            None => {
                proof {
                    assert(exists|k: int| 0 <= k < rv.len() && #[trigger] unquote_spec(rv[k]) is None);
                }
                return None;
            },
        };
        let ghost before = out.deep_view();
        let ghost uv = u@;
        out.push(Value::Text(u));
        proof {
            assert(out.deep_view() =~= before.push(Cell::Text(uv)));
            assert(out.deep_view() =~= Seq::new((i + 1) as nat, |k: int| Cell::Text(unquote_spec(rv[k])->0)));
        }
        i = i + 1;
    }
    proof {
        assert(!exists|k: int| 0 <= k < rv.len() && #[trigger] unquote_spec(rv[k]) is None);
    }
    Some(out)
}

fn parse_insert(toks: &Vec<String>, pos: &mut usize) -> (r: Result<Statement, Halt>)
    requires
        *old(pos) <= toks@.len(),
    ensures
        *final(pos) <= toks@.len(),
        halts_as(r, insert_at(toks.deep_view(), *old(pos) as int), *final(pos) as int),
{
    let p = *pos;
    if !at_kw(toks, p, "into") {
        return refuse("Expected 'INTO' after INSERT");
    }
    assert(toks.deep_view().len() == toks@.len());
    if p >= toks.len() || p + 1 >= toks.len() {
        return refuse("Missing table name");
    }
    let table = token(toks, p + 1);
    if !at_kw(toks, p + 2, "values") {
        return refuse("Expected 'VALUES' after table name");
    }
    if !tok_is(toks, p + 3, "(") {
        return refuse("Missing '(' after VALUES");
    }
    *pos = p + 4;
    let vals = match read_tokens_until_close(toks, pos) {
        Ok(v) => v,
        Err(h) => {
            return Err(h);
        },
    };
    let joined = crate::text::join_strings(&vals, "");
    let raw = split_quoted(joined.as_str(), '|');
    match text_values_checked(&raw) {
        Some(values) => Ok(Statement::Insert { table, values }),
        None => Err(Halt::Panic),
    }
}

fn parse_select(toks: &Vec<String>, pos: &mut usize) -> (r: Result<Statement, Halt>)
    requires
        *old(pos) <= toks@.len(),
    ensures
        *final(pos) <= toks@.len(),
        halts_as(r, select_at(toks.deep_view(), *old(pos) as int), *final(pos) as int),
{
    let columns = match read_columns_until_from(toks, pos) {
        Ok(c) => c,
        Err(h) => {
            return Err(h);
        },
    };
    let q = *pos;
    if q >= toks.len() || q + 1 >= toks.len() {
        return refuse("Missing table name after FROM");
    }
    let table = token(toks, q + 1);
    if at_kw(toks, q + 2, "where") {
        *pos = q + 3;
        let condition = match parse_where_clause(toks, pos) {
            Ok(c) => c,
            Err(h) => {
                return Err(h);
            },
        };
        Ok(Statement::Select { columns, table, condition: Some(condition) })
    } else {
        *pos = q + 2;
        Ok(Statement::Select { columns, table, condition: None })
    }
}

fn parse_update(toks: &Vec<String>, pos: &mut usize) -> (r: Result<Statement, Halt>)
    requires
        *old(pos) <= toks@.len(),
    ensures
        *final(pos) <= toks@.len(),
        halts_as(r, update_at(toks.deep_view(), *old(pos) as int), *final(pos) as int),
{
    let p = *pos;
    if p >= toks.len() {
        return refuse("Missing table name in UPDATE");
    }
    let table = token(toks, p);
    if !at_kw(toks, p + 1, "set") {
        return refuse("Expected 'SET' in UPDATE");
    }
    if p + 2 >= toks.len() {
        return refuse("Missing column in SET");
    }
    let set_col = token(toks, p + 2);
    if !tok_is(toks, p + 3, "=") {
        return refuse("Expected '=' in SET");
    }
    if p + 4 >= toks.len() {
        return refuse("Missing value in SET");
    }
    let raw = token(toks, p + 4);
    let u = match unquote_checked(raw.as_str()) {
        Some(u) => u,
        None => {
            return Err(Halt::Panic);
        },
    };
    if !at_kw(toks, p + 5, "where") {
        return refuse("Expected 'WHERE' in UPDATE");
    }
    *pos = p + 6;
    let condition = match parse_where_clause(toks, pos) {
        Ok(c) => c,
        Err(h) => {
            return Err(h);
        },
    };
    Ok(Statement::Update { table, set_col, set_val: Value::Text(u), condition })
}

fn parse_delete(toks: &Vec<String>, pos: &mut usize) -> (r: Result<Statement, Halt>)
    requires
        *old(pos) <= toks@.len(),
    ensures
        *final(pos) <= toks@.len(),
        halts_as(r, delete_at(toks.deep_view(), *old(pos) as int), *final(pos) as int),
{
    let p = *pos;
    if !at_kw(toks, p, "from") {
        return refuse("Expected 'FROM' in DELETE");
    }
    assert(toks.deep_view().len() == toks@.len());
    if p >= toks.len() || p + 1 >= toks.len() {
        return refuse("Missing table name in DELETE");
    }
    let table = token(toks, p + 1);
    if !at_kw(toks, p + 2, "where") {
        return refuse("Expected 'WHERE' in DELETE");
    }
    *pos = p + 3;
    let condition = match parse_where_clause(toks, pos) {
        Ok(c) => c,
        Err(h) => {
            return Err(h);
        },
    };
    Ok(Statement::Delete { table, condition })
}

/// A whole command from its tokens.
fn read_statement(toks: &Vec<String>) -> (r: Result<Statement, Halt>)
    ensures
        exists|q: int| halts_as(r, statement_of(toks.deep_view()), q),
{
    let mut pos: usize = 1;
    if toks.len() == 0 {
        let r = refuse("Empty query");
        assert(halts_as(r, statement_of(toks.deep_view()), 0));
        return r;
    }
    let r = if tok_is(toks, 0, "create") {
        parse_create(toks, &mut pos)
    } else if tok_is(toks, 0, "insert") {
        parse_insert(toks, &mut pos)
    } else if tok_is(toks, 0, "select") {
        parse_select(toks, &mut pos)
    } else if tok_is(toks, 0, "update") {
        parse_update(toks, &mut pos)
    } else if tok_is(toks, 0, "delete") {
        parse_delete(toks, &mut pos)
    } else {
        let first = token(toks, 0);
        Err(Halt::Fail(Error::Parse(concat_str("Unknown command: ", first.as_str()))))
    };
    assert(halts_as(r, statement_of(toks.deep_view()), pos as int));
    r
}

/// Whether `r` is the command, or the error, that `o` describes.
pub open spec fn parsed_as(r: Result<Statement, Error>, o: Step<StatementModel>) -> bool {
    match o {
        Step::Read(m, _) => r matches Ok(v) && v@ == m,
        Step::Refused(msg) => r matches Err(Error::Parse(e)) && e@ == msg,
        Step::Duplicate(c) => r matches Err(Error::DuplicateColumn(e)) && e@ == c,
        Step::Stuck => false,
    }
}

/// Reads one command of the token form.
pub fn parse(sql: &str) -> (r: Result<Statement, Error>)
    requires
        !(parse_outcome(sql@) is Stuck),
    ensures
        parsed_as(r, parse_outcome(sql@)),
{
    let tokens = tokenize(sql);
    match read_statement(&tokens) {
        Ok(st) => Ok(st),
        Err(Halt::Fail(e)) => Err(e),
        Err(Halt::Panic) => unreached(),
    }
}

/// Reads one command of the token form, or gives `None` for the commands
/// that [`parse`] cannot finish: a character that starts no token, or a
/// lone quote to unquote.
pub fn parse_checked(sql: &str) -> (r: Option<Result<Statement, Error>>)
    ensures
        r is None <==> parse_outcome(sql@) is Stuck,
        r matches Some(x) ==> parsed_as(x, parse_outcome(sql@)),
{
    let tokens = match tokenize_checked(sql) {
        Some(t) => t,
        None => {
            return None;
        },
    };
    match read_statement(&tokens) {
        Ok(st) => Some(Ok(st)),
        Err(Halt::Fail(e)) => Some(Err(e)),
        Err(Halt::Panic) => None,
    }
}

} // verus!
