//! Tokenizer and recursive-descent parser of the command language.
use vstd::prelude::*;
use crate::error::Error;
use crate::syntax::{Expr, ExprModel, Statement, StatementModel};
use crate::text::{
    alphanumeric, chars_of, concat_str, is_alphanumeric, is_whitespace, is_ws, lowercase,
    slice_chars, str_eq, string_of, to_lowercase,
};
use crate::types::{literal_cell, Cell, Value};

verus! {

// ---------------------------------------------------------------------------
// Lexical structure
// ---------------------------------------------------------------------------

/// Characters that make up comparison operators.
pub open spec fn is_op_char(c: char) -> bool {
    c == '!' || c == '<' || c == '>' || c == '=' || c == '|'
}

/// Characters that are a token on their own.
pub open spec fn is_punct(c: char) -> bool {
    c == '(' || c == ')' || c == ',' || c == '*' || c == ';'
}

/// Characters of names and bare literals.
pub open spec fn is_word_char(c: char) -> bool {
    alphanumeric(c) || c == '_' || c == '-' || c == '.'
}

/// The end of the run of operator characters that starts at `i`.
pub open spec fn op_run_end(s: Seq<char>, i: int) -> int
    decreases s.len() - i,
{
    if 0 <= i < s.len() && is_op_char(s[i]) {
        op_run_end(s, i + 1)
    } else {
        i
    }
}

/// The end of the run of word characters that starts at `i`.
pub open spec fn word_run_end(s: Seq<char>, i: int) -> int
    decreases s.len() - i,
{
    if 0 <= i < s.len() && is_word_char(s[i]) {
        word_run_end(s, i + 1)
    } else {
        i
    }
}

/// The end of a quoted literal whose body starts at `j`: just past the
/// closing quote, or the end of the input when there is none. A doubled
/// quote stands for one quote inside the literal.
pub open spec fn quote_end(s: Seq<char>, j: int) -> int
    decreases s.len() - j,
{
    if j < 0 || j >= s.len() {
        s.len() as int
    } else if s[j] == '\'' {
        if j + 1 < s.len() && s[j + 1] == '\'' {
            quote_end(s, j + 2)
        } else {
            j + 1
        }
    } else {
        quote_end(s, j + 1)
    }
}

pub proof fn lemma_op_run_end(s: Seq<char>, i: int)
    requires
        0 <= i <= s.len(),
    ensures
        i <= op_run_end(s, i) <= s.len(),
        forall|k: int| i <= k < op_run_end(s, i) ==> is_op_char(#[trigger] s[k]),
        op_run_end(s, i) < s.len() ==> !is_op_char(s[op_run_end(s, i)]),
    decreases s.len() - i,
{
    if i < s.len() && is_op_char(s[i]) {
        lemma_op_run_end(s, i + 1);
    }
}

pub proof fn lemma_word_run_end(s: Seq<char>, i: int)
    requires
        0 <= i <= s.len(),
    ensures
        i <= word_run_end(s, i) <= s.len(),
        forall|k: int| i <= k < word_run_end(s, i) ==> is_word_char(#[trigger] s[k]),
        word_run_end(s, i) < s.len() ==> !is_word_char(s[word_run_end(s, i)]),
    decreases s.len() - i,
{
    if i < s.len() && is_word_char(s[i]) {
        lemma_word_run_end(s, i + 1);
    }
}

pub proof fn lemma_quote_end(s: Seq<char>, j: int)
    requires
        0 <= j <= s.len(),
    ensures
        j <= quote_end(s, j) <= s.len(),
    decreases s.len() - j,
{
    if j < s.len() {
        if s[j] == '\'' {
            if j + 1 < s.len() && s[j + 1] == '\'' {
                lemma_quote_end(s, j + 2);
            }
        } else {
            lemma_quote_end(s, j + 1);
        }
    }
}

/// `t` in front of the tokens `rest`, when the rest could be read.
pub open spec fn cons_token(t: Seq<char>, rest: Option<Seq<Seq<char>>>) -> Option<Seq<Seq<char>>> {
    match rest {
        Some(r) => Some(seq![t] + r),
        None => None,
    }
}

/// The tokens `pre` in front of the tokens `rest`, when the rest could be read.
pub open spec fn cons_all(pre: Seq<Seq<char>>, rest: Option<Seq<Seq<char>>>) -> Option<Seq<Seq<char>>> {
    match rest {
        Some(r) => Some(pre + r),
        None => None,
    }
}

/// The tokens of `s` from index `i` on; `None` when the tokenizer meets a
/// character that starts no token (it would never get past it).
pub open spec fn tokens_from(s: Seq<char>, i: int) -> Option<Seq<Seq<char>>>
    decreases s.len() - i,
{
    if i < 0 || i >= s.len() {
        Some(Seq::empty())
    } else if is_ws(s[i]) {
        tokens_from(s, i + 1)
    } else if s[i] == '\'' {
        let e = quote_end(s, i + 1);
        proof {
            lemma_quote_end(s, i + 1);
        }
        cons_token(s.subrange(i, e), tokens_from(s, e))
    } else if is_op_char(s[i]) {
        let e = op_run_end(s, i);
        proof {
            lemma_op_run_end(s, i);
            lemma_op_run_end(s, i + 1);
        }
        cons_token(s.subrange(i, e), tokens_from(s, e))
    } else if is_punct(s[i]) {
        cons_token(seq![s[i]], tokens_from(s, i + 1))
    } else {
        let e = word_run_end(s, i);
        proof {
            lemma_word_run_end(s, i);
            lemma_word_run_end(s, i + 1);
        }
        if e == i {
            None
        } else {
            cons_token(s.subrange(i, e), tokens_from(s, e))
        }
    }
}

/// The tokens of `s`, when every character of it can be read.
pub open spec fn tokens_of(s: Seq<char>) -> Option<Seq<Seq<char>>> {
    tokens_from(s, 0)
}

fn is_op_character(c: char) -> (r: bool)
    ensures
        r == is_op_char(c),
{
    c == '!' || c == '<' || c == '>' || c == '=' || c == '|'
}

fn is_punct_character(c: char) -> (r: bool)
    ensures
        r == is_punct(c),
{
    c == '(' || c == ')' || c == ',' || c == '*' || c == ';'
}

fn is_word_character(c: char) -> (r: bool)
    ensures
        r == is_word_char(c),
{
    is_alphanumeric(c) || c == '_' || c == '-' || c == '.'
}

/// Splits a command into tokens: quoted literals (quotes kept, a doubled
/// quote kept doubled), runs of operator characters, single punctuation
/// characters and runs of word characters; whitespace separates tokens.
pub fn tokenize(sql: &str) -> (r: Vec<String>)
    requires
        tokens_of(sql@) is Some,
    ensures
        Some(r.deep_view()) == tokens_of(sql@),
{
    match tokenize_checked(sql) {
        Some(v) => v,
        None => Vec::new(),
    }
}

/// The tokens of `sql`, or `None` where a character starts no token (the
/// place where [`tokenize`] would never get past).
pub fn tokenize_checked(sql: &str) -> (r: Option<Vec<String>>)
    ensures
        match r {
            Some(v) => tokens_of(sql@) == Some(v.deep_view()),
            None => tokens_of(sql@) is None,
        },
{
    let cs = chars_of(sql);
    let n = cs.len();
    let ghost s = sql@;
    let mut tokens: Vec<String> = Vec::new();
    let mut i: usize = 0;
    while i < n
        invariant
            n == cs.len(),
            cs@ == s,
            s == sql@,
            i <= n,
            tokens_of(s) == cons_all(tokens.deep_view(), tokens_from(s, i as int)),
        decreases n - i,
    {
        let ch = cs[i];
        if is_whitespace(ch) {
            i = i + 1;
        } else if ch == '\'' {
            proof {
                lemma_quote_end(s, i + 1);
            }
            let mut j: usize = i + 1;
            let mut e: usize = n;
            while j < n
                invariant_except_break
                    i < j <= n,
                    e == n,
                    quote_end(s, j as int) == quote_end(s, i + 1),
                invariant
                    n == cs.len(),
                    cs@ == s,
                    i < n,
                ensures
                    e == quote_end(s, i + 1),
                decreases n - j,
            {
                if cs[j] == '\'' {
                    if j + 1 < n && cs[j + 1] == '\'' {
                        j = j + 2;
                    } else {
                        e = j + 1;
                        break;
                    }
                } else {
                    j = j + 1;
                }
            }
            proof {
                lemma_quote_end(s, i + 1);
            }
            let piece = slice_chars(cs.as_slice(), i, e);
            let tok = string_of(piece.as_slice());
            let ghost before = tokens.deep_view();
            tokens.push(tok);
            proof {
                assert(tokens.deep_view() == before.push(tok@));
                if let Some(rest) = tokens_from(s, e as int) {
                    assert(before.push(tok@) + rest == before + (seq![tok@] + rest));
                }
            }
            i = e;
        } else if is_op_character(ch) {
            let mut e: usize = i;
            while e < n && is_op_character(cs[e])
                invariant
                    n == cs.len(),
                    cs@ == s,
                    i <= e <= n,
                    op_run_end(s, e as int) == op_run_end(s, i as int),
                decreases n - e,
            {
                e = e + 1;
            }
            proof {
                lemma_op_run_end(s, i as int);
                lemma_op_run_end(s, i + 1);
            }
            let piece = slice_chars(cs.as_slice(), i, e);
            let tok = string_of(piece.as_slice());
            let ghost before = tokens.deep_view();
            tokens.push(tok);
            proof {
                assert(tokens.deep_view() == before.push(tok@));
                if let Some(rest) = tokens_from(s, e as int) {
                    assert(before.push(tok@) + rest == before + (seq![tok@] + rest));
                }
            }
            i = e;
        } else if is_punct_character(ch) {
            let piece = slice_chars(cs.as_slice(), i, i + 1);
            let tok = string_of(piece.as_slice());
            let ghost before = tokens.deep_view();
            tokens.push(tok);
            proof {
                assert(tok@ == seq![ch]);
                assert(tokens.deep_view() == before.push(tok@));
                if let Some(rest) = tokens_from(s, i + 1) {
                    assert(before.push(tok@) + rest == before + (seq![tok@] + rest));
                }
            }
            i = i + 1;
        } else {
            let mut e: usize = i;
            while e < n && is_word_character(cs[e])
                invariant
                    n == cs.len(),
                    cs@ == s,
                    i <= e <= n,
                    word_run_end(s, e as int) == word_run_end(s, i as int),
                decreases n - e,
            {
                e = e + 1;
            }
            proof {
                lemma_word_run_end(s, i as int);
                lemma_word_run_end(s, i + 1);
            }
            if e == i {
                proof {
                    assert(!is_ws(s[i as int]) && s[i as int] != '\'' && !is_op_char(s[i as int])
                        && !is_punct(s[i as int]));
                    assert(tokens_from(s, i as int) is None);
                }
                return None;
            }
            let piece = slice_chars(cs.as_slice(), i, e);
            let tok = string_of(piece.as_slice());
            let ghost before = tokens.deep_view();
            tokens.push(tok);
            proof {
                assert(tokens.deep_view() == before.push(tok@));
                if let Some(rest) = tokens_from(s, e as int) {
                    assert(before.push(tok@) + rest == before + (seq![tok@] + rest));
                }
            }
            i = e;
        }
    }
    proof {
        assert(tokens.deep_view() + Seq::<Seq<char>>::empty() == tokens.deep_view());
    }
    Some(tokens)
}


// ---------------------------------------------------------------------------
// Grammar
// ---------------------------------------------------------------------------

/// What reading a part of a command from a token position gives.
pub enum Reading<T> {
    /// The part, and the position just after it.
    Read(T, int),
    /// A parse error with this message.
    Refused(Seq<char>),
    /// The reader panics: a quoted literal that is a lone quote.
    Stuck,
}

/// `pre` in front of what was read.
pub open spec fn with_prefix<A>(pre: Seq<A>, r: Reading<Seq<A>>) -> Reading<Seq<A>> {
    match r {
        Reading::Read(x, q) => Reading::Read(pre + x, q),
        Reading::Refused(m) => Reading::Refused(m),
        Reading::Stuck => Reading::Stuck,
    }
}

pub proof fn lemma_with_prefix_twice<A>(a: Seq<A>, b: Seq<A>, r: Reading<Seq<A>>)
    ensures
        with_prefix(a, with_prefix(b, r)) == with_prefix(a + b, r),
{
    if let Reading::Read(x, q) = r {
        assert(a + (b + x) =~= (a + b) + x);
    }
}

/// The token at position `p`, if there is one.
pub open spec fn tok_at(toks: Seq<Seq<char>>, p: int) -> Option<Seq<char>> {
    if 0 <= p < toks.len() {
        Some(toks[p])
    } else {
        None
    }
}

/// The message when the tokens run out.
pub open spec fn end_msg() -> Seq<char> {
    "Unexpected end of input"@
}

/// The message when `found` stands where `expected` was due.
pub open spec fn expected_msg(expected: Seq<char>, found: Seq<char>) -> Seq<char> {
    "Expected '"@ + expected + "', found '"@ + found + "'"@
}

/// Whether token `t` is the keyword `kw`, ignoring case.
pub open spec fn is_kw(t: Seq<char>, kw: Seq<char>) -> bool {
    lowercase(t) == lowercase(kw)
}

/// The position after the keyword `kw` at `p`, or the message.
pub open spec fn expect_at(toks: Seq<Seq<char>>, p: int, kw: Seq<char>) -> Result<int, Seq<char>> {
    match tok_at(toks, p) {
        None => Err(end_msg()),
        Some(t) => if is_kw(t, kw) {
            Ok(p + 1)
        } else {
            Err(expected_msg(kw, t))
        },
    }
}

/// `s` with each doubled quote, read from the left, made single.
pub open spec fn undouble(s: Seq<char>) -> Seq<char>
    decreases s.len(),
{
    if s.len() == 0 {
        s
    } else if s.len() >= 2 && s[0] == '\'' && s[1] == '\'' {
        seq!['\''] + undouble(s.skip(2))
    } else {
        seq![s[0]] + undouble(s.skip(1))
    }
}

/// The value a literal token stands for: the body of a quoted literal
/// with doubled quotes made single, else an integer or bare text.
/// `None` for a lone quote, on which the reader panics.
pub open spec fn value_token(t: Seq<char>) -> Option<Cell> {
    if t.len() > 0 && t[0] == '\'' && t[t.len() - 1] == '\'' {
        if t.len() < 2 {
            None
        } else {
            Some(Cell::Text(undouble(t.subrange(1, t.len() - 1))))
        }
    } else {
        Some(literal_cell(t))
    }
}

/// Column names up to the closing parenthesis; commas are skipped.
pub open spec fn names_until_close(toks: Seq<Seq<char>>, q: int) -> Reading<Seq<Seq<char>>>
    decreases toks.len() - q,
{
    if 0 <= q < toks.len() {
        let t = toks[q];
        if t == ")"@ {
            Reading::Read(Seq::empty(), q + 1)
        } else if t == ","@ {
            names_until_close(toks, q + 1)
        } else {
            with_prefix(seq![t], names_until_close(toks, q + 1))
        }
    } else {
        Reading::Refused(end_msg())
    }
}

/// Values up to the closing parenthesis; commas are skipped.
pub open spec fn values_until_close(toks: Seq<Seq<char>>, q: int) -> Reading<Seq<Cell>>
    decreases toks.len() - q,
{
    if 0 <= q < toks.len() {
        let t = toks[q];
        if t == ")"@ {
            Reading::Read(Seq::empty(), q + 1)
        } else if t == ","@ {
            values_until_close(toks, q + 1)
        } else {
            match value_token(t) {
                None => Reading::Stuck,
                Some(v) => with_prefix(seq![v], values_until_close(toks, q + 1)),
            }
        }
    } else {
        Reading::Refused(end_msg())
    }
}

/// Selected column names up to the keyword FROM.
pub open spec fn names_until_from(toks: Seq<Seq<char>>, q: int) -> Reading<Seq<Seq<char>>>
    decreases toks.len() - q,
{
    if 0 <= q < toks.len() {
        let t = toks[q];
        if lowercase(t) == "from"@ {
            Reading::Read(Seq::empty(), q + 1)
        } else {
            with_prefix(seq![t], names_until_from(toks, q + 1))
        }
    } else {
        Reading::Refused(end_msg())
    }
}

/// The comparison that operator `op` makes of column `col` with `v`.
pub open spec fn comparison(op: Seq<char>, col: Seq<char>, v: Cell) -> Option<ExprModel> {
    if op == "="@ {
        Some(ExprModel::Eq(col, v))
    } else if op == "!="@ || op == "<>"@ {
        Some(ExprModel::Ne(col, v))
    } else if op == ">"@ {
        Some(ExprModel::Gt(col, v))
    } else if op == ">="@ {
        Some(ExprModel::Ge(col, v))
    } else if op == "<"@ {
        Some(ExprModel::Lt(col, v))
    } else if op == "<="@ {
        Some(ExprModel::Le(col, v))
    } else if lowercase(op) == "like"@ {
        Some(ExprModel::Like(col, v))
    } else {
        None
    }
}

/// A filter from position `p`: a comparison `column op value`, then
/// optionally AND or OR and a further filter (both group to the right).
pub open spec fn expr_at(toks: Seq<Seq<char>>, p: int) -> Reading<ExprModel>
    decreases toks.len() - p,
{
    if !(0 <= p < toks.len()) || !(p + 1 < toks.len()) || !(p + 2 < toks.len()) {
        Reading::Refused(end_msg())
    } else {
        let col = toks[p];
        let op = toks[p + 1];
        match value_token(toks[p + 2]) {
            None => Reading::Stuck,
            Some(v) => match comparison(op, col, v) {
                None => Reading::Refused("Unknown operator: "@ + op),
                Some(left) => if p + 3 < toks.len() && lowercase(toks[p + 3]) == "and"@ {
                    match expr_at(toks, p + 4) {
                        Reading::Read(right, q) => Reading::Read(
                            ExprModel::And(Box::new(left), Box::new(right)),
                            q,
                        ),
                        Reading::Refused(m) => Reading::Refused(m),
                        Reading::Stuck => Reading::Stuck,
                    }
                } else if p + 3 < toks.len() && lowercase(toks[p + 3]) == "or"@ {
                    match expr_at(toks, p + 4) {
                        Reading::Read(right, q) => Reading::Read(
                            ExprModel::Or(Box::new(left), Box::new(right)),
                            q,
                        ),
                        Reading::Refused(m) => Reading::Refused(m),
                        Reading::Stuck => Reading::Stuck,
                    }
                } else {
                    Reading::Read(left, p + 3)
                },
            },
        }
    }
}

/// `CREATE TABLE name ( columns )` or `CREATE DATABASE name`, after CREATE.
pub open spec fn create_at(toks: Seq<Seq<char>>, p: int) -> Reading<StatementModel> {
    match tok_at(toks, p) {
        None => Reading::Refused(end_msg()),
        Some(t) => if lowercase(t) == "table"@ {
            match tok_at(toks, p + 1) {
                None => Reading::Refused(end_msg()),
                Some(name) => match expect_at(toks, p + 2, "("@) {
                    Err(m) => Reading::Refused(m),
                    Ok(q) => match names_until_close(toks, q) {
                        Reading::Read(cols, r) => Reading::Read(
                            StatementModel::CreateTable { name, columns: cols },
                            r,
                        ),
                        Reading::Refused(m) => Reading::Refused(m),
                        Reading::Stuck => Reading::Stuck,
                    },
                },
            }
        } else if lowercase(t) == "database"@ {
            match tok_at(toks, p + 1) {
                None => Reading::Refused(end_msg()),
                Some(name) => Reading::Read(StatementModel::CreateDatabase(name), p + 2),
            }
        } else {
            Reading::Refused("Expected 'TABLE' or 'DATABASE' after CREATE"@)
        },
    }
}

/// `DROP TABLE name` or `DROP DATABASE name`, after DROP.
pub open spec fn drop_at(toks: Seq<Seq<char>>, p: int) -> Reading<StatementModel> {
    match tok_at(toks, p) {
        None => Reading::Refused(end_msg()),
        Some(t) => if lowercase(t) == "table"@ {
            match tok_at(toks, p + 1) {
                None => Reading::Refused(end_msg()),
                Some(name) => Reading::Read(StatementModel::DropTable(name), p + 2),
            }
        } else if lowercase(t) == "database"@ {
            match tok_at(toks, p + 1) {
                None => Reading::Refused(end_msg()),
                Some(name) => Reading::Read(StatementModel::DropDatabase(name), p + 2),
            }
        } else {
            Reading::Refused("Expected 'TABLE' or 'DATABASE' after DROP"@)
        },
    }
}

/// `SHOW TABLES` or `SHOW DATABASES`, after SHOW.
pub open spec fn show_at(toks: Seq<Seq<char>>, p: int) -> Reading<StatementModel> {
    match tok_at(toks, p) {
        None => Reading::Refused(end_msg()),
        Some(t) => if lowercase(t) == "tables"@ {
            Reading::Read(StatementModel::ShowTables, p + 1)
        } else if lowercase(t) == "databases"@ {
            Reading::Read(StatementModel::ShowDatabases, p + 1)
        } else {
            Reading::Refused("Expected 'TABLES' or 'DATABASES' after SHOW"@)
        },
    }
}

/// `USE name`, after USE.
pub open spec fn use_at(toks: Seq<Seq<char>>, p: int) -> Reading<StatementModel> {
    match tok_at(toks, p) {
        None => Reading::Refused(end_msg()),
        Some(name) => Reading::Read(StatementModel::UseDatabase(name), p + 1),
    }
}

/// `TABLE name` after BACKUP or CHECK: the table's name and the position after it.
pub open spec fn table_name_at(toks: Seq<Seq<char>>, p: int) -> Reading<Seq<char>> {
    match expect_at(toks, p, "table"@) {
        Err(m) => Reading::Refused(m),
        Ok(q) => match tok_at(toks, q) {
            None => Reading::Refused(end_msg()),
            Some(name) => Reading::Read(name, q + 1),
        },
    }
}

/// `INTO table VALUES ( values )`, after INSERT.
pub open spec fn insert_at(toks: Seq<Seq<char>>, p: int) -> Reading<StatementModel> {
    match expect_at(toks, p, "into"@) {
        Err(m) => Reading::Refused(m),
        Ok(q) => match tok_at(toks, q) {
            None => Reading::Refused(end_msg()),
            Some(table) => match expect_at(toks, q + 1, "values"@) {
                Err(m) => Reading::Refused(m),
                Ok(q2) => match expect_at(toks, q2, "("@) {
                    Err(m) => Reading::Refused(m),
                    Ok(q3) => match values_until_close(toks, q3) {
                        Reading::Read(values, r) => Reading::Read(
                            StatementModel::Insert { table, values },
                            r,
                        ),
                        Reading::Refused(m) => Reading::Refused(m),
                        Reading::Stuck => Reading::Stuck,
                    },
                },
            },
        },
    }
}

/// `columns FROM table [WHERE filter]`, after SELECT.
pub open spec fn select_at(toks: Seq<Seq<char>>, p: int) -> Reading<StatementModel> {
    match names_until_from(toks, p) {
        Reading::Refused(m) => Reading::Refused(m),
        Reading::Stuck => Reading::Stuck,
        Reading::Read(columns, q) => match tok_at(toks, q) {
            None => Reading::Refused(end_msg()),
            Some(table) => if q + 1 < toks.len() && lowercase(toks[q + 1]) == "where"@ {
                match expr_at(toks, q + 2) {
                    Reading::Read(f, r) => Reading::Read(
                        StatementModel::Select { columns, table, filter: Some(f) },
                        r,
                    ),
                    Reading::Refused(m) => Reading::Refused(m),
                    Reading::Stuck => Reading::Stuck,
                }
            } else {
                Reading::Read(StatementModel::Select { columns, table, filter: None }, q + 1)
            },
        },
    }
}

/// `table SET column = value WHERE filter`, after UPDATE.
pub open spec fn update_at(toks: Seq<Seq<char>>, p: int) -> Reading<StatementModel> {
    match tok_at(toks, p) {
        None => Reading::Refused(end_msg()),
        Some(table) => match expect_at(toks, p + 1, "set"@) {
            Err(m) => Reading::Refused(m),
            Ok(q) => match tok_at(toks, q) {
                None => Reading::Refused(end_msg()),
                Some(col) => match expect_at(toks, q + 1, "="@) {
                    Err(m) => Reading::Refused(m),
                    Ok(q2) => match tok_at(toks, q2) {
                        None => Reading::Refused(end_msg()),
                        Some(raw) => match value_token(raw) {
                            None => Reading::Stuck,
                            Some(v) => match expect_at(toks, q2 + 1, "where"@) {
                                Err(m) => Reading::Refused(m),
                                Ok(q3) => match expr_at(toks, q3) {
                                    Reading::Read(f, r) => Reading::Read(
                                        StatementModel::Update {
                                            table,
                                            set_col: col,
                                            set_val: v,
                                            filter: f,
                                        },
                                        r,
                                    ),
                                    Reading::Refused(m) => Reading::Refused(m),
                                    Reading::Stuck => Reading::Stuck,
                                },
                            },
                        },
                    },
                },
            },
        },
    }
}

/// `FROM table WHERE filter`, after DELETE.
pub open spec fn delete_at(toks: Seq<Seq<char>>, p: int) -> Reading<StatementModel> {
    match expect_at(toks, p, "from"@) {
        Err(m) => Reading::Refused(m),
        Ok(q) => match tok_at(toks, q) {
            None => Reading::Refused(end_msg()),
            Some(table) => match expect_at(toks, q + 1, "where"@) {
                Err(m) => Reading::Refused(m),
                Ok(q2) => match expr_at(toks, q2) {
                    Reading::Read(f, r) => Reading::Read(StatementModel::Delete { table, filter: f }, r),
                    Reading::Refused(m) => Reading::Refused(m),
                    Reading::Stuck => Reading::Stuck,
                },
            },
        },
    }
}

/// A whole command: its first word, compared without case, picks the form.
/// Tokens after the command are ignored.
pub open spec fn statement_of(toks: Seq<Seq<char>>) -> Reading<StatementModel> {
    match tok_at(toks, 0) {
        None => Reading::Refused(end_msg()),
        Some(t) => {
            let cmd = lowercase(t);
            if cmd == "create"@ {
                create_at(toks, 1)
            } else if cmd == "drop"@ {
                drop_at(toks, 1)
            } else if cmd == "show"@ {
                show_at(toks, 1)
            } else if cmd == "insert"@ {
                insert_at(toks, 1)
            } else if cmd == "select"@ {
                select_at(toks, 1)
            } else if cmd == "update"@ {
                update_at(toks, 1)
            } else if cmd == "delete"@ {
                delete_at(toks, 1)
            } else if cmd == "use"@ {
                use_at(toks, 1)
            } else if cmd == "backup"@ {
                match table_name_at(toks, 1) {
                    Reading::Read(name, q) => Reading::Read(StatementModel::Backup { table: name }, q),
                    Reading::Refused(m) => Reading::Refused(m),
                    Reading::Stuck => Reading::Stuck,
                }
            } else if cmd == "check"@ {
                match table_name_at(toks, 1) {
                    Reading::Read(name, q) => Reading::Read(
                        StatementModel::CheckIntegrity { table: name },
                        q,
                    ),
                    Reading::Refused(m) => Reading::Refused(m),
                    Reading::Stuck => Reading::Stuck,
                }
            } else {
                Reading::Refused("Unknown command: "@ + cmd)
            }
        },
    }
}

/// What parsing the command text `sql` gives; `Stuck` where the tokenizer
/// or the reader would not come back.
pub open spec fn parse_outcome(sql: Seq<char>) -> Reading<StatementModel> {
    match tokens_of(sql) {
        None => Reading::Stuck,
        Some(toks) => statement_of(toks),
    }
}

/// Whether the result `r` is what the reading `o` describes, the reader
/// having stopped at `q`.
pub open spec fn agrees<T: DeepView>(r: Result<T, Error>, o: Reading<T::V>, q: int) -> bool {
    match o {
        Reading::Read(m, p) => (r matches Ok(v) && v.deep_view() == m) && q == p,
        Reading::Refused(msg) => r matches Err(Error::Parse(e)) && e@ == msg,
        Reading::Stuck => false,
    }
}


/// A comparison `column op value` at position `p`.
pub open spec fn primary_at(toks: Seq<Seq<char>>, p: int) -> Reading<ExprModel> {
    if !(0 <= p < toks.len()) || !(p + 1 < toks.len()) || !(p + 2 < toks.len()) {
        Reading::Refused(end_msg())
    } else {
        match value_token(toks[p + 2]) {
            None => Reading::Stuck,
            Some(v) => match comparison(toks[p + 1], toks[p], v) {
                None => Reading::Refused("Unknown operator: "@ + toks[p + 1]),
                Some(e) => Reading::Read(e, p + 3),
            },
        }
    }
}

/// Whether `r` is the statement, or the parse error, that `o` describes.
pub open spec fn parsed_as(r: Result<Statement, Error>, o: Reading<StatementModel>) -> bool {
    match o {
        Reading::Read(m, _) => r matches Ok(v) && v@ == m,
        Reading::Refused(msg) => r matches Err(Error::Parse(e)) && e@ == msg,
        Reading::Stuck => false,
    }
}

// ---------------------------------------------------------------------------
// The reader
// ---------------------------------------------------------------------------

/// `s` with each doubled quote made single (`str::replace("''", "'")`).
pub fn undouble_quotes(s: &[char]) -> (r: Vec<char>)
    ensures
        r@ == undouble(s@),
{
    let mut out: Vec<char> = Vec::new();
    let mut i: usize = 0;
    let n = s.len();
    proof {
        assert(s@.skip(0) =~= s@);
    }
    while i < n
        invariant
            n == s.len(),
            i <= n,
            undouble(s@) == out@ + undouble(s@.skip(i as int)),
        decreases n - i,
    {
        let ghost rest = s@.skip(i as int);
        if i + 1 < n && s[i] == '\'' && s[i + 1] == '\'' {
            out.push('\'');
            proof {
                assert(rest.skip(2) =~= s@.skip(i + 2));
                assert(out@ + undouble(s@.skip(i + 2)) =~= (out@.drop_last() + (seq!['\'']
                    + undouble(rest.skip(2)))));
            }
            i = i + 2;
        } else {
            out.push(s[i]);
            proof {
                assert(rest.skip(1) =~= s@.skip(i + 1));
                assert(rest[0] == s@[i as int]);
                assert(out@ + undouble(s@.skip(i + 1)) =~= (out@.drop_last() + (seq![s@[i as int]]
                    + undouble(rest.skip(1)))));
            }
            i = i + 1;
        }
    }
    proof {
        assert(s@.skip(n as int) =~= Seq::<char>::empty());
        assert(out@ + Seq::<char>::empty() =~= out@);
    }
    out
}

/// The value that the literal token `s` stands for.
fn parse_value_token(s: &str) -> (r: Value)
    requires
        value_token(s@) is Some,
    ensures
        r@ == value_token(s@)->0,
{
    let cs = chars_of(s);
    let n = cs.len();
    if n > 0 && cs[0] == '\'' && cs[n - 1] == '\'' {
        let inner = slice_chars(cs.as_slice(), 1, n - 1);
        let body = undouble_quotes(inner.as_slice());
        Value::Text(string_of(body.as_slice()))
    } else {
        Value::from_literal(s)
    }
}

/// The message for a token that stands where `expected` was due.
fn expected_message(expected: &str, found: &str) -> (r: String)
    ensures
        r@ == expected_msg(expected@, found@),
{
    let m1 = concat_str("Expected '", expected);
    let m2 = concat_str(m1.as_str(), "', found '");
    let m3 = concat_str(m2.as_str(), found);
    concat_str(m3.as_str(), "'")
}

/// A cursor over the tokens of one command.
struct Parser {
    tokens: Vec<String>,
    pos: usize,
}

impl Parser {
    spec fn toks(&self) -> Seq<Seq<char>> {
        self.tokens.deep_view()
    }

    /// The token under the cursor, if any.
    fn peek(&self) -> (r: Option<&String>)
        ensures
            match tok_at(self.toks(), self.pos as int) {
                Some(t) => r matches Some(x) && x@ == t,
                None => r is None,
            },
    {
        if self.pos < self.tokens.len() {
            Some(&self.tokens[self.pos])
        } else {
            None
        }
    }

    /// A copy of the token under the cursor; an error at the end.
    fn consume(&self) -> (r: Result<String, Error>)
        ensures
            match tok_at(self.toks(), self.pos as int) {
                Some(t) => r matches Ok(x) && x@ == t,
                None => r matches Err(Error::Parse(e)) && e@ == end_msg(),
            },
    {
        if self.pos < self.tokens.len() {
            Ok(self.tokens[self.pos].clone())
        } else {
            Err(Error::Parse("Unexpected end of input".to_string()))
        }
    }

    /// Steps over the keyword `expected` (compared without case).
    fn expect(&mut self, expected: &str) -> (r: Result<(), Error>)
        requires
            old(self).pos <= old(self).tokens.len(),
        ensures
            final(self).tokens == old(self).tokens,
            final(self).pos <= final(self).tokens.len(),
            match expect_at(old(self).toks(), old(self).pos as int, expected@) {
                Ok(q) => r is Ok && final(self).pos == q,
                Err(m) => r matches Err(Error::Parse(e)) && e@ == m,
            },
    {
        let tok = match self.consume() {
            Ok(t) => t,
            Err(e) => {
                return Err(e);
            },
        };
        let a = to_lowercase(tok.as_str());
        let b = to_lowercase(expected);
        if !str_eq(a.as_str(), b.as_str()) {
            return Err(Error::Parse(expected_message(expected, tok.as_str())));
        }
        self.pos = self.pos + 1;
        Ok(())
    }

    /// Names up to the closing parenthesis, commas skipped.
    fn names_until_close(&mut self) -> (r: Result<Vec<String>, Error>)
        requires
            old(self).pos <= old(self).tokens.len(),
        ensures
            final(self).tokens == old(self).tokens,
            final(self).pos <= final(self).tokens.len(),
            agrees(r, names_until_close(old(self).toks(), old(self).pos as int), final(self).pos as int),
    {
        let mut cols: Vec<String> = Vec::new();
        let ghost toks = self.toks();
        let ghost start = self.pos as int;
        loop
            invariant
                self.tokens == old(self).tokens,
                toks == self.toks(),
                toks == old(self).toks(),
                start == old(self).pos as int,
                self.pos <= self.tokens.len(),
                names_until_close(toks, start) == with_prefix(
                    cols.deep_view(),
                    names_until_close(toks, self.pos as int),
                ),
            decreases self.tokens.len() - self.pos,
        {
            let tok = match self.consume() {
                Ok(t) => t,
                Err(e) => {
                    return Err(e);
                },
            };
            if str_eq(tok.as_str(), ")") {
                self.pos = self.pos + 1;
                proof {
                    assert(cols.deep_view() + Seq::<Seq<char>>::empty() =~= cols.deep_view());
                }
                return Ok(cols);
            }
            if str_eq(tok.as_str(), ",") {
                self.pos = self.pos + 1;
            } else {
                let ghost before = cols.deep_view();
                let ghost t = tok@;
                cols.push(tok);
                proof {
                    lemma_with_prefix_twice(before, seq![t], names_until_close(toks, self.pos + 1));
                    assert(cols.deep_view() =~= before + seq![t]);
                }
                self.pos = self.pos + 1;
            }
        }
    }

    /// Values up to the closing parenthesis, commas skipped.
    fn values_until_close(&mut self) -> (r: Result<Vec<Value>, Error>)
        requires
            old(self).pos <= old(self).tokens.len(),
            !(values_until_close(old(self).toks(), old(self).pos as int) is Stuck),
        ensures
            final(self).tokens == old(self).tokens,
            final(self).pos <= final(self).tokens.len(),
            agrees(r, values_until_close(old(self).toks(), old(self).pos as int), final(self).pos as int),
    {
        let mut vals: Vec<Value> = Vec::new();
        let ghost toks = self.toks();
        let ghost start = self.pos as int;
        loop
            invariant
                self.tokens == old(self).tokens,
                toks == self.toks(),
                toks == old(self).toks(),
                start == old(self).pos as int,
                self.pos <= self.tokens.len(),
                values_until_close(toks, start) == with_prefix(
                    vals.deep_view(),
                    values_until_close(toks, self.pos as int),
                ),
                !(values_until_close(toks, start) is Stuck),
            decreases self.tokens.len() - self.pos,
        {
            let tok = match self.consume() {
                Ok(t) => t,
                Err(e) => {
                    return Err(e);
                },
            };
            if str_eq(tok.as_str(), ")") {
                self.pos = self.pos + 1;
                proof {
                    assert(vals.deep_view() + Seq::<Cell>::empty() =~= vals.deep_view());
                }
                return Ok(vals);
            }
            if str_eq(tok.as_str(), ",") {
                self.pos = self.pos + 1;
            } else {
                let ghost before = vals.deep_view();
                let v = parse_value_token(tok.as_str());
                let ghost c = v@;
                vals.push(v);
                proof {
                    lemma_with_prefix_twice(before, seq![c], values_until_close(toks, self.pos + 1));
                    assert(vals.deep_view() =~= before + seq![c]);
                }
                self.pos = self.pos + 1;
            }
        }
    }

    /// Selected names up to the keyword FROM.
    fn names_until_from(&mut self) -> (r: Result<Vec<String>, Error>)
        requires
            old(self).pos <= old(self).tokens.len(),
        ensures
            final(self).tokens == old(self).tokens,
            final(self).pos <= final(self).tokens.len(),
            agrees(r, names_until_from(old(self).toks(), old(self).pos as int), final(self).pos as int),
    {
        let mut cols: Vec<String> = Vec::new();
        let ghost toks = self.toks();
        let ghost start = self.pos as int;
        loop
            invariant
                self.tokens == old(self).tokens,
                toks == self.toks(),
                toks == old(self).toks(),
                start == old(self).pos as int,
                self.pos <= self.tokens.len(),
                names_until_from(toks, start) == with_prefix(
                    cols.deep_view(),
                    names_until_from(toks, self.pos as int),
                ),
            decreases self.tokens.len() - self.pos,
        {
            let tok = match self.consume() {
                Ok(t) => t,
                Err(e) => {
                    return Err(e);
                },
            };
            let low = to_lowercase(tok.as_str());
            if str_eq(low.as_str(), "from") {
                self.pos = self.pos + 1;
                proof {
                    assert(cols.deep_view() + Seq::<Seq<char>>::empty() =~= cols.deep_view());
                }
                return Ok(cols);
            }
            let ghost before = cols.deep_view();
            let ghost t = tok@;
            cols.push(tok);
            proof {
                lemma_with_prefix_twice(before, seq![t], names_until_from(toks, self.pos + 1));
                assert(cols.deep_view() =~= before + seq![t]);
            }
            self.pos = self.pos + 1;
        }
    }

    /// A comparison `column op value`.
    fn parse_primary_expr(&mut self) -> (r: Result<Expr, Error>)
        requires
            old(self).pos <= old(self).tokens.len(),
            !(primary_at(old(self).toks(), old(self).pos as int) is Stuck),
        ensures
            final(self).tokens == old(self).tokens,
            final(self).pos <= final(self).tokens.len(),
            agrees(r, primary_at(old(self).toks(), old(self).pos as int), final(self).pos as int),
    {
        let col = match self.consume() {
            Ok(t) => t,
            Err(e) => {
                return Err(e);
            },
        };
        self.pos = self.pos + 1;
        let op = match self.consume() {
            Ok(t) => t,
            Err(e) => {
                return Err(e);
            },
        };
        self.pos = self.pos + 1;
        let raw = match self.consume() {
            Ok(t) => t,
            Err(e) => {
                return Err(e);
            },
        };
        self.pos = self.pos + 1;
        let val = parse_value_token(raw.as_str());
        if str_eq(op.as_str(), "=") {
            Ok(Expr::Eq(col, val))
        } else if str_eq(op.as_str(), "!=") || str_eq(op.as_str(), "<>") {
            Ok(Expr::Ne(col, val))
        } else if str_eq(op.as_str(), ">") {
            Ok(Expr::Gt(col, val))
        } else if str_eq(op.as_str(), ">=") {
            Ok(Expr::Ge(col, val))
        } else if str_eq(op.as_str(), "<") {
            Ok(Expr::Lt(col, val))
        } else if str_eq(op.as_str(), "<=") {
            Ok(Expr::Le(col, val))
        } else {
            let low = to_lowercase(op.as_str());
            if str_eq(low.as_str(), "like") {
                Ok(Expr::Like(col, val))
            } else {
                Err(Error::Parse(concat_str("Unknown operator: ", op.as_str())))
            }
        }
    }

    /// Whether the token under the cursor is the keyword `kw` (lowercase).
    fn at_keyword(&self, kw: &str) -> (r: bool)
        ensures
            r == (self.pos < self.tokens.len() && lowercase(self.toks()[self.pos as int]) == kw@),
    {
        match self.peek() {
            Some(t) => {
                let low = to_lowercase(t.as_str());
                str_eq(low.as_str(), kw)
            },
            None => false,
        }
    }

    /// A filter: comparisons joined by AND or OR, grouped to the right.
    fn parse_expr(&mut self) -> (r: Result<Expr, Error>)
        requires
            old(self).pos <= old(self).tokens.len(),
            !(expr_at(old(self).toks(), old(self).pos as int) is Stuck),
        ensures
            final(self).tokens == old(self).tokens,
            final(self).pos <= final(self).tokens.len(),
            agrees(r, expr_at(old(self).toks(), old(self).pos as int), final(self).pos as int),
        decreases old(self).tokens.len() - old(self).pos,
    {
        let ghost toks = self.toks();
        let ghost p = self.pos as int;
        let left = match self.parse_primary_expr() {
            Ok(e) => e,
            Err(e) => {
                return Err(e);
            },
        };
        if self.at_keyword("and") {
            self.pos = self.pos + 1;
            let right = match self.parse_expr() {
                Ok(e) => e,
                Err(e) => {
                    return Err(e);
                },
            };
            return Ok(Expr::And(Box::new(left), Box::new(right)));
        }
        if self.at_keyword("or") {
            self.pos = self.pos + 1;
            let right = match self.parse_expr() {
                Ok(e) => e,
                Err(e) => {
                    return Err(e);
                },
            };
            return Ok(Expr::Or(Box::new(left), Box::new(right)));
        }
        Ok(left)
    }

    /// The rest of a CREATE command.
    fn parse_create(&mut self) -> (r: Result<Statement, Error>)
        requires
            old(self).pos <= old(self).tokens.len(),
        ensures
            final(self).tokens == old(self).tokens,
            final(self).pos <= final(self).tokens.len(),
            agrees(r, create_at(old(self).toks(), old(self).pos as int), final(self).pos as int),
    {
        let target = match self.consume() {
            Ok(t) => to_lowercase(t.as_str()),
            Err(e) => {
                return Err(e);
            },
        };
        self.pos = self.pos + 1;
        if str_eq(target.as_str(), "table") {
            let name = match self.consume() {
                Ok(t) => t,
                Err(e) => {
                    return Err(e);
                },
            };
            self.pos = self.pos + 1;
            match self.expect("(") {
                Ok(()) => {},
                Err(e) => {
                    return Err(e);
                },
            }
            let cols = match self.names_until_close() {
                Ok(c) => c,
                Err(e) => {
                    return Err(e);
                },
            };
            Ok(Statement::CreateTable { name, columns: cols })
        } else if str_eq(target.as_str(), "database") {
            let name = match self.consume() {
                Ok(t) => t,
                Err(e) => {
                    return Err(e);
                },
            };
            self.pos = self.pos + 1;
            Ok(Statement::CreateDatabase(name))
        } else {
            Err(Error::Parse("Expected 'TABLE' or 'DATABASE' after CREATE".to_string()))
        }
    }

    /// The rest of a DROP command.
    fn parse_drop(&mut self) -> (r: Result<Statement, Error>)
        requires
            old(self).pos <= old(self).tokens.len(),
        ensures
            final(self).tokens == old(self).tokens,
            final(self).pos <= final(self).tokens.len(),
            agrees(r, drop_at(old(self).toks(), old(self).pos as int), final(self).pos as int),
    {
        let target = match self.consume() {
            Ok(t) => to_lowercase(t.as_str()),
            Err(e) => {
                return Err(e);
            },
        };
        self.pos = self.pos + 1;
        if str_eq(target.as_str(), "table") {
            let name = match self.consume() {
                Ok(t) => t,
                Err(e) => {
                    return Err(e);
                },
            };
            self.pos = self.pos + 1;
            Ok(Statement::DropTable(name))
        } else if str_eq(target.as_str(), "database") {
            let name = match self.consume() {
                Ok(t) => t,
                Err(e) => {
                    return Err(e);
                },
            };
            self.pos = self.pos + 1;
            Ok(Statement::DropDatabase(name))
        } else {
            Err(Error::Parse("Expected 'TABLE' or 'DATABASE' after DROP".to_string()))
        }
    }

    /// The rest of a SHOW command.
    fn parse_show(&mut self) -> (r: Result<Statement, Error>)
        requires
            old(self).pos <= old(self).tokens.len(),
        ensures
            final(self).tokens == old(self).tokens,
            final(self).pos <= final(self).tokens.len(),
            agrees(r, show_at(old(self).toks(), old(self).pos as int), final(self).pos as int),
    {
        let target = match self.consume() {
            Ok(t) => to_lowercase(t.as_str()),
            Err(e) => {
                return Err(e);
            },
        };
        self.pos = self.pos + 1;
        if str_eq(target.as_str(), "tables") {
            Ok(Statement::ShowTables)
        } else if str_eq(target.as_str(), "databases") {
            Ok(Statement::ShowDatabases)
        } else {
            Err(Error::Parse("Expected 'TABLES' or 'DATABASES' after SHOW".to_string()))
        }
    }

    /// The rest of a USE command.
    fn parse_use(&mut self) -> (r: Result<Statement, Error>)
        requires
            old(self).pos <= old(self).tokens.len(),
        ensures
            final(self).tokens == old(self).tokens,
            final(self).pos <= final(self).tokens.len(),
            agrees(r, use_at(old(self).toks(), old(self).pos as int), final(self).pos as int),
    {
        let name = match self.consume() {
            Ok(t) => t,
            Err(e) => {
                return Err(e);
            },
        };
        self.pos = self.pos + 1;
        Ok(Statement::UseDatabase(name))
    }

    /// `TABLE name`, after BACKUP or CHECK.
    fn table_name(&mut self) -> (r: Result<String, Error>)
        requires
            old(self).pos <= old(self).tokens.len(),
        ensures
            final(self).tokens == old(self).tokens,
            final(self).pos <= final(self).tokens.len(),
            agrees(r, table_name_at(old(self).toks(), old(self).pos as int), final(self).pos as int),
    {
        match self.expect("table") {
            Ok(()) => {},
            Err(e) => {
                return Err(e);
            },
        }
        let name = match self.consume() {
            Ok(t) => t,
            Err(e) => {
                return Err(e);
            },
        };
        self.pos = self.pos + 1;
        Ok(name)
    }

    /// The rest of an INSERT command.
    fn parse_insert(&mut self) -> (r: Result<Statement, Error>)
        requires
            old(self).pos <= old(self).tokens.len(),
            !(insert_at(old(self).toks(), old(self).pos as int) is Stuck),
        ensures
            final(self).tokens == old(self).tokens,
            final(self).pos <= final(self).tokens.len(),
            agrees(r, insert_at(old(self).toks(), old(self).pos as int), final(self).pos as int),
    {
        match self.expect("into") {
            Ok(()) => {},
            Err(e) => {
                return Err(e);
            },
        }
        let table = match self.consume() {
            Ok(t) => t,
            Err(e) => {
                return Err(e);
            },
        };
        self.pos = self.pos + 1;
        match self.expect("values") {
            Ok(()) => {},
            Err(e) => {
                return Err(e);
            },
        }
        match self.expect("(") {
            Ok(()) => {},
            Err(e) => {
                return Err(e);
            },
        }
        let vals = match self.values_until_close() {
            Ok(v) => v,
            Err(e) => {
                return Err(e);
            },
        };
        Ok(Statement::Insert { table, values: vals })
    }

    /// The rest of a SELECT command.
    fn parse_select(&mut self) -> (r: Result<Statement, Error>)
        requires
            old(self).pos <= old(self).tokens.len(),
            !(select_at(old(self).toks(), old(self).pos as int) is Stuck),
        ensures
            final(self).tokens == old(self).tokens,
            final(self).pos <= final(self).tokens.len(),
            agrees(r, select_at(old(self).toks(), old(self).pos as int), final(self).pos as int),
    {
        let cols = match self.names_until_from() {
            Ok(c) => c,
            Err(e) => {
                return Err(e);
            },
        };
        let table = match self.consume() {
            Ok(t) => t,
            Err(e) => {
                return Err(e);
            },
        };
        self.pos = self.pos + 1;
        let filter = if self.at_keyword("where") {
            self.pos = self.pos + 1;
            match self.parse_expr() {
                Ok(f) => Some(f),
                Err(e) => {
                    return Err(e);
                },
            }
        } else {
            None
        };
        Ok(Statement::Select { columns: cols, table, filter })
    }

    /// The rest of an UPDATE command.
    fn parse_update(&mut self) -> (r: Result<Statement, Error>)
        requires
            old(self).pos <= old(self).tokens.len(),
            !(update_at(old(self).toks(), old(self).pos as int) is Stuck),
        ensures
            final(self).tokens == old(self).tokens,
            final(self).pos <= final(self).tokens.len(),
            agrees(r, update_at(old(self).toks(), old(self).pos as int), final(self).pos as int),
    {
        let table = match self.consume() {
            Ok(t) => t,
            Err(e) => {
                return Err(e);
            },
        };
        self.pos = self.pos + 1;
        match self.expect("set") {
            Ok(()) => {},
            Err(e) => {
                return Err(e);
            },
        }
        let col = match self.consume() {
            Ok(t) => t,
            Err(e) => {
                return Err(e);
            },
        };
        self.pos = self.pos + 1;
        match self.expect("=") {
            Ok(()) => {},
            Err(e) => {
                return Err(e);
            },
        }
        let raw = match self.consume() {
            Ok(t) => t,
            Err(e) => {
                return Err(e);
            },
        };
        self.pos = self.pos + 1;
        let val = parse_value_token(raw.as_str());
        match self.expect("where") {
            Ok(()) => {},
            Err(e) => {
                return Err(e);
            },
        }
        let filter = match self.parse_expr() {
            Ok(f) => f,
            Err(e) => {
                return Err(e);
            },
        };
        Ok(Statement::Update { table, set_col: col, set_val: val, filter })
    }

    /// The rest of a DELETE command.
    fn parse_delete(&mut self) -> (r: Result<Statement, Error>)
        requires
            old(self).pos <= old(self).tokens.len(),
            !(delete_at(old(self).toks(), old(self).pos as int) is Stuck),
        ensures
            final(self).tokens == old(self).tokens,
            final(self).pos <= final(self).tokens.len(),
            agrees(r, delete_at(old(self).toks(), old(self).pos as int), final(self).pos as int),
    {
        match self.expect("from") {
            Ok(()) => {},
            Err(e) => {
                return Err(e);
            },
        }
        let table = match self.consume() {
            Ok(t) => t,
            Err(e) => {
                return Err(e);
            },
        };
        self.pos = self.pos + 1;
        match self.expect("where") {
            Ok(()) => {},
            Err(e) => {
                return Err(e);
            },
        }
        let filter = match self.parse_expr() {
            Ok(f) => f,
            Err(e) => {
                return Err(e);
            },
        };
        Ok(Statement::Delete { table, filter })
    }

    /// A whole command, picked by its first word.
    fn parse_statement(&mut self) -> (r: Result<Statement, Error>)
        requires
            old(self).pos == 0,
            !(statement_of(old(self).toks()) is Stuck),
        ensures
            final(self).tokens == old(self).tokens,
            final(self).pos <= final(self).tokens.len(),
            agrees(r, statement_of(old(self).toks()), final(self).pos as int),
    {
        let cmd = match self.consume() {
            Ok(t) => to_lowercase(t.as_str()),
            Err(e) => {
                return Err(e);
            },
        };
        self.pos = self.pos + 1;
        if str_eq(cmd.as_str(), "create") {
            self.parse_create()
        } else if str_eq(cmd.as_str(), "drop") {
            self.parse_drop()
        } else if str_eq(cmd.as_str(), "show") {
            self.parse_show()
        } else if str_eq(cmd.as_str(), "insert") {
            self.parse_insert()
        } else if str_eq(cmd.as_str(), "select") {
            self.parse_select()
        } else if str_eq(cmd.as_str(), "update") {
            self.parse_update()
        } else if str_eq(cmd.as_str(), "delete") {
            self.parse_delete()
        } else if str_eq(cmd.as_str(), "use") {
            self.parse_use()
        } else if str_eq(cmd.as_str(), "backup") {
            match self.table_name() {
                Ok(name) => Ok(Statement::Backup { table: name }),
                Err(e) => Err(e),
            }
        } else if str_eq(cmd.as_str(), "check") {
            match self.table_name() {
                Ok(name) => Ok(Statement::CheckIntegrity { table: name }),
                Err(e) => Err(e),
            }
        } else {
            Err(Error::Parse(concat_str("Unknown command: ", cmd.as_str())))
        }
    }
}

/// Parses one command of the language.
pub fn parse(sql: &str) -> (r: Result<Statement, Error>)
    requires
        !(parse_outcome(sql@) is Stuck),
    ensures
        parsed_as(r, parse_outcome(sql@)),
{
    let tokens = tokenize(sql);
    let mut parser = Parser { tokens, pos: 0 };
    parser.parse_statement()
}


// ---------------------------------------------------------------------------
// Commands on which the reader comes back
// ---------------------------------------------------------------------------

/// Whether one of the tokens is a lone quote, the one token on which the
/// reader of literals panics.
pub open spec fn has_lone_quote(toks: Seq<Seq<char>>) -> bool {
    exists|i: int| 0 <= i < toks.len() && toks[i] == seq!['\'']
}

proof fn lemma_value_token_some(t: Seq<char>)
    requires
        t != seq!['\''],
    ensures
        value_token(t) is Some,
{
    if t.len() == 1 && t[0] == '\'' {
        assert(t =~= seq!['\'']);
    }
}

proof fn lemma_values_not_stuck(toks: Seq<Seq<char>>, q: int)
    requires
        !has_lone_quote(toks),
    ensures
        !(values_until_close(toks, q) is Stuck),
    decreases toks.len() - q,
{
    if 0 <= q < toks.len() {
        lemma_value_token_some(toks[q]);
        lemma_values_not_stuck(toks, q + 1);
    }
}

proof fn lemma_expr_not_stuck(toks: Seq<Seq<char>>, p: int)
    requires
        !has_lone_quote(toks),
    ensures
        !(expr_at(toks, p) is Stuck),
    decreases toks.len() - p,
{
    if 0 <= p && p + 2 < toks.len() {
        lemma_value_token_some(toks[p + 2]);
        if p + 3 < toks.len() {
            lemma_expr_not_stuck(toks, p + 4);
        }
    }
}

proof fn lemma_names_not_stuck(toks: Seq<Seq<char>>, q: int)
    ensures
        !(names_until_close(toks, q) is Stuck),
        !(names_until_from(toks, q) is Stuck),
    decreases toks.len() - q,
{
    if 0 <= q < toks.len() {
        lemma_names_not_stuck(toks, q + 1);
    }
}

/// Without a lone-quote token, reading a command always comes back.
pub proof fn lemma_statement_not_stuck(toks: Seq<Seq<char>>)
    requires
        !has_lone_quote(toks),
    ensures
        !(statement_of(toks) is Stuck),
{
    lemma_names_not_stuck(toks, 4);
    lemma_names_not_stuck(toks, 1);
    lemma_values_not_stuck(toks, 5);
    if let Reading::Read(cols, q) = names_until_from(toks, 1) {
        lemma_expr_not_stuck(toks, q + 2);
    }
    lemma_expr_not_stuck(toks, 7);
    lemma_expr_not_stuck(toks, 4);
    if 5 < toks.len() {
        lemma_value_token_some(toks[5]);
    }
}

/// Parses one command, or gives `None` for the commands that [`parse`]
/// cannot finish: a character that starts no token, or a literal that is a
/// lone quote.
pub fn parse_checked(sql: &str) -> (r: Option<Result<Statement, Error>>)
    ensures
        r is None <==> (tokens_of(sql@) is None || has_lone_quote(tokens_of(sql@)->0)),
        r matches Some(x) ==> parsed_as(x, parse_outcome(sql@)),
{
    let tokens = match tokenize_checked(sql) {
        Some(t) => t,
        None => {
            return None;
        },
    };
    let ghost toks = tokens.deep_view();
    let mut i: usize = 0;
    while i < tokens.len()
        invariant
            i <= tokens.len(),
            toks == tokens.deep_view(),
            tokens_of(sql@) == Some(toks),
            forall|k: int| 0 <= k < i ==> toks[k] != seq!['\''],
        decreases tokens.len() - i,
    {
        let lone = str_eq(tokens[i].as_str(), "'");
        proof {
            reveal_strlit("'");
            assert("'"@ =~= seq!['\'']);
            assert(toks[i as int] == tokens@[i as int]@);
        }
        if lone {
            proof {
                assert(toks[i as int] =~= seq!['\'']);
                assert(has_lone_quote(toks));
            }
            return None;
        }
        proof {
            assert(toks[i as int] != seq!['\'']);
        }
        i = i + 1;
    }
    proof {
        lemma_statement_not_stuck(toks);
    }
    let mut parser = Parser { tokens, pos: 0 };
    Some(parser.parse_statement())
}

} // verus!
