//! The whitespace-split reader: a command is read word by word, with a
//! parenthesised list for CREATE and INSERT and `column=value` pairs for
//! the conditions.
use vstd::prelude::*;
use crate::engine::syntax::{split_quoted, split_quoted_spec, Statement, StatementModel};
use crate::error::Error;
use crate::text::{
    chars_of, concat_str, find_char, join, join_strings, push_string, rfind_char, seq_find, seq_rfind,
    slice_chars, split_chars, split_on, split_whitespace, split_ws, str_eq, string_of, strings_of,
    trim, trim_chars, trim_end, trim_start, trim_str,
};
use crate::types::{Cell, Value};

verus! {

/// What reading a command gives.
pub enum Outcome<T> {
    /// The command.
    Done(T),
    /// A parse error with this message.
    Refused(Seq<char>),
    /// The reader panics (a slice out of order, or a lone quote to unquote).
    Panics,
}

/// Whether `r` is what `o` describes.
pub open spec fn outcome_is(r: Result<Statement, Error>, o: Outcome<StatementModel>) -> bool {
    match o {
        Outcome::Done(m) => r matches Ok(st) && st@ == m,
        Outcome::Refused(msg) => r matches Err(Error::Parse(e)) && e@ == msg,
        Outcome::Panics => false,
    }
}

/// `s` trimmed, without its enclosing single quotes if it has them;
/// `None` for a lone quote, on which slicing panics.
pub open spec fn unquote_spec(s: Seq<char>) -> Option<Seq<char>> {
    let t = trim(s);
    if t.len() > 0 && t[0] == '\'' && t[t.len() - 1] == '\'' {
        if t.len() < 2 {
            None
        } else {
            Some(t.subrange(1, t.len() - 1))
        }
    } else {
        Some(t)
    }
}

/// Trims `s` and strips enclosing single quotes.
pub fn unquote(s: &str) -> (r: String)
    requires
        unquote_spec(s@) is Some,
    ensures
        Some(r@) == unquote_spec(s@),
{
    let cs = chars_of(s);
    let t = trim_chars(cs.as_slice());
    let n = t.len();
    if n > 0 && t[0] == '\'' && t[n - 1] == '\'' {
        let inner = slice_chars(t.as_slice(), 1, n - 1);
        string_of(inner.as_slice())
    } else {
        string_of(t.as_slice())
    }
}

/// Quoting any text and unquoting it gives the text back; text whose
/// trimmed form is not enclosed in single quotes is only trimmed.
pub proof fn law_unquote_quoted(s: Seq<char>, t: Seq<char>)
    ensures
        unquote_spec(seq!['\''] + s + seq!['\'']) == Some(s),
        !(trim(t).len() > 0 && trim(t)[0] == '\'' && trim(t).last() == '\'') ==> unquote_spec(t) == Some(trim(t)),
{
    let q = seq!['\''] + s + seq!['\''];
    assert(q[0] == '\'');
    assert(q.last() == '\'');
    assert(trim_start(q) == q);
    assert(trim_end(q) == q);
    assert(q.subrange(1, q.len() - 1) =~= s);
}

/// The text between the first `(` and the last `)` of `rest`.
pub open spec fn bracket_body(rest: Seq<char>) -> Outcome<Seq<char>> {
    match seq_find(rest, '(') {
        None => Outcome::Refused("Missing '('"@),
        Some(o) => match seq_rfind(rest, ')') {
            None => Outcome::Refused("Missing ')'"@),
            Some(c) => if c < o + 1 {
                Outcome::Panics
            } else {
                Outcome::Done(rest.subrange(o + 1, c))
            },
        },
    }
}

/// The pieces of `s` split at `,`, each trimmed.
pub open spec fn comma_list(s: Seq<char>) -> Seq<Seq<char>> {
    split_on(s, ',').map_values(|p: Seq<char>| trim(p))
}

/// The text cells of the unquoted pieces; `None` when a piece is a lone
/// quote.
pub open spec fn unquoted_cells(raw: Seq<Seq<char>>) -> Option<Seq<Cell>> {
    if exists|i: int| 0 <= i < raw.len() && #[trigger] unquote_spec(raw[i]) is None {
        None
    } else {
        Some(Seq::new(raw.len(), |i: int| Cell::Text(unquote_spec(raw[i])->0)))
    }
}

/// A `column=value` pair: the column before the first `=`, the unquoted
/// text after it.
pub open spec fn pair_spec(pair: Seq<char>, missing: Seq<char>) -> Outcome<(Seq<char>, Cell)> {
    match seq_find(pair, '=') {
        None => Outcome::Refused(missing),
        Some(e) => match unquote_spec(pair.skip(e + 1)) {
            None => Outcome::Panics,
            Some(u) => Outcome::Done((pair.take(e), Cell::Text(u))),
        },
    }
}

/// `CREATE TABLE name (columns)`.
pub open spec fn create_spec(parts: Seq<Seq<char>>) -> Outcome<StatementModel> {
    if parts.len() < 4 || parts[1] != "table"@ {
        Outcome::Refused("Syntax: CREATE TABLE table_name (col1, col2, ...)"@)
    } else {
        match bracket_body(join(parts.skip(3), " "@)) {
            Outcome::Refused(m) => Outcome::Refused(m),
            Outcome::Panics => Outcome::Panics,
            Outcome::Done(body) => Outcome::Done(
                StatementModel::CreateTable { name: parts[2], columns: comma_list(body) },
            ),
        }
    }
}

/// `INSERT INTO table VALUES (v1|v2|...)`.
pub open spec fn insert_spec(parts: Seq<Seq<char>>) -> Outcome<StatementModel> {
    if parts.len() < 5 || parts[1] != "into"@ || parts[3] != "values"@ {
        Outcome::Refused("Syntax: INSERT INTO table VALUES (val1|val2|...)"@)
    } else {
        match bracket_body(join(parts.skip(4), " "@)) {
            Outcome::Refused(m) => Outcome::Refused(m),
            Outcome::Panics => Outcome::Panics,
            Outcome::Done(body) => match unquoted_cells(split_quoted_spec(body, '|')) {
                None => Outcome::Panics,
                Some(values) => Outcome::Done(StatementModel::Insert { table: parts[2], values }),
            },
        }
    }
}

/// `SELECT columns FROM table [WHERE col=value]`.
pub open spec fn select_spec(parts: Seq<Seq<char>>) -> Outcome<StatementModel> {
    if parts.len() < 4 || parts[2] != "from"@ {
        Outcome::Refused("Syntax: SELECT columns FROM table [WHERE col=value]"@)
    } else {
        let columns = if parts[1] == "*"@ {
            seq!["*"@]
        } else {
            comma_list(parts[1])
        };
        if parts.len() > 4 && parts[4] == "where"@ && parts.len() >= 6 {
            match pair_spec(parts[5], "Invalid condition"@) {
                Outcome::Refused(m) => Outcome::Refused(m),
                Outcome::Panics => Outcome::Panics,
                Outcome::Done(c) => Outcome::Done(
                    StatementModel::Select { columns, table: parts[3], condition: Some(c) },
                ),
            }
        } else {
            Outcome::Done(StatementModel::Select { columns, table: parts[3], condition: None })
        }
    }
}

/// `UPDATE table SET col=value WHERE col=value`.
pub open spec fn update_spec(parts: Seq<Seq<char>>) -> Outcome<StatementModel> {
    if parts.len() < 8 || parts[2] != "set"@ || parts[4] != "where"@ {
        Outcome::Refused("Syntax: UPDATE table SET col=value WHERE col=value"@)
    } else {
        match pair_spec(parts[3], "Missing '=' in SET"@) {
            Outcome::Refused(m) => Outcome::Refused(m),
            Outcome::Panics => Outcome::Panics,
            Outcome::Done(set) => match pair_spec(parts[5], "Missing '=' in WHERE"@) {
                Outcome::Refused(m) => Outcome::Refused(m),
                Outcome::Panics => Outcome::Panics,
                Outcome::Done(c) => Outcome::Done(
                    StatementModel::Update { table: parts[1], set_col: set.0, set_val: set.1, condition: c },
                ),
            },
        }
    }
}

/// `DELETE FROM table WHERE col=value`.
pub open spec fn delete_spec(parts: Seq<Seq<char>>) -> Outcome<StatementModel> {
    if parts.len() < 6 || parts[1] != "from"@ || parts[3] != "where"@ {
        Outcome::Refused("Syntax: DELETE FROM table WHERE col=value"@)
    } else {
        match pair_spec(parts[4], "Invalid condition, expected col=value"@) {
            Outcome::Refused(m) => Outcome::Refused(m),
            Outcome::Panics => Outcome::Panics,
            Outcome::Done(c) => Outcome::Done(StatementModel::Delete { table: parts[2], condition: c }),
        }
    }
}

/// A whole command, picked by its first word (case matters).
pub open spec fn command_spec(sql: Seq<char>) -> Outcome<StatementModel> {
    let parts = split_ws(sql);
    if parts.len() == 0 {
        Outcome::Refused("Empty query"@)
    } else if parts[0] == "create"@ {
        create_spec(parts)
    } else if parts[0] == "insert"@ {
        insert_spec(parts)
    } else if parts[0] == "select"@ {
        select_spec(parts)
    } else if parts[0] == "update"@ {
        update_spec(parts)
    } else if parts[0] == "delete"@ {
        delete_spec(parts)
    } else {
        Outcome::Refused("Unknown command: "@ + parts[0])
    }
}

// ---------------------------------------------------------------------------
// The reader
// ---------------------------------------------------------------------------

/// The words from index `k` on, joined with `sep`.
pub(crate) fn join_from(parts: &Vec<String>, k: usize, sep: &str) -> (r: String)
    requires
        k <= parts@.len(),
    ensures
        r@ == join(parts.deep_view().skip(k as int), sep@),
{
    let mut tail: Vec<String> = Vec::new();
    let mut i: usize = k;
    while i < parts.len()
        invariant
            k <= i <= parts@.len(),
            tail.deep_view() == parts.deep_view().subrange(k as int, i as int),
        decreases parts@.len() - i,
    {
        let ghost before = tail.deep_view();
        push_string(&mut tail, parts[i].clone());
        proof {
            assert(parts.deep_view()[i as int] == parts@[i as int]@);
            assert(parts.deep_view().subrange(k as int, i + 1) =~= before.push(parts@[i as int]@));
        }
        i = i + 1;
    }
    proof {
        assert(parts.deep_view().subrange(k as int, parts@.len() as int) =~= parts.deep_view().skip(k as int));
    }
    join_strings(&tail, sep)
}

/// The text between the first `(` and the last `)`.
pub(crate) fn bracketed(rest: &str) -> (r: Result<Vec<char>, Error>)
    requires
        !(bracket_body(rest@) is Panics),
    ensures
        match bracket_body(rest@) {
            Outcome::Done(b) => r matches Ok(v) && v@ == b,
            Outcome::Refused(m) => r matches Err(Error::Parse(e)) && e@ == m,
            Outcome::Panics => false,
        },
{
    let cs = chars_of(rest);
    let open = match find_char(cs.as_slice(), '(') {
        Some(o) => o,
        None => {
            return Err(Error::Parse("Missing '('".to_string()));
        },
    };
    let close = match rfind_char(cs.as_slice(), ')') {
        Some(c) => c,
        None => {
            return Err(Error::Parse("Missing ')'".to_string()));
        },
    };
    Ok(slice_chars(cs.as_slice(), open + 1, close))
}

/// The trimmed pieces of `s` split at `,`.
fn split_commas(s: &[char]) -> (r: Vec<String>)
    ensures
        r.deep_view() == comma_list(s@),
{
    let pieces = split_chars(s, ',');
    let mut out: Vec<String> = Vec::new();
    let mut i: usize = 0;
    while i < pieces.len()
        invariant
            i <= pieces@.len(),
            out.deep_view() == pieces.deep_view().take(i as int).map_values(|p: Seq<char>| trim(p)),
        decreases pieces@.len() - i,
    {
        let t = trim_chars(pieces[i].as_slice());
        let ghost before = out.deep_view();
        push_string(&mut out, string_of(t.as_slice()));
        proof {
            assert(pieces.deep_view()[i as int] == pieces@[i as int]@);
            assert(pieces.deep_view().take(i + 1).map_values(|p: Seq<char>| trim(p)) =~= before.push(
                trim(pieces@[i as int]@),
            ));
        }
        i = i + 1;
    }
    proof {
        assert(pieces.deep_view().take(pieces@.len() as int) =~= pieces.deep_view());
    }
    out
}

/// A `column=value` pair.
fn split_pair(pair: &str, missing: &str) -> (r: Result<(String, Value), Error>)
    requires
        !(pair_spec(pair@, missing@) is Panics),
    ensures
        match pair_spec(pair@, missing@) {
            Outcome::Done(p) => r matches Ok((c, v)) && c@ == p.0 && v@ == p.1,
            Outcome::Refused(m) => r matches Err(Error::Parse(e)) && e@ == m,
            Outcome::Panics => false,
        },
{
    let cs = chars_of(pair);
    let eq = match find_char(cs.as_slice(), '=') {
        Some(e) => e,
        None => {
            return Err(Error::Parse(missing.to_string()));
        },
    };
    let col = slice_chars(cs.as_slice(), 0, eq);
    let raw = slice_chars(cs.as_slice(), eq + 1, cs.len());
    let raw_s = string_of(raw.as_slice());
    proof {
        assert(raw@ =~= pair@.skip(eq + 1));
        assert(col@ =~= pair@.take(eq as int));
    }
    let val = unquote(raw_s.as_str());
    Ok((string_of(col.as_slice()), Value::Text(val)))
}

pub(crate) fn parse_create(parts: &Vec<String>) -> (r: Result<Statement, Error>)
    requires
        !(create_spec(parts.deep_view()) is Panics),
    ensures
        outcome_is(r, create_spec(parts.deep_view())),
{
    let ghost pv = parts.deep_view();
    if parts.len() < 4 || !str_eq(parts[1].as_str(), "table") {
        proof {
            if parts.len() >= 4 {
                assert(pv[1] == parts@[1]@);
            }
        }
        return Err(Error::Parse("Syntax: CREATE TABLE table_name (col1, col2, ...)".to_string()));
    }
    proof {
        assert(pv[1] == parts@[1]@);
        assert(pv[2] == parts@[2]@);
    }
    let name = parts[2].clone();
    let rest = join_from(parts, 3, " ");
    let body = match bracketed(rest.as_str()) {
        Ok(b) => b,
        Err(e) => {
            return Err(e);
        },
    };
    let columns = split_commas(body.as_slice());
    Ok(Statement::CreateTable { name, columns })
}

/// The text values of the unquoted pieces.
fn text_values(raw: &Vec<String>) -> (r: Vec<Value>)
    requires
        unquoted_cells(raw.deep_view()) is Some,
    ensures
        Some(r.deep_view()) == unquoted_cells(raw.deep_view()),
{
    let ghost rv = raw.deep_view();
    let mut out: Vec<Value> = Vec::new();
    let mut i: usize = 0;
    while i < raw.len()
        invariant
            i <= raw@.len(),
            rv == raw.deep_view(),
            unquoted_cells(rv) is Some,
            out.deep_view() == Seq::new(i as nat, |k: int| Cell::Text(unquote_spec(rv[k])->0)),
        decreases raw@.len() - i,
    {
        proof {
            assert(rv[i as int] == raw@[i as int]@);
            if unquote_spec(rv[i as int]) is None {
                assert(exists|k: int| 0 <= k < rv.len() && #[trigger] unquote_spec(rv[k]) is None);
            }
        }
        let u = unquote(raw[i].as_str());
        let ghost before = out.deep_view();
        let ghost uv = u@;
        out.push(Value::Text(u));
        proof {
            assert(out.deep_view() =~= before.push(Cell::Text(uv)));
            assert(out.deep_view() =~= Seq::new((i + 1) as nat, |k: int| Cell::Text(unquote_spec(rv[k])->0)));
        }
        i = i + 1;
    }
    out
}

fn parse_insert(parts: &Vec<String>) -> (r: Result<Statement, Error>)
    requires
        !(insert_spec(parts.deep_view()) is Panics),
    ensures
        outcome_is(r, insert_spec(parts.deep_view())),
{
    let ghost pv = parts.deep_view();
    if parts.len() < 5 || !str_eq(parts[1].as_str(), "into") || !str_eq(parts[3].as_str(), "values") {
        proof {
            if parts.len() >= 5 {
                assert(pv[1] == parts@[1]@);
                assert(pv[3] == parts@[3]@);
            }
        }
        return Err(Error::Parse("Syntax: INSERT INTO table VALUES (val1|val2|...)".to_string()));
    }
    proof {
        assert(pv[1] == parts@[1]@);
        assert(pv[2] == parts@[2]@);
        assert(pv[3] == parts@[3]@);
    }
    let table = parts[2].clone();
    let rest = join_from(parts, 4, " ");
    let body = match bracketed(rest.as_str()) {
        Ok(b) => b,
        Err(e) => {
            return Err(e);
        },
    };
    let body_s = string_of(body.as_slice());
    let raw = split_quoted(body_s.as_str(), '|');
    let values = text_values(&raw);
    Ok(Statement::Insert { table, values })
}

pub(crate) fn parse_select(parts: &Vec<String>) -> (r: Result<Statement, Error>)
    requires
        !(select_spec(parts.deep_view()) is Panics),
    ensures
        outcome_is(r, select_spec(parts.deep_view())),
{
    let ghost pv = parts.deep_view();
    if parts.len() < 4 || !str_eq(parts[2].as_str(), "from") {
        proof {
            if parts.len() >= 4 {
                assert(pv[2] == parts@[2]@);
            }
        }
        return Err(Error::Parse("Syntax: SELECT columns FROM table [WHERE col=value]".to_string()));
    }
    proof {
        assert(pv[1] == parts@[1]@);
        assert(pv[2] == parts@[2]@);
        assert(pv[3] == parts@[3]@);
    }
    let columns = if str_eq(parts[1].as_str(), "*") {
        let mut v: Vec<String> = Vec::new();
        push_string(&mut v, "*".to_string());
        proof {
            assert(v.deep_view() =~= seq!["*"@]);
        }
        v
    } else {
        let cs = chars_of(parts[1].as_str());
        split_commas(cs.as_slice())
    };
    let table = parts[3].clone();
    let has_where = parts.len() > 4 && str_eq(parts[4].as_str(), "where") && parts.len() >= 6;
    proof {
        if parts.len() > 4 {
            assert(pv[4] == parts@[4]@);
        }
        if parts.len() >= 6 {
            assert(pv[5] == parts@[5]@);
        }
    }
    let condition = if has_where {
        match split_pair(parts[5].as_str(), "Invalid condition") {
            Ok(c) => Some(c),
            Err(e) => {
                return Err(e);
            },
        }
    } else {
        None
    };
    Ok(Statement::Select { columns, table, condition })
}

pub(crate) fn parse_update(parts: &Vec<String>) -> (r: Result<Statement, Error>)
    requires
        !(update_spec(parts.deep_view()) is Panics),
    ensures
        outcome_is(r, update_spec(parts.deep_view())),
{
    let ghost pv = parts.deep_view();
    if parts.len() < 8 || !str_eq(parts[2].as_str(), "set") || !str_eq(parts[4].as_str(), "where") {
        proof {
            if parts.len() >= 8 {
                assert(pv[2] == parts@[2]@);
                assert(pv[4] == parts@[4]@);
            }
        }
        return Err(Error::Parse("Syntax: UPDATE table SET col=value WHERE col=value".to_string()));
    }
    proof {
        assert(pv[1] == parts@[1]@);
        assert(pv[2] == parts@[2]@);
        assert(pv[3] == parts@[3]@);
        assert(pv[4] == parts@[4]@);
        assert(pv[5] == parts@[5]@);
    }
    let table = parts[1].clone();
    let (set_col, set_val) = match split_pair(parts[3].as_str(), "Missing '=' in SET") {
        Ok(p) => p,
        Err(e) => {
            return Err(e);
        },
    };
    let condition = match split_pair(parts[5].as_str(), "Missing '=' in WHERE") {
        Ok(p) => p,
        Err(e) => {
            return Err(e);
        },
    };
    Ok(Statement::Update { table, set_col, set_val, condition })
}

pub(crate) fn parse_delete(parts: &Vec<String>) -> (r: Result<Statement, Error>)
    requires
        !(delete_spec(parts.deep_view()) is Panics),
    ensures
        outcome_is(r, delete_spec(parts.deep_view())),
{
    let ghost pv = parts.deep_view();
    if parts.len() < 6 || !str_eq(parts[1].as_str(), "from") || !str_eq(parts[3].as_str(), "where") {
        proof {
            if parts.len() >= 6 {
                assert(pv[1] == parts@[1]@);
                assert(pv[3] == parts@[3]@);
            }
        }
        return Err(Error::Parse("Syntax: DELETE FROM table WHERE col=value".to_string()));
    }
    proof {
        assert(pv[1] == parts@[1]@);
        assert(pv[2] == parts@[2]@);
        assert(pv[3] == parts@[3]@);
        assert(pv[4] == parts@[4]@);
    }
    let table = parts[2].clone();
    let condition = match split_pair(parts[4].as_str(), "Invalid condition, expected col=value") {
        Ok(p) => p,
        Err(e) => {
            return Err(e);
        },
    };
    Ok(Statement::Delete { table, condition })
}

/// The words of `sql`.
pub fn words(sql: &str) -> (r: Vec<String>)
    ensures
        r.deep_view() == split_ws(sql@),
{
    let cs = chars_of(sql);
    let ws = split_whitespace(cs.as_slice());
    strings_of(&ws)
}

/// Reads one command of the whitespace-split form.
pub fn parse(sql: &str) -> (r: Result<Statement, Error>)
    requires
        !(command_spec(sql@) is Panics),
    ensures
        outcome_is(r, command_spec(sql@)),
{
    let parts = words(sql);
    let ghost pv = parts.deep_view();
    if parts.len() == 0 {
        return Err(Error::Parse("Empty query".to_string()));
    }
    proof {
        assert(pv[0] == parts@[0]@);
    }
    let first = parts[0].as_str();
    if str_eq(first, "create") {
        parse_create(&parts)
    } else if str_eq(first, "insert") {
        parse_insert(&parts)
    } else if str_eq(first, "select") {
        parse_select(&parts)
    } else if str_eq(first, "update") {
        parse_update(&parts)
    } else if str_eq(first, "delete") {
        parse_delete(&parts)
    } else {
        Err(Error::Parse(concat_str("Unknown command: ", first)))
    }
}


// ---------------------------------------------------------------------------
// Commands on which the reader panics
// ---------------------------------------------------------------------------

/// Whether unquoting `s` slices out of order: `s` trims to a lone quote.
pub(crate) fn lone_quote(s: &str) -> (r: bool)
    ensures
        r == (unquote_spec(s@) is None),
{
    let cs = chars_of(s);
    let t = trim_chars(cs.as_slice());
    t.len() == 1 && t[0] == '\''
}

/// Whether one of `pieces` unquotes to nothing.
pub(crate) fn any_lone_quote(pieces: &Vec<String>) -> (r: bool)
    ensures
        r == (unquoted_cells(pieces.deep_view()) is None),
{
    let ghost pv = pieces.deep_view();
    let mut i: usize = 0;
    while i < pieces.len()
        invariant
            i <= pieces@.len(),
            pv == pieces.deep_view(),
            forall|j: int| 0 <= j < i ==> !(#[trigger] unquote_spec(pv[j]) is None),
        decreases pieces@.len() - i,
    {
        proof {
            assert(pv[i as int] == pieces@[i as int]@);
        }
        if lone_quote(pieces[i].as_str()) {
            return true;
        }
        i = i + 1;
    }
    false
}

/// Whether taking the text between the brackets of `rest` slices out of
/// order: its last `)` comes before its first `(`.
pub(crate) fn bracket_panics(rest: &str) -> (r: bool)
    ensures
        r == (bracket_body(rest@) is Panics),
{
    let cs = chars_of(rest);
    match find_char(cs.as_slice(), '(') {
        None => false,
        Some(o) => match rfind_char(cs.as_slice(), ')') {
            None => false,
            Some(c) => c < o + 1,
        },
    }
}

/// Whether reading the pair `pair` panics, whatever its message.
fn pair_panics(pair: &str) -> (r: bool)
    ensures
        forall|m: Seq<char>| r == (#[trigger] pair_spec(pair@, m) is Panics),
{
    let cs = chars_of(pair);
    match find_char(cs.as_slice(), '=') {
        None => false,
        Some(e) => {
            let raw = slice_chars(cs.as_slice(), e + 1, cs.len());
            proof {
                assert(raw@ =~= pair@.skip(e + 1));
            }
            lone_quote(string_of(raw.as_slice()).as_str())
        },
    }
}

/// Whether reading the words of a CREATE panics.
pub(crate) fn create_panics(parts: &Vec<String>) -> (r: bool)
    ensures
        r == (create_spec(parts.deep_view()) is Panics),
{
    let ghost pv = parts.deep_view();
    proof {
        assert(pv.len() == parts@.len());
    }
    if parts.len() < 4 || !str_eq(parts[1].as_str(), "table") {
        proof {
            if parts.len() >= 4 {
                assert(pv[1] == parts@[1]@);
            }
        }
        return false;
    }
    proof {
        assert(pv[1] == parts@[1]@);
    }
    bracket_panics(join_from(parts, 3, " ").as_str())
}

/// Whether reading the words of a SELECT panics.
pub(crate) fn select_panics(parts: &Vec<String>) -> (r: bool)
    ensures
        r == (select_spec(parts.deep_view()) is Panics),
{
    let ghost pv = parts.deep_view();
    proof {
        assert(pv.len() == parts@.len());
    }
    if parts.len() < 4 || !str_eq(parts[2].as_str(), "from") {
        proof {
            if parts.len() >= 4 {
                assert(pv[2] == parts@[2]@);
            }
        }
        return false;
    }
    proof {
        assert(pv[2] == parts@[2]@);
    }
    if parts.len() >= 6 && str_eq(parts[4].as_str(), "where") {
        proof {
            assert(pv[4] == parts@[4]@);
            assert(pv[5] == parts@[5]@);
        }
        pair_panics(parts[5].as_str())
    } else {
        proof {
            if parts.len() >= 6 {
                assert(pv[4] == parts@[4]@);
            }
        }
        false
    }
}

/// Whether reading the words of an UPDATE panics.
pub(crate) fn update_panics(parts: &Vec<String>) -> (r: bool)
    ensures
        r == (update_spec(parts.deep_view()) is Panics),
{
    let ghost pv = parts.deep_view();
    proof {
        assert(pv.len() == parts@.len());
    }
    if parts.len() < 8 || !str_eq(parts[2].as_str(), "set") || !str_eq(parts[4].as_str(), "where") {
        proof {
            if parts.len() >= 8 {
                assert(pv[2] == parts@[2]@);
                assert(pv[4] == parts@[4]@);
            }
        }
        return false;
    }
    proof {
        assert(pv[2] == parts@[2]@);
        assert(pv[4] == parts@[4]@);
        assert(pv[3] == parts@[3]@);
        assert(pv[5] == parts@[5]@);
    }
    if pair_panics(parts[3].as_str()) {
        return true;
    }
    let set_chars = chars_of(parts[3].as_str());
    if find_char(set_chars.as_slice(), '=').is_none() {
        return false;
    }
    pair_panics(parts[5].as_str())
}

/// Whether reading the words of a DELETE panics.
pub(crate) fn delete_panics(parts: &Vec<String>) -> (r: bool)
    ensures
        r == (delete_spec(parts.deep_view()) is Panics),
{
    let ghost pv = parts.deep_view();
    proof {
        assert(pv.len() == parts@.len());
    }
    if parts.len() < 6 || !str_eq(parts[1].as_str(), "from") || !str_eq(parts[3].as_str(), "where") {
        proof {
            if parts.len() >= 6 {
                assert(pv[1] == parts@[1]@);
                assert(pv[3] == parts@[3]@);
            }
        }
        return false;
    }
    proof {
        assert(pv[1] == parts@[1]@);
        assert(pv[3] == parts@[3]@);
        assert(pv[4] == parts@[4]@);
    }
    pair_panics(parts[4].as_str())
}

/// Whether reading the words of an INSERT panics.
fn insert_panics(parts: &Vec<String>) -> (r: bool)
    ensures
        r == (insert_spec(parts.deep_view()) is Panics),
{
    let ghost pv = parts.deep_view();
    proof {
        assert(pv.len() == parts@.len());
    }
    if parts.len() < 5 || !str_eq(parts[1].as_str(), "into") || !str_eq(parts[3].as_str(), "values") {
        proof {
            if parts.len() >= 5 {
                assert(pv[1] == parts@[1]@);
                assert(pv[3] == parts@[3]@);
            }
        }
        return false;
    }
    proof {
        assert(pv[1] == parts@[1]@);
        assert(pv[3] == parts@[3]@);
    }
    let rest = join_from(parts, 4, " ");
    if bracket_panics(rest.as_str()) {
        return true;
    }
    match bracketed(rest.as_str()) {
        Err(_) => false,
        Ok(body) => {
            let pieces = split_quoted(string_of(body.as_slice()).as_str(), '|');
            any_lone_quote(&pieces)
        },
    }
}

/// Whether reading `sql` panics: a lone quote to unquote, or a `)` before
/// the `(` of a list.
pub fn would_panic(sql: &str) -> (r: bool)
    ensures
        r == (command_spec(sql@) is Panics),
{
    let parts = words(sql);
    let ghost pv = parts.deep_view();
    if parts.len() == 0 {
        return false;
    }
    proof {
        assert(pv[0] == parts@[0]@);
    }
    let first = parts[0].as_str();
    if str_eq(first, "create") {
        create_panics(&parts)
    } else if str_eq(first, "insert") {
        insert_panics(&parts)
    } else if str_eq(first, "select") {
        select_panics(&parts)
    } else if str_eq(first, "update") {
        update_panics(&parts)
    } else if str_eq(first, "delete") {
        delete_panics(&parts)
    } else {
        false
    }
}

/// Reads one command of the whitespace-split form, or gives `None` for the
/// commands on which [`parse`] would panic.
pub fn parse_checked(sql: &str) -> (r: Option<Result<Statement, Error>>)
    ensures
        r is None <==> command_spec(sql@) is Panics,
        r matches Some(x) ==> outcome_is(x, command_spec(sql@)),
{
    if would_panic(sql) {
        None
    } else {
        Some(parse(sql))
    }
}

} // verus!
