//! Commands of the whitespace-split reader, and splitting a value list at
//! a delimiter outside quotes.
use vstd::prelude::*;
use crate::text::{push_piece, split_fold, split_on, trim, trim_chars, strings_of};
use crate::types::{Cell, Value};

verus! {

/// A command of the whitespace-split reader; conditions compare one
/// column with one value for equality.
#[derive(Debug, PartialEq)]
pub enum Statement {
    CreateTable { name: String, columns: Vec<String> },
    Insert { table: String, values: Vec<Value> },
    Select { columns: Vec<String>, table: String, condition: Option<(String, Value)> },
    Update { table: String, set_col: String, set_val: Value, condition: (String, Value) },
    Delete { table: String, condition: (String, Value) },
}

/// The mathematical content of a [`Statement`].
pub enum StatementModel {
    CreateTable { name: Seq<char>, columns: Seq<Seq<char>> },
    Insert { table: Seq<char>, values: Seq<Cell> },
    Select { columns: Seq<Seq<char>>, table: Seq<char>, condition: Option<(Seq<char>, Cell)> },
    Update { table: Seq<char>, set_col: Seq<char>, set_val: Cell, condition: (Seq<char>, Cell) },
    Delete { table: Seq<char>, condition: (Seq<char>, Cell) },
}

/// The content of a condition.
pub open spec fn condition_view(c: (String, Value)) -> (Seq<char>, Cell) {
    (c.0@, c.1@)
}

impl View for Statement {
    type V = StatementModel;

    open spec fn view(&self) -> StatementModel {
        match self {
            Statement::CreateTable { name, columns } => StatementModel::CreateTable {
                name: name@,
                columns: columns.deep_view(),
            },
            Statement::Insert { table, values } => StatementModel::Insert {
                table: table@,
                values: values.deep_view(),
            },
            Statement::Select { columns, table, condition } => StatementModel::Select {
                columns: columns.deep_view(),
                table: table@,
                condition: match condition {
                    Some(c) => Some(condition_view(*c)),
                    None => None,
                },
            },
            Statement::Update { table, set_col, set_val, condition } => StatementModel::Update {
                table: table@,
                set_col: set_col@,
                set_val: set_val@,
                condition: condition_view(*condition),
            },
            Statement::Delete { table, condition } => StatementModel::Delete {
                table: table@,
                condition: condition_view(*condition),
            },
        }
    }
}

/// The pieces finished so far, the piece being read and whether a quote is
/// open, after reading `s`.
pub open spec fn quoted_fold(s: Seq<char>, delim: char) -> (Seq<Seq<char>>, Seq<char>, bool)
    decreases s.len(),
{
    if s.len() == 0 {
        (Seq::empty(), Seq::empty(), false)
    } else {
        let (done, cur, open) = quoted_fold(s.drop_last(), delim);
        let c = s.last();
        if c == '\'' {
            (done, cur.push(c), !open)
        } else if c == delim && !open {
            (done.push(trim(cur)), Seq::empty(), open)
        } else {
            (done, cur.push(c), open)
        }
    }
}

/// The trimmed pieces of `s` between occurrences of `delim` outside
/// single quotes (quotes kept); a last piece that is empty before trimming
/// is left out.
pub open spec fn split_quoted_spec(s: Seq<char>, delim: char) -> Seq<Seq<char>> {
    let (done, cur, _) = quoted_fold(s, delim);
    if cur.len() > 0 {
        done.push(trim(cur))
    } else {
        done
    }
}

/// Without quotes in `s`, the fold is the plain split with its finished
/// pieces trimmed, and no quote is open.
proof fn lemma_quoted_fold_plain(s: Seq<char>, delim: char)
    requires
        forall|i: int| 0 <= i < s.len() ==> s[i] != '\'',
    ensures
        quoted_fold(s, delim) == (split_fold(s, delim).0.map_values(|p: Seq<char>| trim(p)), split_fold(s, delim).1, false),
    decreases s.len(),
{
    if s.len() > 0 {
        let t = s.drop_last();
        assert forall|i: int| 0 <= i < t.len() implies t[i] != '\'' by {
            assert(t[i] == s[i]);
        }
        lemma_quoted_fold_plain(t, delim);
        assert(s[s.len() - 1] != '\'');
        let done = split_fold(t, delim).0;
        let cur = split_fold(t, delim).1;
        if s.last() == delim {
            assert(done.push(cur).map_values(|p: Seq<char>| trim(p)) =~= done.map_values(|p: Seq<char>| trim(p)).push(
                trim(cur),
            ));
        }
    }
}

/// Text without quotes splits as `str::split` at the delimiter does, with
/// a last empty piece dropped and every piece trimmed.
pub proof fn law_split_quoted_plain(s: Seq<char>, delim: char)
    requires
        forall|i: int| 0 <= i < s.len() ==> s[i] != '\'',
    ensures
        split_quoted_spec(s, delim) == ({
            let v = split_on(s, delim);
            (if v.last().len() == 0 {
                v.drop_last()
            } else {
                v
            }).map_values(|p: Seq<char>| trim(p))
        }),
{
    lemma_quoted_fold_plain(s, delim);
    let done = split_fold(s, delim).0;
    let cur = split_fold(s, delim).1;
    assert(split_on(s, delim).drop_last() =~= done);
    assert(split_on(s, delim).last() == cur);
    if cur.len() > 0 {
        assert(done.push(cur).map_values(|p: Seq<char>| trim(p)) =~= done.map_values(|p: Seq<char>| trim(p)).push(
            trim(cur),
        ));
    }
}

/// The pieces of `s` between delimiters outside quotes, each trimmed.
pub fn split_quoted(s: &str, delim: char) -> (r: Vec<String>)
    ensures
        r.deep_view() == split_quoted_spec(s@, delim),
{
    let cs = crate::text::chars_of(s);
    let mut result: Vec<Vec<char>> = Vec::new();
    let mut current: Vec<char> = Vec::new();
    let mut in_quote = false;
    let mut i: usize = 0;
    while i < cs.len()
        invariant
            i <= cs.len(),
            cs@ == s@,
            (result.deep_view(), current@, in_quote) == quoted_fold(s@.take(i as int), delim),
        decreases cs.len() - i,
    {
        let c = cs[i];
        proof {
            assert(s@.take(i + 1).drop_last() =~= s@.take(i as int));
            assert(s@.take(i + 1).last() == c);
        }
        if c == '\'' && !in_quote {
            in_quote = true;
            current.push(c);
        } else if c == '\'' && in_quote {
            in_quote = false;
            current.push(c);
        } else if c == delim && !in_quote {
            let piece = trim_chars(current.as_slice());
            push_piece(&mut result, piece);
            current = Vec::new();
        } else {
            current.push(c);
        }
        i = i + 1;
    }
    proof {
        assert(s@.take(cs.len() as int) =~= s@);
    }
    if current.len() > 0 {
        let piece = trim_chars(current.as_slice());
        push_piece(&mut result, piece);
    }
    strings_of(&result)
}

} // verus!
