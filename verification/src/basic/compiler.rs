//! The whitespace-split reader of the line-command engine. It reads as the
//! file-backed engine's reader does, except that INSERT splits its values
//! at every `|`.
use vstd::prelude::*;
use crate::engine::compiler::{
    any_lone_quote, bracket_body, bracket_panics, bracketed, create_panics, create_spec, delete_panics, select_panics, update_panics, delete_spec, join_from, outcome_is, parse_create,
    parse_delete, parse_select, parse_update, select_spec, unquote, unquote_spec, unquoted_cells,
    update_spec, words, Outcome,
};
use crate::engine::syntax::{Statement, StatementModel};
use crate::error::Error;
use crate::text::{
    concat_str, join, split_chars, split_on, split_ws, str_eq, string_of, trim,
};
use crate::types::{Cell, Value};

verus! {

/// `INSERT INTO table VALUES (v1|v2|...)`, the values split at every `|`.
pub open spec fn insert_spec(parts: Seq<Seq<char>>) -> Outcome<StatementModel> {
    if parts.len() < 5 || parts[1] != "into"@ || parts[3] != "values"@ {
        Outcome::Refused("Syntax: INSERT INTO table VALUES (val1|val2|...)"@)
    } else {
        match bracket_body(join(parts.skip(4), " "@)) {
            Outcome::Refused(m) => Outcome::Refused(m),
            Outcome::Panics => Outcome::Panics,
            Outcome::Done(body) => match unquoted_cells(
                split_on(body, '|').map_values(|p: Seq<char>| trim(p)),
            ) {
                None => Outcome::Panics,
                Some(values) => Outcome::Done(StatementModel::Insert { table: parts[2], values }),
            },
        }
    }
}

/// A whole command, picked by its first word (case matters).
pub open spec fn command_spec(sql: Seq<char>) -> Outcome<StatementModel> {
    let parts = split_ws(sql);
    if parts.len() == 0 {
        Outcome::Refused("Empty query"@)
    } else if parts[0] == "create"@ {
        create_spec(parts)
    } else if parts[0] == "insert"@ {
        insert_spec(parts)
    } else if parts[0] == "select"@ {
        select_spec(parts)
    } else if parts[0] == "update"@ {
        update_spec(parts)
    } else if parts[0] == "delete"@ {
        delete_spec(parts)
    } else {
        Outcome::Refused("Unknown command: "@ + parts[0])
    }
}

fn parse_insert(parts: &Vec<String>) -> (r: Result<Statement, Error>)
    requires
        !(insert_spec(parts.deep_view()) is Panics),
    ensures
        outcome_is(r, insert_spec(parts.deep_view())),
{
    let ghost pv = parts.deep_view();
    if parts.len() < 5 || !str_eq(parts[1].as_str(), "into") || !str_eq(parts[3].as_str(), "values") {
        proof {
            if parts.len() >= 5 {
                assert(pv[1] == parts@[1]@);
                assert(pv[3] == parts@[3]@);
            }
        }
        return Err(Error::Parse("Syntax: INSERT INTO table VALUES (val1|val2|...)".to_string()));
    }
    proof {
        assert(pv[1] == parts@[1]@);
        assert(pv[2] == parts@[2]@);
        assert(pv[3] == parts@[3]@);
    }
    let table = parts[2].clone();
    let rest = join_from(parts, 4, " ");
    let body = match bracketed(rest.as_str()) {
        Ok(b) => b,
        Err(e) => {
            return Err(e);
        },
    };
    let pieces = split_chars(body.as_slice(), '|');
    let ghost raw = pieces.deep_view().map_values(|p: Seq<char>| trim(p));
    let mut values: Vec<Value> = Vec::new();
    let mut i: usize = 0;
    while i < pieces.len()
        invariant
            i <= pieces@.len(),
            raw == pieces.deep_view().map_values(|p: Seq<char>| trim(p)),
            unquoted_cells(raw) is Some,
            values.deep_view() == Seq::new(i as nat, |k: int| Cell::Text(unquote_spec(raw[k])->0)),
        decreases pieces@.len() - i,
    {
        let t = crate::text::trim_chars(pieces[i].as_slice());
        let ts = string_of(t.as_slice());
        proof {
            assert(pieces.deep_view()[i as int] == pieces@[i as int]@);
            assert(ts@ == raw[i as int]);
            if unquote_spec(raw[i as int]) is None {
                assert(exists|k: int| 0 <= k < raw.len() && #[trigger] unquote_spec(raw[k]) is None);
            }
        }
        let u = unquote(ts.as_str());
        let ghost before = values.deep_view();
        let ghost uv = u@;
        values.push(Value::Text(u));
        proof {
            assert(values.deep_view() =~= before.push(Cell::Text(uv)));
            assert(values.deep_view() =~= Seq::new((i + 1) as nat, |k: int| Cell::Text(unquote_spec(raw[k])->0)));
        }
        i = i + 1;
    }
    Ok(Statement::Insert { table, values })
}

/// Reads one command of the line-command engine.
pub fn parse(sql: &str) -> (r: Result<Statement, Error>)
    requires
        !(command_spec(sql@) is Panics),
    ensures
        outcome_is(r, command_spec(sql@)),
{
    let parts = words(sql);
    let ghost pv = parts.deep_view();
    if parts.len() == 0 {
        return Err(Error::Parse("Empty query".to_string()));
    }
    proof {
        assert(pv[0] == parts@[0]@);
    }
    let first = parts[0].as_str();
    if str_eq(first, "create") {
        parse_create(&parts)
    } else if str_eq(first, "insert") {
        parse_insert(&parts)
    } else if str_eq(first, "select") {
        parse_select(&parts)
    } else if str_eq(first, "update") {
        parse_update(&parts)
    } else if str_eq(first, "delete") {
        parse_delete(&parts)
    } else {
        Err(Error::Parse(concat_str("Unknown command: ", first)))
    }
}


/// Whether reading the words of an INSERT panics.
fn insert_panics(parts: &Vec<String>) -> (r: bool)
    ensures
        r == (insert_spec(parts.deep_view()) is Panics),
{
    let ghost pv = parts.deep_view();
    proof {
        assert(pv.len() == parts@.len());
    }
    if parts.len() < 5 || !str_eq(parts[1].as_str(), "into") || !str_eq(parts[3].as_str(), "values") {
        proof {
            if parts.len() >= 5 {
                assert(pv[1] == parts@[1]@);
                assert(pv[3] == parts@[3]@);
            }
        }
        return false;
    }
    proof {
        assert(pv[1] == parts@[1]@);
        assert(pv[3] == parts@[3]@);
    }
    let rest = join_from(parts, 4, " ");
    if bracket_panics(rest.as_str()) {
        return true;
    }
    let body = match bracketed(rest.as_str()) {
        Ok(b) => b,
        Err(_) => {
            return false;
        },
    };
    let pieces = split_chars(body.as_slice(), '|');
    let mut trimmed: Vec<String> = Vec::new();
    let mut i: usize = 0;
    while i < pieces.len()
        invariant
            i <= pieces@.len(),
            trimmed.deep_view() == pieces.deep_view().take(i as int).map_values(|p: Seq<char>| trim(p)),
        decreases pieces@.len() - i,
    {
        let t = crate::text::trim_chars(pieces[i].as_slice());
        let ghost before = trimmed.deep_view();
        crate::text::push_string(&mut trimmed, string_of(t.as_slice()));
        proof {
            assert(pieces.deep_view()[i as int] == pieces@[i as int]@);
            assert(pieces.deep_view().take(i + 1).map_values(|p: Seq<char>| trim(p)) =~= before.push(
                trim(pieces@[i as int]@),
            ));
        }
        i = i + 1;
    }
    proof {
        assert(pieces.deep_view().take(pieces@.len() as int) =~= pieces.deep_view());
    }
    any_lone_quote(&trimmed)
}

/// Whether reading `sql` panics: a lone quote to unquote, or a `)` before
/// the `(` of a list.
pub fn would_panic(sql: &str) -> (r: bool)
    ensures
        r == (command_spec(sql@) is Panics),
{
    let parts = words(sql);
    let ghost pv = parts.deep_view();
    if parts.len() == 0 {
        return false;
    }
    proof {
        assert(pv[0] == parts@[0]@);
    }
    let first = parts[0].as_str();
    if str_eq(first, "create") {
        create_panics(&parts)
    } else if str_eq(first, "insert") {
        insert_panics(&parts)
    } else if str_eq(first, "select") {
        select_panics(&parts)
    } else if str_eq(first, "update") {
        update_panics(&parts)
    } else if str_eq(first, "delete") {
        delete_panics(&parts)
    } else {
        false
    }
}

} // verus!
