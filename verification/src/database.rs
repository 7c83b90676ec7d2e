//! The in-memory state of an encrypted database and its table operations.
//! Opening, locking, encrypting and writing the file are done around this
//! state by the program that holds it.
use vstd::prelude::*;
use vstd::utf8::encode_utf8;
use crate::config::{DB_VERSION, MAX_COLUMNS_PER_TABLE, MAX_COLUMN_NAME_LEN, MAX_TABLE_NAME_LEN};
use crate::data;
use crate::error::Error;
use crate::log::{entry_is, trim_logs_if_needed, trimmed_log, LogEntry};
use crate::table::{ColumnDef, ColumnType, TableData, TableSchema};
use crate::text::{
    concat_str, debug_str, debug_text, decimal, extend_chars, extend_str, join, push_piece,
    str_eq, str_less, str_lt, string_of, usize_chars, lemma_str_lt_irreflexive, lemma_str_lt_total,
    lemma_str_lt_transitive, chars_of,
};
use crate::types::Value;

verus! {

/// Whether `name` is a letter or underscore followed by letters, digits and
/// underscores (ASCII only).
pub open spec fn is_identifier(name: Seq<char>) -> bool {
    &&& name.len() > 0
    &&& (('a' <= name[0] && name[0] <= 'z') || ('A' <= name[0] && name[0] <= 'Z') || name[0] == '_')
    &&& forall|i: int|
        0 <= i < name.len() ==> {
            let c = #[trigger] name[i];
            ('a' <= c && c <= 'z') || ('A' <= c && c <= 'Z') || ('0' <= c && c <= '9') || c == '_'
        }
}

/// `Regex::is_match` with the pattern `^[A-Za-z_][A-Za-z0-9_]*$` (compiled
/// by `Regex::new`, which accepts this pattern): whether `name` is one
/// ASCII letter or underscore followed by ASCII letters, digits and
/// underscores, to its end.
#[verifier::external_body]
fn matches_name_pattern(name: &str) -> (r: bool)
    ensures
        r == is_identifier(name@),
{
    regex::Regex::new(crate::config::ALLOWED_NAME_REGEX).unwrap().is_match(name)
}

/// The length of `s` in bytes (UTF-8), as `str::len` returns it.
pub open spec fn byte_len(s: Seq<char>) -> nat {
    (encode_utf8(s).len() as usize) as nat
}

/// Whether `name` is a non-empty identifier of at most `max_len` bytes.
pub open spec fn valid_name(name: Seq<char>, max_len: nat) -> bool {
    name.len() > 0 && byte_len(name) <= max_len && is_identifier(name)
}

/// The message for a name whose length is out of bounds.
pub open spec fn name_length_message(context: Seq<char>, max_len: nat) -> Seq<char> {
    context + " name length must be 1.."@ + decimal(max_len)
}

/// The message for a name with characters that are not allowed.
pub open spec fn name_chars_message(context: Seq<char>, name: Seq<char>) -> Seq<char> {
    context + " '"@ + name
        + "' contains invalid characters. Allowed: letters, numbers, underscore, must start with letter or underscore"@
}

/// The error that checking `name` against `max_len` gives, if any.
pub open spec fn name_check(name: Seq<char>, max_len: nat, context: Seq<char>, r: Result<(), Error>) -> bool {
    if !(name.len() > 0 && byte_len(name) <= max_len) {
        r matches Err(Error::InvalidInput(m)) && m@ == name_length_message(context, max_len)
    } else if !is_identifier(name) {
        r matches Err(Error::InvalidInput(m)) && m@ == name_chars_message(context, name)
    } else {
        r is Ok
    }
}

/// Checks that `name` has 1 to `max_len` bytes and is an identifier.
pub fn validate_name(name: &str, max_len: usize, context: &str) -> (r: Result<(), Error>)
    ensures
        name_check(name@, max_len as nat, context@, r),
        r is Ok <==> valid_name(name@, max_len as nat),
{
    if name.is_empty() || name.len() > max_len {
        let d = usize_chars(max_len);
        let m1 = concat_str(context, " name length must be 1..");
        let m2 = concat_str(m1.as_str(), string_of(d.as_slice()).as_str());
        return Err(Error::InvalidInput(m2));
    }
    if !matches_name_pattern(name) {
        let m1 = concat_str(context, " '");
        let m2 = concat_str(m1.as_str(), name);
        let m3 = concat_str(
            m2.as_str(),
            "' contains invalid characters. Allowed: letters, numbers, underscore, must start with letter or underscore",
        );
        return Err(Error::InvalidInput(m3));
    }
    Ok(())
}

/// What `Path::extension` gives for `path`: the part of its file name
/// after the last `.`, when it has one that is not its first character.
pub uninterp spec fn extension_of(path: Seq<char>) -> Option<Seq<char>>;

/// `std::path::Path::extension` of `path`, as text. What it gives is the
/// one named by `extension_of`; how a file name is found is not stated.
#[verifier::external_body]
fn path_extension(path: &str) -> (r: Option<String>)
    ensures
        r matches Some(e) ==> extension_of(path@) == Some(e@),
        r is None ==> extension_of(path@) is None,
{
    std::path::Path::new(path).extension().map(|e| e.to_string_lossy().to_string())
}

/// The error for a database path whose file name has the extension `ext`,
/// if any; only `ndbx` is accepted.
pub open spec fn extension_error(ext: Option<Seq<char>>) -> Option<Seq<char>> {
    match ext {
        None => Some("File must have .ndbx extension"@),
        Some(e) => if e == "ndbx"@ {
            None
        } else {
            Some("File extension must be .ndbx"@)
        },
    }
}

/// Checks that the database file `path` has the `.ndbx` extension.
pub fn check_path(path: &str) -> (r: Result<(), Error>)
    ensures
        match extension_error(extension_of(path@)) {
            None => r is Ok,
            Some(m) => r matches Err(Error::InvalidInput(x)) && x@ == m,
        },
{
    proof {
        reveal_strlit("ndbx");
    }
    match path_extension(path) {
        None => Err(Error::InvalidInput("File must have .ndbx extension".to_string())),
        Some(e) => {
            let ext = crate::config::file_extension();
            assert(ext@ =~= "ndbx"@);
            if str_eq(e.as_str(), ext) {
                Ok(())
            } else {
                Err(Error::InvalidInput("File extension must be .ndbx".to_string()))
            }
        },
    }
}

/// Decides whether a database may be created at a path, `exists` telling
/// whether a file is already there: it may not, and the passphrase must
/// have at least `MIN_PASSPHRASE_LEN` bytes.
pub fn check_create(exists: bool, passphrase: &str) -> (r: Result<(), Error>)
    ensures
        exists ==> (r matches Err(Error::InvalidInput(m)) && m@ == "Database file already exists"@),
        !exists && byte_len(passphrase@) < crate::config::MIN_PASSPHRASE_LEN ==> (r matches Err(
            Error::WeakPassphrase(m),
        ) && m@ == "Minimum length is 8"@),
        !exists && byte_len(passphrase@) >= crate::config::MIN_PASSPHRASE_LEN ==> r is Ok,
{
    if exists {
        return Err(Error::InvalidInput("Database file already exists".to_string()));
    }
    if passphrase.len() < crate::config::MIN_PASSPHRASE_LEN {
        return Err(Error::WeakPassphrase("Minimum length is 8".to_string()));
    }
    Ok(())
}

/// What `{:?}` writes for a column type.
pub open spec fn type_debug(t: ColumnType) -> Seq<char> {
    match t {
        ColumnType::Int => "Int"@,
        ColumnType::Text => "Text"@,
        ColumnType::Bool => "Bool"@,
        ColumnType::Float => "Float"@,
    }
}

/// What `{:?}` writes for a list of (name, type) pairs.
pub open spec fn columns_debug(cols: Seq<(&str, ColumnType)>) -> Seq<char> {
    "["@ + join(
        cols.map_values(|p: (&str, ColumnType)| "("@ + debug_text(p.0@) + ", "@ + type_debug(p.1) + ")"@),
        ", "@,
    ) + "]"@
}

fn type_debug_text(t: ColumnType) -> (r: &'static str)
    ensures
        r@ == type_debug(t),
{
    match t {
        ColumnType::Int => "Int",
        ColumnType::Text => "Text",
        ColumnType::Bool => "Bool",
        ColumnType::Float => "Float",
    }
}

fn columns_debug_text(cols: &Vec<(&str, ColumnType)>) -> (r: String)
    ensures
        r@ == columns_debug(cols@),
{
    let ghost f = |p: (&str, ColumnType)| "("@ + debug_text(p.0@) + ", "@ + type_debug(p.1) + ")"@;
    let mut parts: Vec<Vec<char>> = Vec::new();
    let mut i: usize = 0;
    while i < cols.len()
        invariant
            i <= cols.len(),
            f == (|p: (&str, ColumnType)| "("@ + debug_text(p.0@) + ", "@ + type_debug(p.1) + ")"@),
            parts.deep_view() == cols@.take(i as int).map_values(f),
        decreases cols.len() - i,
    {
        let (n, t) = cols[i];
        let mut piece: Vec<char> = Vec::new();
        extend_str(&mut piece, "(");
        let d = debug_str(n);
        extend_str(&mut piece, d.as_str());
        extend_str(&mut piece, ", ");
        extend_str(&mut piece, type_debug_text(t));
        extend_str(&mut piece, ")");
        push_piece(&mut parts, piece);
        assert(cols@.take(i + 1).map_values(f) =~= cols@.take(i as int).map_values(f).push(f(cols@[i as int])));
        i = i + 1;
    }
    assert(cols@.take(cols.len() as int) =~= cols@);
    let sep = chars_of(", ");
    let body = crate::text::join_chars(&parts, sep.as_slice());
    let mut r: Vec<char> = Vec::new();
    extend_str(&mut r, "[");
    extend_chars(&mut r, body.as_slice());
    extend_str(&mut r, "]");
    string_of(r.as_slice())
}

/// The tables, log and format version of a database.
#[derive(Debug)]
pub struct DbState {
    pub version: u8,
    pub tables: Vec<TableData>,
    pub logs: Vec<LogEntry>,
}

/// Whether the tables are in strictly increasing order of name.
pub open spec fn names_sorted(tables: Seq<TableData>) -> bool {
    forall|i: int, j: int|
        0 <= i < j < tables.len() ==> str_lt(
            #[trigger] tables[i].schema.name@,
            #[trigger] tables[j].schema.name@,
        )
}

/// Whether every table's rows have one cell per column.
pub open spec fn tables_well_formed(tables: Seq<TableData>) -> bool {
    forall|i: int| 0 <= i < tables.len() ==> (#[trigger] tables[i]).well_formed()
}

/// Whether the table at index `i` is named `name`.
pub open spec fn named_at(tables: Seq<TableData>, name: Seq<char>, i: int) -> bool {
    0 <= i < tables.len() && tables[i].schema.name@ == name
}

/// The index of the table named `name`.
pub open spec fn table_pos(tables: Seq<TableData>, name: Seq<char>) -> Option<int> {
    if exists|i: int| #[trigger] named_at(tables, name, i) {
        Some(choose|i: int| #[trigger] named_at(tables, name, i))
    } else {
        None
    }
}

proof fn lemma_table_pos(tables: Seq<TableData>, name: Seq<char>, k: int)
    requires
        names_sorted(tables),
        0 <= k < tables.len(),
        tables[k].schema.name@ == name,
    ensures
        table_pos(tables, name) == Some(k),
{
    assert(named_at(tables, name, k));
    let c = choose|i: int| #[trigger] named_at(tables, name, i);
    assert(table_pos(tables, name) == Some(c));
    if c != k {
        lemma_str_lt_irreflexive(name);
        if c < k {
            assert(str_lt(tables[c].schema.name@, tables[k].schema.name@));
        } else {
            assert(str_lt(tables[k].schema.name@, tables[c].schema.name@));
        }
    }
}

/// Whether `names` lists the names of `tables`, in their (increasing)
/// order.
pub open spec fn names_listed(tables: Seq<TableData>, names: Seq<String>) -> bool {
    &&& names.len() == tables.len()
    &&& forall|i: int| 0 <= i < names.len() ==> (#[trigger] names[i])@ == tables[i].schema.name@
    &&& forall|i: int, j: int| 0 <= i < j < names.len() ==> str_lt(#[trigger] names[i]@, #[trigger] names[j]@)
}

/// Whether `r` is the answer to a request for the columns of table `name`:
/// its column names and types in order, or `TableNotFound`.
pub open spec fn schema_answer(tables: Seq<TableData>, name: Seq<char>, r: Result<Vec<(String, ColumnType)>, Error>) -> bool {
    match table_pos(tables, name) {
        None => r matches Err(Error::TableNotFound(n)) && n@ == name,
        Some(k) => r matches Ok(cols) && cols@.len() == tables[k].schema.columns@.len() && forall|i: int|
            0 <= i < cols@.len() ==> (#[trigger] cols@[i]).0@ == tables[k].schema.columns@[i].name@ && cols@[i].1
                == tables[k].schema.columns@[i].col_type,
    }
}

/// Whether the definitions `defs` are the requested `cols`, in order.
pub open spec fn defs_match(defs: Seq<ColumnDef>, cols: Seq<(&str, ColumnType)>) -> bool {
    &&& defs.len() == cols.len()
    &&& forall|i: int| 0 <= i < defs.len() ==> (#[trigger] defs[i]).name@ == cols[i].0@ && defs[i].col_type == cols[i].1
}

/// The message for a column count out of bounds.
pub open spec fn column_count_message() -> Seq<char> {
    "Table must have between 1 and "@ + decimal(MAX_COLUMNS_PER_TABLE as nat) + " columns"@
}

impl DbState {
    /// The state of a new, empty database.
    pub fn new() -> (r: DbState)
        ensures
            r.version == DB_VERSION,
            r.tables@.len() == 0,
            r.logs@.len() == 0,
    {
        DbState { version: DB_VERSION, tables: Vec::new(), logs: Vec::new() }
    }

    /// Checks the format version and every column name.
    pub fn validate(&self) -> (r: Result<(), Error>)
        ensures
            self.version != DB_VERSION ==> (r matches Err(Error::VersionMismatch { expected, actual })
                && expected == DB_VERSION && actual == self.version),
            r is Ok <==> (self.version == DB_VERSION && forall|i: int, j: int|
                0 <= i < self.tables@.len() && 0 <= j < self.tables@[i].schema.columns@.len()
                    ==> 0 < byte_len(#[trigger] self.tables@[i].schema.columns@[j].name@)
                    <= MAX_COLUMN_NAME_LEN),
            self.version == DB_VERSION && r is Err ==> (r matches Err(Error::InvalidInput(m)) && exists|i: int, j: int|
                0 <= i < self.tables@.len() && 0 <= j < self.tables@[i].schema.columns@.len() && !(0 < byte_len(
                    #[trigger] self.tables@[i].schema.columns@[j].name@,
                ) <= MAX_COLUMN_NAME_LEN) && m@ == "Invalid column name: "@ + self.tables@[i].schema.columns@[j].name@),
    {
        if self.version != DB_VERSION {
            return Err(Error::VersionMismatch { expected: DB_VERSION, actual: self.version });
        }
        let mut i: usize = 0;
        while i < self.tables.len()
            invariant
                i <= self.tables@.len(),
                forall|a: int, j: int|
                    0 <= a < i && 0 <= j < self.tables@[a].schema.columns@.len() ==> 0 < byte_len(
                        #[trigger] self.tables@[a].schema.columns@[j].name@,
                    ) <= MAX_COLUMN_NAME_LEN,
                self.version == DB_VERSION,
            decreases self.tables@.len() - i,
        {
            let cols = &self.tables[i].schema.columns;
            let mut j: usize = 0;
            while j < cols.len()
                invariant
                    j <= cols@.len(),
                    i < self.tables@.len(),
                    cols == &self.tables@[i as int].schema.columns,
                    self.version == DB_VERSION,
                    forall|k: int| 0 <= k < j ==> 0 < byte_len(#[trigger] cols@[k].name@) <= MAX_COLUMN_NAME_LEN,
                decreases cols@.len() - j,
            {
                let name = &cols[j].name;
                if name.as_str().len() == 0 || name.as_str().len() > MAX_COLUMN_NAME_LEN {
                    let m = concat_str("Invalid column name: ", name.as_str());
                    return Err(Error::InvalidInput(m));
                }
                j = j + 1;
            }
            i = i + 1;
        }
        Ok(())
    }
}

/// An open database's tables and log, with a flag for changes not yet
/// written.
pub struct Database {
    state: DbState,
    dirty: bool,
}

impl Database {
    #[verifier::type_invariant]
    spec fn inv(self) -> bool {
        names_sorted(self.state.tables@) && tables_well_formed(self.state.tables@)
    }

    /// The tables, in increasing order of name.
    pub closed spec fn tables(&self) -> Seq<TableData> {
        self.state.tables@
    }

    /// The transaction log.
    pub closed spec fn log(&self) -> Seq<LogEntry> {
        self.state.logs@
    }

    /// Whether there are changes not yet committed.
    pub closed spec fn has_changes(&self) -> bool {
        self.dirty
    }

    /// The format version.
    pub closed spec fn version(&self) -> u8 {
        self.state.version
    }

    /// A database with no tables and an empty log.
    pub fn new() -> (r: Database)
        ensures
            r.tables().len() == 0,
            r.log().len() == 0,
            !r.has_changes(),
            r.version() == DB_VERSION,
    {
        Database { state: DbState::new(), dirty: false }
    }

    /// The state to write to disk.
    pub fn state(&self) -> (r: &DbState)
        ensures
            r.tables@ == self.tables(),
            r.logs@ == self.log(),
            r.version == self.version(),
    {
        &self.state
    }

    /// Whether there are changes not yet committed.
    pub fn is_dirty(&self) -> (r: bool)
        ensures
            r == self.has_changes(),
    {
        self.dirty
    }

    /// Marks the current state as written.
    pub fn mark_committed(&mut self)
        ensures
            final(self).tables() == old(self).tables(),
            final(self).log() == old(self).log(),
            final(self).version() == old(self).version(),
            !final(self).has_changes(),
    {
        proof {
            use_type_invariant(&*self);
        }
        self.dirty = false;
    }

    /// The transaction log.
    pub fn logs(&self) -> (r: &Vec<LogEntry>)
        ensures
            r@ == self.log(),
    {
        &self.state.logs
    }

    /// The names of all tables, sorted.
    pub fn list_tables(&self) -> (r: Vec<String>)
        ensures
            names_listed(self.tables(), r@),
    {
        proof {
            use_type_invariant(self);
        }
        let mut names: Vec<String> = Vec::new();
        let mut i: usize = 0;
        while i < self.state.tables.len()
            invariant
                i <= self.state.tables@.len(),
                names@.len() == i,
                forall|j: int| 0 <= j < i ==> (#[trigger] names@[j])@ == self.state.tables@[j].schema.name@,
            decreases self.state.tables@.len() - i,
        {
            names.push(self.state.tables[i].schema.name.clone());
            i = i + 1;
        }
        names
    }

    /// The position of the table named `name`.
    fn find_table(&self, name: &str) -> (r: Option<usize>)
        ensures
            r matches Some(k) ==> k < self.tables().len() && table_pos(self.tables(), name@) == Some(
                k as int,
            ),
            r is None ==> table_pos(self.tables(), name@) is None,
    {
        proof {
            use_type_invariant(self);
        }
        let mut i: usize = 0;
        while i < self.state.tables.len()
            invariant
                i <= self.state.tables@.len(),
                names_sorted(self.state.tables@),
                forall|j: int| 0 <= j < i ==> self.state.tables@[j].schema.name@ != name@,
            decreases self.state.tables@.len() - i,
        {
            assert(!named_at(self.state.tables@, name@, i as int) || self.state.tables@[i as int].schema.name@ == name@);
            if str_eq(self.state.tables[i].schema.name.as_str(), name) {
                proof {
                    lemma_table_pos(self.state.tables@, name@, i as int);
                }
                return Some(i);
            }
            i = i + 1;
        }
        assert(!exists|j: int| #[trigger] named_at(self.state.tables@, name@, j));
        None
    }

    /// The names and types of the columns of table `name`.
    pub fn table_schema(&self, name: &str) -> (r: Result<Vec<(String, ColumnType)>, Error>)
        ensures
            schema_answer(self.tables(), name@, r),
    {
        let k = match self.find_table(name) {
            Some(k) => k,
            None => {
                return Err(Error::TableNotFound(name.to_string()));
            },
        };
        let cols = &self.state.tables[k].schema.columns;
        let mut out: Vec<(String, ColumnType)> = Vec::new();
        let mut i: usize = 0;
        while i < cols.len()
            invariant
                i <= cols@.len(),
                k < self.tables().len(),
                cols == &self.tables()[k as int].schema.columns,
                out@.len() == i,
                forall|j: int|
                    0 <= j < i ==> (#[trigger] out@[j]).0@ == cols@[j].name@ && out@[j].1 == cols@[j].col_type,
            decreases cols@.len() - i,
        {
            out.push((cols[i].name.clone(), cols[i].col_type));
            i = i + 1;
        }
        Ok(out)
    }

    /// Adds `row` to table `table` after checking it against the table's
    /// columns, and records the insertion in the log.
    pub fn insert(&mut self, table: &str, row: Vec<Value>) -> (r: Result<(), Error>)
        ensures
            table_pos(old(self).tables(), table@) is None ==> (r matches Err(Error::TableNotFound(n))
                && n@ == table@),
            table_pos(old(self).tables(), table@) matches Some(k) ==> crate::table::validate_row_result(
                old(self).tables()[k].schema.columns@,
                row.deep_view(),
                r,
            ),
            r is Err ==> final(self).tables() == old(self).tables() && final(self).log() == old(
                self,
            ).log() && final(self).has_changes() == old(self).has_changes(),
            r is Ok ==> (table_pos(old(self).tables(), table@) matches Some(k) && table_replaced(
                old(self).tables(),
                final(self).tables(),
                k,
                old(self).tables()[k].rows.deep_view().push(row.deep_view()),
            ) && exists|e: LogEntry|
                entry_is(e, "INSERT"@, table@, Some(crate::types::row_debug(row.deep_view())))
                    && #[trigger] trimmed_log(old(self).log().push(e)) == final(self).log()),
            r is Ok ==> final(self).has_changes(),
            final(self).version() == old(self).version(),
    {
        proof {
            use_type_invariant(&*self);
        }
        let k = match self.find_table(table) {
            Some(k) => k,
            None => {
                return Err(Error::TableNotFound(table.to_string()));
            },
        };
        let mut tables: Vec<TableData> = Vec::new();
        std::mem::swap(&mut tables, &mut self.state.tables);
        let mut logs: Vec<LogEntry> = Vec::new();
        std::mem::swap(&mut logs, &mut self.state.logs);
        let ghost before = tables@;
        let mut t = tables.remove(k);
        let ghost t0 = t;
        let ghost row_view = row.deep_view();
        let res = data::insert(&mut t, row, &mut logs);
        tables.insert(k, t);
        proof {
            if res is Err {
                assert(tables@ =~= before);
            } else {
                assert(tables@ =~= before.update(k as int, t));
            }
        }
        self.state.tables = tables;
        match res {
            Err(e) => {
                self.state.logs = logs;
                Err(e)
            },
            Ok(()) => {
                let ghost pushed = logs@;
                trim_logs_if_needed(&mut logs);
                self.state.logs = logs;
                self.dirty = true;
                proof {
                    assert(pushed =~= old(self).state.logs@.push(pushed.last()));
                    assert(entry_is(pushed.last(), "INSERT"@, table@, Some(crate::types::row_debug(row_view))));
                    assert(trimmed_log(old(self).log().push(pushed.last())) == self.log());
                    assert(table_replaced(old(self).tables(), self.tables(), k as int, old(self).tables()[k as int].rows.deep_view().push(row_view)));
                }
                Ok(())
            },
        }
    }

    /// The rows of table `table` for which `filter` holds (all rows without
    /// a filter), reduced to `columns` when they are given.
    pub fn select<F: Fn(&Vec<Value>) -> bool>(
        &self,
        table: &str,
        columns: Option<Vec<&str>>,
        filter: Option<&F>,
    ) -> (r: Result<Vec<Vec<Value>>, Error>)
        requires
            filter matches Some(f) ==> forall|row: &Vec<Value>| call_requires(*f, (row,)),
        ensures
            table_pos(self.tables(), table@) is None ==> (r matches Err(Error::TableNotFound(n)) && n@
                == table@),
            table_pos(self.tables(), table@) matches Some(k) ==> select_found(filter, self.tables()[k], columns, r),
    {
        proof {
            use_type_invariant(self);
        }
        let k = match self.find_table(table) {
            Some(k) => k,
            None => {
                return Err(Error::TableNotFound(table.to_string()));
            },
        };
        let ghost cols = columns;
        let tk = &self.state.tables[k];
        assert(*tk == self.tables()[k as int]);
        proof {
            if cols is Some {
                data::lemma_well_formed_projection(filter, *tk, data::names_view(cols->0@));
            }
        }
        let r = data::select(tk, columns, filter);
        proof {
            let f0 = choose|flags: Seq<bool>| #[trigger] data::select_answer(filter, *tk, cols, flags, r);
            assert(data::select_answer(filter, *tk, cols, f0, r));
            assert(data::select_answer(filter, self.tables()[k as int], columns, f0, r));
            assert(table_pos(self.tables(), table@) == Some(k as int));
            assert(select_found(filter, self.tables()[k as int], columns, r));
        }
        r
    }

    /// Sets column `set_col` to `new_val` in the rows of table `table` for
    /// which `filter` holds; returns how many rows changed.
    pub fn update<F: Fn(&Vec<Value>) -> bool>(
        &mut self,
        table: &str,
        filter: &F,
        set_col: &str,
        new_val: Value,
    ) -> (r: Result<usize, Error>)
        requires
            forall|row: &Vec<Value>| call_requires(*filter, (row,)),
        ensures
            table_pos(old(self).tables(), table@) is None ==> (r matches Err(Error::TableNotFound(n))
                && n@ == table@),
            r is Err ==> final(self).tables() == old(self).tables() && final(self).log() == old(
                self,
            ).log() && final(self).has_changes() == old(self).has_changes(),
            table_pos(old(self).tables(), table@) matches Some(k) ==> {
                let t = old(self).tables()[k];
                &&& crate::table::col_position(t.schema.columns@, set_col@) is None ==> (r matches Err(
                    Error::ColumnNotFound(c),
                ) && c@ == set_col@)
                &&& crate::table::col_position(t.schema.columns@, set_col@) matches Some(c) ==> (
                !crate::table::type_accepts(t.schema.columns@[c].col_type, new_val@) ==> (r matches Err(
                    Error::TypeMismatch { column, expected, actual },
                ) && column@ == set_col@ && expected@ == crate::table::type_label(t.schema.columns@[c].col_type)
                    && actual@ == crate::table::cell_label(new_val@)))
                &&& crate::table::col_position(t.schema.columns@, set_col@) matches Some(c) ==> (
                crate::table::type_accepts(t.schema.columns@[c].col_type, new_val@) ==> r is Ok)
                &&& r is Ok ==> (crate::table::col_position(t.schema.columns@, set_col@) matches Some(c)
                    && exists|flags: Seq<bool>|
                    data::filter_answers(*filter, t.rows@, flags) && flags.len() == t.rows@.len()
                        && #[trigger] table_replaced(
                        old(self).tables(),
                        final(self).tables(),
                        k,
                        data::update_flagged(t.rows.deep_view(), flags, c, new_val@),
                    ) && (r matches Ok(n) && n == data::count_true(flags) && log_after(
                        old(self).log(),
                        final(self).log(),
                        n as nat,
                        "UPDATE"@,
                        table@,
                        data::update_details(set_col@, new_val@, n as nat),
                    ) && (n > 0 ==> final(self).has_changes()) && (n == 0
                        ==> final(self).has_changes() == old(self).has_changes())))
            },
            final(self).version() == old(self).version(),
    {
        proof {
            use_type_invariant(&*self);
        }
        let k = match self.find_table(table) {
            Some(k) => k,
            None => {
                return Err(Error::TableNotFound(table.to_string()));
            },
        };
        let mut tables: Vec<TableData> = Vec::new();
        std::mem::swap(&mut tables, &mut self.state.tables);
        let mut logs: Vec<LogEntry> = Vec::new();
        std::mem::swap(&mut logs, &mut self.state.logs);
        let ghost before = tables@;
        let mut t = tables.remove(k);
        let ghost t0 = t;
        let ghost logs0 = logs@;
        let ghost nv = new_val@;
        proof {
            crate::table::lemma_col_position_in_range(t.schema.columns@, set_col@);
            assert(t.well_formed());
        }
        let res = data::update(&mut t, filter, set_col, new_val, &mut logs);
        let ghost t1 = t;
        let ghost logs1 = logs@;
        tables.insert(k, t);
        proof {
            if res is Err {
                assert(tables@ =~= before);
            }
        }
        self.state.tables = tables;
        match res {
            Err(e) => {
                self.state.logs = logs;
                Err(e)
            },
            Ok(count) => {
                if count > 0 {
                    trim_logs_if_needed(&mut logs);
                    self.dirty = true;
                }
                self.state.logs = logs;
                proof {
                    let c = crate::table::col_position(t0.schema.columns@, set_col@)->0;
                    let flags = choose|flags: Seq<bool>|
                        #[trigger] data::update_answer(*filter, t0, t1, c, set_col@, nv, logs0, logs1, res, flags);
                    assert(data::update_answer(*filter, t0, t1, c, set_col@, nv, logs0, logs1, res, flags));
                    assert(t0 == old(self).tables()[k as int]);
                    assert(self.tables() =~= before.update(k as int, t1));
                    assert(table_replaced(old(self).tables(), self.tables(), k as int, data::update_flagged(t0.rows.deep_view(), flags, c, nv)));
                    if count > 0 {
                        assert(logs1 =~= logs0.push(logs1.last()));
                        assert(trimmed_log(logs0.push(logs1.last())) == self.log());
                    }
                }
                Ok(count)
            },
        }
    }

    /// Removes the rows of table `table` for which `filter` holds; returns
    /// how many rows were removed.
    pub fn delete<F: Fn(&Vec<Value>) -> bool>(&mut self, table: &str, filter: &F) -> (r: Result<usize, Error>)
        requires
            forall|row: &Vec<Value>| call_requires(*filter, (row,)),
        ensures
            table_pos(old(self).tables(), table@) is None ==> (r matches Err(Error::TableNotFound(n))
                && n@ == table@),
            r is Err ==> final(self).tables() == old(self).tables() && final(self).log() == old(
                self,
            ).log() && final(self).has_changes() == old(self).has_changes(),
            table_pos(old(self).tables(), table@) matches Some(k) ==> {
                let t = old(self).tables()[k];
                &&& r is Ok
                &&& delete_found(*filter, t, old(self).tables(), final(self).tables(), k, old(self).log(), final(self).log(), table@, old(self).has_changes(), final(self).has_changes(), r)
            },
            final(self).version() == old(self).version(),
    {
        proof {
            use_type_invariant(&*self);
        }
        let k = match self.find_table(table) {
            Some(k) => k,
            None => {
                return Err(Error::TableNotFound(table.to_string()));
            },
        };
        let mut tables: Vec<TableData> = Vec::new();
        std::mem::swap(&mut tables, &mut self.state.tables);
        let mut logs: Vec<LogEntry> = Vec::new();
        std::mem::swap(&mut logs, &mut self.state.logs);
        let ghost before = tables@;
        let mut t = tables.remove(k);
        let ghost t0 = t;
        let ghost logs0 = logs@;
        let res = data::delete(&mut t, filter, &mut logs);
        assert(res is Ok);
        let ghost t1 = t;
        let ghost logs1 = logs@;
        tables.insert(k, t);
        self.state.tables = tables;
        match res {
            Err(e) => {
                self.state.logs = logs;
                Err(e)
            },
            Ok(count) => {
                if count > 0 {
                    trim_logs_if_needed(&mut logs);
                    self.dirty = true;
                }
                self.state.logs = logs;
                proof {
                    let flags = choose|flags: Seq<bool>|
                        #[trigger] data::delete_answer(*filter, t0, t1, logs0, logs1, res, flags);
                    assert(data::delete_answer(*filter, t0, t1, logs0, logs1, res, flags));
                    assert(t0 == old(self).tables()[k as int]);
                    assert(self.tables() =~= before.update(k as int, t1));
                    assert(table_replaced(old(self).tables(), self.tables(), k as int, data::keep_rows(t0.rows.deep_view(), data::negate(flags))));
                    if count > 0 {
                        assert(logs1 =~= logs0.push(logs1.last()));
                        assert(trimmed_log(logs0.push(logs1.last())) == self.log());
                    }
                    assert(delete_found(*filter, t0, old(self).tables(), self.tables(), k as int, old(self).log(), self.log(), table@, old(self).has_changes(), self.has_changes(), Ok(count)));
                }
                Ok(count)
            },
        }
    }
}

/// Whether the column at index `i` is the first with an unacceptable name.
pub open spec fn first_bad_at(cols: Seq<(&str, ColumnType)>, i: int) -> bool {
    &&& 0 <= i < cols.len()
    &&& !valid_name(cols[i].0@, MAX_COLUMN_NAME_LEN as nat)
    &&& forall|j: int| 0 <= j < i ==> valid_name(#[trigger] cols[j].0@, MAX_COLUMN_NAME_LEN as nat)
}

/// The index of the first requested column with an unacceptable name.
pub open spec fn first_bad_column_index(cols: Seq<(&str, ColumnType)>) -> Option<int> {
    if exists|i: int| #[trigger] first_bad_at(cols, i) {
        Some(choose|i: int| #[trigger] first_bad_at(cols, i))
    } else {
        None
    }
}

/// Whether [`Database::create_table`] accepts the request.
pub open spec fn create_table_accepted(tables: Seq<TableData>, name: Seq<char>, cols: Seq<(&str, ColumnType)>) -> bool {
    &&& valid_name(name, MAX_TABLE_NAME_LEN as nat)
    &&& 1 <= cols.len() <= MAX_COLUMNS_PER_TABLE
    &&& forall|i: int| 0 <= i < cols.len() ==> valid_name(#[trigger] cols[i].0@, MAX_COLUMN_NAME_LEN as nat)
    &&& table_pos(tables, name) is None
}

/// The error that [`Database::create_table`] gives, when it refuses.
pub open spec fn create_table_error(tables: Seq<TableData>, name: Seq<char>, cols: Seq<(&str, ColumnType)>, r: Result<(), Error>) -> bool {
    if !valid_name(name, MAX_TABLE_NAME_LEN as nat) {
        name_check(name, MAX_TABLE_NAME_LEN as nat, "Table"@, r)
    } else if !(1 <= cols.len() <= MAX_COLUMNS_PER_TABLE) {
        r matches Err(Error::InvalidInput(m)) && m@ == column_count_message()
    } else if first_bad_column_index(cols) is Some {
        name_check(cols[first_bad_column_index(cols)->0].0@, MAX_COLUMN_NAME_LEN as nat, "Column"@, r)
    } else {
        r matches Err(Error::TableExists(n)) && n@ == name
    }
}

/// `r` is what [`Database::select`] returns from table `t`, for some
/// answers of the filter.
pub open spec fn select_found<F: Fn(&Vec<Value>) -> bool>(
    filter: Option<&F>,
    t: TableData,
    columns: Option<Vec<&str>>,
    r: Result<Vec<Vec<Value>>, Error>,
) -> bool {
    exists|flags: Seq<bool>| #[trigger] data::select_answer(filter, t, columns, flags, r)
}

/// The tables, log and change flag after [`Database::delete`] removed from
/// table `k` (which was `t`) the rows for which the filter answered yes.
pub open spec fn delete_found<F: Fn(&Vec<Value>) -> bool>(
    filter: F,
    t: TableData,
    tables_before: Seq<TableData>,
    tables_after: Seq<TableData>,
    k: int,
    log_before: Seq<LogEntry>,
    log_after_: Seq<LogEntry>,
    name: Seq<char>,
    changed_before: bool,
    changed_after: bool,
    r: Result<usize, Error>,
) -> bool {
    exists|flags: Seq<bool>|
        data::filter_answers(filter, t.rows@, flags) && flags.len() == t.rows@.len()
            && #[trigger] table_replaced(
            tables_before,
            tables_after,
            k,
            data::keep_rows(t.rows.deep_view(), data::negate(flags)),
        ) && (r matches Ok(n) && n == data::count_true(flags) && log_after(
            log_before,
            log_after_,
            n as nat,
            "DELETE"@,
            name,
            data::delete_details(n as nat),
        ) && (n > 0 ==> changed_after) && (n == 0 ==> changed_after == changed_before))
}

/// `after` is `before` with table `k` given the rows `rows` and nothing
/// else changed.
pub open spec fn table_replaced(before: Seq<TableData>, after: Seq<TableData>, k: int, rows: Seq<Seq<crate::types::Cell>>) -> bool {
    &&& 0 <= k < before.len()
    &&& after.len() == before.len()
    &&& forall|j: int| 0 <= j < before.len() && j != k ==> after[j] == before[j]
    &&& after[k].schema == before[k].schema
    &&& after[k].rows.deep_view() == rows
}

/// The log after an operation that changed `n` rows: one more entry, then
/// trimmed, when `n > 0`; unchanged otherwise.
pub open spec fn log_after(
    before: Seq<LogEntry>,
    after: Seq<LogEntry>,
    n: nat,
    action: Seq<char>,
    table: Seq<char>,
    details: Seq<char>,
) -> bool {
    if n > 0 {
        exists|e: LogEntry| entry_is(e, action, table, Some(details)) && #[trigger] trimmed_log(before.push(e)) == after
    } else {
        after == before
    }
}


proof fn lemma_sorted_insert(tables: Seq<TableData>, p: int, t: TableData)
    requires
        names_sorted(tables),
        0 <= p <= tables.len(),
        forall|i: int| 0 <= i < p ==> str_lt(#[trigger] tables[i].schema.name@, t.schema.name@),
        forall|j: int| p <= j < tables.len() ==> str_lt(t.schema.name@, #[trigger] tables[j].schema.name@),
    ensures
        names_sorted(tables.insert(p, t)),
{
    let u = tables.insert(p, t);
    assert forall|i: int, j: int| 0 <= i < j < u.len() implies str_lt(
        #[trigger] u[i].schema.name@,
        #[trigger] u[j].schema.name@,
    ) by {
        if j < p {
        } else if j == p {
        } else if i < p {
            lemma_str_lt_transitive(tables[i].schema.name@, t.schema.name@, tables[j - 1].schema.name@);
        } else if i == p {
        } else {
        }
    }
}

proof fn lemma_sorted_remove(tables: Seq<TableData>, k: int)
    requires
        names_sorted(tables),
        0 <= k < tables.len(),
    ensures
        names_sorted(tables.remove(k)),
{
    let u = tables.remove(k);
    assert forall|i: int, j: int| 0 <= i < j < u.len() implies str_lt(
        #[trigger] u[i].schema.name@,
        #[trigger] u[j].schema.name@,
    ) by {
        let a = if i < k { i } else { i + 1 };
        let b = if j < k { j } else { j + 1 };
        assert(u[i] == tables[a]);
        assert(u[j] == tables[b]);
    }
}

/// Where a table named `name` goes among sorted `tables` that have no
/// table of that name.
fn insert_position(tables: &Vec<TableData>, name: &str) -> (p: usize)
    requires
        names_sorted(tables@),
        table_pos(tables@, name@) is None,
    ensures
        p <= tables@.len(),
        forall|i: int| 0 <= i < p ==> str_lt(#[trigger] tables@[i].schema.name@, name@),
        forall|j: int| p <= j < tables@.len() ==> str_lt(name@, #[trigger] tables@[j].schema.name@),
{
    let nc = chars_of(name);
    let mut p: usize = 0;
    while p < tables.len()
        invariant
            p <= tables@.len(),
            nc@ == name@,
            names_sorted(tables@),
            table_pos(tables@, name@) is None,
            forall|i: int| 0 <= i < p ==> str_lt(#[trigger] tables@[i].schema.name@, name@),
        decreases tables@.len() - p,
    {
        let tc = chars_of(tables[p].schema.name.as_str());
        if str_less(nc.as_slice(), tc.as_slice()) {
            assert forall|j: int| p <= j < tables@.len() implies str_lt(name@, #[trigger] tables@[j].schema.name@) by {
                if j > p {
                    lemma_str_lt_transitive(name@, tables@[p as int].schema.name@, tables@[j].schema.name@);
                }
            }
            return p;
        }
        proof {
            assert(!named_at(tables@, name@, p as int));
            lemma_str_lt_total(tables@[p as int].schema.name@, name@);
        }
        p = p + 1;
    }
    p
}

impl Database {
    /// Adds an empty table `name` with the given columns, after checking
    /// the names and the number of columns, and records it in the log.
    pub fn create_table(&mut self, name: &str, columns: Vec<(&str, ColumnType)>) -> (r: Result<(), Error>)
        ensures
            r is Ok <==> create_table_accepted(old(self).tables(), name@, columns@),
            r is Err ==> create_table_error(old(self).tables(), name@, columns@, r),
            r is Err ==> final(self).tables() == old(self).tables() && final(self).log() == old(
                self,
            ).log() && final(self).has_changes() == old(self).has_changes(),
            r is Ok ==> (table_pos(final(self).tables(), name@) matches Some(k) && final(self).tables().remove(
                k,
            ) == old(self).tables() && final(self).tables()[k].schema.name@ == name@ && defs_match(
                final(self).tables()[k].schema.columns@,
                columns@,
            ) && final(self).tables()[k].rows@.len() == 0 && final(self).has_changes()
                && exists|e: LogEntry|
                entry_is(e, "CREATE TABLE"@, name@, Some("Columns: "@ + columns_debug(columns@)))
                    && #[trigger] trimmed_log(old(self).log().push(e)) == final(self).log()),
            final(self).version() == old(self).version(),
    {
        proof {
            use_type_invariant(&*self);
        }
        match validate_name(name, MAX_TABLE_NAME_LEN, "Table") {
            Err(e) => {
                return Err(e);
            },
            Ok(()) => {},
        }
        if columns.len() == 0 || columns.len() > MAX_COLUMNS_PER_TABLE {
            let d = usize_chars(MAX_COLUMNS_PER_TABLE);
            let m1 = concat_str("Table must have between 1 and ", string_of(d.as_slice()).as_str());
            let m2 = concat_str(m1.as_str(), " columns");
            return Err(Error::InvalidInput(m2));
        }
        let mut col_defs: Vec<ColumnDef> = Vec::new();
        let mut i: usize = 0;
        while i < columns.len()
            invariant
                i <= columns@.len(),
                valid_name(name@, MAX_TABLE_NAME_LEN as nat),
                1 <= columns@.len() <= MAX_COLUMNS_PER_TABLE,
                col_defs@.len() == i,
                forall|j: int| 0 <= j < i ==> valid_name(#[trigger] columns@[j].0@, MAX_COLUMN_NAME_LEN as nat),
                forall|j: int| 0 <= j < i ==> (#[trigger] col_defs@[j]).name@ == columns@[j].0@ && col_defs@[j].col_type == columns@[j].1,
            decreases columns@.len() - i,
        {
            let (col_name, col_type) = columns[i];
            match validate_name(col_name, MAX_COLUMN_NAME_LEN, "Column") {
                Err(e) => {
                    proof {
                        assert(first_bad_at(columns@, i as int));
                        let c = choose|x: int| #[trigger] first_bad_at(columns@, x);
                        assert(first_bad_at(columns@, c));
                        if c < i {
                            assert(valid_name(columns@[c].0@, MAX_COLUMN_NAME_LEN as nat));
                        }
                        if c > i {
                            assert(valid_name(columns@[i as int].0@, MAX_COLUMN_NAME_LEN as nat));
                        }
                        assert(first_bad_column_index(columns@) == Some(i as int));
                        assert(col_name@ == columns@[i as int].0@);
                    }
                    return Err(e);
                },
                Ok(()) => {},
            }
            col_defs.push(ColumnDef { name: col_name.to_string(), col_type });
            i = i + 1;
        }
        assert(!exists|x: int| #[trigger] first_bad_at(columns@, x));
        if self.find_table(name).is_some() {
            return Err(Error::TableExists(name.to_string()));
        }
        let details_body = columns_debug_text(&columns);
        let details = concat_str("Columns: ", details_body.as_str());
        let schema = TableSchema::new(name.to_string(), col_defs);
        let table = TableData::new(schema);
        let ghost tv = table;
        let p = insert_position(&self.state.tables, name);
        let mut tables: Vec<TableData> = Vec::new();
        std::mem::swap(&mut tables, &mut self.state.tables);
        let mut logs: Vec<LogEntry> = Vec::new();
        std::mem::swap(&mut logs, &mut self.state.logs);
        tables.insert(p, table);
        proof {
            lemma_sorted_insert(old(self).state.tables@, p as int, tv);
            assert(tables@.remove(p as int) =~= old(self).state.tables@);
            lemma_table_pos(tables@, name@, p as int);
        }
        self.state.tables = tables;
        let entry = LogEntry::new("CREATE TABLE", name, Some(details));
        let ghost e = entry;
        logs.push(entry);
        let ghost pushed = logs@;
        trim_logs_if_needed(&mut logs);
        self.state.logs = logs;
        self.dirty = true;
        proof {
            assert(pushed == old(self).state.logs@.push(e));
            assert(trimmed_log(old(self).log().push(e)) == self.log());
        }
        Ok(())
    }

    /// Removes table `name` and records the removal in the log.
    pub fn drop_table(&mut self, name: &str) -> (r: Result<(), Error>)
        ensures
            table_pos(old(self).tables(), name@) is None ==> (r matches Err(Error::TableNotFound(n)) && n@
                == name@),
            r is Err ==> final(self).tables() == old(self).tables() && final(self).log() == old(
                self,
            ).log() && final(self).has_changes() == old(self).has_changes(),
            r is Ok ==> (table_pos(old(self).tables(), name@) matches Some(k) && final(self).tables()
                == old(self).tables().remove(k) && final(self).has_changes() && exists|e: LogEntry|
                entry_is(e, "DROP TABLE"@, name@, None) && #[trigger] trimmed_log(
                    old(self).log().push(e),
                ) == final(self).log()),
            r is Ok <==> table_pos(old(self).tables(), name@) is Some,
            final(self).version() == old(self).version(),
    {
        proof {
            use_type_invariant(&*self);
        }
        let k = match self.find_table(name) {
            Some(k) => k,
            None => {
                return Err(Error::TableNotFound(name.to_string()));
            },
        };
        let mut tables: Vec<TableData> = Vec::new();
        std::mem::swap(&mut tables, &mut self.state.tables);
        let mut logs: Vec<LogEntry> = Vec::new();
        std::mem::swap(&mut logs, &mut self.state.logs);
        let _removed = tables.remove(k);
        proof {
            lemma_sorted_remove(old(self).state.tables@, k as int);
        }
        self.state.tables = tables;
        let entry = LogEntry::new("DROP TABLE", name, None);
        let ghost e = entry;
        logs.push(entry);
        trim_logs_if_needed(&mut logs);
        self.state.logs = logs;
        self.dirty = true;
        proof {
            assert(trimmed_log(old(self).log().push(e)) == self.log());
        }
        Ok(())
    }
}


/// Whether the table named `name` is `t`.
pub open spec fn stored_at(tables: Seq<TableData>, name: Seq<char>, t: TableData) -> bool {
    table_pos(tables, name) matches Some(k) && tables[k] == t
}

/// Whether stored entries describe a consistent state: each key is its
/// table's name, no name repeats, every column name has 1 to
/// `MAX_COLUMN_NAME_LEN` bytes and every row has one cell per column.
pub open spec fn entries_consistent(entries: Seq<(String, TableData)>) -> bool {
    &&& forall|i: int| 0 <= i < entries.len() ==> (#[trigger] entries[i]).0@ == entries[i].1.schema.name@
    &&& forall|i: int, j: int| 0 <= i < j < entries.len() ==> (#[trigger] entries[i]).0@ != (#[trigger] entries[j]).0@
    &&& forall|i: int, c: int|
        0 <= i < entries.len() && 0 <= c < entries[i].1.schema.columns@.len() ==> 0 < byte_len(
            #[trigger] entries[i].1.schema.columns@[c].name@,
        ) <= MAX_COLUMN_NAME_LEN
    &&& forall|i: int| 0 <= i < entries.len() ==> (#[trigger] entries[i]).1.well_formed()
}

impl Database {
    /// The database described by a stored state: its format version, its
    /// tables keyed by name, and its log. The state is refused when the
    /// version differs, a key is not its table's name, a name repeats, a
    /// column name is empty or too long, or a row does not have one cell
    /// per column.
    #[verifier::loop_isolation(false)]
    pub fn from_parts(version: u8, entries: Vec<(String, TableData)>, logs: Vec<LogEntry>) -> (r: Result<Database, Error>)
        ensures
            version != DB_VERSION ==> (r matches Err(Error::VersionMismatch { expected, actual })
                && expected == DB_VERSION && actual == version),
            r is Ok <==> (version == DB_VERSION && entries_consistent(entries@)),
            version == DB_VERSION ==> (r matches Err(e) ==> (e is Integrity || e is InvalidInput)),
            r matches Ok(db) ==> {
                &&& db.version() == version
                &&& db.log() == logs@
                &&& !db.has_changes()
                &&& db.tables().len() == entries@.len()
                &&& forall|i: int| 0 <= i < entries@.len() ==> #[trigger] stored_at(db.tables(), entries@[i].0@, entries@[i].1)
            },
    {
        if version != DB_VERSION {
            return Err(Error::VersionMismatch { expected: DB_VERSION, actual: version });
        }
        let mut tables: Vec<TableData> = Vec::new();
        let n = entries.len();
        let ghost all = entries@;
        let mut rest = entries;
        // Entries are taken from the back, so that each can be moved.
        while rest.len() > 0
            invariant
                all.len() == n,
                rest@ == all.subrange(0, rest@.len() as int),
                tables@.len() == n - rest@.len(),
                names_sorted(tables@),
                tables_well_formed(tables@),
                forall|a: int| rest@.len() <= a < n ==> (#[trigger] all[a]).0@ == all[a].1.schema.name@,
                forall|a: int, b: int| rest@.len() <= a < b < n ==> (#[trigger] all[a]).0@ != (#[trigger] all[b]).0@,
                forall|a: int, c: int|
                    rest@.len() <= a < n && 0 <= c < all[a].1.schema.columns@.len() ==> 0 < byte_len(
                        #[trigger] all[a].1.schema.columns@[c].name@,
                    ) <= MAX_COLUMN_NAME_LEN,
                forall|a: int| rest@.len() <= a < n ==> (#[trigger] all[a]).1.well_formed(),
                forall|a: int| rest@.len() <= a < n ==> #[trigger] stored_at(tables@, all[a].0@, all[a].1),
                forall|k: int| 0 <= k < tables@.len() ==> exists|a: int| rest@.len() <= a < n && #[trigger] tables@[k] == all[a].1,
            decreases rest@.len(),
        {
            let ghost old_len = rest@.len() as int;
            let (key, table) = rest.pop().unwrap();
            let ghost idx = rest@.len() as int;
            assert(idx + 1 == old_len);
            assert(all[idx] == (key, table));
            if !str_eq(key.as_str(), table.schema.name.as_str()) {
                assert(!entries_consistent(all));
                let m1 = concat_str("Table name mismatch: ", key.as_str());
                let m2 = concat_str(m1.as_str(), " vs ");
                let m3 = concat_str(m2.as_str(), table.schema.name.as_str());
                return Err(Error::Integrity(m3));
            }
            // Column names.
            let mut c: usize = 0;
            while c < table.schema.columns.len()
                invariant
                    c <= table.schema.columns@.len(),
                    forall|x: int| 0 <= x < c ==> 0 < byte_len(#[trigger] table.schema.columns@[x].name@) <= MAX_COLUMN_NAME_LEN,
                decreases table.schema.columns@.len() - c,
            {
                let cname = &table.schema.columns[c].name;
                if cname.as_str().len() == 0 || cname.as_str().len() > MAX_COLUMN_NAME_LEN {
                    assert(all[idx].1.schema.columns@[c as int].name@ == cname@);
                    assert(!entries_consistent(all));
                    let m = concat_str("Invalid column name: ", cname.as_str());
                    return Err(Error::InvalidInput(m));
                }
                c = c + 1;
            }
            // Row widths.
            let width = table.schema.columns.len();
            let mut w: usize = 0;
            while w < table.rows.len()
                invariant
                    w <= table.rows@.len(),
                    width == table.schema.columns@.len(),
                    forall|x: int| 0 <= x < w ==> (#[trigger] table.rows@[x])@.len() == width,
                decreases table.rows@.len() - w,
            {
                if table.rows[w].len() != width {
                    assert(!all[idx].1.well_formed());
                    assert(!entries_consistent(all));
                    let m = concat_str("Row width does not match the columns of table ", key.as_str());
                    return Err(Error::Integrity(m));
                }
                w = w + 1;
            }
            // Repeated names.
            let mut d: usize = 0;
            while d < tables.len()
                invariant
                    d <= tables@.len(),
                    forall|x: int| 0 <= x < d ==> (#[trigger] tables@[x]).schema.name@ != key@,
                decreases tables@.len() - d,
            {
                if str_eq(tables[d].schema.name.as_str(), key.as_str()) {
                    proof {
                        assert(exists|a: int| old_len <= a < n && #[trigger] tables@[d as int] == all[a].1);
                        let a = choose|a: int| old_len <= a < n && #[trigger] tables@[d as int] == all[a].1;
                        assert(all[a].0@ == key@);
                        assert(all[idx].0@ == all[a].0@);
                        assert(!entries_consistent(all));
                    }
                    let m = concat_str("Duplicate table name: ", key.as_str());
                    return Err(Error::Integrity(m));
                }
                d = d + 1;
            }
            assert(!exists|x: int| #[trigger] named_at(tables@, key@, x));
            assert forall|b: int| idx < b < n implies all[idx].0@ != (#[trigger] all[b]).0@ by {
                assert(stored_at(tables@, all[b].0@, all[b].1));
                let kb = table_pos(tables@, all[b].0@)->0;
                assert(tables@[kb] == all[b].1);
            }
            let p = insert_position(&tables, key.as_str());
            let ghost before = tables@;
            tables.insert(p, table);
            proof {
                lemma_sorted_insert(before, p as int, table);
                assert(tables@.remove(p as int) =~= before);
                lemma_table_pos(tables@, key@, p as int);
                assert forall|a: int| rest@.len() <= a < n implies #[trigger] stored_at(tables@, all[a].0@, all[a].1) by {
                    if a > idx {
                        assert(stored_at(before, all[a].0@, all[a].1));
                        let k0 = table_pos(before, all[a].0@)->0;
                        let k1 = if k0 < p { k0 } else { k0 + 1 };
                        assert(tables@[k1] == before[k0]);
                        lemma_table_pos(tables@, all[a].0@, k1);
                    }
                }
                assert forall|k: int| 0 <= k < tables@.len() implies exists|a: int| rest@.len() <= a < n && #[trigger] tables@[k] == all[a].1 by {
                    if k == p {
                        assert(tables@[k] == all[idx].1);
                    } else {
                        let k0 = if k < p { k } else { k - 1 };
                        assert(tables@[k] == before[k0]);
                        assert(exists|a: int| old_len <= a < n && #[trigger] before[k0] == all[a].1);
                        let a = choose|a: int| old_len <= a < n && #[trigger] before[k0] == all[a].1;
                        assert(tables@[k] == all[a].1);
                    }
                }
            }
        }
        assert(all.subrange(0, 0) =~= rest@);
        let db = Database { state: DbState { version, tables, logs }, dirty: false };
        Ok(db)
    }
}


// ---------------------------------------------------------------------------
// Laws
// ---------------------------------------------------------------------------

/// Selecting every row of a table after [`Database::insert`] put `row` in it
/// gives the rows the table had, then `row`.
pub proof fn law_select_after_insert<F: Fn(&Vec<Value>) -> bool>(
    before: Seq<TableData>,
    after: Seq<TableData>,
    k: int,
    row: Seq<crate::types::Cell>,
    filter: Option<&F>,
    r: Result<Vec<Vec<Value>>, Error>,
)
    requires
        table_replaced(before, after, k, before[k].rows.deep_view().push(row)),
        filter is None,
        select_found(filter, after[k], None, r),
    ensures
        r matches Ok(rows) && rows.deep_view() == before[k].rows.deep_view().push(row),
{
    let flags = choose|flags: Seq<bool>| #[trigger] data::select_answer(filter, after[k], None, flags, r);
    crate::executor::lemma_keep_all(after[k].rows.deep_view(), flags);
}

/// A table that [`Database::create_table`] made holds no rows: selecting
/// all of them gives none.
pub proof fn law_select_after_create<F: Fn(&Vec<Value>) -> bool>(
    t: TableData,
    filter: Option<&F>,
    r: Result<Vec<Vec<Value>>, Error>,
)
    requires
        t.rows@.len() == 0,
        filter is None,
        select_found(filter, t, None, r),
    ensures
        r matches Ok(rows) && rows@.len() == 0,
{
    let flags = choose|flags: Seq<bool>| #[trigger] data::select_answer(filter, t, None, flags, r);
    crate::executor::lemma_keep_all(t.rows.deep_view(), flags);
    assert(t.rows.deep_view().len() == 0);
}

/// After [`Database::create_table`] made table `name` with `columns`,
/// [`Database::table_schema`] gives those columns' names and types in
/// order, and [`Database::list_tables`] lists the name.
pub proof fn law_schema_after_create(
    tables: Seq<TableData>,
    name: Seq<char>,
    columns: Seq<(&str, ColumnType)>,
    schema: Result<Vec<(String, ColumnType)>, Error>,
    names: Seq<String>,
)
    requires
        table_pos(tables, name) matches Some(k) && tables[k].schema.name@ == name && defs_match(
            tables[k].schema.columns@,
            columns,
        ),
        schema_answer(tables, name, schema),
        names_listed(tables, names),
    ensures
        schema matches Ok(cols) && cols@.len() == columns.len() && forall|i: int|
            0 <= i < cols@.len() ==> (#[trigger] cols@[i]).0@ == columns[i].0@ && cols@[i].1 == columns[i].1,
        exists|i: int| 0 <= i < names.len() && (#[trigger] names[i])@ == name,
{
    let k = table_pos(tables, name)->0;
    assert(names[k]@ == name);
    let cols = schema->Ok_0;
    assert forall|i: int| 0 <= i < cols@.len() implies (#[trigger] cols@[i]).0@ == columns[i].0@ && cols@[i].1
        == columns[i].1 by {
        assert(tables[k].schema.columns@[i].name@ == columns[i].0@);
    }
}

/// [`Database::drop_table`] of a table that [`Database::create_table`] just
/// made gives back the tables there were before, which have none of that
/// name.
pub proof fn law_drop_after_create(t0: Seq<TableData>, t1: Seq<TableData>, t2: Seq<TableData>, name: Seq<char>)
    requires
        table_pos(t0, name) is None,
        table_pos(t1, name) is Some,
        t1.remove(table_pos(t1, name)->0) == t0,
        t2 == t1.remove(table_pos(t1, name)->0),
    ensures
        t2 == t0,
        table_pos(t2, name) is None,
{
}

} // verus!
