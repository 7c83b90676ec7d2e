//! Fixed limits and markers of the storage format.
use vstd::prelude::*;

verus! {

/// Largest number of entries kept in a database's transaction log.
pub const MAX_LOG_ENTRIES: usize = 1000;

/// Longest allowed table name, in bytes.
pub const MAX_TABLE_NAME_LEN: usize = 64;

/// Longest allowed column name, in bytes.
pub const MAX_COLUMN_NAME_LEN: usize = 64;

/// Largest number of columns in one table.
pub const MAX_COLUMNS_PER_TABLE: usize = 256;

/// Shortest accepted passphrase, in bytes.
pub const MIN_PASSPHRASE_LEN: usize = 8;

/// Pattern that table and column names must match.
pub const ALLOWED_NAME_REGEX: &'static str = "^[A-Za-z_][A-Za-z0-9_]*$";

/// Field separator of the delimited table files, as a byte.
pub const DELIMITER: u8 = 0x7C;

/// Field separator of the delimited table files.
pub const DELIMITER_CHAR: char = '|';

/// Version of the serialized database state.
pub const DB_VERSION: u8 = 1;

/// Marker that begins the header line of a sealed payload.
pub fn header_magic() -> (r: &'static str)
    ensures
        r@ == magic(),
{
    let r = "NEUXDB/1 ";
    proof {
        reveal_strlit("NEUXDB/1 ");
    }
    r
}

/// The characters of the header marker.
pub open spec fn magic() -> Seq<char> {
    seq!['N', 'E', 'U', 'X', 'D', 'B', '/', '1', ' ']
}

/// Label in front of the digest on the header line.
pub fn integrity_prefix() -> (r: &'static str)
    ensures
        r@ == sha_label(),
{
    let r = "SHA=";
    proof {
        reveal_strlit("SHA=");
    }
    r
}

/// The characters of the digest label.
pub open spec fn sha_label() -> Seq<char> {
    seq!['S', 'H', 'A', '=']
}

/// File extension of database files.
pub fn file_extension() -> (r: &'static str)
    ensures
        r@ == seq!['n', 'd', 'b', 'x'],
{
    let r = "ndbx";
    proof {
        reveal_strlit("ndbx");
    }
    r
}

} // verus!
