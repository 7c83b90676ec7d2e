//! The decisions of managing several databases, each a directory under a
//! base directory: which directory a name stands for, when a database may
//! be created, dropped or used, and the order in which they are listed.
//! Looking at and changing the directories themselves is left to callers.
use vstd::prelude::*;
use crate::error::Error;
use crate::text::{chars_of, concat_str, lemma_str_lt_irreflexive, lemma_str_lt_total, lemma_str_lt_transitive, str_eq, str_less, str_lt};

verus! {

/// The path `name` under `base` (`Path::join` on Unix): `name` itself when
/// it is absolute, else `base` and `name` with one `/` between them.
pub open spec fn joined(base: Seq<char>, name: Seq<char>) -> Seq<char> {
    if name.len() > 0 && name[0] == '/' {
        name
    } else if base.len() == 0 || base.last() == '/' {
        base + name
    } else {
        base + seq!['/'] + name
    }
}

/// The directory of the database `name` under `base`.
pub fn database_path(base: &str, name: &str) -> (r: String)
    ensures
        r@ == joined(base@, name@),
{
    let b = chars_of(base);
    let n = chars_of(name);
    if n.len() > 0 && n[0] == '/' {
        return name.to_string();
    }
    if b.len() == 0 || b[b.len() - 1] == '/' {
        concat_str(base, name)
    } else {
        let with_sep = concat_str(base, "/");
        proof {
            reveal_strlit("/");
        }
        concat_str(with_sep.as_str(), name)
    }
}

/// The message of a database that already exists.
pub open spec fn exists_message(name: Seq<char>) -> Seq<char> {
    "Database '"@ + name + "' already exists"@
}

/// The name under which a missing database is reported.
pub open spec fn missing_name(name: Seq<char>) -> Seq<char> {
    "Database "@ + name
}

/// Decides whether the database `name` may be created, `exists` telling
/// whether its directory is already there; on `Ok` the caller creates it.
pub fn create_database(name: &str, exists: bool) -> (r: Result<(), Error>)
    ensures
        exists <==> r is Err,
        r matches Err(e) ==> (e matches Error::InvalidInput(m) && m@ == exists_message(name@)),
{
    if exists {
        let a = concat_str("Database '", name);
        let m = concat_str(a.as_str(), "' already exists");
        return Err(Error::InvalidInput(m));
    }
    Ok(())
}

/// Whether `name` stands for the base data directory itself.
pub open spec fn is_root_name(name: Seq<char>) -> bool {
    name == "data"@ || name == "."@
}

/// Decides whether the database `name` may be dropped, `exists` telling
/// whether its directory is there; on `Ok` the caller removes it.
pub fn drop_database(name: &str, exists: bool) -> (r: Result<(), Error>)
    ensures
        is_root_name(name@) ==> (r matches Err(Error::InvalidInput(m)) && m@
            == "Cannot drop root data directory"@),
        !is_root_name(name@) && !exists ==> (r matches Err(Error::TableNotFound(m)) && m@ == missing_name(
            name@,
        )),
        !is_root_name(name@) && exists ==> r is Ok,
{
    if str_eq(name, "data") || str_eq(name, ".") {
        return Err(Error::InvalidInput("Cannot drop root data directory".to_string()));
    }
    if !exists {
        return Err(Error::TableNotFound(concat_str("Database ", name)));
    }
    Ok(())
}

/// Which database is in use, and the directory that holds its data.
pub struct Session {
    pub current: Option<String>,
    pub data_dir: String,
}

impl Session {
    /// A session that uses no database yet and keeps its data in `data_dir`.
    pub fn new(data_dir: String) -> (r: Session)
        ensures
            r.current is None,
            r.data_dir@ == data_dir@,
    {
        Session { current: None, data_dir }
    }

    /// Switches to the database `name` under `base`, `exists` telling
    /// whether its directory is there; a missing one leaves the session as
    /// it was.
    pub fn use_database(&mut self, base: &str, name: &str, exists: bool) -> (r: Result<(), Error>)
        ensures
            !exists ==> (r matches Err(Error::TableNotFound(m)) && m@ == missing_name(name@)),
            !exists ==> final(self).current == old(self).current && final(self).data_dir
                == old(self).data_dir,
            exists ==> r is Ok,
            exists ==> final(self).data_dir@ == joined(base@, name@),
            exists ==> (final(self).current matches Some(c) && c@ == name@),
    {
        if !exists {
            return Err(Error::TableNotFound(concat_str("Database ", name)));
        }
        self.data_dir = database_path(base, name);
        self.current = Some(name.to_string());
        Ok(())
    }
}

/// Whether `s` is in ascending order.
pub open spec fn ascending(s: Seq<Seq<char>>) -> bool {
    forall|i: int, j: int| 0 <= i < j < s.len() ==> !str_lt(#[trigger] s[j], #[trigger] s[i])
}

/// The names of the databases found, in ascending order.
pub fn list_databases(found: Vec<String>) -> (r: Vec<String>)
    ensures
        ascending(r.deep_view()),
        r.deep_view().to_multiset() == found.deep_view().to_multiset(),
{
    let ghost fv = found.deep_view();
    let mut out: Vec<String> = Vec::new();
    proof {
        assert(out.deep_view() =~= fv.take(0));
    }
    let mut k: usize = 0;
    while k < found.len()
        invariant
            k <= found@.len(),
            fv == found.deep_view(),
            ascending(out.deep_view()),
            out.deep_view().to_multiset() == fv.take(k as int).to_multiset(),
        decreases found@.len() - k,
    {
        let x = chars_of(found[k].as_str());
        let ghost ov = out.deep_view();
        let mut p: usize = 0;
        while p < out.len()
            invariant
                p <= out@.len(),
                k < found@.len(),
                ov == out.deep_view(),
                x@ == found@[k as int]@,
                forall|i: int| 0 <= i < p ==> !str_lt(x@, #[trigger] ov[i]),
            ensures
                p <= out@.len(),
                forall|i: int| 0 <= i < p ==> !str_lt(x@, #[trigger] ov[i]),
                p < out@.len() ==> str_lt(x@, ov[p as int]),
            decreases out@.len() - p,
        {
            let y = chars_of(out[p].as_str());
            assert(ov[p as int] == out@[p as int]@);
            if str_less(x.as_slice(), y.as_slice()) {
                break;
            }
            p = p + 1;
        }
        proof {
            assert(ov.len() == out@.len());
        }
        let ghost xv = x@;
        let ghost before = ov;
        out.insert(p, found[k].clone());
        proof {
            assert(out.deep_view() =~= before.insert(p as int, xv));
            let nv = out.deep_view();
            assert(p < before.len() ==> str_lt(xv, before[p as int]));
            assert forall|i: int, j: int| 0 <= i < j < nv.len() implies !str_lt(#[trigger] nv[j], #[trigger] nv[i]) by {
                if i < p && j == p {
                } else if i == p && j > p {
                    let y = before[j - 1];
                    lemma_str_lt_total(xv, before[p as int]);
                    if str_lt(y, xv) {
                        if j - 1 == p {
                            lemma_str_lt_total(y, xv);
                        } else {
                            lemma_str_lt_transitive(y, xv, before[p as int]);
                            lemma_str_lt_total(before[p as int], y);
                            lemma_str_lt_irreflexive(y);
                            assert(!str_lt(before[j - 1], before[p as int]));
                        }
                    }
                } else if i < p && j > p {
                    assert(!str_lt(before[j - 1], before[i]));
                } else if j < p {
                } else {
                    assert(i > p);
                    assert(!str_lt(before[j - 1], before[i - 1]));
                }
            }
            vstd::seq_lib::to_multiset_insert(before, p as int, xv);
            assert(fv.take(k + 1) =~= fv.take(k as int).push(xv));
            assert(fv[k as int] == xv);
            vstd::seq_lib::to_multiset_build(fv.take(k as int), xv);
        }
        k = k + 1;
    }
    proof {
        assert(fv.take(found@.len() as int) =~= fv);
    }
    out
}

} // verus!
