//! Opening and closing a database.
//!
//! A database is opened with the list of its column families. On the first
//! open the list becomes what the database holds. After that, the list must
//! name the column families that the database holds: each of them, except
//! that a default family without any version may be left out, and no other.

use vstd::prelude::*;
use crate::db::{default_name, DbView, DB};
use crate::env::{data_views, families_wf, Env, Store, StoreView};
use crate::error::{not_opened_text, Error};
use crate::family::{
    default_identity, lemma_levels_fit, lemma_levels_in_use, name_view, ColumnFamily,
    ColumnFamilyOptions, DataView, FamilyData, FamilyView,
};
use crate::options::DBOptions;
use crate::version::bounded_by;

verus! {

/// The names of the column families that an open declares.
pub open spec fn declared_names(cfds: Seq<(&str, ColumnFamilyOptions)>) -> Seq<Seq<char>> {
    Seq::new(cfds.len(), |j: int| cfds[j].0@)
}

/// The list that an open declares cannot be used: it is empty, it names a
/// column family twice, or it gives a column family no level.
pub open spec fn malformed(cfds: Seq<(&str, ColumnFamilyOptions)>) -> bool {
    ||| cfds.len() == 0
    ||| exists|i: int, j: int|
        0 <= i < j < cfds.len() && (#[trigger] cfds[i]).0@ == (#[trigger] cfds[j]).0@
    ||| exists|j: int| 0 <= j < cfds.len() && (#[trigger] cfds[j]).1.identity().num_levels == 0
}

/// Column family `i` of the database is not declared, and may not be left
/// out: it is not a default family without versions.
pub open spec fn unopened(families: Seq<DataView>, names: Seq<Seq<char>>, i: int) -> bool {
    !names.contains(families[i].name) && !(families[i].name == default_name()
        && families[i].unused())
}

/// The declared name `j` is the name of no column family of the database.
pub open spec fn unknown(families: Seq<DataView>, names: Seq<Seq<char>>, j: int) -> bool {
    forall|i: int| 0 <= i < families.len() ==> (#[trigger] families[i]).name != names[j]
}

/// The column family as it is opened: with the options declared for it, or
/// with default options where none are declared for it.
pub open spec fn opened_family<'a>(
    data: DataView,
    cfds: Seq<(&str, ColumnFamilyOptions<'a>)>,
) -> FamilyView<'a> {
    let names = declared_names(cfds);
    if names.contains(data.name) {
        let o = cfds[names.index_of(data.name)].1;
        FamilyView {
            data: DataView { identity: o.identity(), ..data },
            operator: o.operator(),
            transform: o.transform(),
            has_filter: o.has_filter(),
        }
    } else {
        FamilyView {
            data: DataView { identity: default_identity(), ..data },
            operator: None,
            transform: None,
            has_filter: false,
        }
    }
}

/// The options with which column family `i` would be opened do not fit what
/// it holds: it holds merge operands of another merge operator, or runs at
/// levels that the options do not give.
pub open spec fn mismatched(
    families: Seq<DataView>,
    cfds: Seq<(&str, ColumnFamilyOptions)>,
    i: int,
) -> bool {
    let given = opened_family(families[i], cfds).data.identity;
    ||| families[i].holds_operands() && given.merge_operator != families[i].identity.merge_operator
    ||| families[i].levels_in_use() > given.num_levels
}

/// Some column family has writes that no flush has moved to a run: the log
/// that holds them exists.
pub open spec fn log_exists(families: Seq<DataView>) -> bool {
    exists|i: int| 0 <= i < families.len() && (#[trigger] families[i]).memtable_in_use()
}

/// The first column family that is not declared and may not be left out.
pub open spec fn first_unopened(families: Seq<DataView>, names: Seq<Seq<char>>) -> int {
    choose|i: int|
        0 <= i < families.len() && unopened(families, names, i) && forall|k: int|
            0 <= k < i ==> !unopened(families, names, k)
}

/// The first declared name that is the name of no column family.
pub open spec fn first_unknown(families: Seq<DataView>, names: Seq<Seq<char>>) -> int {
    choose|j: int|
        0 <= j < names.len() && unknown(families, names, j) && forall|k: int|
            0 <= k < j ==> !unknown(families, names, k)
}

/// The first column family that the options do not fit.
pub open spec fn first_mismatched(
    families: Seq<DataView>,
    cfds: Seq<(&str, ColumnFamilyOptions)>,
) -> int {
    choose|i: int|
        0 <= i < families.len() && mismatched(families, cfds, i) && forall|k: int|
            0 <= k < i ==> !mismatched(families, cfds, k)
}

proof fn lemma_first_unopened(families: Seq<DataView>, names: Seq<Seq<char>>, i: int)
    requires
        0 <= i < families.len(),
        unopened(families, names, i),
        forall|k: int| 0 <= k < i ==> !unopened(families, names, k),
    ensures
        first_unopened(families, names) == i,
{
    let f = first_unopened(families, names);
    assert(0 <= f < families.len() && unopened(families, names, f) && forall|k: int|
        0 <= k < f ==> !unopened(families, names, k));
}

proof fn lemma_first_unknown(families: Seq<DataView>, names: Seq<Seq<char>>, j: int)
    requires
        0 <= j < names.len(),
        unknown(families, names, j),
        forall|k: int| 0 <= k < j ==> !unknown(families, names, k),
    ensures
        first_unknown(families, names) == j,
{
    let f = first_unknown(families, names);
    assert(0 <= f < names.len() && unknown(families, names, f) && forall|k: int|
        0 <= k < f ==> !unknown(families, names, k));
}

proof fn lemma_first_mismatched(
    families: Seq<DataView>,
    cfds: Seq<(&str, ColumnFamilyOptions)>,
    i: int,
)
    requires
        0 <= i < families.len(),
        mismatched(families, cfds, i),
        forall|k: int| 0 <= k < i ==> !mismatched(families, cfds, k),
    ensures
        first_mismatched(families, cfds) == i,
{
    let f = first_mismatched(families, cfds);
    assert(0 <= f < families.len() && mismatched(families, cfds, f) && forall|k: int|
        0 <= k < f ==> !mismatched(families, cfds, k));
}

/// Why an open is refused.
pub enum OpenRefusal {
    /// The declared list cannot be used.
    Malformed,
    /// No database lies at the path, and none is to be made.
    Missing,
    /// Another writable handle is open on the database.
    Locked,
    /// The open asks for a database without a log, and the log exists.
    LogExists,
    /// The column family at this place of the database is not declared.
    NotOpened(int),
    /// The declared name at this place is the name of no column family.
    NotFound(int),
    /// The options do not fit the column family at this place.
    Mismatch(int),
}

/// How an open goes about the database.
pub struct OpenMode {
    /// The handle takes no write, and the open takes no lock.
    pub read_only: bool,
    /// Where no database lies at the path, the open makes one.
    pub create_if_missing: bool,
    /// The open fails where the log exists.
    pub error_if_log_file_exists: bool,
}

/// Why the column families that a database holds cannot be opened with the
/// declared list, if they cannot.
pub open spec fn families_refusal(
    families: Seq<DataView>,
    cfds: Seq<(&str, ColumnFamilyOptions)>,
) -> Option<OpenRefusal> {
    let names = declared_names(cfds);
    if exists|i: int| 0 <= i < families.len() && unopened(families, names, i) {
        Some(OpenRefusal::NotOpened(first_unopened(families, names)))
    } else if exists|j: int| 0 <= j < names.len() && unknown(families, names, j) {
        Some(OpenRefusal::NotFound(first_unknown(families, names)))
    } else if exists|i: int| 0 <= i < families.len() && mismatched(families, cfds, i) {
        Some(OpenRefusal::Mismatch(first_mismatched(families, cfds)))
    } else {
        None
    }
}

/// Why an open is refused, if it is.
pub open spec fn open_refusal(
    env: Map<Seq<char>, StoreView>,
    mode: OpenMode,
    path: Seq<char>,
    cfds: Seq<(&str, ColumnFamilyOptions)>,
) -> Option<OpenRefusal> {
    if malformed(cfds) {
        Some(OpenRefusal::Malformed)
    } else if !env.contains_key(path) {
        if mode.create_if_missing && !mode.read_only {
            None
        } else {
            Some(OpenRefusal::Missing)
        }
    } else if !mode.read_only && env[path].locked {
        Some(OpenRefusal::Locked)
    } else if mode.read_only && mode.error_if_log_file_exists && log_exists(env[path].families) {
        Some(OpenRefusal::LogExists)
    } else {
        families_refusal(env[path].families, cfds)
    }
}

/// The text that begins the report of a declared column family that the
/// database does not hold.
pub open spec fn not_found_text() -> Seq<char> {
    "Invalid argument: Column family not found: "@
}

/// The text that begins the report of options that do not fit a column
/// family.
pub open spec fn mismatch_text() -> Seq<char> {
    "Invalid argument: Options do not fit column family: "@
}

/// The error `e` reports the refusal `why`.
pub open spec fn reports(
    e: Error,
    why: OpenRefusal,
    families: Seq<DataView>,
    names: Seq<Seq<char>>,
) -> bool {
    match why {
        OpenRefusal::Malformed => e == Error::InvalidArgument,
        OpenRefusal::Missing => e == Error::InvalidArgument,
        OpenRefusal::LogExists => e == Error::InvalidArgument,
        OpenRefusal::Locked => e == Error::LockHeld,
        OpenRefusal::NotOpened(i) => e matches Error::ConfigurationError(m) && m@
            == not_opened_text() + families[i].name,
        OpenRefusal::NotFound(j) => e matches Error::ConfigurationError(m) && m@
            == not_found_text() + names[j],
        OpenRefusal::Mismatch(i) => e matches Error::ConfigurationError(m) && m@ == mismatch_text()
            + families[i].name,
    }
}

/// The column families of a database that is made from the declared list:
/// one for each entry, in order, numbered from 0, without versions.
pub open spec fn made_families(cfds: Seq<(&str, ColumnFamilyOptions)>) -> Seq<DataView> {
    Seq::new(
        cfds.len(),
        |j: int|
            DataView {
                name: cfds[j].0@,
                id: j as u64,
                identity: cfds[j].1.identity(),
                versions: Seq::empty(),
                runs: Seq::empty(),
                memtable_run: 0,
                next_run: 1,
            },
    )
}

/// What the environment keeps of the database after a writable open.
pub open spec fn opened_store(
    env: Map<Seq<char>, StoreView>,
    path: Seq<char>,
    cfds: Seq<(&str, ColumnFamilyOptions)>,
) -> StoreView {
    if env.contains_key(path) {
        StoreView { locked: true, ..env[path] }
    } else {
        StoreView {
            locked: true,
            families: made_families(cfds),
            last_sequence: 0,
            next_family_id: cfds.len() as u64,
        }
    }
}

/// The handle that an open gives.
pub open spec fn opened_db<'a>(
    store: StoreView,
    read_only: bool,
    path: Seq<char>,
    cfds: Seq<(&str, ColumnFamilyOptions<'a>)>,
) -> DbView<'a> {
    DbView {
        path: path,
        read_only: read_only,
        families: Seq::new(store.families.len(), |i: int| opened_family(store.families[i], cfds)),
        last_sequence: store.last_sequence,
        next_family_id: store.next_family_id,
        snapshots: Seq::empty(),
    }
}

/// The outcome `r` of a writable open, and what it makes of the environment:
/// a refused open changes nothing and reports why it is refused; any other
/// open gives the handle and takes the lock.
pub open spec fn opened_for_writing<'a>(
    before: Map<Seq<char>, StoreView>,
    after: Map<Seq<char>, StoreView>,
    create_if_missing: bool,
    path: Seq<char>,
    cfds: Seq<(&str, ColumnFamilyOptions<'a>)>,
    r: Result<DB<'a>, Error>,
) -> bool {
    let mode = OpenMode {
        read_only: false,
        create_if_missing: create_if_missing,
        error_if_log_file_exists: false,
    };
    match r {
        Ok(db) => {
            &&& open_refusal(before, mode, path, cfds) is None
            &&& after == before.insert(path, opened_store(before, path, cfds))
            &&& db@ == opened_db(opened_store(before, path, cfds), false, path, cfds)
            &&& db.wf()
        },
        Err(e) => {
            &&& after == before
            &&& open_refusal(before, mode, path, cfds) matches Some(why)
            &&& reports(e, why, kept_families(before, path), declared_names(cfds))
        },
    }
}

/// The outcome `r` of a read-only open: a refused open reports why it is
/// refused; any other open gives a handle that takes no write.
pub open spec fn opened_for_reading<'a>(
    env: Map<Seq<char>, StoreView>,
    error_if_log_file_exists: bool,
    path: Seq<char>,
    cfds: Seq<(&str, ColumnFamilyOptions<'a>)>,
    r: Result<DB<'a>, Error>,
) -> bool {
    let mode = OpenMode {
        read_only: true,
        create_if_missing: false,
        error_if_log_file_exists: error_if_log_file_exists,
    };
    match r {
        Ok(db) => {
            &&& open_refusal(env, mode, path, cfds) is None
            &&& db@ == opened_db(env[path], true, path, cfds)
            &&& db.wf()
        },
        Err(e) => {
            &&& open_refusal(env, mode, path, cfds) matches Some(why)
            &&& reports(e, why, kept_families(env, path), declared_names(cfds))
        },
    }
}

/// The column families that the environment keeps at `path`; none where no
/// database lies there.
pub open spec fn kept_families(env: Map<Seq<char>, StoreView>, path: Seq<char>) -> Seq<DataView> {
    if env.contains_key(path) {
        env[path].families
    } else {
        Seq::empty()
    }
}

/// The list that declares the default column family alone, with default
/// options.
pub open spec fn declares_default(cfds: Seq<(&str, ColumnFamilyOptions)>) -> bool {
    &&& cfds.len() == 1
    &&& cfds[0].0@ == default_name()
    &&& cfds[0].1.identity() == default_identity()
    &&& cfds[0].1.operator() is None
    &&& cfds[0].1.transform() is None
    &&& !cfds[0].1.has_filter()
}

/// What the environment keeps of a database after its writable handle is
/// closed.
pub open spec fn closed_store(db: DbView) -> StoreView {
    StoreView {
        locked: false,
        families: db.data(),
        last_sequence: db.last_sequence,
        next_family_id: db.next_family_id,
    }
}

/// The place of `name` in the declared list.
fn declared_index<'a>(cfds: &Vec<(&str, ColumnFamilyOptions<'a>)>, name: &String) -> (r: Option<
    usize,
>)
    ensures
        match r {
            Some(j) => j < cfds.len() && cfds[j as int].0@ == name@ && declared_names(
                cfds@,
            ).contains(name@),
            None => !declared_names(cfds@).contains(name@),
        },
{
    let ghost names = declared_names(cfds@);
    let mut j: usize = 0;
    while j < cfds.len()
        invariant
            j <= cfds.len(),
            names == declared_names(cfds@),
            forall|x: int| 0 <= x < j ==> names[x] != name@,
        decreases cfds.len() - j,
    {
        assert(names[j as int] == cfds[j as int].0@);
        if cfds[j].0.to_owned() == *name {
            return Some(j);
        }
        j += 1;
    }
    None
}

/// The place of the column family named `name` in what a database holds.
fn stored_index(families: &Vec<FamilyData>, name: &str) -> (r: Option<usize>)
    ensures
        match r {
            Some(i) => i < families.len() && families[i as int]@.name == name@,
            None => forall|i: int| 0 <= i < families.len() ==> (#[trigger] families[i])@.name
                != name@,
        },
{
    let wanted = name.to_owned();
    let mut i: usize = 0;
    while i < families.len()
        invariant
            i <= families.len(),
            wanted@ == name@,
            forall|x: int| 0 <= x < i ==> (#[trigger] families[x])@.name != name@,
        decreases families.len() - i,
    {
        if families[i].name == wanted {
            return Some(i);
        }
        i += 1;
    }
    None
}

/// Whether the declared list can be used.
fn well_declared<'a>(cfds: &Vec<(&str, ColumnFamilyOptions<'a>)>) -> (ok: bool)
    ensures
        ok == !malformed(cfds@),
{
    if cfds.len() == 0 {
        return false;
    }
    let mut j: usize = 0;
    while j < cfds.len()
        invariant
            j <= cfds.len(),
            forall|x: int| 0 <= x < j ==> (#[trigger] cfds[x]).1.identity().num_levels != 0,
            forall|x: int, y: int|
                0 <= x < y < j ==> (#[trigger] cfds[x]).0@ != (#[trigger] cfds[y]).0@,
        decreases cfds.len() - j,
    {
        if cfds[j].1.num_levels() == 0 {
            return false;
        }
        let name = cfds[j].0.to_owned();
        let mut k: usize = 0;
        while k < j
            invariant
                k <= j < cfds.len(),
                name@ == cfds[j as int].0@,
                forall|x: int| 0 <= x < k ==> (#[trigger] cfds[x]).0@ != cfds[j as int].0@,
            decreases j - k,
        {
            if cfds[k].0.to_owned() == name {
                return false;
            }
            k += 1;
        }
        j += 1;
    }
    true
}

/// Whether some column family has writes that no flush has moved to a run.
fn has_log(families: &Vec<FamilyData>) -> (b: bool)
    ensures
        b == log_exists(data_views(families@)),
{
    let ghost fs = data_views(families@);
    let mut i: usize = 0;
    while i < families.len()
        invariant
            i <= families.len(),
            fs == data_views(families@),
            forall|x: int| 0 <= x < i ==> !(#[trigger] fs[x]).memtable_in_use(),
        decreases families.len() - i,
    {
        assert(fs[i as int] == families[i as int]@);
        if families[i].memtable_in_use() {
            return true;
        }
        i += 1;
    }
    false
}

/// Whether two optional names are the same.
fn same_name(a: &Option<String>, b: &Option<String>) -> (r: bool)
    ensures
        r == (name_view(*a) == name_view(*b)),
{
    match (a, b) {
        (Some(x), Some(y)) => *x == *y,
        (None, None) => true,
        _ => false,
    }
}

/// With distinct declared names, a name's place is the place of its entry.
proof fn lemma_declared_place(cfds: Seq<(&str, ColumnFamilyOptions)>, j: int)
    requires
        !malformed(cfds),
        0 <= j < cfds.len(),
    ensures
        declared_names(cfds).contains(cfds[j].0@),
        declared_names(cfds).index_of(cfds[j].0@) == j,
{
    let names = declared_names(cfds);
    assert(names[j] == cfds[j].0@);
    let k = names.index_of(cfds[j].0@);
    assert(0 <= k < names.len() && names[k] == cfds[j].0@);
    assert(names[k] == cfds[k].0@);
}

/// Why the column families that a database holds cannot be opened with the
/// declared list, if they cannot.
fn check_families<'a>(families: &Vec<FamilyData>, cfds: &Vec<(&str, ColumnFamilyOptions<'a>)>) -> (r:
    Result<(), Error>)
    requires
        !malformed(cfds@),
        forall|i: int| 0 <= i < families.len() ==> (#[trigger] families[i])@.wf(),
    ensures
        match r {
            Ok(_) => families_refusal(data_views(families@), cfds@) is None,
            Err(e) => families_refusal(data_views(families@), cfds@) matches Some(why) && reports(
                e,
                why,
                data_views(families@),
                declared_names(cfds@),
            ),
        },
{
    let ghost fs = data_views(families@);
    let ghost names = declared_names(cfds@);
    let standard = "default".to_owned();
    // Every column family is declared, or is a default family without
    // versions.
    let mut i: usize = 0;
    while i < families.len()
        invariant
            i <= families.len(),
            fs == data_views(families@),
            names == declared_names(cfds@),
            standard@ == default_name(),
            forall|x: int| 0 <= x < i ==> !unopened(fs, names, x),
        decreases families.len() - i,
    {
        assert(fs[i as int] == families[i as int]@);
        let declared = declared_index(cfds, &families[i].name);
        if declared.is_none() && !(families[i].name == standard && families[i].is_unused()) {
            proof {
                lemma_first_unopened(fs, names, i as int);
            }
            return Err(Error::not_opened(families[i].name.as_str()));
        }
        i += 1;
    }
    // Every declared name is the name of a column family.
    let mut j: usize = 0;
    while j < cfds.len()
        invariant
            j <= cfds.len(),
            fs == data_views(families@),
            names == declared_names(cfds@),
            forall|x: int| 0 <= x < families.len() ==> !unopened(fs, names, x),
            forall|y: int| 0 <= y < j ==> !unknown(fs, names, y),
        decreases cfds.len() - j,
    {
        assert(names[j as int] == cfds[j as int].0@);
        match stored_index(families, cfds[j].0) {
            Some(at) => {
                assert(fs[at as int] == families[at as int]@);
            },
            None => {
                proof {
                    assert forall|x: int| 0 <= x < fs.len() implies (#[trigger] fs[x]).name
                        != names[j as int] by {
                        assert(fs[x] == families[x]@);
                    }
                    lemma_first_unknown(fs, names, j as int);
                }
                let mut m = "Invalid argument: Column family not found: ".to_owned();
                m.append(cfds[j].0);
                return Err(Error::ConfigurationError(m));
            },
        }
        j += 1;
    }
    // The options fit what each column family holds.
    let fallback: ColumnFamilyOptions<'a> = ColumnFamilyOptions::new();
    let mut i: usize = 0;
    while i < families.len()
        invariant
            i <= families.len(),
            !malformed(cfds@),
            fs == data_views(families@),
            names == declared_names(cfds@),
            forall|x: int| 0 <= x < families.len() ==> (#[trigger] families[x])@.wf(),
            forall|x: int| 0 <= x < families.len() ==> !unopened(fs, names, x),
            forall|y: int| 0 <= y < cfds.len() ==> !unknown(fs, names, y),
            forall|x: int| 0 <= x < i ==> !mismatched(fs, cfds@, x),
            fallback.identity() == default_identity(),
        decreases families.len() - i,
    {
        assert(fs[i as int] == families[i as int]@);
        let declared = declared_index(cfds, &families[i].name);
        let given: &ColumnFamilyOptions<'a> = match declared {
            Some(at) => {
                proof {
                    lemma_declared_place(cfds@, at as int);
                }
                &cfds[at].1
            },
            None => &fallback,
        };
        assert(given.identity() == opened_family(fs[i as int], cfds@).data.identity);
        let operands_differ = families[i].holds_operands() && !same_name(
            given.merge_operator_name(),
            &families[i].identity.merge_operator,
        );
        if operands_differ || families[i].levels_in_use() > given.num_levels() {
            proof {
                lemma_first_mismatched(fs, cfds@, i as int);
            }
            let mut m = "Invalid argument: Options do not fit column family: ".to_owned();
            m.append(families[i].name.as_str());
            return Err(Error::ConfigurationError(m));
        }
        i += 1;
    }
    Ok(())
}

/// One of the column families from place `from` on is named `name`.
pub open spec fn taken(all: Seq<FamilyData>, from: int, name: Seq<char>) -> bool {
    exists|k: int| from <= k < all.len() && (#[trigger] all[k])@.name == name
}

/// The column families of a handle: what the database holds of each, with
/// the options declared for it, or with default options.
fn assemble<'a>(families: Vec<FamilyData>, cfds: Vec<(&str, ColumnFamilyOptions<'a>)>) -> (r: Vec<
    ColumnFamily<'a>,
>)
    requires
        !malformed(cfds@),
        forall|i: int, j: int|
            0 <= i < j < families.len() ==> (#[trigger] families[i])@.name != (
            #[trigger] families[j])@.name,
    ensures
        r.len() == families.len(),
        forall|i: int|
            0 <= i < r.len() ==> (#[trigger] r[i])@ == opened_family(families[i]@, cfds@),
{
    let ghost all = families@;
    let ghost declared = cfds@;
    let ghost names = declared_names(cfds@);
    let mut families = families;
    let mut cfds = cfds;
    let mut back: Vec<ColumnFamily<'a>> = Vec::new();
    while families.len() > 0
        invariant
            !malformed(declared),
            names == declared_names(declared),
            forall|i: int, j: int|
                0 <= i < j < all.len() ==> (#[trigger] all[i])@.name != (#[trigger] all[j])@.name,
            families@ == all.subrange(0, families.len() as int),
            back.len() == all.len() - families.len(),
            forall|x: int|
                0 <= x < back.len() ==> (#[trigger] back[x])@ == opened_family(
                    all[all.len() - 1 - x]@,
                    declared,
                ),
            forall|x: int| 0 <= x < cfds.len() ==> declared.contains(#[trigger] cfds@[x]),
            forall|y: int|
                0 <= y < declared.len() ==> cfds@.contains(#[trigger] declared[y]) || taken(
                    all,
                    families.len() as int,
                    declared[y].0@,
                ),
        decreases families.len(),
    {
        let ghost n = families.len();
        let ghost remaining = cfds@;
        let f = families.pop().unwrap();
        assert(f == all[n - 1]);
        assert(families@ =~= all.subrange(0, n - 1));
        let at = declared_index(&cfds, &f.name);
        let family = match at {
            Some(j) => {
                let entry = cfds.remove(j);
                proof {
                    assert(declared.contains(remaining[j as int]));
                    let y = choose|y: int|
                        0 <= y < declared.len() && declared[y] == remaining[j as int];
                    lemma_declared_place(declared, y);
                    assert(entry == declared[y]);
                    assert forall|x: int| 0 <= x < cfds.len() implies declared.contains(
                        #[trigger] cfds@[x],
                    ) by {
                        if x < j {
                            assert(cfds[x] == remaining[x]);
                        } else {
                            assert(cfds[x] == remaining[x + 1]);
                        }
                    }
                    assert forall|z: int| 0 <= z < declared.len() implies cfds@.contains(
                        #[trigger] declared[z],
                    ) || taken(all, n - 1, declared[z].0@) by {
                        if remaining.contains(declared[z]) {
                            let x = choose|x: int|
                                0 <= x < remaining.len() && remaining[x] == declared[z];
                            if x < j {
                                assert(cfds@[x] == declared[z]);
                            } else if x > j {
                                assert(cfds@[x - 1] == declared[z]);
                            } else {
                                assert(all[n - 1]@.name == declared[z].0@);
                            }
                        } else {
                            let k = choose|k: int|
                                n <= k < all.len() && (#[trigger] all[k])@.name == declared[z].0@;
                            assert(n - 1 <= k < all.len() && all[k]@.name == declared[z].0@);
                        }
                    }
                }
                ColumnFamily::open(f, entry.1)
            },
            None => {
                proof {
                    assert(!names.contains(f@.name)) by {
                        if names.contains(f@.name) {
                            let y = choose|y: int| 0 <= y < names.len() && names[y] == f@.name;
                            assert(names[y] == declared[y].0@);
                            if cfds@.contains(declared[y]) {
                                let x = choose|x: int| 0 <= x < cfds.len() && cfds@[x] == declared[y];
                                assert(declared_names(cfds@)[x] == cfds@[x].0@);
                                assert(declared_names(cfds@).contains(f@.name));
                            } else {
                                assert(taken(all, n as int, declared[y].0@));
                                let k = choose|k: int|
                                    n <= k < all.len() && (#[trigger] all[k])@.name
                                        == declared[y].0@;
                                assert(all[n - 1]@.name != all[k]@.name);
                            }
                        }
                    }
                    assert forall|z: int| 0 <= z < declared.len() implies cfds@.contains(
                        #[trigger] declared[z],
                    ) || taken(all, n - 1, declared[z].0@) by {
                        if !cfds@.contains(declared[z]) {
                            let k = choose|k: int|
                                n <= k < all.len() && (#[trigger] all[k])@.name == declared[z].0@;
                            assert(n - 1 <= k < all.len() && all[k]@.name == declared[z].0@);
                        }
                    }
                }
                ColumnFamily::open(f, ColumnFamilyOptions::new())
            },
        };
        back.push(family);
    }
    let mut r: Vec<ColumnFamily<'a>> = Vec::new();
    while back.len() > 0
        invariant
            back.len() + r.len() == all.len(),
            forall|x: int|
                0 <= x < back.len() ==> (#[trigger] back[x])@ == opened_family(
                    all[all.len() - 1 - x]@,
                    declared,
                ),
            forall|x: int| 0 <= x < r.len() ==> (#[trigger] r[x])@ == opened_family(all[x]@, declared),
        decreases back.len(),
    {
        let f = back.pop().unwrap();
        r.push(f);
    }
    r
}

/// The column families of a database that is made from the declared list.
fn make_families<'a>(cfds: &Vec<(&str, ColumnFamilyOptions<'a>)>) -> (r: Vec<FamilyData>)
    requires
        !malformed(cfds@),
    ensures
        data_views(r@) == made_families(cfds@),
{
    let mut r: Vec<FamilyData> = Vec::new();
    let mut j: usize = 0;
    while j < cfds.len()
        invariant
            j <= cfds.len(),
            !malformed(cfds@),
            r.len() == j,
            forall|x: int| 0 <= x < j ==> (#[trigger] r[x])@ == made_families(cfds@)[x],
        decreases cfds.len() - j,
    {
        let identity = cfds[j].1.identity_copy();
        r.push(FamilyData::new(cfds[j].0.to_owned(), j as u64, identity));
        j += 1;
    }
    assert(data_views(r@) =~= made_families(cfds@));
    r
}

/// What a database that was just made holds is consistent.
proof fn lemma_made_families_wf(cfds: Seq<(&str, ColumnFamilyOptions)>)
    requires
        !malformed(cfds),
        cfds.len() <= u64::MAX,
    ensures
        families_wf(made_families(cfds), 0, cfds.len() as u64),
{
    let fs = made_families(cfds);
    assert forall|i: int| 0 <= i < fs.len() implies (#[trigger] fs[i]).wf() && bounded_by(
        fs[i].versions,
        0,
    ) && fs[i].id < cfds.len() as u64 by {}
    assert forall|i: int, j: int| 0 <= i < j < fs.len() implies (#[trigger] fs[i]).name != (
    #[trigger] fs[j]).name && fs[i].id != fs[j].id by {}
}

/// What a handle holds after an open that was not refused is consistent.
proof fn lemma_opened_wf(store: StoreView, read_only: bool, path: Seq<char>, cfds: Seq<
    (&str, ColumnFamilyOptions),
>)
    requires
        store.wf(),
        !malformed(cfds),
        families_refusal(store.families, cfds) is None,
    ensures
        opened_db(store, read_only, path, cfds).wf(),
{
    let db = opened_db(store, read_only, path, cfds);
    let fs = store.families;
    let ds = db.data();
    let names = declared_names(cfds);
    assert forall|i: int| 0 <= i < ds.len() implies (#[trigger] ds[i]).wf() && bounded_by(
        ds[i].versions,
        db.last_sequence,
    ) && ds[i].id < db.next_family_id by {
        assert(ds[i] == opened_family(fs[i], cfds).data);
        assert(fs[i].wf());
        assert(!mismatched(fs, cfds, i));
        if names.contains(fs[i].name) {
            let j = names.index_of(fs[i].name);
            assert(0 <= j < names.len() && names[j] == fs[i].name);
            assert(cfds[j].1.identity().num_levels != 0);
        }
        lemma_levels_fit(fs[i], ds[i].identity.num_levels as int);
        assert(ds[i].runs == fs[i].runs);
    }
    assert forall|i: int, j: int| 0 <= i < j < ds.len() implies (#[trigger] ds[i]).name != (
    #[trigger] ds[j]).name && ds[i].id != ds[j].id by {
        assert(ds[i] == opened_family(fs[i], cfds).data);
        assert(ds[j] == opened_family(fs[j], cfds).data);
    }
}

impl<'a> DB<'a> {
    /// Opens the database at `path` for reading and writing, with the
    /// declared column families, and takes its lock. Where no database lies
    /// at `path` and the options say so, the database is made, with the
    /// declared column families. A refused open changes nothing.
    pub fn open_cf(
        env: &mut Env,
        options: DBOptions,
        path: &str,
        cfds: Vec<(&str, ColumnFamilyOptions<'a>)>,
    ) -> (r: Result<DB<'a>, Error>)
        requires
            old(env).wf(),
        ensures
            final(env).wf(),
            opened_for_writing(old(env)@, final(env)@, options.create_if_missing, path@, cfds@, r),
    {
        if !well_declared(&cfds) {
            return Err(Error::InvalidArgument);
        }
        match env.find(path) {
            None => {
                if !options.create_if_missing {
                    return Err(Error::InvalidArgument);
                }
                let kept = make_families(&cfds);
                let fresh = make_families(&cfds);
                let count = cfds.len() as u64;
                proof {
                    lemma_made_families_wf(cfds@);
                }
                let store = Store {
                    path: path.to_owned(),
                    locked: true,
                    families: kept,
                    last_sequence: 0,
                    next_family_id: count,
                };
                let ghost sv = store@;
                assert(sv == opened_store(old(env)@, path@, cfds@));
                env.put(path, store);
                proof {
                    assert(families_refusal(sv.families, cfds@) is None) by {
                        lemma_made_fits(cfds@);
                    }
                    lemma_opened_wf(sv, false, path@, cfds@);
                    assert forall|i: int, j: int| 0 <= i < j < fresh.len() implies (
                    #[trigger] fresh[i])@.name != (#[trigger] fresh[j])@.name by {
                        assert(data_views(fresh@)[i] == fresh[i]@);
                        assert(data_views(fresh@)[j] == fresh[j]@);
                    }
                }
                let ghost fresh_views = data_views(fresh@);
                let families = assemble(fresh, cfds);
                let db = DB::from_parts(path.to_owned(), false, families, 0, count);
                proof {
                    let want = opened_db(sv, false, path@, cfds@);
                    assert(db@.families =~= want.families) by {
                        assert forall|i: int| 0 <= i < want.families.len() implies db@.families[i]
                            == want.families[i] by {
                            assert(fresh_views[i] == sv.families[i]);
                        }
                    }
                }
                Ok(db)
            },
            Some(s) => {
                if env.locked(s) {
                    return Err(Error::LockHeld);
                }
                let kept = env.load(s);
                proof {
                    env.lemma_wf(path@);
                    assert forall|i: int| 0 <= i < kept.len() implies (#[trigger] kept[i])@.wf() by {
                        assert(data_views(kept@)[i] == kept[i]@);
                    }
                }
                match check_families(&kept, &cfds) {
                    Err(e) => {
                        return Err(e);
                    },
                    Ok(_) => {},
                }
                let (last_sequence, next_family_id) = env.counters(s);
                let ghost sv = opened_store(old(env)@, path@, cfds@);
                env.set_locked(s, path, true);
                proof {
                    lemma_opened_wf(sv, false, path@, cfds@);
                    assert forall|i: int, j: int| 0 <= i < j < kept.len() implies (
                    #[trigger] kept[i])@.name != (#[trigger] kept[j])@.name by {
                        assert(data_views(kept@)[i] == kept[i]@);
                        assert(data_views(kept@)[j] == kept[j]@);
                    }
                }
                let ghost kept_views = data_views(kept@);
                let families = assemble(kept, cfds);
                let db = DB::from_parts(
                    path.to_owned(),
                    false,
                    families,
                    last_sequence,
                    next_family_id,
                );
                proof {
                    let want = opened_db(sv, false, path@, cfds@);
                    assert(db@.families =~= want.families) by {
                        assert forall|i: int| 0 <= i < want.families.len() implies db@.families[i]
                            == want.families[i] by {
                            assert(kept_views[i] == sv.families[i]);
                        }
                    }
                }
                Ok(db)
            },
        }
    }

    /// Opens the database at `path` for reading and writing, with the
    /// default column family alone.
    pub fn open(env: &mut Env, options: DBOptions, path: &str) -> (r: Result<DB<'a>, Error>)
        requires
            old(env).wf(),
        ensures
            final(env).wf(),
            exists|cfds: Seq<(&str, ColumnFamilyOptions<'a>)>|
                declares_default(cfds) && #[trigger] opened_for_writing(
                    old(env)@,
                    final(env)@,
                    options.create_if_missing,
                    path@,
                    cfds,
                    r,
                ),
    {
        let mut cfds: Vec<(&str, ColumnFamilyOptions<'a>)> = Vec::new();
        cfds.push(("default", ColumnFamilyOptions::new()));
        let ghost declared = cfds@;
        let r = DB::open_cf(env, options, path, cfds);
        assert(declares_default(declared));
        assert(opened_for_writing(
            old(env)@,
            env@,
            options.create_if_missing,
            path@,
            declared,
            r,
        ));
        r
    }

    /// Opens the database at `path` for reading and writing, with the
    /// default column family alone, and makes it where none lies there.
    pub fn open_default(env: &mut Env, path: &str) -> (r: Result<DB<'a>, Error>)
        requires
            old(env).wf(),
        ensures
            final(env).wf(),
            exists|cfds: Seq<(&str, ColumnFamilyOptions<'a>)>|
                declares_default(cfds) && #[trigger] opened_for_writing(
                    old(env)@,
                    final(env)@,
                    true,
                    path@,
                    cfds,
                    r,
                ),
    {
        let mut options = DBOptions::new();
        options.create_if_missing(true);
        DB::open(env, options, path)
    }

    /// Opens the database at `path` for reading only, with the declared
    /// column families. The open takes no lock and is not held up by one.
    /// Where `error_if_log_file_exists` is set, it fails if some write has
    /// not been flushed.
    pub fn open_cf_for_read_only(
        env: &Env,
        options: DBOptions,
        path: &str,
        cfds: Vec<(&str, ColumnFamilyOptions<'a>)>,
        error_if_log_file_exists: bool,
    ) -> (r: Result<DB<'a>, Error>)
        requires
            env.wf(),
        ensures
            opened_for_reading(env@, error_if_log_file_exists, path@, cfds@, r),
    {
        if !well_declared(&cfds) {
            return Err(Error::InvalidArgument);
        }
        let s = match env.find(path) {
            Some(s) => s,
            None => {
                return Err(Error::InvalidArgument);
            },
        };
        let kept = env.load(s);
        proof {
            env.lemma_wf(path@);
            assert forall|i: int| 0 <= i < kept.len() implies (#[trigger] kept[i])@.wf() by {
                assert(data_views(kept@)[i] == kept[i]@);
            }
        }
        if error_if_log_file_exists && has_log(&kept) {
            return Err(Error::InvalidArgument);
        }
        match check_families(&kept, &cfds) {
            Err(e) => {
                return Err(e);
            },
            Ok(_) => {},
        }
        let (last_sequence, next_family_id) = env.counters(s);
        proof {
            lemma_opened_wf(env@[path@], true, path@, cfds@);
            assert forall|i: int, j: int| 0 <= i < j < kept.len() implies (#[trigger] kept[i])@.name
                != (#[trigger] kept[j])@.name by {
                assert(data_views(kept@)[i] == kept[i]@);
                assert(data_views(kept@)[j] == kept[j]@);
            }
        }
        let ghost kept_views = data_views(kept@);
        let families = assemble(kept, cfds);
        let db = DB::from_parts(path.to_owned(), true, families, last_sequence, next_family_id);
        proof {
            let want = opened_db(env@[path@], true, path@, cfds@);
            assert(db@.families =~= want.families) by {
                assert forall|i: int| 0 <= i < want.families.len() implies db@.families[i]
                    == want.families[i] by {
                    assert(kept_views[i] == env@[path@].families[i]);
                }
            }
        }
        Ok(db)
    }

    /// Opens the database at `path` for reading only, with the default
    /// column family alone.
    pub fn open_for_read_only(
        env: &Env,
        options: DBOptions,
        path: &str,
        error_if_log_file_exists: bool,
    ) -> (r: Result<DB<'a>, Error>)
        requires
            env.wf(),
        ensures
            exists|cfds: Seq<(&str, ColumnFamilyOptions<'a>)>|
                declares_default(cfds) && #[trigger] opened_for_reading(
                    env@,
                    error_if_log_file_exists,
                    path@,
                    cfds,
                    r,
                ),
    {
        let mut cfds: Vec<(&str, ColumnFamilyOptions<'a>)> = Vec::new();
        cfds.push(("default", ColumnFamilyOptions::new()));
        let ghost declared = cfds@;
        let r = DB::open_cf_for_read_only(env, options, path, cfds, error_if_log_file_exists);
        assert(declares_default(declared));
        assert(opened_for_reading(env@, error_if_log_file_exists, path@, declared, r));
        r
    }

    /// Closes the handle. A writable handle hands what it holds back to the
    /// environment and gives up the lock; it fails where the environment has
    /// no database at its path. A read-only handle hands nothing back.
    pub fn close(self, env: &mut Env) -> (r: Result<(), Error>)
        requires
            self.wf(),
            old(env).wf(),
        ensures
            final(env).wf(),
            match r {
                Ok(_) => if self@.read_only {
                    final(env)@ == old(env)@
                } else {
                    old(env)@.contains_key(self@.path) && final(env)@ == old(env)@.insert(
                        self@.path,
                        closed_store(self@),
                    )
                },
                Err(e) => !self@.read_only && !old(env)@.contains_key(self@.path) && e
                    == Error::PathError && final(env)@ == old(env)@,
            },
    {
        let ghost whole = self@;
        let (path, read_only, families, last_sequence, next_family_id) = self.into_parts();
        if read_only {
            return Ok(());
        }
        match env.find(path.as_str()) {
            None => Err(Error::PathError),
            Some(_) => {
                let place = path.clone();
                let store = Store { path, locked: false, families, last_sequence, next_family_id };
                assert(store@ == closed_store(whole));
                env.put(place.as_str(), store);
                Ok(())
            },
        }
    }
}

/// The declared list fits the column families that are made from it.
proof fn lemma_made_fits(cfds: Seq<(&str, ColumnFamilyOptions)>)
    requires
        !malformed(cfds),
    ensures
        families_refusal(made_families(cfds), cfds) is None,
{
    let fs = made_families(cfds);
    let names = declared_names(cfds);
    assert forall|i: int| 0 <= i < fs.len() implies !unopened(fs, names, i) by {
        assert(names[i] == fs[i].name);
    }
    assert forall|j: int| 0 <= j < names.len() implies !unknown(fs, names, j) by {
        assert(fs[j].name == names[j]);
    }
    assert forall|i: int| 0 <= i < fs.len() implies !mismatched(fs, cfds, i) by {
        lemma_declared_place(cfds, i);
        assert(!fs[i].holds_operands());
        lemma_levels_in_use(fs[i], 0);
    }
}

} // verus!
