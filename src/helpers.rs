//! Paths and command lines for test fixtures: where the sample campaign
//! lies, and how a scratch SQLite database is created, dropped and removed.
use vstd::prelude::*;
use vstd::slice::slice_to_vec;
use vstd::string::StringSliceAdditionalSpecFns;
use crate::path::bytes_eq;

verus! {

/// `name` joined onto `root` as a path: an absolute `name` replaces `root`,
/// otherwise a `/` separates them unless `root` is empty or ends in one.
pub open spec fn join_path(root: Seq<u8>, name: Seq<u8>) -> Seq<u8> {
    if name.len() > 0 && name[0] == 47 {
        name
    } else if root.len() == 0 || root.last() == 47 {
        root + name
    } else {
        root + seq![47u8] + name
    }
}

fn concat(a: &[u8], b: &[u8]) -> (r: Vec<u8>)
    ensures
        r@ == a@ + b@,
{
    let mut r = slice_to_vec(a);
    let mut i: usize = 0;
    while i < b.len()
        invariant
            i <= b@.len(),
            r@ == a@ + b@.take(i as int),
        decreases b@.len() - i,
    {
        r.push(b[i]);
        assert(b@.take(i as int + 1) =~= b@.take(i as int).push(b@[i as int]));
        assert(r@ =~= a@ + b@.take(i as int + 1));
        i += 1;
    }
    assert(b@.take(i as int) =~= b@);
    r
}

/// Joins `name` onto `root` as a path.
pub fn join(root: &[u8], name: &[u8]) -> (r: Vec<u8>)
    ensures
        r@ == join_path(root@, name@),
{
    if name.len() > 0 && name[0] == 47 {
        slice_to_vec(name)
    } else if root.len() == 0 || root[root.len() - 1] == 47 {
        concat(root, name)
    } else {
        let with_slash = concat(root, "/".as_bytes());
        proof {
            reveal_strlit("/");
            vstd::string::is_ascii_spec_bytes("/");
            assert("/".spec_bytes() =~= seq![47u8]);
        }
        concat(with_slash.as_slice(), name)
    }
}

pub open spec fn bytes_view(v: Seq<Vec<u8>>) -> Seq<Seq<u8>> {
    v.map_values(|b: Vec<u8>| b@)
}

/// The files a SQLite database `name` under `path_root` leaves behind: the
/// database and its shared-memory and write-ahead-log files.
pub fn cleanup_sqlite(path_root: &[u8], name: &[u8]) -> (r: Vec<Vec<u8>>)
    ensures
        bytes_view(r@) == seq![
            join_path(path_root@, name@),
            join_path(path_root@, name@ + "-shm".spec_bytes()),
            join_path(path_root@, name@ + "-wal".spec_bytes()),
        ],
{
    let shm = concat(name, "-shm".as_bytes());
    let wal = concat(name, "-wal".as_bytes());
    let r = vec![join(path_root, name), join(path_root, shm.as_slice()), join(path_root, wal.as_slice())];
    assert(bytes_view(r@) =~= seq![
        join_path(path_root@, name@),
        join_path(path_root@, name@ + "-shm".spec_bytes()),
        join_path(path_root@, name@ + "-wal".spec_bytes()),
    ]);
    r
}

/// The database URL of a SQLite file.
pub open spec fn database_url(path_root: Seq<u8>, name: Seq<u8>) -> Seq<u8> {
    "sqlite:".spec_bytes() + join_path(path_root, name)
}

fn url(path_root: &[u8], name: &[u8]) -> (r: Vec<u8>)
    ensures
        r@ == database_url(path_root@, name@),
{
    let j = join(path_root, name);
    concat("sqlite:".as_bytes(), j.as_slice())
}

fn owned(s: &str) -> (r: Vec<u8>)
    ensures
        r@ == s.spec_bytes(),
{
    slice_to_vec(s.as_bytes())
}

/// The arguments of the `sqlx` command that creates the database `name`
/// under `path_root`.
pub fn create_sqlite_db(path_root: &[u8], name: &[u8]) -> (r: Vec<Vec<u8>>)
    ensures
        bytes_view(r@) == seq![
            "database".spec_bytes(),
            "create".spec_bytes(),
            "--database-url".spec_bytes(),
            database_url(path_root@, name@),
        ],
{
    let r = vec![owned("database"), owned("create"), owned("--database-url"), url(path_root, name)];
    assert(bytes_view(r@) =~= seq![
        "database".spec_bytes(),
        "create".spec_bytes(),
        "--database-url".spec_bytes(),
        database_url(path_root@, name@),
    ]);
    r
}

/// The arguments of the `sqlx` command that drops the database `name` under
/// `path_root` without asking.
pub fn drop_sqlite_db(path_root: &[u8], name: &[u8]) -> (r: Vec<Vec<u8>>)
    ensures
        bytes_view(r@) == seq![
            "database".spec_bytes(),
            "drop".spec_bytes(),
            "--database-url".spec_bytes(),
            database_url(path_root@, name@),
            "-y".spec_bytes(),
        ],
{
    let r = vec![owned("database"), owned("drop"), owned("--database-url"), url(path_root, name), owned("-y")];
    assert(bytes_view(r@) =~= seq![
        "database".spec_bytes(),
        "drop".spec_bytes(),
        "--database-url".spec_bytes(),
        database_url(path_root@, name@),
        "-y".spec_bytes(),
    ]);
    r
}

/// How many leading components of a working directory remain once its last
/// component, and then every trailing `stellarust`, is removed.
pub open spec fn kept_components(cwd: Seq<Seq<u8>>, k: int) -> int
    decreases k,
{
    if 0 < k <= cwd.len() && cwd[k - 1] == "stellarust".spec_bytes() {
        kept_components(cwd, k - 1)
    } else {
        k
    }
}

pub open spec fn workspace_root_len(cwd: Seq<Seq<u8>>) -> int {
    if cwd.len() == 0 {
        0
    } else {
        kept_components(cwd, cwd.len() - 1)
    }
}

/// The components of `path` placed under the directory that holds the
/// project checkout, found from the working directory's components `cwd`.
pub fn get_path(cwd: &Vec<Vec<u8>>, path: &[u8]) -> (r: Vec<Vec<u8>>)
    ensures
        bytes_view(r@) == bytes_view(cwd@).take(workspace_root_len(bytes_view(cwd@))).push(path@),
{
    let ghost cv = bytes_view(cwd@);
    let mut k: usize = if cwd.len() == 0 { 0 } else { cwd.len() - 1 };
    while k > 0 && bytes_eq(cwd[k - 1].as_slice(), "stellarust".as_bytes())
        invariant
            cv == bytes_view(cwd@),
            k <= cwd@.len(),
            workspace_root_len(cv) == kept_components(cv, k as int),
        decreases k,
    {
        assert(cv[k - 1] == cwd@[k - 1]@);
        k -= 1;
    }
    proof {
        if k > 0 {
            assert(cv[k - 1] == cwd@[k - 1]@);
        }
    }
    let mut r: Vec<Vec<u8>> = Vec::new();
    let mut i: usize = 0;
    while i < k
        invariant
            cv == bytes_view(cwd@),
            i <= k <= cwd@.len(),
            bytes_view(r@) == cv.take(i as int),
        decreases k - i,
    {
        let ghost before = bytes_view(r@);
        r.push(slice_to_vec(cwd[i].as_slice()));
        assert(cv[i as int] == cwd@[i as int]@);
        assert(bytes_view(r@) =~= before.push(cv[i as int]));
        assert(cv.take(i as int + 1) =~= cv.take(i as int).push(cv[i as int]));
        i += 1;
    }
    r.push(slice_to_vec(path));
    assert(bytes_view(r@) =~= cv.take(k as int).push(path@));
    r
}

/// Where the sample campaign lies, found from the working directory's components.
pub fn get_test_campaign_une_root(cwd: &Vec<Vec<u8>>) -> (r: Vec<Vec<u8>>)
    ensures
        bytes_view(r@) == bytes_view(cwd@).take(workspace_root_len(bytes_view(cwd@))).push(
            "stellarust/res/test_data/campaign/unitednationsofearth_-15512622/".spec_bytes(),
        ),
{
    get_path(cwd, "stellarust/res/test_data/campaign/unitednationsofearth_-15512622/".as_bytes())
}

} // verus!
