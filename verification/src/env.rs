//! Where Lasa keeps its files.
use vstd::prelude::*;
use vstd::string::{StrSliceExecFns, StringExecFns};

verus! {

/// The paths Lasa works with.
///
/// The database lives in the user's cache directory, or in the home directory where there is
/// no cache directory; the statistics are written to the home directory.
pub struct Environment {
    pub home_dir: String,
    pub data_file_path: String,
    pub output_file_path: String,
    pub human_readable_output_path: String,
}

/// The file name of the database.
pub open spec fn data_file_name() -> Seq<char> {
    "lasa_system_uptime_db.xff"@
}

/// The file name of the statistics in the binary format.
pub open spec fn output_file_name() -> Seq<char> {
    "lasa_system_uptime.xff"@
}

/// The file name of the statistics in the human readable format.
pub open spec fn human_readable_file_name() -> Seq<char> {
    "lasa_system_uptime.json"@
}

/// A relative `name` below the directory `dir`, as `Path::join` puts it on Unix: a `/`
/// goes between the two where `dir` is not empty and does not end with one.
pub open spec fn join_path(dir: Seq<char>, name: Seq<char>) -> Seq<char> {
    if dir.len() == 0 || dir.last() == '/' {
        dir + name
    } else {
        dir + "/"@ + name
    }
}

/// The relative `name` below `dir`.
fn join(dir: &String, name: &str) -> (r: String)
    ensures
        r@ == join_path(dir@, name@),
{
    let d = dir.as_str();
    let n = d.unicode_len();
    if n == 0 || d.get_char(n - 1) == '/' {
        dir.clone().concat(name)
    } else {
        dir.clone().concat("/").concat(name)
    }
}

impl Environment {
    /// The paths below the user's home directory and, where there is one, the cache directory.
    pub fn from_dirs(home_dir: String, cache_dir: Option<String>) -> (r: Environment)
        ensures
            r.home_dir@ == home_dir@,
            r.data_file_path@ == join_path(
                match cache_dir {
                    Some(d) => d@,
                    None => home_dir@,
                },
                data_file_name(),
            ),
            r.output_file_path@ == join_path(home_dir@, output_file_name()),
            r.human_readable_output_path@ == join_path(home_dir@, human_readable_file_name()),
    {
        let data_file_path = match &cache_dir {
            Some(d) => join(d, "lasa_system_uptime_db.xff"),
            None => join(&home_dir, "lasa_system_uptime_db.xff"),
        };
        let output_file_path = join(&home_dir, "lasa_system_uptime.xff");
        let human_readable_output_path = join(&home_dir, "lasa_system_uptime.json");
        Environment { home_dir, data_file_path, output_file_path, human_readable_output_path }
    }
}

} // verus!
