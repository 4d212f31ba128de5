//! Choosing a file name that fits and is free: the name itself when it is
//! short enough, else the first candidate that the destination lacks.

use vstd::prelude::*;
use crate::candidate::{candidate, new_candidate_filename, N_FILENAME_BYTES};
use crate::normalize::{nfd_of, normalize_str};
use crate::text::{byte_len, bytes_len};

verus! {

/// The tag rules: tags to drop, and replacements for tags.
pub struct Config {
    pub ignored_tags: Vec<String>,
    pub conversions: Vec<(String, String)>,
}

impl Default for Config {
    fn default() -> (r: Self)
        ensures
            r.ignored_tags@.len() == 0,
            r.conversions@.len() == 0,
    {
        Config { ignored_tags: Vec::new(), conversions: Vec::new() }
    }
}

/// Why no file name could be chosen.
#[derive(Debug, Clone, PartialEq, Eq)]
pub enum Error {
    /// The path has no final component to rename.
    FilenameNotFound(String),
    /// Every candidate up to the largest retry counter was taken.
    RetriesExhausted(String),
}

impl Error {
    /// A sentence that describes the error.
    pub fn message(&self) -> (r: String)
        ensures
            self matches Error::FilenameNotFound(p) ==> r@ == "Filename not found in path: "@ + p@,
            self matches Error::RetriesExhausted(f) ==> r@ == "No free file name for: "@ + f@,
    {
        match self {
            Error::FilenameNotFound(p) => {
                let mut s = "Filename not found in path: ".to_owned();
                s.append(p.as_str());
                s
            },
            Error::RetriesExhausted(f) => {
                let mut s = "No free file name for: ".to_owned();
                s.append(f.as_str());
                s
            },
        }
    }
}

/// The final component of a path, if it has one.
pub uninterp spec fn path_file_name(p: Seq<char>) -> Option<Seq<char>>;

/// Relies on `std::path::Path::file_name`: the final component of the path,
/// which is a part of it, or nothing (for `/`, `.` or a path ending in
/// `..`); the result depends on the path alone.
#[verifier::external_body]
fn file_name_of(path: &str) -> (r: Option<String>)
    ensures
        r matches Some(n) ==> path_file_name(path@) == Some(n@) && bytes_len(n@) <= bytes_len(path@),
        r is None ==> path_file_name(path@) is None,
{
    match std::path::Path::new(path).file_name() {
        Some(n) => Some(n.to_string_lossy().into_owned()),
        None => None,
    }
}

/// The ignored tags in normalized form.
pub open spec fn normalized_tags(v: Seq<Seq<char>>) -> Seq<Seq<char>> {
    v.map_values(|t: Seq<char>| nfd_of(t))
}

/// The conversions with normalized keys.
pub open spec fn normalized_keys(v: Seq<(Seq<char>, Seq<char>)>) -> Seq<(Seq<char>, Seq<char>)> {
    v.map_values(|p: (Seq<char>, Seq<char>)| (nfd_of(p.0), p.1))
}

/// Every replacement of `config` is small enough to measure with a `usize`.
pub open spec fn config_fits(config: &Config) -> bool {
    forall|k: int|
        0 <= k < config.conversions.len() ==> bytes_len(#[trigger] config.conversions@[k].1@) + 4
            <= usize::MAX
}

/// The rules of `config` with their keys in normalized form.
pub fn normalize_config(config: &Config) -> (r: Config)
    ensures
        r.ignored_tags.deep_view() == normalized_tags(config.ignored_tags.deep_view()),
        r.conversions.deep_view() == normalized_keys(config.conversions.deep_view()),
        r.conversions.len() == config.conversions.len(),
        forall|k: int| 0 <= k < r.conversions.len() ==> #[trigger] r.conversions@[k].1@ == config.conversions@[k].1@,
{
    let mut ignored_tags: Vec<String> = Vec::new();
    let mut i: usize = 0;
    while i < config.ignored_tags.len()
        invariant
            i <= config.ignored_tags.len(),
            ignored_tags.deep_view() == normalized_tags(config.ignored_tags.deep_view()).subrange(0, i as int),
        decreases config.ignored_tags.len() - i,
    {
        let t = normalize_str(config.ignored_tags[i].as_str());
        assert(ignored_tags.deep_view().push(t@) =~= normalized_tags(config.ignored_tags.deep_view()).subrange(0, i + 1));
        ignored_tags.push(t);
        assert(ignored_tags.deep_view() =~= normalized_tags(config.ignored_tags.deep_view()).subrange(0, i + 1));
        i = i + 1;
    }
    assert(ignored_tags.deep_view() =~= normalized_tags(config.ignored_tags.deep_view()));
    let mut conversions: Vec<(String, String)> = Vec::new();
    let mut i: usize = 0;
    while i < config.conversions.len()
        invariant
            i <= config.conversions.len(),
            conversions.len() == i,
            conversions.deep_view() == normalized_keys(config.conversions.deep_view()).subrange(0, i as int),
            forall|k: int| 0 <= k < i ==> #[trigger] conversions@[k].1@ == config.conversions@[k].1@,
        decreases config.conversions.len() - i,
    {
        let k = normalize_str(config.conversions[i].0.as_str());
        let v = config.conversions[i].1.clone();
        let ghost old_c = conversions@;
        assert(conversions.deep_view().push((k@, v@)) =~= normalized_keys(config.conversions.deep_view()).subrange(0, i + 1));
        conversions.push((k, v));
        assert(conversions.deep_view() =~= normalized_keys(config.conversions.deep_view()).subrange(0, i + 1));
        assert(conversions@[i as int].1@ == config.conversions@[i as int].1@);
        assert(forall|k: int| 0 <= k < i ==> conversions@[k] == old_c[k]);
        i = i + 1;
    }
    assert(conversions.deep_view() =~= normalized_keys(config.conversions.deep_view()));
    Config { ignored_tags, conversions }
}

/// The candidate for counter `n` of the file name `name` under `config`.
pub open spec fn candidate_for(name: Seq<char>, config: &Config, n: nat) -> Seq<char> {
    candidate(
        name,
        normalized_tags(config.ignored_tags.deep_view()),
        normalized_keys(config.conversions.deep_view()),
        n,
    )
}

/// `path_exists` answered `answer` for some text with the view `t`.
pub open spec fn answered<F: Fn(&String) -> bool>(path_exists: F, t: Seq<char>, answer: bool) -> bool {
    exists|s: String| s@ == t && #[trigger] call_ensures(path_exists, (&s,), answer)
}

/// Chooses the new file name for the file at `path`. `same_dir` says that
/// the file stays in its directory; `path_exists` tells whether a file name
/// is taken in the destination directory.
///
/// A name within the byte limit is kept as it is when the file stays in
/// its directory, or when the name is free. Otherwise the result is the
/// candidate for the first retry counter, from 0 on, whose name is free.
pub fn new_filename<F: Fn(&String) -> bool>(
    path: &str,
    same_dir: bool,
    config: &Config,
    path_exists: F,
) -> (r: Result<String, Error>)
    requires
        bytes_len(path@) + 4 <= usize::MAX,
        config_fits(config),
        forall|s: &String| #[trigger] path_exists.requires((s,)),
    ensures
        path_file_name(path@) is None <==> r matches Err(Error::FilenameNotFound(p)),
        r matches Err(Error::FilenameNotFound(p)) ==> p@ == path@,
        path_file_name(path@) matches Some(name) ==> {
            &&& same_dir && bytes_len(name) <= N_FILENAME_BYTES ==> (r matches Ok(c) && c@ == name)
            &&& r matches Ok(c) ==> {
                &&& bytes_len(c@) <= N_FILENAME_BYTES
                &&& (c@ == name && (same_dir || answered(path_exists, name, false))) || exists|n: nat|
                    {
                        &&& c@ == #[trigger] candidate_for(name, config, n)
                        &&& answered(path_exists, c@, false)
                        &&& forall|k: nat| k < n ==> answered(path_exists, candidate_for(name, config, k), true)
                    }
            }
            &&& r matches Err(Error::RetriesExhausted(f)) ==> {
                &&& f@ == name
                &&& forall|k: nat| k <= usize::MAX ==> answered(path_exists, candidate_for(name, config, k), true)
            }
        },
{
    let name = match file_name_of(path) {
        Some(n) => n,
        None => {
            return Err(Error::FilenameNotFound(path.to_owned()));
        },
    };
    let ghost nm = name@;
    if byte_len(name.as_str()) <= N_FILENAME_BYTES {
        if same_dir {
            return Ok(name);
        }
        if !path_exists(&name) {
            return Ok(name);
        }
    }
    let rules = normalize_config(config);
    let mut n: usize = 0;
    loop
        invariant
            nm == name@,
            path_file_name(path@) == Some(nm),
            !(same_dir && bytes_len(nm) <= N_FILENAME_BYTES),
            bytes_len(nm) + 4 <= usize::MAX,
            rules.ignored_tags.deep_view() == normalized_tags(config.ignored_tags.deep_view()),
            rules.conversions.deep_view() == normalized_keys(config.conversions.deep_view()),
            config_fits(config),
            rules.conversions.len() == config.conversions.len(),
            forall|k: int| 0 <= k < rules.conversions.len() ==> #[trigger] rules.conversions@[k].1@ == config.conversions@[k].1@,
            forall|s: &String| #[trigger] path_exists.requires((s,)),
            forall|k: nat| k < n ==> answered(path_exists, candidate_for(nm, config, k), true),
        decreases usize::MAX - n,
    {
        assert forall|k: int| 0 <= k < rules.conversions.len() implies bytes_len(#[trigger] rules.conversions@[k].1@) + 4 <= usize::MAX by {
            assert(rules.conversions@[k].1@ == config.conversions@[k].1@);
        }
        let c = new_candidate_filename(name.as_str(), &rules.ignored_tags, &rules.conversions, n);
        let taken = path_exists(&c);
        if !taken {
            assert(answered(path_exists, c@, false));
            assert(c@ == candidate_for(nm, config, n as nat));
            return Ok(c);
        }
        assert(answered(path_exists, candidate_for(nm, config, n as nat), true));
        if n == usize::MAX {
            return Err(Error::RetriesExhausted(name));
        }
        n = n + 1;
    }
}

} // verus!
