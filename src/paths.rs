//! Where a run's files go, from the path of the source under test.
//!
//! Paths are held as their text; what a path's parts are is left to
//! `std::path`.
use crate::cli::CLIError;
use crate::job::joined;
use vstd::prelude::*;
use vstd::string::*;

verus! {

/// The file name of a path without its extension, as `Path::file_stem`
/// gives it.
pub uninterp spec fn stem_of(p: Seq<char>) -> Option<Seq<char>>;

/// The extension of a path's file name, as `Path::extension` gives it.
pub uninterp spec fn extension_of(p: Seq<char>) -> Option<Seq<char>>;

/// A path without its last part, as `Path::parent` gives it.
pub uninterp spec fn parent_of(p: Seq<char>) -> Option<Seq<char>>;

/// A path with another joined to it, as `Path::join` gives it.
pub uninterp spec fn join_of(base: Seq<char>, rest: Seq<char>) -> Seq<char>;

/// Relies on `Path::file_stem`: `None` when the path has no file name,
/// else the name without its extension. It depends on the path alone.
#[verifier::external_body]
fn file_stem(p: &str) -> (r: Option<String>)
    ensures
        r is Some <==> stem_of(p@) is Some,
        r matches Some(s) ==> stem_of(p@) == Some(s@),
{
    std::path::Path::new(p).file_stem().map(|s| s.to_string_lossy().into_owned())
}

/// Relies on `Path::extension`: the extension of the file name, if it has
/// one. It depends on the path alone.
#[verifier::external_body]
fn extension(p: &str) -> (r: Option<String>)
    ensures
        r is Some <==> extension_of(p@) is Some,
        r matches Some(s) ==> extension_of(p@) == Some(s@),
{
    std::path::Path::new(p).extension().map(|s| s.to_string_lossy().into_owned())
}

/// Relies on `Path::parent`: the path without its last part, or `None` for
/// a root or an empty path. It depends on the path alone.
#[verifier::external_body]
fn parent(p: &str) -> (r: Option<String>)
    ensures
        r is Some <==> parent_of(p@) is Some,
        r matches Some(s) ==> parent_of(p@) == Some(s@),
{
    std::path::Path::new(p).parent().map(|s| s.to_string_lossy().into_owned())
}

/// Relies on `Path::join`: the two paths joined. It depends on the two
/// paths alone.
#[verifier::external_body]
fn join(base: &str, rest: &str) -> (r: String)
    ensures
        r@ == join_of(base@, rest@),
{
    std::path::Path::new(base).join(rest).to_string_lossy().into_owned()
}

/// The directory of a path, or the root when it has none.
pub open spec fn dir_of(p: Seq<char>) -> Seq<char> {
    match parent_of(p) {
        Some(d) => d,
        None => "/"@,
    }
}

fn dir(p: &str) -> (r: String)
    ensures
        r@ == dir_of(p@),
{
    match parent(p) {
        Some(d) => d,
        None => String::from_str("/"),
    }
}

fn stem_or_error(source_path: &str) -> (r: Result<String, CLIError>)
    ensures
        match stem_of(source_path@) {
            None => r matches Err(CLIError::InvalidArgument(_)),
            Some(st) => r matches Ok(s) && s@ == st,
        },
{
    match file_stem(source_path) {
        Some(s) => Ok(s),
        None => Err(CLIError::InvalidArgument(joined("Invalid source filename: ", source_path))),
    }
}

/// The test file of a source: the one given, under `cwd`, or else
/// `<stem>.test` beside the source.
pub fn build_test_config_path(cwd: &str, source_path: &str, test_config_optional: &Option<String>) -> (r: Result<String, CLIError>)
    ensures
        match stem_of(source_path@) {
            None => r matches Err(CLIError::InvalidArgument(_)),
            Some(st) => r matches Ok(p) && p@ == match test_config_optional {
                None => join_of(dir_of(source_path@), st + ".test"@),
                Some(t) => join_of(cwd@, t@),
            },
        },
{
    let stem = stem_or_error(source_path)?;
    match test_config_optional {
        None => {
            let name = joined(stem.as_str(), ".test");
            let d = dir(source_path);
            Ok(join(d.as_str(), name.as_str()))
        },
        Some(t) => Ok(join(cwd, t.as_str())),
    }
}

/// Where the results of a run on a source are stored: `<stem>_store.json`
/// in the data directory.
pub fn build_job_store_filename(source_path: &str, data_directory: &str) -> (r: Result<String, CLIError>)
    ensures
        match stem_of(source_path@) {
            None => r matches Err(CLIError::InvalidArgument(_)),
            Some(st) => r matches Ok(p) && p@ == join_of(data_directory@, st + "_store.json"@),
        },
{
    let stem = stem_or_error(source_path)?;
    let name = joined(stem.as_str(), "_store.json");
    Ok(join(data_directory, name.as_str()))
}

/// The reference program's source: the one given, or else
/// `<stem>_std.<extension>` (`<stem>_std` without an extension), under
/// `cwd`.
pub fn build_std_source_path(cwd: &str, source_path: &str, std_source_optional: &Option<String>) -> (r: Result<String, CLIError>)
    ensures
        match stem_of(source_path@) {
            None => r matches Err(CLIError::InvalidArgument(_)),
            Some(st) => r matches Ok(p) && p@ == join_of(
                cwd@,
                match std_source_optional {
                    Some(s) => s@,
                    None => match extension_of(source_path@) {
                        Some(ext) => st + "_std."@ + ext,
                        None => st + "_std"@,
                    },
                },
            ),
        },
{
    let stem = stem_or_error(source_path)?;
    let std_source = match std_source_optional {
        Some(s) => s.clone(),
        None => match extension(source_path) {
            Some(ext) => {
                let base = joined(stem.as_str(), "_std.");
                joined(base.as_str(), ext.as_str())
            },
            None => joined(stem.as_str(), "_std"),
        },
    };
    Ok(join(cwd, std_source.as_str()))
}

/// Where the inputs and outputs of failed jobs of a source are written:
/// `tests_info/<stem>` beside the source.
pub fn build_test_info_directory(cwd: &str, source: &str) -> (r: Result<String, CLIError>)
    ensures
        match stem_of(join_of(cwd@, source@)) {
            None => r matches Err(CLIError::InvalidArgument(_)),
            Some(st) => r matches Ok(p) && p@ == join_of(
                join_of(dir_of(join_of(cwd@, source@)), "tests_info"@),
                st,
            ),
        },
{
    let source_path = join(cwd, source);
    let stem = stem_or_error(source_path.as_str())?;
    let d = dir(source_path.as_str());
    let info = join(d.as_str(), "tests_info");
    Ok(join(info.as_str(), stem.as_str()))
}

} // verus!
