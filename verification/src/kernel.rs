//! The kernel as a whole: what it knows of the machine, and which file a
//! new process loads.
use vstd::prelude::*;
use vstd::string::*;

verus! {

/// What the kernel knows of the machine from the start.
#[derive(Default, Copy, Clone, Debug, PartialEq, Eq, Structural)]
pub struct StaticInfo {
    /// Number of logical processors that applications see.
    pub ApplicationCores: u32,
    pub useHostCores: bool,
    /// The processor number that applications are told.
    pub cpu: i32,
}

/// Why no file can be named for a new process.
#[derive(Debug, Copy, Clone, PartialEq, Eq, Structural)]
pub enum ProcessError {
    /// Neither a file name nor a command was given.
    NoCommand,
    /// The command that is to name the file is no absolute path.
    NotAbsolute,
}

/// The path begins at the root.
pub open spec fn is_abs(path: Seq<char>) -> bool {
    path.len() > 0 && path[0] == '/'
}

/// The file that a new process loads: the file name that was given, or
/// without one the command, which must be an absolute path.
pub open spec fn process_filename(filename: Seq<char>, argv: Seq<String>) -> Result<
    Seq<char>,
    ProcessError,
> {
    if filename.len() > 0 {
        Ok(filename)
    } else if argv.len() == 0 {
        Err(ProcessError::NoCommand)
    } else if !is_abs(argv[0]@) {
        Err(ProcessError::NotAbsolute)
    } else {
        Ok(argv[0]@)
    }
}

/// Whether the path begins at the root.
pub fn IsAbs(path: &str) -> (r: bool)
    ensures
        r == is_abs(path@),
{
    !path.is_empty() && path.get_char(0) == '/'
}

/// The name of the file that a new process loads: see `process_filename`.
pub fn ProcessFilename(filename: &str, argv: &Vec<String>) -> (r: Result<String, ProcessError>)
    ensures
        match process_filename(filename@, argv@) {
            Ok(name) => r.is_ok() && r.unwrap()@ == name,
            Err(e) => r == Err::<String, ProcessError>(e),
        },
{
    if !filename.is_empty() {
        return Ok(filename.to_owned());
    }
    if argv.len() == 0 {
        return Err(ProcessError::NoCommand);
    }
    if !IsAbs(argv[0].as_str()) {
        return Err(ProcessError::NotAbsolute);
    }
    Ok(argv[0].clone())
}

} // verus!
