use vstd::prelude::*;

verus! {

/// The command-line surface: an optional path to the video folder (the
/// user is prompted when it is absent), a switch that limits the scan to
/// the top level of the folder, and a switch that disables the retrieval
/// responder for the session. The argument parsing itself lives outside
/// the library; it hands the values over in this shape.
pub struct Cli {
    /// Optional path to the video folder.
    pub folder: Option<String>,
    /// Disables recursive scanning of the video folder.
    pub non_recursive: bool,
    /// Disables the streaming responder.
    pub no_streaming: bool,
}

/// The initial scan root: the folder named on the command line when there
/// is one, else the environment's default when there is one, else none,
/// and the user will be prompted.
pub fn choose_root(flag: Option<String>, env_default: Option<String>) -> (r: Option<String>)
    ensures
        flag is Some ==> r == flag,
        flag is None ==> r == env_default,
{
    match flag {
        Some(f) => Some(f),
        None => env_default,
    }
}

} // verus!
