use vstd::prelude::*;

use crate::text::same_text;

verus! {

/// A fatal configuration problem: the build cannot go on without the value.
#[derive(Debug, Clone, PartialEq, Eq)]
pub enum ConfigError {
    /// The target architecture is none of the four that binaries exist for.
    UnknownArchitecture(String),
    /// The search path holds no `;`, so no build-artifact directory can be read from it.
    MissingPathSeparator(String),
}

/// The binary-directory name for a host architecture identifier, if it is one
/// of the recognised ones.
pub open spec fn arch_dir_spec(arch: Seq<char>) -> Option<Seq<char>> {
    if arch == "x86_64"@ {
        Some("x64"@)
    } else if arch == "x86"@ {
        Some("x86"@)
    } else if arch == "arm"@ {
        Some("arm"@)
    } else if arch == "aarch64"@ {
        Some("arm64"@)
    } else {
        None
    }
}

/// Maps a target architecture (`x86_64`, `x86`, `arm`, `aarch64`) to the name
/// of the directory that holds its binaries; any other value is an error that
/// names it.
pub fn target_arch_dir(arch: &str) -> (r: Result<String, ConfigError>)
    ensures
        match r {
            Ok(d) => arch_dir_spec(arch@) == Some(d@),
            Err(ConfigError::UnknownArchitecture(a)) => arch_dir_spec(arch@) is None && a@
                == arch@,
            Err(_) => false,
        },
{
    if same_text(arch, "x86_64") {
        Ok(String::from_str("x64"))
    } else if same_text(arch, "x86") {
        Ok(String::from_str("x86"))
    } else if same_text(arch, "arm") {
        Ok(String::from_str("arm"))
    } else if same_text(arch, "aarch64") {
        Ok(String::from_str("arm64"))
    } else {
        Err(ConfigError::UnknownArchitecture(arch.to_owned()))
    }
}

} // verus!
