//! The profiles that ship with the filesystem, as TOML text.
use vstd::prelude::*;

use crate::text::str_eq;

verus! {

/// MiSTer FPGA: core folder names under `games/`.
pub const MISTER: &'static str = "[profile]\nname = \"mister\"\nprefix = \"games\"\n\n[platforms]\n\"nes\" = \"NES\"\n\"snes\" = \"SNES\"\n\"genesis\" = \"Genesis\"\n\"game-boy\" = \"GAMEBOY\"\n\"gba\" = \"GBA\"\n\"playstation\" = \"PSX\"\n";

/// RetroArch: lower-case content folders at the top level.
pub const RETROARCH: &'static str = "[profile]\nname = \"retroarch\"\n\n[platforms]\n\"nes\" = \"nes\"\n\"snes\" = \"snes\"\n\"genesis\" = \"genesis\"\n\"game-boy\" = \"gb\"\n\"gba\" = \"gba\"\n\"playstation\" = \"psx\"\n";

/// EmulationStation: ES-style short system names at the top level.
pub const EMULATIONSTATION: &'static str = "[profile]\nname = \"emulationstation\"\n\n[platforms]\n\"nes\" = \"nes\"\n\"snes\" = \"snes\"\n\"genesis\" = \"genesis\"\n\"game-boy\" = \"gb\"\n\"gba\" = \"gba\"\n\"playstation\" = \"psx\"\n";

/// The text of the built-in profile called `name`, if there is one.
pub open spec fn builtin_text(name: Seq<char>) -> Option<Seq<char>> {
    if name == "mister"@ {
        Some(MISTER@)
    } else if name == "retroarch"@ {
        Some(RETROARCH@)
    } else if name == "emulationstation"@ {
        Some(EMULATIONSTATION@)
    } else {
        None
    }
}

/// Why a profile could not be had.
pub enum ProfileError {
    /// No built-in profile has this name.
    UnknownBuiltin(String),
}

impl ProfileError {
    /// The message the error is reported with.
    pub fn message(&self) -> (m: String)
        ensures
            match self {
                ProfileError::UnknownBuiltin(name) => m@ == "unknown built-in profile: "@ + name@,
            },
    {
        match self {
            ProfileError::UnknownBuiltin(name) => {
                let mut m = "unknown built-in profile: ".to_owned();
                crate::text::push_str(&mut m, name.as_str());
                m
            },
        }
    }
}

/// The TOML text of the built-in profile `name`: `mister`, `retroarch` or
/// `emulationstation`; any other name is an error that carries it.
pub fn get_builtin(name: &str) -> (r: Result<&'static str, ProfileError>)
    ensures
        match r {
            Ok(text) => builtin_text(name@) == Some(text@),
            Err(ProfileError::UnknownBuiltin(n)) => builtin_text(name@) is None && n@ == name@,
        },
{
    if str_eq(name, "mister") {
        Ok(MISTER)
    } else if str_eq(name, "retroarch") {
        Ok(RETROARCH)
    } else if str_eq(name, "emulationstation") {
        Ok(EMULATIONSTATION)
    } else {
        Err(ProfileError::UnknownBuiltin(name.to_owned()))
    }
}

} // verus!
