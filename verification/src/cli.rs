//! The command line: which mode the program runs in.

use vstd::prelude::*;

verus! {

/// What the program was asked to do.
pub enum Command {
    Run,
    Install,
    Uninstall,
    Diagnose,
    Help,
    Version,
    Invalid(String),
}

/// The command for the first argument: none runs the tray; the known flags
/// select their mode; anything else is reported back as invalid.
pub fn command(argument: Option<&str>) -> (r: Command)
    ensures
        match argument {
            None => r is Run,
            Some(a) => if a@ == "--install"@ {
                r is Install
            } else if a@ == "--uninstall"@ {
                r is Uninstall
            } else if a@ == "--diagnose"@ {
                r is Diagnose
            } else if a@ == "-h"@ || a@ == "--help"@ {
                r is Help
            } else if a@ == "-V"@ || a@ == "--version"@ {
                r is Version
            } else {
                r matches Command::Invalid(s) && s@ == a@
            },
        },
{
    match argument {
        None => Command::Run,
        Some(a) => {
            let given = a.to_owned();
            if given == String::from_str("--install") {
                Command::Install
            } else if given == String::from_str("--uninstall") {
                Command::Uninstall
            } else if given == String::from_str("--diagnose") {
                Command::Diagnose
            } else if given == String::from_str("-h") || given == String::from_str("--help") {
                Command::Help
            } else if given == String::from_str("-V") || given == String::from_str("--version") {
                Command::Version
            } else {
                Command::Invalid(given)
            }
        },
    }
}

} // verus!
