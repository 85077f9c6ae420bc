//! Command-line settings of the tool, as plain values.
use vstd::prelude::*;

verus! {

/// Whether this process offers a file or receives one.
#[derive(Debug, Clone, Copy, PartialEq, Eq, Structural)]
pub enum Mode {
    Share,
    Save,
}

/// The settings of one run.
pub struct Cli {
    /// Port to listen on (0: any).
    pub port: u16,
    /// Compression level, 1 to 9.
    pub level: u32,
    pub mode: Mode,
    /// Identifier of the peer to send to; share mode needs it.
    pub id: Option<String>,
    /// File to share or folder to save to.
    pub path: String,
}

/// Why settings were refused.
#[derive(Debug, Clone, Copy, PartialEq, Eq, Structural)]
pub enum CliError {
    LevelOutOfRange,
    MissingId,
}

impl Cli {
    /// Checks the settings: a level from 1 to 9, and a peer identifier in
    /// share mode.
    pub fn validate(&self) -> (r: Result<(), CliError>)
        ensures
            r is Ok <==> 1 <= self.level <= 9 && (self.mode == Mode::Share ==> self.id is Some),
            r == Err::<(), CliError>(CliError::LevelOutOfRange) <==> !(1 <= self.level <= 9),
    {
        if self.level < 1 || self.level > 9 {
            return Err(CliError::LevelOutOfRange);
        }
        match self.mode {
            Mode::Share => {
                if self.id.is_none() {
                    return Err(CliError::MissingId);
                }
            },
            Mode::Save => {},
        }
        Ok(())
    }
}

} // verus!
