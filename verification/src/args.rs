//! The options of a run.

use vstd::prelude::*;

verus! {

/// The options that a run reads.
#[derive(Debug)]
pub struct Args {
    /// The directory of the world.
    pub path: String,
    /// The side of a tile in blocks.
    pub tile_size: i32,
    /// Fill the underground with stone.
    pub fillground: bool,
    /// Where to keep the record of the tiles that are done.
    pub resume_file: Option<String>,
    /// Generate the one tile described in `tile_file`.
    pub worker: bool,
    /// The file that describes the tile of a worker.
    pub tile_file: Option<String>,
}

/// What kind of run the options ask for.
#[derive(Debug)]
pub enum RunMode {
    /// All tiles of the area.
    Full,
    /// The one tile described in a file.
    Worker { tile_file: String },
}

impl Args {
    /// The kind of run. A worker needs a tile file; without `worker`, a tile
    /// file is ignored.
    pub fn run_mode(&self) -> (r: Result<RunMode, String>)
        ensures
            r is Err <==> self.worker && self.tile_file is None,
            r matches Err(message) ==> message@ == "--worker requires --tile-file"@,
            !self.worker ==> r == Ok::<RunMode, String>(RunMode::Full),
            self.worker ==> (self.tile_file matches Some(file) ==> r == Ok::<RunMode, String>(
                RunMode::Worker { tile_file: file },
            )),
    {
        if !self.worker {
            return Ok(RunMode::Full);
        }
        match &self.tile_file {
            Some(file) => Ok(RunMode::Worker { tile_file: file.clone() }),
            None => Err("--worker requires --tile-file".to_owned()),
        }
    }

    /// The directory of the region files.
    pub fn region_dir(&self) -> (r: String)
        ensures
            r@ == self.path@ + "/region"@,
    {
        let mut dir: String = self.path.clone();
        dir.append("/region");
        dir
    }
}

/// The message for a tile file that cannot be read.
pub fn tile_file_unreadable(reason: &str) -> (r: String)
    ensures
        r@ == "Failed to read tile file: "@ + reason@,
{
    let mut message: String = "Failed to read tile file: ".to_owned();
    message.append(reason);
    message
}

/// The message for a tile file that describes no tile.
pub fn tile_file_invalid(reason: &str) -> (r: String)
    ensures
        r@ == "Failed to parse tile file: "@ + reason@,
{
    let mut message: String = "Failed to parse tile file: ".to_owned();
    message.append(reason);
    message
}

} // verus!
