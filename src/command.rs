use vstd::prelude::*;

verus! {

/// The administrative commands of the voting server's shell.
#[derive(Clone, Debug)]
pub enum Command {
    /// Serve ballot submission, retrieval and tally export.
    StartServer,
    /// Check the ballot stored hex-encoded in `filename` against election `id`.
    Validate { id: u32, filename: String },
    /// Create the tables of the reference-data store.
    CreateRefDatabase,
    /// Download the commitment and nullifier collections for a template.
    DownloadRefData { template_filename: String, lwd_url: String },
    /// Write the finalized election definition for a template.
    CreateElection { template_filename: String, election_filename: String },
}

impl Command {
    /// Whether the command works on the reference-data store.
    pub fn uses_reference_data(&self) -> (r: bool)
        ensures
            r == (self is CreateRefDatabase || self is DownloadRefData || self is CreateElection),
    {
        match self {
            Command::StartServer => false,
            Command::Validate { .. } => false,
            Command::CreateRefDatabase => true,
            Command::DownloadRefData { .. } => true,
            Command::CreateElection { .. } => true,
        }
    }
}

} // verus!
