//! The project a file belongs to, as far as its answers depend on it.

use vstd::prelude::*;

use luaux::config::Config;

use crate::naming::Vocabulary;

verus! {

pub struct Project {
    /// The settings its files compile with.
    pub config: Config,
    /// What is wrong with its `luaux.toml`, if anything is.
    pub error: Option<String>,
    /// How it writes Roblox's names.
    pub vocabulary: Vocabulary,
}

impl Project {
    /// Whether the vocabulary is that of the settings.
    pub open spec fn wf(self) -> bool {
        self.vocabulary.of(self.config)
    }

    pub fn new(config: Config, error: Option<String>) -> (r: Self)
        ensures
            r.wf(),
            r.config == config,
            r.error == error,
    {
        let vocabulary = Vocabulary::new(&config);
        Project { config, error, vocabulary }
    }
}

} // verus!
