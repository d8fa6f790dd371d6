//! Runtime configuration of the store and its surroundings.

use vstd::prelude::*;

verus! {

/// What the operator configures: the connection token, where chains are
/// persisted, the command prefix, and how history is filtered.
pub struct Config {
    pub discord_token: String,
    pub chain_storage_dir: String,
    pub prefix: String,
    pub generation: GenerationParams,
}

/// The history-filter parameters: the minimum token count a message needs,
/// and whether a lone mention tag is filtered out.
pub struct GenerationParams {
    pub min_words: usize,
    pub include_tag_only: bool,
}

impl Default for GenerationParams {
    /// One-token messages pass, lone mention tags are filtered.
    fn default() -> (r: Self)
        ensures
            r.min_words == 1,
            r.include_tag_only == true,
    {
        GenerationParams { min_words: 1, include_tag_only: true }
    }
}

/// The default operator-command prefix.
pub fn default_prefix() -> (r: String)
    ensures
        r@ == "|"@,
{
    proof {
        reveal_strlit("|");
    }
    let mut p: String = String::new();
    p.append("|");
    p
}

} // verus!
