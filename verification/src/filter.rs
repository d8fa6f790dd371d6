//! The history filter: which raw messages are worth feeding to a model.
//!
//! A message is rejected when it has fewer tokens than the configured
//! minimum, and — when the tag filter is on — when it is a single token
//! that is solely a mention tag. Accepted messages are fed verbatim: no
//! normalization, case folding or stripping, so an entity's literal style
//! is preserved.

use vstd::prelude::*;

use crate::config::GenerationParams;
use crate::token::{tokenize, tokenize_str};

verus! {

/// Whether the text begins like a mention tag.
pub open spec fn is_tag_prefix(s: Seq<char>) -> bool {
    s.len() >= 3 && s[0] == '<' && s[1] == '@' && s[2] == '!'
}

/// The filter rule: enough tokens, and not a lone mention tag when those
/// are excluded.
pub open spec fn spec_accept(s: Seq<char>, min_words: nat, drop_lone_tags: bool) -> bool {
    let n = tokenize(s).len();
    n >= min_words && !(drop_lone_tags && n == 1 && is_tag_prefix(s))
}

/// Decides whether one historical message is fed to its author's chain.
pub fn accept(text: &str, params: &GenerationParams) -> (r: bool)
    ensures
        r == spec_accept(text@, params.min_words as nat, params.include_tag_only),
{
    let toks = tokenize_str(text);
    let n = toks.len();
    proof {
        assert(n == tokenize(text@).len());
    }
    let tag = if text.unicode_len() >= 3 {
        text.get_char(0) == '<' && text.get_char(1) == '@' && text.get_char(2) == '!'
    } else {
        false
    };
    proof {
        assert(tag == is_tag_prefix(text@));
    }
    n >= params.min_words && !(params.include_tag_only && n == 1 && tag)
}

} // verus!
