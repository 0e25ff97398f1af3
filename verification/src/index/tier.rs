//! How much an indexing run extracts.

use vstd::prelude::*;
use crate::text::{lowercase, same_text, to_lowercase};

verus! {

/// Controls which edges are extracted.
#[derive(Clone, Copy, Debug, PartialEq, Eq, Structural)]
pub enum IndexingTier {
    /// Functions, classes, imports only. Fastest.
    Fast,
    /// Call edges too.
    Balanced,
    /// Macro calls too. Slowest but most complete.
    Full,
}

impl IndexingTier {
    /// The spelling of a tier.
    pub open spec fn spelling(self) -> Seq<char> {
        match self {
            IndexingTier::Fast => "fast"@,
            IndexingTier::Balanced => "balanced"@,
            IndexingTier::Full => "full"@,
        }
    }

    /// The spelling that a command line accepts.
    pub fn as_str(self) -> (r: &'static str)
        ensures
            r@ == self.spelling(),
    {
        match self {
            IndexingTier::Fast => "fast",
            IndexingTier::Balanced => "balanced",
            IndexingTier::Full => "full",
        }
    }

    /// The tier that a text in lower case spells.
    pub open spec fn spelled(s: Seq<char>) -> Option<IndexingTier> {
        if s == "fast"@ {
            Some(IndexingTier::Fast)
        } else if s == "balanced"@ {
            Some(IndexingTier::Balanced)
        } else if s == "full"@ {
            Some(IndexingTier::Full)
        } else {
            None
        }
    }

    /// Reads a spelling that is in lower case already.
    pub fn from_lowercase(s: &str) -> (r: Option<IndexingTier>)
        ensures
            r == Self::spelled(s@),
    {
        if same_text(s, "fast") {
            Some(IndexingTier::Fast)
        } else if same_text(s, "balanced") {
            Some(IndexingTier::Balanced)
        } else if same_text(s, "full") {
            Some(IndexingTier::Full)
        } else {
            None
        }
    }

    /// Reads a spelling in any case; otherwise says what was expected.
    pub fn from_str(s: &str) -> (r: Result<IndexingTier, String>)
        ensures
            match r {
                Ok(tier) => Self::spelled(lowercase(s@)) == Some(tier),
                Err(message) => Self::spelled(lowercase(s@)) is None && message@ == "unknown indexing tier: "@ + s@
                    + " (expected fast|balanced|full)"@,
            },
    {
        let lower = to_lowercase(s);
        match Self::from_lowercase(lower.as_str()) {
            Some(tier) => Ok(tier),
            None => {
                let mut message = "unknown indexing tier: ".to_owned();
                message.append(s);
                message.append(" (expected fast|balanced|full)");
                Err(message)
            },
        }
    }

    /// A tier reads back from its own spelling.
    pub proof fn a_tier_reads_back(self)
        ensures
            Self::spelled(self.spelling()) == Some(self),
    {
        reveal_strlit("fast");
        reveal_strlit("balanced");
        reveal_strlit("full");
        assert("fast"@[1] == 'a' && "full"@[1] == 'u');
        assert("balanced"@.len() == 8 && "fast"@.len() == 4 && "full"@.len() == 4);
        assert("fast"@ != "full"@ && "fast"@ != "balanced"@ && "full"@ != "balanced"@);
        match self {
            IndexingTier::Fast => {},
            IndexingTier::Balanced => {},
            IndexingTier::Full => {},
        }
    }
}

} // verus!
