//! Which projection to build, and how the walk treats its own position.
use vstd::prelude::*;
use vstd::string::StringSliceAdditionalSpecFns;

verus! {

/// A lazy walk may stay where it is in one step; a non-lazy walk must move.
#[derive(Clone, Copy, PartialEq, Eq, Structural, Debug)]
pub enum RandomWalk {
    Lazy,
    NonLazy,
}

/// The projection to build, with its kind of walk.
#[derive(Clone, Copy, PartialEq, Eq, Structural, Debug)]
pub enum Representation {
    Bipartite(RandomWalk),
    Unipartite(RandomWalk),
    Multilayer(RandomWalk),
    HyperEdgeSimilarity(RandomWalk),
}

/// Why a command-line flag names no projection.
#[derive(Clone, Copy, PartialEq, Eq, Structural, Debug)]
pub enum FlagError {
    /// The argument does not start with `-`.
    InvalidArgument,
    /// The argument starts with `-` but names no projection.
    NoSuchRepresentation,
}

impl FlagError {
    /// The error as a sentence for the user.
    pub fn message(&self) -> (r: &'static str)
        ensures
            r@ == (if *self == FlagError::InvalidArgument {
                "Invalid argument"@
            } else {
                "No such representation"@
            }),
    {
        match self {
            FlagError::InvalidArgument => "Invalid argument",
            FlagError::NoSuchRepresentation => "No such representation",
        }
    }
}

/// The projection a flag names: `-b`/`-B` bipartite, `-u`/`-U` unipartite,
/// `-m`/`-M` multilayer, `-s`/`-S` hyperedge similarity; lower case for a lazy walk,
/// upper case for a non-lazy one.
pub open spec fn flag_meaning(b: Seq<u8>) -> Result<Representation, FlagError> {
    if b.len() == 0 || b[0] != 45 {
        Err(FlagError::InvalidArgument)
    } else if b.len() != 2 {
        Err(FlagError::NoSuchRepresentation)
    } else if b[1] == 98 {
        Ok(Representation::Bipartite(RandomWalk::Lazy))
    } else if b[1] == 66 {
        Ok(Representation::Bipartite(RandomWalk::NonLazy))
    } else if b[1] == 117 {
        Ok(Representation::Unipartite(RandomWalk::Lazy))
    } else if b[1] == 85 {
        Ok(Representation::Unipartite(RandomWalk::NonLazy))
    } else if b[1] == 109 {
        Ok(Representation::Multilayer(RandomWalk::Lazy))
    } else if b[1] == 77 {
        Ok(Representation::Multilayer(RandomWalk::NonLazy))
    } else if b[1] == 115 {
        Ok(Representation::HyperEdgeSimilarity(RandomWalk::Lazy))
    } else if b[1] == 83 {
        Ok(Representation::HyperEdgeSimilarity(RandomWalk::NonLazy))
    } else {
        Err(FlagError::NoSuchRepresentation)
    }
}

impl RandomWalk {
    /// `"lazy"` or `"non-lazy"`.
    pub fn to_string(&self) -> (r: String)
        ensures
            r@ == (if *self == RandomWalk::Lazy {
                "lazy"@
            } else {
                "non-lazy"@
            }),
    {
        match self {
            RandomWalk::Lazy => "lazy".to_owned(),
            RandomWalk::NonLazy => "non-lazy".to_owned(),
        }
    }
}

impl Representation {
    /// The projection that the command-line flag `s` names.
    pub fn from_flag(s: &str) -> (r: Result<Representation, FlagError>)
        ensures
            r == flag_meaning(s.spec_bytes()),
    {
        let b = s.as_bytes();
        if b.len() == 0 || b[0] != 45 {
            return Err(FlagError::InvalidArgument);
        }
        if b.len() != 2 {
            return Err(FlagError::NoSuchRepresentation);
        }
        let c = b[1];
        if c == 98 {
            Ok(Representation::Bipartite(RandomWalk::Lazy))
        } else if c == 66 {
            Ok(Representation::Bipartite(RandomWalk::NonLazy))
        } else if c == 117 {
            Ok(Representation::Unipartite(RandomWalk::Lazy))
        } else if c == 85 {
            Ok(Representation::Unipartite(RandomWalk::NonLazy))
        } else if c == 109 {
            Ok(Representation::Multilayer(RandomWalk::Lazy))
        } else if c == 77 {
            Ok(Representation::Multilayer(RandomWalk::NonLazy))
        } else if c == 115 {
            Ok(Representation::HyperEdgeSimilarity(RandomWalk::Lazy))
        } else if c == 83 {
            Ok(Representation::HyperEdgeSimilarity(RandomWalk::NonLazy))
        } else {
            Err(FlagError::NoSuchRepresentation)
        }
    }
}

/// What one run needs: the text of the input file, the projection, the output path.
#[derive(Clone, Debug, PartialEq, Eq)]
pub struct Config {
    pub file: String,
    pub representation: Representation,
    pub outfile: String,
}

} // verus!
