//! The closed set of formats, with their names.

use crate::error::BytaryError;
use vstd::prelude::*;
use vstd::std_specs::convert::TryFromSpecImpl;
use vstd::string::StringExecFns;

verus! {

/// One of the supported encodings of binary data.
#[derive(Clone, Copy, Debug, PartialEq, Eq, PartialOrd, Ord, Hash, Structural)]
pub enum Format {
    Bytes,
    Bin,
    Hex,
    Oct,
    Base32,
    Base64,
}

/// How many formats there are.
pub const FORMAT_COUNT: usize = 6;

impl Format {
    /// The canonical lowercase name of the format.
    pub open spec fn name(self) -> Seq<char> {
        match self {
            Format::Bytes => "bytes"@,
            Format::Bin => "bin"@,
            Format::Hex => "hex"@,
            Format::Oct => "oct"@,
            Format::Base32 => "base32"@,
            Format::Base64 => "base64"@,
        }
    }

    /// The format that a name stands for, if it is a recognized name.
    pub open spec fn named(name: Seq<char>) -> Option<Format> {
        if name == "bytes"@ {
            Some(Format::Bytes)
        } else if name == "bin"@ {
            Some(Format::Bin)
        } else if name == "hex"@ {
            Some(Format::Hex)
        } else if name == "oct"@ {
            Some(Format::Oct)
        } else if name == "base32"@ {
            Some(Format::Base32)
        } else if name == "base64"@ {
            Some(Format::Base64)
        } else {
            None
        }
    }

    /// The position of the format in the declaration order.
    pub open spec fn rank(self) -> int {
        match self {
            Format::Bytes => 0,
            Format::Bin => 1,
            Format::Hex => 2,
            Format::Oct => 3,
            Format::Base32 => 4,
            Format::Base64 => 5,
        }
    }

    /// The format at a position of the declaration order.
    pub open spec fn ranked(rank: int) -> Format {
        if rank == 0 {
            Format::Bytes
        } else if rank == 1 {
            Format::Bin
        } else if rank == 2 {
            Format::Hex
        } else if rank == 3 {
            Format::Oct
        } else if rank == 4 {
            Format::Base32
        } else {
            Format::Base64
        }
    }

    /// Every format, once, in declaration order.
    pub open spec fn every() -> Seq<Format> {
        Seq::new(FORMAT_COUNT as nat, |rank: int| Format::ranked(rank))
    }

    /// The position of the format in the declaration order.
    pub fn ordinal(&self) -> (rank: usize)
        ensures
            rank == self.rank(),
            rank < FORMAT_COUNT,
    {
        match self {
            Format::Bytes => 0,
            Format::Bin => 1,
            Format::Hex => 2,
            Format::Oct => 3,
            Format::Base32 => 4,
            Format::Base64 => 5,
        }
    }

    /// The closed set of formats, for discovery.
    pub fn all() -> (formats: Vec<Format>)
        ensures
            formats@ == Format::every(),
    {
        let formats = vec![
            Format::Bytes,
            Format::Bin,
            Format::Hex,
            Format::Oct,
            Format::Base32,
            Format::Base64,
        ];
        assert(formats@ =~= Format::every());
        formats
    }

    /// The canonical name of the format, as text.
    pub fn to_string(&self) -> (text: String)
        ensures
            text@ == self.name(),
    {
        match self {
            Format::Bytes => String::from_str("bytes"),
            Format::Bin => String::from_str("bin"),
            Format::Hex => String::from_str("hex"),
            Format::Oct => String::from_str("oct"),
            Format::Base32 => String::from_str("base32"),
            Format::Base64 => String::from_str("base64"),
        }
    }

    /// Rank and format determine each other.
    pub proof fn lemma_rank_round_trip(self)
        ensures
            0 <= self.rank() < FORMAT_COUNT,
            Format::ranked(self.rank()) == self,
            Format::every()[self.rank()] == self,
    {
    }

    /// Parsing the name of a format gives that format back: no two formats
    /// share a name.
    pub proof fn lemma_name_round_trip(self)
        ensures
            Format::named(self.name()) == Some(self),
    {
        reveal_strlit("bytes");
        reveal_strlit("bin");
        reveal_strlit("hex");
        reveal_strlit("oct");
        reveal_strlit("base32");
        reveal_strlit("base64");
        assert("bytes"@.len() == 5);
        assert("bin"@.len() == 3);
        assert("hex"@.len() == 3);
        assert("oct"@.len() == 3);
        assert("base32"@.len() == 6);
        assert("base64"@.len() == 6);
        assert("bin"@[0] == 'b' && "hex"@[0] == 'h' && "oct"@[0] == 'o');
        assert("base32"@[4] == '3' && "base64"@[4] == '6');
    }

    /// A recognized name is the name of the format it stands for: printing
    /// what was parsed gives the text back.
    pub proof fn lemma_named_round_trip(name: Seq<char>)
        ensures
            Format::named(name) matches Some(format) ==> format.name() == name,
    {
    }
}

impl Default for Format {
    /// Raw bytes, the format that needs no conversion.
    fn default() -> (format: Format)
        ensures
            format == Format::Bytes,
    {
        Format::Bytes
    }
}

impl TryFromSpecImpl<&str> for Format {
    open spec fn obeys_try_from_spec() -> bool {
        false
    }

    open spec fn try_from_spec(name: &str) -> Result<Format, BytaryError> {
        arbitrary()
    }
}

impl TryFrom<&str> for Format {
    type Error = BytaryError;

    /// Parses a format name. A name that is not recognized is an error; no
    /// format stands in for it.
    fn try_from(name: &str) -> (r: Result<Format, BytaryError>)
        ensures
            match Format::named(name@) {
                Some(format) => r matches Ok(parsed) && parsed == format,
                None => r matches Err(BytaryError::InvalidFormat(text)) && text@ == name@,
            },
    {
        let text = name.to_owned();
        if text == String::from_str("bytes") {
            Ok(Format::Bytes)
        } else if text == String::from_str("bin") {
            Ok(Format::Bin)
        } else if text == String::from_str("hex") {
            Ok(Format::Hex)
        } else if text == String::from_str("oct") {
            Ok(Format::Oct)
        } else if text == String::from_str("base32") {
            Ok(Format::Base32)
        } else if text == String::from_str("base64") {
            Ok(Format::Base64)
        } else {
            Err(BytaryError::InvalidFormat(text))
        }
    }
}

} // verus!
