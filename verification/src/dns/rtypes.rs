use vstd::prelude::*;
use vstd::string::StringSliceAdditionalSpecFns;

verus! {

/// A 16-bit record type: the codes this server knows by name, and every other
/// code kept as it came.
#[derive(Debug, PartialEq, Eq, Clone, Copy, Structural)]
#[allow(clippy::upper_case_acronyms)]
pub enum RType {
    CNAME,
    A,
    NS,
    OPT,
    AAAA,
    TXT,
    HTTPS,
    CAA,
    DS,
    Unknown(u16),
}

/// Whether the data of a record of some type is a bare address.
#[derive(Debug, PartialEq, Eq, Clone, Copy, Structural)]
pub enum ContainsIP {
    Yes,
    No,
}

impl ContainsIP {
    /// `Yes` for address records, `No` for every other type.
    pub fn from_class(c: RType) -> (r: Self)
        ensures
            r == (if c == RType::A {
                ContainsIP::Yes
            } else {
                ContainsIP::No
            }),
    {
        match c {
            RType::A => ContainsIP::Yes,
            _ => ContainsIP::No,
        }
    }
}

/// The record type that the code `field` stands for.
pub open spec fn spec_from_int(field: u16) -> RType {
    if field == 5 {
        RType::CNAME
    } else if field == 1 {
        RType::A
    } else if field == 2 {
        RType::NS
    } else if field == 41 {
        RType::OPT
    } else if field == 28 {
        RType::AAAA
    } else if field == 16 {
        RType::TXT
    } else if field == 65 {
        RType::HTTPS
    } else if field == 257 {
        RType::CAA
    } else if field == 43 {
        RType::DS
    } else {
        RType::Unknown(field)
    }
}

/// The code that stands for `rtype` on the wire.
pub open spec fn spec_to_int(rtype: RType) -> u16 {
    match rtype {
        RType::CNAME => 5,
        RType::A => 1,
        RType::NS => 2,
        RType::OPT => 41,
        RType::AAAA => 28,
        RType::TXT => 16,
        RType::HTTPS => 65,
        RType::CAA => 257,
        RType::DS => 43,
        RType::Unknown(x) => x,
    }
}

/// The record type that the code `field` stands for.
pub fn from_int(field: u16) -> (r: RType)
    ensures
        r == spec_from_int(field),
{
    match field {
        5 => RType::CNAME,
        1 => RType::A,
        2 => RType::NS,
        41 => RType::OPT,
        28 => RType::AAAA,
        16 => RType::TXT,
        65 => RType::HTTPS,
        257 => RType::CAA,
        43 => RType::DS,
        _ => RType::Unknown(field),
    }
}

/// The code that stands for `rtype` on the wire.
pub fn to_int(rtype: RType) -> (r: u16)
    ensures
        r == spec_to_int(rtype),
{
    match rtype {
        RType::CNAME => 5,
        RType::A => 1,
        RType::NS => 2,
        RType::OPT => 41,
        RType::AAAA => 28,
        RType::TXT => 16,
        RType::HTTPS => 65,
        RType::CAA => 257,
        RType::DS => 43,
        RType::Unknown(x) => x,
    }
}

/// Whether `rtype` is the type that its own code is read as. It is not for
/// an unknown type that holds a code with a name.
pub open spec fn reads_as_itself(rtype: RType) -> bool {
    spec_from_int(spec_to_int(rtype)) == rtype
}

/// Every code survives the way through a record type and back, so unknown
/// codes are written as they were read; and the type that a code is read as
/// is read as itself.
pub proof fn lemma_code_round_trip(field: u16)
    ensures
        spec_to_int(spec_from_int(field)) == field,
        reads_as_itself(spec_from_int(field)),
{
}

/// The record type that a word of zone text names, if it names one.
pub open spec fn spec_rtype_of_word(word: Seq<u8>) -> Option<RType> {
    if word == seq![67u8, 78u8, 65u8, 77u8, 69u8] {
        Some(RType::CNAME)
    } else if word == seq![65u8] {
        Some(RType::A)
    } else if word == seq![78u8, 83u8] {
        Some(RType::NS)
    } else if word == seq![79u8, 80u8, 84u8] {
        Some(RType::OPT)
    } else if word == seq![65u8, 65u8, 65u8, 65u8] {
        Some(RType::AAAA)
    } else if word == seq![84u8, 88u8, 84u8] {
        Some(RType::TXT)
    } else {
        None
    }
}

impl RType {
    /// Whether names inside the data of such a record may be written as
    /// pointers: only for `CNAME` and `NS`.
    pub open spec fn spec_supports_compression(&self) -> bool {
        *self == RType::CNAME || *self == RType::NS
    }

    /// Whether names inside the data of such a record may be written as
    /// pointers: only for `CNAME` and `NS`.
    #[verifier::when_used_as_spec(spec_supports_compression)]
    pub fn supports_compression(&self) -> (r: bool)
        ensures
            r == self.spec_supports_compression(),
    {
        match self {
            RType::CNAME => true,
            RType::NS => true,
            _ => false,
        }
    }

    /// Whether this type is the type that its own code is read as.
    pub fn is_canonical(&self) -> (r: bool)
        ensures
            r == reads_as_itself(*self),
    {
        match self {
            RType::Unknown(x) => match from_int(*x) {
                RType::Unknown(_) => true,
                _ => false,
            },
            _ => true,
        }
    }

    /// Whether the code of this type has no name here.
    pub fn is_unknown(&self) -> (r: bool)
        ensures
            r == (*self matches RType::Unknown(_)),
    {
        match self {
            RType::Unknown(_) => true,
            _ => false,
        }
    }

    /// The record type that the word `word` names in zone text: one of
    /// `CNAME`, `A`, `NS`, `OPT`, `AAAA`, `TXT`, in capitals.
    pub fn from_word(word: &[u8]) -> (r: Option<RType>)
        ensures
            r == spec_rtype_of_word(word@),
            r matches Some(t) ==> reads_as_itself(t),
    {
        let n: usize = word.len();
        if n == 1 && word[0] == 65 {
            assert(word@ =~= seq![65u8]);
            Some(RType::A)
        } else if n == 2 && word[0] == 78 && word[1] == 83 {
            assert(word@ =~= seq![78u8, 83u8]);
            Some(RType::NS)
        } else if n == 3 && word[0] == 79 && word[1] == 80 && word[2] == 84 {
            assert(word@ =~= seq![79u8, 80u8, 84u8]);
            Some(RType::OPT)
        } else if n == 3 && word[0] == 84 && word[1] == 88 && word[2] == 84 {
            assert(word@ =~= seq![84u8, 88u8, 84u8]);
            Some(RType::TXT)
        } else if n == 4 && word[0] == 65 && word[1] == 65 && word[2] == 65 && word[3] == 65 {
            assert(word@ =~= seq![65u8, 65u8, 65u8, 65u8]);
            Some(RType::AAAA)
        } else if n == 5 && word[0] == 67 && word[1] == 78 && word[2] == 65 && word[3] == 77
            && word[4] == 69 {
            assert(word@ =~= seq![67u8, 78u8, 65u8, 77u8, 69u8]);
            Some(RType::CNAME)
        } else {
            proof {
                let c = seq![67u8, 78u8, 65u8, 77u8, 69u8];
                let a = seq![65u8];
                let ns = seq![78u8, 83u8];
                let opt = seq![79u8, 80u8, 84u8];
                let aaaa = seq![65u8, 65u8, 65u8, 65u8];
                let txt = seq![84u8, 88u8, 84u8];
                if word@ == c {
                    assert(c[0] == 67 && c[1] == 78 && c[2] == 65 && c[3] == 77 && c[4] == 69);
                }
                if word@ == a {
                    assert(a[0] == 65);
                }
                if word@ == ns {
                    assert(ns[0] == 78 && ns[1] == 83);
                }
                if word@ == opt {
                    assert(opt[0] == 79 && opt[1] == 80 && opt[2] == 84);
                }
                if word@ == aaaa {
                    assert(aaaa[0] == 65 && aaaa[1] == 65 && aaaa[2] == 65 && aaaa[3] == 65);
                }
                if word@ == txt {
                    assert(txt[0] == 84 && txt[1] == 88 && txt[2] == 84);
                }
            }
            None
        }
    }

    /// The record type that `s` names in zone text.
    pub fn from_str(s: &str) -> (r: Result<RType, crate::errors::RecordParseError>)
        ensures
            r == (match spec_rtype_of_word(s.spec_bytes()) {
                Some(t) => Ok::<RType, crate::errors::RecordParseError>(t),
                None => Err(crate::errors::RecordParseError::InvalidType),
            }),
    {
        match RType::from_word(s.as_bytes()) {
            Some(t) => Ok(t),
            None => Err(crate::errors::RecordParseError::InvalidType),
        }
    }
}

} // verus!
