use vstd::prelude::*;

use crate::error::DnsError;

verus! {

/// The operation a query requests (header bits 3 to 6 of byte 2).
#[derive(Clone, Copy, Debug, PartialEq, Eq, Structural)]
pub enum OpCode {
    Query,
    IQuery,
    Status,
    /// Any other value, kept as it came.
    Reserved(u8),
}

impl OpCode {
    pub open spec fn spec_from_u8(v: u8) -> OpCode {
        if v == 0 {
            OpCode::Query
        } else if v == 1 {
            OpCode::IQuery
        } else if v == 2 {
            OpCode::Status
        } else {
            OpCode::Reserved(v)
        }
    }

    pub open spec fn spec_to_u8(self) -> u8 {
        match self {
            OpCode::Query => 0,
            OpCode::IQuery => 1,
            OpCode::Status => 2,
            OpCode::Reserved(v) => v,
        }
    }
}

impl Default for OpCode {
    fn default() -> (r: OpCode)
        ensures
            r == OpCode::Query,
    {
        OpCode::Query
    }
}

impl From<u8> for OpCode {
    fn from(value: u8) -> (r: OpCode) {
        match value {
            0 => OpCode::Query,
            1 => OpCode::IQuery,
            2 => OpCode::Status,
            other => OpCode::Reserved(other),
        }
    }
}

impl vstd::std_specs::convert::FromSpecImpl<u8> for OpCode {
    open spec fn obeys_from_spec() -> bool {
        true
    }

    open spec fn from_spec(v: u8) -> OpCode {
        OpCode::spec_from_u8(v)
    }
}

impl From<OpCode> for u8 {
    fn from(value: OpCode) -> (r: u8) {
        match value {
            OpCode::Query => 0,
            OpCode::IQuery => 1,
            OpCode::Status => 2,
            OpCode::Reserved(v) => v,
        }
    }
}

impl vstd::std_specs::convert::FromSpecImpl<OpCode> for u8 {
    open spec fn obeys_from_spec() -> bool {
        true
    }

    open spec fn from_spec(v: OpCode) -> u8 {
        v.spec_to_u8()
    }
}

/// The type of a resource record: the subset of codes this library supports.
#[allow(clippy::upper_case_acronyms)]
#[derive(Clone, Copy, Debug, PartialEq, Eq, Structural)]
pub enum RRType {
    A,
    NS,
    MD,
    MF,
    CNAME,
    SOA,
    MB,
    MG,
    MR,
    NULL,
    WKS,
    PTR,
    HINFO,
    MINFO,
    MX,
    TXT,
}

impl RRType {
    /// The wire code of the type.
    pub open spec fn spec_code(self) -> u16 {
        match self {
            RRType::A => 1,
            RRType::NS => 2,
            RRType::MD => 3,
            RRType::MF => 4,
            RRType::CNAME => 5,
            RRType::SOA => 6,
            RRType::MB => 7,
            RRType::MG => 8,
            RRType::MR => 9,
            RRType::NULL => 10,
            RRType::WKS => 11,
            RRType::PTR => 12,
            RRType::HINFO => 13,
            RRType::MINFO => 14,
            RRType::MX => 15,
            RRType::TXT => 16,
        }
    }

    /// The type with the given wire code, if it is supported.
    pub open spec fn spec_from_code(v: u16) -> Option<RRType> {
        if v == 1 {
            Some(RRType::A)
        } else if v == 2 {
            Some(RRType::NS)
        } else if v == 3 {
            Some(RRType::MD)
        } else if v == 4 {
            Some(RRType::MF)
        } else if v == 5 {
            Some(RRType::CNAME)
        } else if v == 6 {
            Some(RRType::SOA)
        } else if v == 7 {
            Some(RRType::MB)
        } else if v == 8 {
            Some(RRType::MG)
        } else if v == 9 {
            Some(RRType::MR)
        } else if v == 10 {
            Some(RRType::NULL)
        } else if v == 11 {
            Some(RRType::WKS)
        } else if v == 12 {
            Some(RRType::PTR)
        } else if v == 13 {
            Some(RRType::HINFO)
        } else if v == 14 {
            Some(RRType::MINFO)
        } else if v == 15 {
            Some(RRType::MX)
        } else if v == 16 {
            Some(RRType::TXT)
        } else {
            None
        }
    }
}

impl TryFrom<u16> for RRType {
    type Error = DnsError;

    fn try_from(value: u16) -> (r: Result<RRType, DnsError>) {
        match value {
            1 => Ok(RRType::A),
            2 => Ok(RRType::NS),
            3 => Ok(RRType::MD),
            4 => Ok(RRType::MF),
            5 => Ok(RRType::CNAME),
            6 => Ok(RRType::SOA),
            7 => Ok(RRType::MB),
            8 => Ok(RRType::MG),
            9 => Ok(RRType::MR),
            10 => Ok(RRType::NULL),
            11 => Ok(RRType::WKS),
            12 => Ok(RRType::PTR),
            13 => Ok(RRType::HINFO),
            14 => Ok(RRType::MINFO),
            15 => Ok(RRType::MX),
            16 => Ok(RRType::TXT),
            other => Err(DnsError::InvalidType(other)),
        }
    }
}

impl vstd::std_specs::convert::TryFromSpecImpl<u16> for RRType {
    open spec fn obeys_try_from_spec() -> bool {
        true
    }

    open spec fn try_from_spec(v: u16) -> Result<RRType, DnsError> {
        match RRType::spec_from_code(v) {
            Some(t) => Ok(t),
            None => Err(DnsError::InvalidType(v)),
        }
    }
}

impl From<RRType> for u16 {
    fn from(value: RRType) -> (r: u16) {
        match value {
            RRType::A => 1,
            RRType::NS => 2,
            RRType::MD => 3,
            RRType::MF => 4,
            RRType::CNAME => 5,
            RRType::SOA => 6,
            RRType::MB => 7,
            RRType::MG => 8,
            RRType::MR => 9,
            RRType::NULL => 10,
            RRType::WKS => 11,
            RRType::PTR => 12,
            RRType::HINFO => 13,
            RRType::MINFO => 14,
            RRType::MX => 15,
            RRType::TXT => 16,
        }
    }
}

impl vstd::std_specs::convert::FromSpecImpl<RRType> for u16 {
    open spec fn obeys_from_spec() -> bool {
        true
    }

    open spec fn from_spec(v: RRType) -> u16 {
        v.spec_code()
    }
}

/// The type asked for by a question: a record type, or one of the meta-types.
#[allow(clippy::upper_case_acronyms)]
#[derive(Clone, Copy, Debug, PartialEq, Eq, Structural)]
pub enum QType {
    RRType(RRType),
    AXFR,
    MAILB,
    MAILA,
    ANY,
}

impl QType {
    /// The wire code of the query type.
    pub open spec fn spec_code(self) -> u16 {
        match self {
            QType::RRType(t) => t.spec_code(),
            QType::AXFR => 252,
            QType::MAILB => 253,
            QType::MAILA => 254,
            QType::ANY => 255,
        }
    }

    /// The query type with the given wire code: the meta-types are tried first.
    pub open spec fn spec_from_code(v: u16) -> Option<QType> {
        if v == 252 {
            Some(QType::AXFR)
        } else if v == 253 {
            Some(QType::MAILB)
        } else if v == 254 {
            Some(QType::MAILA)
        } else if v == 255 {
            Some(QType::ANY)
        } else {
            match RRType::spec_from_code(v) {
                Some(t) => Some(QType::RRType(t)),
                None => None,
            }
        }
    }
}

impl TryFrom<u16> for QType {
    type Error = DnsError;

    fn try_from(value: u16) -> (r: Result<QType, DnsError>) {
        match value {
            252 => Ok(QType::AXFR),
            253 => Ok(QType::MAILB),
            254 => Ok(QType::MAILA),
            255 => Ok(QType::ANY),
            other => match RRType::try_from(value) {
                Ok(t) => Ok(QType::RRType(t)),
                Err(_) => Err(DnsError::InvalidType(other)),
            },
        }
    }
}

impl vstd::std_specs::convert::TryFromSpecImpl<u16> for QType {
    open spec fn obeys_try_from_spec() -> bool {
        true
    }

    open spec fn try_from_spec(v: u16) -> Result<QType, DnsError> {
        match QType::spec_from_code(v) {
            Some(t) => Ok(t),
            None => Err(DnsError::InvalidType(v)),
        }
    }
}

impl From<QType> for u16 {
    fn from(value: QType) -> (r: u16) {
        match value {
            QType::RRType(t) => t.into(),
            QType::AXFR => 252,
            QType::MAILB => 253,
            QType::MAILA => 254,
            QType::ANY => 255,
        }
    }
}

impl vstd::std_specs::convert::FromSpecImpl<QType> for u16 {
    open spec fn obeys_from_spec() -> bool {
        true
    }

    open spec fn from_spec(v: QType) -> u16 {
        v.spec_code()
    }
}

/// The class of a resource record.
#[allow(clippy::upper_case_acronyms)]
#[derive(Clone, Copy, Debug, PartialEq, Eq, Structural)]
pub enum RRClass {
    IN,
    CS,
    CH,
    HS,
}

impl RRClass {
    /// The wire code of the class.
    pub open spec fn spec_code(self) -> u16 {
        match self {
            RRClass::IN => 1,
            RRClass::CS => 2,
            RRClass::CH => 3,
            RRClass::HS => 4,
        }
    }

    /// The class with the given wire code, if it is supported.
    pub open spec fn spec_from_code(v: u16) -> Option<RRClass> {
        if v == 1 {
            Some(RRClass::IN)
        } else if v == 2 {
            Some(RRClass::CS)
        } else if v == 3 {
            Some(RRClass::CH)
        } else if v == 4 {
            Some(RRClass::HS)
        } else {
            None
        }
    }
}

impl From<RRClass> for u16 {
    fn from(value: RRClass) -> (r: u16) {
        match value {
            RRClass::IN => 1,
            RRClass::CS => 2,
            RRClass::CH => 3,
            RRClass::HS => 4,
        }
    }
}

impl vstd::std_specs::convert::FromSpecImpl<RRClass> for u16 {
    open spec fn obeys_from_spec() -> bool {
        true
    }

    open spec fn from_spec(v: RRClass) -> u16 {
        v.spec_code()
    }
}

impl TryFrom<u16> for RRClass {
    type Error = DnsError;

    fn try_from(value: u16) -> (r: Result<RRClass, DnsError>) {
        match value {
            1 => Ok(RRClass::IN),
            2 => Ok(RRClass::CS),
            3 => Ok(RRClass::CH),
            4 => Ok(RRClass::HS),
            other => Err(DnsError::InvalidClass(other)),
        }
    }
}

impl vstd::std_specs::convert::TryFromSpecImpl<u16> for RRClass {
    open spec fn obeys_try_from_spec() -> bool {
        true
    }

    open spec fn try_from_spec(v: u16) -> Result<RRClass, DnsError> {
        match RRClass::spec_from_code(v) {
            Some(c) => Ok(c),
            None => Err(DnsError::InvalidClass(v)),
        }
    }
}

/// The class asked for by a question: a record class, or the meta-class ANY.
#[allow(clippy::upper_case_acronyms)]
#[derive(Clone, Copy, Debug, PartialEq, Eq, Structural)]
pub enum QClass {
    RRClass(RRClass),
    ANY,
}

impl QClass {
    /// The wire code of the query class.
    pub open spec fn spec_code(self) -> u16 {
        match self {
            QClass::RRClass(c) => c.spec_code(),
            QClass::ANY => 255,
        }
    }

    /// The query class with the given wire code: ANY is tried first.
    pub open spec fn spec_from_code(v: u16) -> Option<QClass> {
        if v == 255 {
            Some(QClass::ANY)
        } else {
            match RRClass::spec_from_code(v) {
                Some(c) => Some(QClass::RRClass(c)),
                None => None,
            }
        }
    }
}

impl TryFrom<u16> for QClass {
    type Error = DnsError;

    fn try_from(value: u16) -> (r: Result<QClass, DnsError>) {
        match value {
            255 => Ok(QClass::ANY),
            other => match RRClass::try_from(value) {
                Ok(c) => Ok(QClass::RRClass(c)),
                Err(_) => Err(DnsError::InvalidClass(other)),
            },
        }
    }
}

impl vstd::std_specs::convert::TryFromSpecImpl<u16> for QClass {
    open spec fn obeys_try_from_spec() -> bool {
        true
    }

    open spec fn try_from_spec(v: u16) -> Result<QClass, DnsError> {
        match QClass::spec_from_code(v) {
            Some(c) => Ok(c),
            None => Err(DnsError::InvalidClass(v)),
        }
    }
}

impl From<QClass> for u16 {
    fn from(value: QClass) -> (r: u16) {
        match value {
            QClass::ANY => 255,
            QClass::RRClass(c) => c.into(),
        }
    }
}

impl vstd::std_specs::convert::FromSpecImpl<QClass> for u16 {
    open spec fn obeys_from_spec() -> bool {
        true
    }

    open spec fn from_spec(v: QClass) -> u16 {
        v.spec_code()
    }
}

/// The outcome classification carried in a response's header.
#[derive(Clone, Copy, Debug, PartialEq, Eq, Structural)]
pub enum ResponseCode {
    NoError,
    FormatError,
    ServerFailure,
    NameError,
    NotImplemented,
    Refused,
    Reserved,
}

impl ResponseCode {
    /// The 4-bit wire value of the code.
    pub open spec fn spec_code(self) -> u8 {
        match self {
            ResponseCode::NoError => 0,
            ResponseCode::FormatError => 1,
            ResponseCode::ServerFailure => 2,
            ResponseCode::NameError => 3,
            ResponseCode::NotImplemented => 4,
            ResponseCode::Refused => 5,
            ResponseCode::Reserved => 6,
        }
    }
}

impl Default for ResponseCode {
    fn default() -> (r: ResponseCode)
        ensures
            r == ResponseCode::FormatError,
    {
        ResponseCode::FormatError
    }
}

impl From<ResponseCode> for u8 {
    fn from(value: ResponseCode) -> (r: u8) {
        match value {
            ResponseCode::NoError => 0,
            ResponseCode::FormatError => 1,
            ResponseCode::ServerFailure => 2,
            ResponseCode::NameError => 3,
            ResponseCode::NotImplemented => 4,
            ResponseCode::Refused => 5,
            ResponseCode::Reserved => 6,
        }
    }
}

impl vstd::std_specs::convert::FromSpecImpl<ResponseCode> for u8 {
    open spec fn obeys_from_spec() -> bool {
        true
    }

    open spec fn from_spec(v: ResponseCode) -> u8 {
        v.spec_code()
    }
}

/// Decoding a code that encoding produced gives the value back, for every
/// query type, query class and opcode.
pub proof fn lemma_codes_round_trip(t: QType, c: QClass, o: OpCode)
    ensures
        QType::spec_from_code(t.spec_code()) == Some(t),
        QClass::spec_from_code(c.spec_code()) == Some(c),
        RRType::spec_from_code(t->RRType_0.spec_code()) == Some(t->RRType_0) || !(t is RRType),
        RRClass::spec_from_code(c->RRClass_0.spec_code()) == Some(c->RRClass_0) || !(c is RRClass),
        OpCode::spec_from_u8(o.spec_to_u8()) == o || o is Reserved,
{
}

} // verus!
