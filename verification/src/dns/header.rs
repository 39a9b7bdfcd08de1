use vstd::prelude::*;
use crate::dns::wire::{be16, lemma_be16_round_trip, read_u16, spec_read_u16, write_u16};
use crate::errors::WireError;

verus! {

/// The largest message that a datagram carries untruncated.
pub const TRUNCATE_BYTES: u16 = 512;

/// The response code of a message.
#[derive(PartialEq, Eq, Clone, Copy, Debug, Structural)]
pub enum Rcode {
    NoError,
    FormatError,
    ServerFailure,
    NxDomain,
    NotImplemented,
    Refused,
    YXDomain,
    YXRRSet,
    NotAuth,
    NotZone,
}

impl Rcode {
    /// The four bits that stand for the code.
    pub open spec fn spec_code(self) -> u8 {
        match self {
            Rcode::NoError => 0,
            Rcode::FormatError => 1,
            Rcode::ServerFailure => 2,
            Rcode::NxDomain => 3,
            Rcode::NotImplemented => 4,
            Rcode::Refused => 5,
            Rcode::YXDomain => 6,
            Rcode::YXRRSet => 7,
            Rcode::NotAuth => 8,
            Rcode::NotZone => 9,
        }
    }

    /// The code that four bits stand for; the values from 10 on stand for
    /// none.
    pub open spec fn spec_from_code(code: u8) -> Option<Rcode> {
        if code == 0 {
            Some(Rcode::NoError)
        } else if code == 1 {
            Some(Rcode::FormatError)
        } else if code == 2 {
            Some(Rcode::ServerFailure)
        } else if code == 3 {
            Some(Rcode::NxDomain)
        } else if code == 4 {
            Some(Rcode::NotImplemented)
        } else if code == 5 {
            Some(Rcode::Refused)
        } else if code == 6 {
            Some(Rcode::YXDomain)
        } else if code == 7 {
            Some(Rcode::YXRRSet)
        } else if code == 8 {
            Some(Rcode::NotAuth)
        } else if code == 9 {
            Some(Rcode::NotZone)
        } else {
            None
        }
    }

    /// The four bits that stand for the code.
    pub fn code(self) -> (r: u8)
        ensures
            r == self.spec_code(),
            r < 10,
    {
        match self {
            Rcode::NoError => 0,
            Rcode::FormatError => 1,
            Rcode::ServerFailure => 2,
            Rcode::NxDomain => 3,
            Rcode::NotImplemented => 4,
            Rcode::Refused => 5,
            Rcode::YXDomain => 6,
            Rcode::YXRRSet => 7,
            Rcode::NotAuth => 8,
            Rcode::NotZone => 9,
        }
    }

    /// The code that four bits stand for.
    pub fn from_code(code: u8) -> (r: Option<Rcode>)
        ensures
            r == Rcode::spec_from_code(code),
    {
        match code {
            0 => Some(Rcode::NoError),
            1 => Some(Rcode::FormatError),
            2 => Some(Rcode::ServerFailure),
            3 => Some(Rcode::NxDomain),
            4 => Some(Rcode::NotImplemented),
            5 => Some(Rcode::Refused),
            6 => Some(Rcode::YXDomain),
            7 => Some(Rcode::YXRRSet),
            8 => Some(Rcode::NotAuth),
            9 => Some(Rcode::NotZone),
            _ => None,
        }
    }
}

/// The length field that precedes a message on a stream; absent on
/// datagrams.
#[derive(Debug, PartialEq, Eq, Clone, Copy)]
pub struct TcpHeaderField(pub Option<u16>);

impl TcpHeaderField {
    /// The bytes that stand for the field: two for a stream, none otherwise.
    pub open spec fn wire(self) -> Seq<u8> {
        match self.0 {
            Some(len) => be16(len),
            None => Seq::empty(),
        }
    }

    /// Puts `value` in the field, if there is one.
    pub fn set(&mut self, value: u16)
        ensures
            final(self).0 == (if old(self).0 is Some {
                Some(value)
            } else {
                None
            }),
    {
        if self.0.is_some() {
            self.0 = Some(value);
        }
    }

    /// Whether the message travels on a stream.
    pub fn is_tcp(&self) -> (r: bool)
        ensures
            r == (self.0 is Some),
    {
        self.0.is_some()
    }

    /// Appends the field.
    pub fn write(&self, out: &mut Vec<u8>)
        ensures
            final(out)@ == old(out)@ + self.wire(),
    {
        match self.0 {
            Some(len) => {
                write_u16(out, len);
            },
            None => {
                assert(out@ =~= old(out)@ + self.wire());
            },
        }
    }

    /// Reads the field at the start of `input`, if the message travels on a
    /// stream. Gives the field and the position behind it.
    pub fn read(input: &[u8], is_tcp: bool) -> (r: Result<(TcpHeaderField, usize), WireError>)
        ensures
            r == (if !is_tcp {
                Ok::<(TcpHeaderField, usize), WireError>((TcpHeaderField(None), 0usize))
            } else {
                match spec_read_u16(input@, 0) {
                    Some(len) => Ok((TcpHeaderField(Some(len)), 2usize)),
                    None => Err(WireError::Malformed),
                }
            }),
    {
        if is_tcp {
            match read_u16(input, 0) {
                Some(len) => Ok((TcpHeaderField(Some(len)), 2)),
                None => Err(WireError::Malformed),
            }
        } else {
            Ok((TcpHeaderField(None), 0))
        }
    }
}

/// The fixed first part of every message.
#[derive(Debug, PartialEq, Eq, Clone, Copy)]
pub struct DNSHeader {
    pub tcp_header_field: TcpHeaderField,
    pub id: u16,
    pub qr: u8,
    pub opcode: u8,
    pub aa: u8,
    pub tc: u8,
    pub rd: u8,
    pub ra: u8,
    pub z: u8,
    pub rcode: Rcode,
    pub qdcount: u16,
    pub ancount: u16,
    pub nscount: u16,
    pub arcount: u16,
}

/// The byte that packs `qr`, `opcode`, `aa`, `tc` and `rd`.
pub open spec fn flags_high(h: DNSHeader) -> u8 {
    (h.qr * 128 + h.opcode * 8 + h.aa * 4 + h.tc * 2 + h.rd) as u8
}

/// The byte that packs `ra`, `z` and the response code.
pub open spec fn flags_low(h: DNSHeader) -> u8 {
    (h.ra * 128 + h.z * 16 + h.rcode.spec_code()) as u8
}

/// The bytes that stand for a header: the length field of a stream if there
/// is one, then twelve bytes.
pub open spec fn header_wire(h: DNSHeader) -> Seq<u8> {
    h.tcp_header_field.wire() + be16(h.id) + seq![flags_high(h), flags_low(h)] + be16(h.qdcount)
        + be16(h.ancount) + be16(h.nscount) + be16(h.arcount)
}

/// The header at the start of `data` and the position behind it. There is
/// none where the bytes end too early or the response code is none.
pub open spec fn spec_read_header(data: Seq<u8>, is_tcp: bool) -> Option<(DNSHeader, int)> {
    let base: int = if is_tcp {
        2
    } else {
        0
    };
    if data.len() < base + 12 {
        None
    } else {
        match Rcode::spec_from_code(data[base + 3] % 16) {
            None => None,
            Some(rcode) => Some(
                (
                    DNSHeader {
                        tcp_header_field: TcpHeaderField(
                            if is_tcp {
                                spec_read_u16(data, 0)
                            } else {
                                None
                            },
                        ),
                        id: spec_read_u16(data, base).unwrap(),
                        qr: data[base + 2] / 128,
                        opcode: (data[base + 2] / 8) % 16,
                        aa: (data[base + 2] / 4) % 2,
                        tc: (data[base + 2] / 2) % 2,
                        rd: data[base + 2] % 2,
                        ra: data[base + 3] / 128,
                        z: (data[base + 3] / 16) % 8,
                        rcode,
                        qdcount: spec_read_u16(data, base + 4).unwrap(),
                        ancount: spec_read_u16(data, base + 6).unwrap(),
                        nscount: spec_read_u16(data, base + 8).unwrap(),
                        arcount: spec_read_u16(data, base + 10).unwrap(),
                    },
                    base + 12,
                ),
            ),
        }
    }
}

/// The header of a response: an authoritative answer to a standard query,
/// with one question and the given numbers of records.
pub open spec fn spec_response_header(
    id: u16,
    answers: int,
    authorities: int,
    additionals: int,
    is_tcp: bool,
    truncated: bool,
    rcode: Rcode,
) -> DNSHeader {
    DNSHeader {
        tcp_header_field: TcpHeaderField(
            if is_tcp {
                Some(0u16)
            } else {
                None
            },
        ),
        id,
        qr: 1,
        opcode: 0,
        aa: 1,
        tc: if truncated {
            1
        } else {
            0
        },
        rd: 0,
        ra: 0,
        z: 0,
        rcode,
        qdcount: 1,
        ancount: answers as u16,
        nscount: authorities as u16,
        arcount: additionals as u16,
    }
}

/// The header of a response: an authoritative answer to a standard query,
/// with one question and the given numbers of records.
pub fn response_header(
    id: u16,
    answers: usize,
    authorities: usize,
    additionals: usize,
    is_tcp: bool,
    truncated: bool,
    rcode: Rcode,
) -> (r: DNSHeader)
    requires
        answers <= 0xFFFF,
        authorities <= 0xFFFF,
        additionals <= 0xFFFF,
    ensures
        r == spec_response_header(
            id,
            answers as int,
            authorities as int,
            additionals as int,
            is_tcp,
            truncated,
            rcode,
        ),
        r.wf(),
        r.ancount == answers,
        r.nscount == authorities,
        r.arcount == additionals,
{
    DNSHeader {
        tcp_header_field: if is_tcp {
            TcpHeaderField(Some(0))
        } else {
            TcpHeaderField(None)
        },
        id,
        qr: 1,
        opcode: 0,
        aa: 1,
        tc: if truncated {
            1
        } else {
            0
        },
        rd: 0,
        ra: 0,
        z: 0,
        rcode,
        qdcount: 1,
        ancount: answers as u16,
        nscount: authorities as u16,
        arcount: additionals as u16,
    }
}

impl DNSHeader {
    /// Whether every flag fits its bits.
    pub open spec fn wf(&self) -> bool {
        &&& self.qr < 2
        &&& self.opcode < 16
        &&& self.aa < 2
        &&& self.tc < 2
        &&& self.rd < 2
        &&& self.ra < 2
        &&& self.z < 8
    }

    /// Whether every flag fits its bits.
    pub fn is_valid(&self) -> (r: bool)
        ensures
            r == self.wf(),
    {
        self.qr < 2 && self.opcode < 16 && self.aa < 2 && self.tc < 2 && self.rd < 2 && self.ra < 2
            && self.z < 8
    }

    /// The header after the length of the whole message is known. On a
    /// stream the length goes into the length field. On a datagram a message
    /// of more than 512 bytes is marked as truncated.
    pub open spec fn spec_update(self, total_msg_len: u16) -> DNSHeader {
        if self.tcp_header_field.0 is Some {
            DNSHeader { tcp_header_field: TcpHeaderField(Some(total_msg_len)), ..self }
        } else if total_msg_len > TRUNCATE_BYTES && self.tc == 0 {
            DNSHeader { tc: 1, ..self }
        } else {
            self
        }
    }

    /// Brings the header up to date once the length of the whole message is
    /// known, and says whether anything changed hands: always on a stream,
    /// where the length field is set, and on a datagram when the message is
    /// newly marked as truncated.
    pub fn update_from_total_msg_len(&mut self, total_msg_len: u16) -> (updated: bool)
        ensures
            *final(self) == old(self).spec_update(total_msg_len),
            updated == (old(self).tcp_header_field.0 is Some || (total_msg_len > TRUNCATE_BYTES
                && old(self).tc == 0)),
            old(self).wf() ==> final(self).wf(),
    {
        let mut updated: bool = false;
        if total_msg_len > TRUNCATE_BYTES && self.tc == 0 && !self.tcp_header_field.is_tcp() {
            self.tc = 1;
            updated = true;
        }
        if self.tcp_header_field.is_tcp() {
            self.tcp_header_field.set(total_msg_len);
            updated = true;
        }
        updated
    }

    /// The number of bytes in front of the message proper: two on a stream.
    pub fn message_len_offset(&self) -> (r: usize)
        ensures
            r == (if self.tcp_header_field.0 is Some {
                2usize
            } else {
                0usize
            }),
            r == self.tcp_header_field.wire().len(),
    {
        if self.tcp_header_field.0.is_some() {
            2
        } else {
            0
        }
    }

    /// Appends the header.
    pub fn write(&self, out: &mut Vec<u8>)
        requires
            self.wf(),
        ensures
            final(out)@ == old(out)@ + header_wire(*self),
    {
        self.tcp_header_field.write(out);
        write_u16(out, self.id);
        let high: u8 = self.qr * 128 + self.opcode * 8 + self.aa * 4 + self.tc * 2 + self.rd;
        let low: u8 = self.ra * 128 + self.z * 16 + self.rcode.code();
        out.push(high);
        out.push(low);
        write_u16(out, self.qdcount);
        write_u16(out, self.ancount);
        write_u16(out, self.nscount);
        write_u16(out, self.arcount);
        assert(out@ =~= old(out)@ + header_wire(*self));
    }

    /// Reads the header at the start of `input`. Gives the header and the
    /// position behind it.
    pub fn read(input: &[u8], is_tcp: bool) -> (r: Result<(DNSHeader, usize), WireError>)
        ensures
            match spec_read_header(input@, is_tcp) {
                Some((h, next)) => r == Ok::<(DNSHeader, usize), WireError>((h, next as usize))
                    && h.wf() && next <= input@.len(),
                None => r == Err::<(DNSHeader, usize), WireError>(WireError::Malformed),
            },
    {
        let base: usize = if is_tcp {
            2
        } else {
            0
        };
        if input.len() < base + 12 {
            return Err(WireError::Malformed);
        }
        let high: u8 = input[base + 2];
        let low: u8 = input[base + 3];
        let rcode: Rcode = match Rcode::from_code(low % 16) {
            Some(c) => c,
            None => {
                return Err(WireError::Malformed);
            },
        };
        let field: TcpHeaderField = if is_tcp {
            TcpHeaderField(read_u16(input, 0))
        } else {
            TcpHeaderField(None)
        };
        let id: u16 = read_u16(input, base).unwrap();
        let qdcount: u16 = read_u16(input, base + 4).unwrap();
        let ancount: u16 = read_u16(input, base + 6).unwrap();
        let nscount: u16 = read_u16(input, base + 8).unwrap();
        let arcount: u16 = read_u16(input, base + 10).unwrap();
        Ok(
            (
                DNSHeader {
                    tcp_header_field: field,
                    id,
                    qr: high / 128,
                    opcode: (high / 8) % 16,
                    aa: (high / 4) % 2,
                    tc: (high / 2) % 2,
                    rd: high % 2,
                    ra: low / 128,
                    z: (low / 16) % 8,
                    rcode,
                    qdcount,
                    ancount,
                    nscount,
                    arcount,
                },
                base + 12,
            ),
        )
    }
}

/// A header takes twelve bytes, and two more on a stream.
pub proof fn lemma_header_wire_len(h: DNSHeader)
    ensures
        header_wire(h).len() == 12 + h.tcp_header_field.wire().len(),
        h.tcp_header_field.wire().len() == (if h.tcp_header_field.0 is Some {
            2int
        } else {
            0int
        }),
{
}

/// The byte that packs the first flags gives each of them back.
pub proof fn lemma_flags_high(h: DNSHeader)
    requires
        h.wf(),
    ensures
        flags_high(h) / 128 == h.qr,
        (flags_high(h) / 8) % 16 == h.opcode,
        (flags_high(h) / 4) % 2 == h.aa,
        (flags_high(h) / 2) % 2 == h.tc,
        flags_high(h) % 2 == h.rd,
{
    let b: int = h.qr * 128 + h.opcode * 8 + h.aa * 4 + h.tc * 2 + h.rd;
    assert(0 <= b < 256);
    assert(flags_high(h) == b);
}

/// The byte that packs the last flags and the response code gives each of
/// them back.
pub proof fn lemma_flags_low(h: DNSHeader)
    requires
        h.wf(),
    ensures
        flags_low(h) / 128 == h.ra,
        (flags_low(h) / 16) % 8 == h.z,
        Rcode::spec_from_code(flags_low(h) % 16) == Some(h.rcode),
{
    let c: int = h.rcode.spec_code() as int;
    assert(0 <= c < 10);
    let b: int = h.ra * 128 + h.z * 16 + c;
    assert(0 <= b < 256);
    assert(flags_low(h) == b);
    assert(b % 16 == c);
}

/// A header that is written and read again is the same header, whatever
/// follows it.
pub proof fn lemma_header_round_trip(h: DNSHeader, rest: Seq<u8>)
    requires
        h.wf(),
    ensures
        spec_read_header(header_wire(h) + rest, h.tcp_header_field.0 is Some) == Some(
            (h, header_wire(h).len() as int),
        ),
{
    let data = header_wire(h) + rest;
    let is_tcp = h.tcp_header_field.0 is Some;
    let base: int = if is_tcp {
        2
    } else {
        0
    };
    lemma_header_wire_len(h);
    lemma_flags_high(h);
    lemma_flags_low(h);
    lemma_be16_round_trip(h.id);
    lemma_be16_round_trip(h.qdcount);
    lemma_be16_round_trip(h.ancount);
    lemma_be16_round_trip(h.nscount);
    lemma_be16_round_trip(h.arcount);
    let w = header_wire(h);
    let front = h.tcp_header_field.wire();
    assert(w =~= front + (be16(h.id) + seq![flags_high(h), flags_low(h)] + be16(h.qdcount)
        + be16(h.ancount) + be16(h.nscount) + be16(h.arcount)));
    assert(data[base] == be16(h.id)[0] && data[base + 1] == be16(h.id)[1]);
    assert(data[base + 2] == flags_high(h));
    assert(data[base + 3] == flags_low(h));
    assert(data[base + 4] == be16(h.qdcount)[0] && data[base + 5] == be16(h.qdcount)[1]);
    assert(data[base + 6] == be16(h.ancount)[0] && data[base + 7] == be16(h.ancount)[1]);
    assert(data[base + 8] == be16(h.nscount)[0] && data[base + 9] == be16(h.nscount)[1]);
    assert(data[base + 10] == be16(h.arcount)[0] && data[base + 11] == be16(h.arcount)[1]);
    if is_tcp {
        let len = h.tcp_header_field.0.unwrap();
        lemma_be16_round_trip(len);
        assert(data[0] == be16(len)[0] && data[1] == be16(len)[1]);
    }
    let got = spec_read_header(data, is_tcp).unwrap().0;
    assert(got.tcp_header_field.0 == h.tcp_header_field.0);
    assert(got.id == h.id);
    assert(got.qr == h.qr && got.opcode == h.opcode && got.aa == h.aa && got.tc == h.tc);
    assert(got.rd == h.rd && got.ra == h.ra && got.z == h.z && got.rcode == h.rcode);
    assert(got.qdcount == h.qdcount && got.ancount == h.ancount);
    assert(got.nscount == h.nscount && got.arcount == h.arcount);
}

} // verus!
