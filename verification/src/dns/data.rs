use vstd::prelude::*;
use crate::dns::compression::{Compressed, DictView};
use crate::dns::name::{labels_fit_wire, DNSName};
use crate::dns::name_laws::lemma_packed_len;
use crate::dns::name_wire::{
    decode_name, fits_rdata, name_wire, pointer_limit, spec_name_write,
};
use crate::dns::rtypes::RType;
use crate::dns::text::{concat_all, spec_strings_at, text_fits, text_wire, DNSText};
use crate::dns::wire::{append_bytes, be16, copy_range, read_u16, spec_read_u16};
use crate::errors::WireError;

verus! {

/// The data of a record: plain bytes, a name, or text.
#[derive(Debug, PartialEq, Eq)]
pub enum RData {
    Vec(Vec<u8>),
    Name(DNSName),
    Text(DNSText),
}

/// What the data of a record holds.
pub enum RDataView {
    Vec(Seq<u8>),
    Name(Seq<Seq<u8>>),
    Text(Seq<u8>),
}

impl View for RData {
    type V = RDataView;

    open spec fn view(&self) -> RDataView {
        match self {
            RData::Vec(v) => RDataView::Vec(v@),
            RData::Name(n) => RDataView::Name(n@),
            RData::Text(t) => RDataView::Text(t@),
        }
    }
}

impl RDataView {
    /// Whether the data can be written: a name has labels of 1 to 63 bytes,
    /// and what is written fits the 16-bit length in front of it.
    pub open spec fn wf(self) -> bool {
        match self {
            RDataView::Vec(v) => v.len() <= 0xFFFF,
            RDataView::Name(n) => labels_fit_wire(n) && name_wire(n).len() <= 0xFFFF,
            RDataView::Text(t) => text_wire(t).len() <= 0xFFFF,
        }
    }

    /// Whether the data has the form that records of type `rtype` carry:
    /// four plain bytes for `A`, a name for `CNAME` and `NS`, text for `TXT`,
    /// plain bytes for every other type.
    pub open spec fn fits(self, rtype: RType) -> bool {
        match rtype {
            RType::A => self matches RDataView::Vec(v) && v.len() == 4,
            RType::CNAME | RType::NS => self is Name,
            RType::TXT => self is Text,
            _ => self is Vec,
        }
    }
}

/// What writing the data of a record of type `rtype` at `offset` of the
/// buffer appends, and the dictionary afterwards: the 16-bit length of the
/// data, then the data. A name starts two bytes behind `offset`.
pub open spec fn spec_rdata_write(rdata: RDataView, dict: DictView, offset: int, rtype: RType) -> (
    Seq<u8>,
    DictView,
) {
    match rdata {
        RDataView::Vec(v) => (be16(v.len() as u16) + v, dict),
        RDataView::Name(n) => {
            let (w, after) = spec_name_write(n, dict, offset + 2, rtype);
            (be16(w.len() as u16) + w, after)
        },
        RDataView::Text(t) => (be16(text_wire(t).len() as u16) + text_wire(t), dict),
    }
}

/// The data of a record of type `rtype` that starts at `pos` of `msg` with
/// its 16-bit length, and the position behind it. The data of a `CNAME` or
/// `NS` record is a name that ends where the length says; that of a `TXT`
/// record is counted strings that fill the length; that of an `A` record is
/// four bytes; any other is taken as it is.
pub open spec fn spec_rdata_read(msg: Seq<u8>, pos: int, rtype: RType) -> Option<(RDataView, int)> {
    match spec_read_u16(msg, pos) {
        None => None,
        Some(len) => {
            let start = pos + 2;
            let end = start + len;
            if end > msg.len() {
                None
            } else if rtype == RType::CNAME || rtype == RType::NS {
                match decode_name(msg, start, pointer_limit()) {
                    Some((labels, e)) => if e == end {
                        Some((RDataView::Name(labels), end))
                    } else {
                        None
                    },
                    None => None,
                }
            } else if rtype == RType::TXT {
                match spec_strings_at(msg, start, end) {
                    Some(strings) => Some((RDataView::Text(concat_all(strings)), end)),
                    None => None,
                }
            } else if rtype == RType::A && len != 4 {
                None
            } else {
                Some((RDataView::Vec(msg.subrange(start, end)), end))
            }
        },
    }
}

impl Clone for RData {
    fn clone(&self) -> (r: Self)
        ensures
            r@ == self@,
    {
        match self {
            RData::Vec(v) => {
                let c: Vec<u8> = copy_range(v.as_slice(), 0, v.len());
                assert(c@ =~= v@);
                RData::Vec(c)
            },
            RData::Name(n) => RData::Name(n.clone()),
            RData::Text(t) => RData::Text(t.clone()),
        }
    }
}

impl RData {
    /// Whether the data can be written.
    pub open spec fn wf(&self) -> bool {
        self@.wf()
    }

    /// Whether the data can be written.
    pub fn is_valid(&self) -> (r: bool)
        ensures
            r == self.wf(),
    {
        match self {
            RData::Vec(v) => v.len() <= 0xFFFF,
            RData::Name(n) => fits_rdata(n),
            RData::Text(t) => {
                let content: Vec<u8> = t.content();
                text_fits(content.len())
            },
        }
    }

    /// Whether the data has the form that records of type `rtype` carry.
    pub fn fits_type(&self, rtype: RType) -> (r: bool)
        ensures
            r == self@.fits(rtype),
    {
        match rtype {
            RType::A => match self {
                RData::Vec(v) => v.len() == 4,
                _ => false,
            },
            RType::CNAME | RType::NS => match self {
                RData::Name(_) => true,
                _ => false,
            },
            RType::TXT => match self {
                RData::Text(_) => true,
                _ => false,
            },
            _ => match self {
                RData::Vec(_) => true,
                _ => false,
            },
        }
    }

    /// The name that the data is, if it is one.
    pub fn try_get_name(&self) -> (r: Option<&DNSName>)
        ensures
            match *self {
                RData::Name(n) => r == Some(&n),
                _ => r is None,
            },
    {
        match self {
            RData::Name(name) => Some(name),
            _ => None,
        }
    }

    /// Appends the 16-bit length of the data and the data.
    pub fn write(&self, out: &mut Vec<u8>, dict: &mut Compressed, rtype: RType)
        requires
            self.wf(),
            old(dict).wf(),
        ensures
            final(out)@ == old(out)@ + spec_rdata_write(
                self@,
                old(dict)@,
                old(out)@.len() as int,
                rtype,
            ).0,
            final(dict)@ == spec_rdata_write(self@, old(dict)@, old(out)@.len() as int, rtype).1,
            final(dict).wf(),
    {
        let at: usize = out.len();
        out.push(0);
        out.push(0);
        let ghost mid = out@;
        match self {
            RData::Vec(v) => {
                append_bytes(out, v.as_slice());
            },
            RData::Name(name) => {
                proof {
                    lemma_packed_len(name@, dict@.pointers);
                }
                name.write(out, dict, rtype);
            },
            RData::Text(text) => {
                text.write(out);
            },
        }
        let ghost body = out@.skip(at + 2);
        proof {
            assert(out@ =~= mid + body);
            assert(body.len() <= 0xFFFF);
        }
        let n: usize = out.len() - at - 2;
        out.set(at, (n / 256) as u8);
        out.set(at + 1, (n % 256) as u8);
        proof {
            assert(out@ =~= old(out)@ + (be16(n as u16) + body));
        }
    }

    /// Reads the data of a record of type `rtype` that starts at `pos` with
    /// its 16-bit length. Gives the data and the position behind it.
    pub fn read(input: &[u8], pos: usize, rtype: RType) -> (r: Result<(RData, usize), WireError>)
        ensures
            match spec_rdata_read(input@, pos as int, rtype) {
                Some((data, next)) => r matches Ok((d, n)) && d@ == data && n == next && n
                    <= input@.len(),
                None => r matches Err(e) && e == WireError::Malformed,
            },
    {
        let total: usize = input.len();
        let len: usize = match read_u16(input, pos) {
            Some(l) => l as usize,
            None => {
                return Err(WireError::Malformed);
            },
        };
        let start: usize = pos + 2;
        if total - start < len {
            return Err(WireError::Malformed);
        }
        let end: usize = start + len;
        match rtype {
            RType::CNAME | RType::NS => {
                match DNSName::read(input, start) {
                    Ok((name, e)) => {
                        if e == end {
                            Ok((RData::Name(name), end))
                        } else {
                            Err(WireError::Malformed)
                        }
                    },
                    Err(_) => Err(WireError::Malformed),
                }
            },
            RType::TXT => {
                match DNSText::read(input, start, end) {
                    Ok(text) => Ok((RData::Text(text), end)),
                    Err(_) => Err(WireError::Malformed),
                }
            },
            RType::A => {
                if len != 4 {
                    Err(WireError::Malformed)
                } else {
                    Ok((RData::Vec(copy_range(input, start, end)), end))
                }
            },
            _ => Ok((RData::Vec(copy_range(input, start, end)), end)),
        }
    }
}

} // verus!
