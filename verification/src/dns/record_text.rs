use vstd::prelude::*;
use vstd::string::StringSliceAdditionalSpecFns;
use crate::decimal::{parse_digits, spec_digits_byte};
use crate::dns::data::{RData, RDataView};
use crate::dns::name::{
    chunks_of, dot, first_sep, labels_fit_wire, lemma_first_sep_is, split_pieces, DNSName,
};
use crate::dns::name_wire::{fits_rdata, name_fits_rdata};
use crate::dns::record::{DNSRecord, RecordView};
use crate::dns::rtypes::{spec_rtype_of_word, RType};
use crate::dns::text::{concat_all, lemma_text_wire_len, text_fits, text_wire_len, DNSText};
use crate::dns::wire::copy_range;
use crate::errors::RecordParseError;

verus! {

/// Whether `b` is a blank: a space, a tab, or one of the line and page
/// breaks.
pub open spec fn is_blank(b: u8) -> bool {
    b == 32 || (9 <= b && b <= 13)
}

/// The blanks.
pub open spec fn blanks() -> Set<u8> {
    Set::new(|b: u8| is_blank(b))
}

/// All bytes but the blanks.
pub open spec fn inks() -> Set<u8> {
    Set::new(|b: u8| !is_blank(b))
}

/// The position of the first byte of `sep` in `s` at or behind `pos`, or the
/// length of `s` if there is none.
pub open spec fn next_of(s: Seq<u8>, pos: int, sep: Set<u8>) -> int {
    pos + first_sep(s.skip(pos), sep)
}

/// The three parts of a line of zone text: the owner name and the record
/// type, each a run of bytes without blanks, and the data, which is what
/// follows the one blank behind the type.
pub open spec fn spec_split_line(line: Seq<u8>) -> Result<
    (Seq<u8>, Seq<u8>, Seq<u8>),
    RecordParseError,
> {
    let a = next_of(line, 0, inks());
    if a >= line.len() {
        Err(RecordParseError::MissingName)
    } else {
        let b = next_of(line, a, blanks());
        let c = next_of(line, b, inks());
        if c >= line.len() {
            Err(RecordParseError::MissingType)
        } else {
            let d = next_of(line, c, blanks());
            if d >= line.len() {
                Err(RecordParseError::MissingData)
            } else {
                Ok((line.subrange(a, b), line.subrange(c, d), line.skip(d + 1)))
            }
        }
    }
}

/// One number of a dotted quad: one to three digits, without a zero in
/// front of others, that make a number up to 255.
pub open spec fn spec_ipv4_octet(s: Seq<u8>) -> Option<u8> {
    if 1 <= s.len() <= 3 && (s.len() == 1 || s[0] != 48) {
        spec_digits_byte(s)
    } else {
        None
    }
}

/// What stands in front of the first dot of `s` and what stands behind it,
/// if `s` has a dot.
pub open spec fn spec_cut(s: Seq<u8>) -> Option<(Seq<u8>, Seq<u8>)> {
    let k = first_sep(s, dot()) as int;
    if k < s.len() {
        Some((s.take(k), s.skip(k + 1)))
    } else {
        None
    }
}

/// The four bytes of the address that the dotted quad `s` spells.
pub open spec fn spec_parse_ipv4(s: Seq<u8>) -> Option<Seq<u8>> {
    match spec_cut(s) {
        None => None,
        Some((pos1, r1)) => match spec_cut(r1) {
            None => None,
            Some((pos2, r2)) => match spec_cut(r2) {
                None => None,
                Some((pos3, pos4)) => match (
                    spec_ipv4_octet(pos1),
                    spec_ipv4_octet(pos2),
                    spec_ipv4_octet(pos3),
                    spec_ipv4_octet(pos4),
                ) {
                    (Some(a), Some(b), Some(c), Some(d)) => Some(seq![a, b, c, d]),
                    _ => None,
                },
            },
        },
    }
}

/// The data that the text `rdata` spells for a record of type `rtype`: a
/// dotted name for `CNAME` and `NS`, the text itself for `TXT`, a dotted quad
/// for `A`. Zone text carries no other type.
pub open spec fn spec_parse_rdata(rdata: Seq<u8>, rtype: RType) -> Result<
    RDataView,
    RecordParseError,
> {
    match rtype {
        RType::CNAME | RType::NS => {
            if name_fits_rdata(split_pieces(rdata, dot())) {
                Ok(RDataView::Name(split_pieces(rdata, dot())))
            } else {
                Err(RecordParseError::InvalidName)
            }
        },
        RType::TXT => {
            if text_wire_len(rdata.len()) <= 0xFFFF {
                Ok(RDataView::Text(rdata))
            } else {
                Err(RecordParseError::DataTooLong)
            }
        },
        RType::A => match spec_parse_ipv4(rdata) {
            Some(address) => Ok(RDataView::Vec(address)),
            None => Err(RecordParseError::InvalidAddress),
        },
        _ => Err(RecordParseError::UnsupportedType),
    }
}

/// The record that the line `line` of zone text spells: owner name, record
/// type and data, of class 1 and with 60 seconds to live.
pub open spec fn spec_parse_line(line: Seq<u8>) -> Result<RecordView, RecordParseError> {
    match spec_split_line(line) {
        Err(e) => Err(e),
        Ok((name, word, rdata)) => match spec_rtype_of_word(word) {
            None => Err(RecordParseError::InvalidType),
            Some(rtype) => {
                if !labels_fit_wire(split_pieces(name, dot())) {
                    Err(RecordParseError::InvalidName)
                } else {
                    match spec_parse_rdata(rdata, rtype) {
                        Err(e) => Err(e),
                        Ok(data) => Ok(
                            RecordView {
                                name: split_pieces(name, dot()),
                                rtype,
                                class: 1,
                                ttl: 60,
                                rdata: data,
                            },
                        ),
                    }
                }
            },
        },
    }
}

/// Text cut into runs and joined again is the text.
pub proof fn lemma_chunks_join(s: Seq<u8>, n: int)
    requires
        n > 0,
    ensures
        concat_all(chunks_of(s, n)) == s,
    decreases s.len(),
{
    let none = Seq::<Seq<u8>>::empty();
    assert(concat_all(none) =~= Seq::<u8>::empty());
    if s.len() == 0 {
        assert(chunks_of(s, n) =~= none);
        assert(s =~= Seq::<u8>::empty());
    } else if s.len() <= n {
        lemma_concat_front(s, none);
        assert(seq![s] + none =~= seq![s]);
        assert(s + Seq::<u8>::empty() =~= s);
    } else {
        lemma_chunks_join(s.skip(n), n);
        lemma_concat_front(s.take(n), chunks_of(s.skip(n), n));
        assert(s.take(n) + s.skip(n) =~= s);
    }
}

/// Joining strings with one more in front gives that one, then the others
/// joined.
pub proof fn lemma_concat_front(first: Seq<u8>, rest: Seq<Seq<u8>>)
    ensures
        concat_all(seq![first] + rest) == first + concat_all(rest),
    decreases rest.len(),
{
    let all = seq![first] + rest;
    let none = Seq::<Seq<u8>>::empty();
    assert(concat_all(none) =~= Seq::<u8>::empty());
    if rest.len() == 0 {
        assert(rest =~= none);
        assert(all.drop_last() =~= none);
        assert(all.last() == first);
        assert(concat_all(all) == concat_all(all.drop_last()) + all.last());
        assert(concat_all(all) =~= first + concat_all(rest));
    } else {
        let shorter = seq![first] + rest.drop_last();
        assert(all.drop_last() =~= shorter);
        assert(all.last() == rest.last());
        lemma_concat_front(first, rest.drop_last());
        assert(concat_all(all) == concat_all(all.drop_last()) + all.last());
        assert(concat_all(rest) == concat_all(rest.drop_last()) + rest.last());
        assert(concat_all(all) =~= first + concat_all(rest));
    }
}

/// Whether `b` is a blank.
pub fn blank_byte(b: u8) -> (r: bool)
    ensures
        r == is_blank(b),
{
    b == 32 || (9 <= b && b <= 13)
}

/// The position of the first blank at or behind `pos`, or of the first byte
/// that is no blank, as `blank` says; the length of `s` if there is none.
pub fn scan(s: &[u8], pos: usize, blank: bool) -> (r: usize)
    requires
        pos <= s@.len(),
    ensures
        pos <= r <= s@.len(),
        r == next_of(
            s@,
            pos as int,
            if blank {
                blanks()
            } else {
                inks()
            },
        ),
{
    let ghost sep = if blank {
        blanks()
    } else {
        inks()
    };
    let mut i: usize = pos;
    while i < s.len() && blank_byte(s[i]) != blank
        invariant
            pos <= i <= s@.len(),
            sep == (if blank {
                blanks()
            } else {
                inks()
            }),
            forall|j: int| pos <= j < i ==> !sep.contains(#[trigger] s@[j]),
        decreases s.len() - i,
    {
        assert(!sep.contains(s@[i as int]));
        i += 1;
    }
    proof {
        let rest = s@.skip(pos as int);
        assert forall|j: int| 0 <= j < i - pos implies !sep.contains(#[trigger] rest[j]) by {
            assert(rest[j] == s@[pos + j]);
        }
        if i < s@.len() {
            assert(rest[i - pos] == s@[i as int]);
            assert(sep.contains(s@[i as int]));
        }
        lemma_first_sep_is(rest, sep, i - pos);
    }
    i
}

/// The position of the first dot of `s` at or behind `pos`, or the length of
/// `s` if there is none.
pub fn scan_dot(s: &[u8], pos: usize) -> (r: usize)
    requires
        pos <= s@.len(),
    ensures
        pos <= r <= s@.len(),
        r == pos + first_sep(s@.skip(pos as int), dot()),
{
    let mut i: usize = pos;
    while i < s.len() && s[i] != 46
        invariant
            pos <= i <= s@.len(),
            forall|j: int| pos <= j < i ==> !dot().contains(#[trigger] s@[j]),
        decreases s.len() - i,
    {
        i += 1;
    }
    proof {
        let rest = s@.skip(pos as int);
        assert forall|j: int| 0 <= j < i - pos implies !dot().contains(#[trigger] rest[j]) by {
            assert(rest[j] == s@[pos + j]);
        }
        if i < s@.len() {
            assert(rest[i - pos] == s@[i as int]);
            assert(dot().contains(s@[i as int]));
        }
        lemma_first_sep_is(rest, dot(), i - pos);
    }
    i
}

/// One number of a dotted quad.
pub fn ipv4_octet(s: &[u8]) -> (r: Option<u8>)
    ensures
        r == spec_ipv4_octet(s@),
{
    let n: usize = s.len();
    if n >= 1 && n <= 3 && (n == 1 || s[0] != 48) {
        proof {
            assert(s@.skip(0) =~= s@);
        }
        parse_digits(s, 0)
    } else {
        None
    }
}

/// The position of the first dot of `s` at or behind `from`, if there is
/// one: it parts what stands before it from what stands behind it.
pub fn cut(s: &[u8], from: usize) -> (r: Option<usize>)
    requires
        from <= s@.len(),
    ensures
        match spec_cut(s@.skip(from as int)) {
            Some((head, tail)) => r matches Some(d) && from <= d < s@.len() && head
                == s@.subrange(from as int, d as int) && tail == s@.skip(d + 1),
            None => r is None,
        },
{
    let d: usize = scan_dot(s, from);
    if d < s.len() {
        proof {
            let rest = s@.skip(from as int);
            assert(rest.take(d - from) =~= s@.subrange(from as int, d as int));
            assert(rest.skip(d - from + 1) =~= s@.skip(d + 1));
        }
        Some(d)
    } else {
        None
    }
}

/// The four bytes of the address that the dotted quad `s` spells.
pub fn parse_ipv4(s: &[u8]) -> (r: Option<Vec<u8>>)
    ensures
        match spec_parse_ipv4(s@) {
            Some(address) => r matches Some(v) && v@ == address && v@.len() == 4,
            None => r is None,
        },
{
    let n: usize = s.len();
    proof {
        assert(s@.skip(0) =~= s@);
    }
    let d1: usize = match cut(s, 0) {
        Some(d) => d,
        None => {
            return None;
        },
    };
    let d2: usize = match cut(s, d1 + 1) {
        Some(d) => d,
        None => {
            return None;
        },
    };
    let d3: usize = match cut(s, d2 + 1) {
        Some(d) => d,
        None => {
            return None;
        },
    };
    let pos1: Vec<u8> = copy_range(s, 0, d1);
    let pos2: Vec<u8> = copy_range(s, d1 + 1, d2);
    let pos3: Vec<u8> = copy_range(s, d2 + 1, d3);
    let pos4: Vec<u8> = copy_range(s, d3 + 1, n);
    proof {
        assert(pos4@ =~= s@.skip(d3 + 1));
    }
    let o1: Option<u8> = ipv4_octet(pos1.as_slice());
    let o2: Option<u8> = ipv4_octet(pos2.as_slice());
    let o3: Option<u8> = ipv4_octet(pos3.as_slice());
    let o4: Option<u8> = ipv4_octet(pos4.as_slice());
    match (o1, o2, o3, o4) {
        (Some(a), Some(b), Some(c), Some(d)) => {
            let mut v: Vec<u8> = Vec::new();
            v.push(a);
            v.push(b);
            v.push(c);
            v.push(d);
            assert(v@ =~= seq![a, b, c, d]);
            Some(v)
        },
        _ => None,
    }
}

/// The data that the text `rdata` spells for a record of type `rtype`.
pub fn parse_rdata_from_rtype(rdata: &[u8], rtype: RType) -> (r: Result<RData, RecordParseError>)
    ensures
        match spec_parse_rdata(rdata@, rtype) {
            Ok(data) => r matches Ok(d) && d@ == data && d.wf() && d@.fits(rtype),
            Err(e) => r matches Err(e2) && e2 == e,
        },
{
    match rtype {
        RType::CNAME | RType::NS => {
            let name = DNSName::from_dotted(rdata);
            if fits_rdata(&name) {
                Ok(RData::Name(name))
            } else {
                Err(RecordParseError::InvalidName)
            }
        },
        RType::TXT => {
            if !text_fits(rdata.len()) {
                return Err(RecordParseError::DataTooLong);
            }
            let text = DNSText { inner: DNSName::from_raw_bytes(rdata) };
            proof {
                lemma_chunks_join(rdata@, 255);
                lemma_text_wire_len(rdata@);
            }
            Ok(RData::Text(text))
        },
        RType::A => match parse_ipv4(rdata) {
            Some(address) => Ok(RData::Vec(address)),
            None => Err(RecordParseError::InvalidAddress),
        },
        _ => Err(RecordParseError::UnsupportedType),
    }
}

impl DNSRecord {
    /// The record that the line `line` of zone text spells.
    pub fn parse_line(line: &[u8]) -> (r: Result<DNSRecord, RecordParseError>)
        ensures
            match spec_parse_line(line@) {
                Ok(rec) => r matches Ok(d) && d@ == rec && d.wf(),
                Err(e) => r matches Err(e2) && e2 == e,
            },
    {
        let n: usize = line.len();
        let a: usize = scan(line, 0, false);
        if a >= n {
            return Err(RecordParseError::MissingName);
        }
        let b: usize = scan(line, a, true);
        let c: usize = scan(line, b, false);
        if c >= n {
            return Err(RecordParseError::MissingType);
        }
        let d: usize = scan(line, c, true);
        if d >= n {
            return Err(RecordParseError::MissingData);
        }
        let name_text: Vec<u8> = copy_range(line, a, b);
        let word: Vec<u8> = copy_range(line, c, d);
        let rest: Vec<u8> = copy_range(line, d + 1, n);
        proof {
            assert(rest@ =~= line@.skip(d + 1));
        }
        let rtype: RType = match RType::from_word(word.as_slice()) {
            Some(t) => t,
            None => {
                return Err(RecordParseError::InvalidType);
            },
        };
        let name = DNSName::from_dotted(name_text.as_slice());
        if !name.is_wire_name() {
            return Err(RecordParseError::InvalidName);
        }
        match parse_rdata_from_rtype(rest.as_slice(), rtype) {
            Ok(rdata) => Ok(DNSRecord { name, rtype, class: 1, ttl: 60, rdata }),
            Err(e) => Err(e),
        }
    }

    /// The record that the line `value` of zone text spells, such as
    /// `example.com A 10.10.10.10`.
    pub fn try_from(value: &str) -> (r: Result<DNSRecord, RecordParseError>)
        ensures
            match spec_parse_line(value.spec_bytes()) {
                Ok(rec) => r matches Ok(d) && d@ == rec && d.wf(),
                Err(e) => r matches Err(e2) && e2 == e,
            },
    {
        DNSRecord::parse_line(value.as_bytes())
    }
}

} // verus!
