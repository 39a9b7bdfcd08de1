use vstd::prelude::*;
use crate::dns::compression::{Compressed, DictView};
use crate::dns::data::{spec_rdata_read, spec_rdata_write, RData, RDataView};
use crate::dns::name::{labels_fit_wire, DNSName};
use crate::dns::name_wire::{decode_name, pointer_limit, spec_name_write};
use crate::dns::rtypes::{from_int, reads_as_itself, spec_from_int, spec_to_int, to_int, RType};
use crate::dns::wire::{
    be16, be32, read_u16, read_u32, spec_read_u16, spec_read_u32, write_u16, write_u32,
};
use crate::errors::WireError;

verus! {

/// A resource record.
#[derive(Debug, PartialEq, Eq)]
pub struct DNSRecord {
    pub name: DNSName,
    pub rtype: RType,
    pub class: u16,
    pub ttl: u32,
    pub rdata: RData,
}

/// What a resource record holds.
pub struct RecordView {
    pub name: Seq<Seq<u8>>,
    pub rtype: RType,
    pub class: u16,
    pub ttl: u32,
    pub rdata: RDataView,
}

impl View for DNSRecord {
    type V = RecordView;

    open spec fn view(&self) -> RecordView {
        RecordView {
            name: self.name@,
            rtype: self.rtype,
            class: self.class,
            ttl: self.ttl,
            rdata: self.rdata@,
        }
    }
}

impl RecordView {
    /// Whether the record can be written and read back: its labels fit the
    /// wire, its type is read as itself, and its data fits the length field
    /// and has the form that its type carries.
    pub open spec fn wf(self) -> bool {
        &&& labels_fit_wire(self.name)
        &&& reads_as_itself(self.rtype)
        &&& self.rdata.wf()
        &&& self.rdata.fits(self.rtype)
    }
}

/// Whether every record of `records` can be written.
pub open spec fn all_wf(records: Seq<RecordView>) -> bool {
    forall|i: int| 0 <= i < records.len() ==> (#[trigger] records[i]).wf()
}

/// What writing a record at `offset` of the buffer appends, and the
/// dictionary afterwards: the owner name, the type, the class, the time to
/// live, and the data behind its length.
pub open spec fn spec_record_write(rec: RecordView, dict: DictView, offset: int) -> (
    Seq<u8>,
    DictView,
) {
    let (owner, d1) = spec_name_write(rec.name, dict, offset, rec.rtype);
    let fixed = be16(spec_to_int(rec.rtype)) + be16(rec.class) + be32(rec.ttl);
    let (data, d2) = spec_rdata_write(rec.rdata, d1, offset + owner.len() + 8, rec.rtype);
    (owner + fixed + data, d2)
}

/// What writing the records of `records` one after the other, from `offset`
/// of the buffer on, appends, and the dictionary afterwards.
pub open spec fn spec_records_write(records: Seq<RecordView>, dict: DictView, offset: int) -> (
    Seq<u8>,
    DictView,
)
    decreases records.len(),
{
    if records.len() == 0 {
        (Seq::empty(), dict)
    } else {
        let (w0, d0) = spec_records_write(records.drop_last(), dict, offset);
        let (w1, d1) = spec_record_write(records.last(), d0, offset + w0.len());
        (w0 + w1, d1)
    }
}

/// The record that starts at `pos` of `msg`, and the position behind it.
pub open spec fn spec_record_read(msg: Seq<u8>, pos: int) -> Option<(RecordView, int)> {
    match decode_name(msg, pos, pointer_limit()) {
        None => None,
        Some((name, pos1)) => {
            if pos1 + 8 > msg.len() {
                None
            } else {
                let rtype = spec_from_int(spec_read_u16(msg, pos1).unwrap());
                match spec_rdata_read(msg, pos1 + 8, rtype) {
                    None => None,
                    Some((rdata, next)) => Some(
                        (
                            RecordView {
                                name,
                                rtype,
                                class: spec_read_u16(msg, pos1 + 2).unwrap(),
                                ttl: spec_read_u32(msg, pos1 + 4).unwrap(),
                                rdata,
                            },
                            next,
                        ),
                    ),
                }
            }
        },
    }
}

/// The `count` records that start at `pos` of `msg`, one behind the other,
/// and the position behind the last.
pub open spec fn spec_records_read(msg: Seq<u8>, pos: int, count: nat) -> Option<
    (Seq<RecordView>, int),
>
    decreases count,
{
    if count == 0 {
        Some((Seq::empty(), pos))
    } else {
        match spec_record_read(msg, pos) {
            None => None,
            Some((first, next)) => match spec_records_read(msg, next, (count - 1) as nat) {
                None => None,
                Some((rest, end)) => Some((seq![first] + rest, end)),
            },
        }
    }
}

impl Clone for DNSRecord {
    fn clone(&self) -> (r: Self)
        ensures
            r@ == self@,
    {
        DNSRecord {
            name: self.name.clone(),
            rtype: self.rtype,
            class: self.class,
            ttl: self.ttl,
            rdata: self.rdata.clone(),
        }
    }
}

impl DNSRecord {
    /// Whether the record can be written, and its data has the form that its
    /// type carries.
    pub open spec fn wf(&self) -> bool {
        self@.wf()
    }

    /// Whether the record can be written, and its data has the form that its
    /// type carries.
    pub fn is_valid(&self) -> (r: bool)
        ensures
            r == self.wf(),
    {
        self.name.is_wire_name() && self.rtype.is_canonical() && self.rdata.is_valid()
            && self.rdata.fits_type(self.rtype)
    }

    /// Appends the record.
    pub fn write(&self, out: &mut Vec<u8>, dict: &mut Compressed)
        requires
            self.wf(),
            old(dict).wf(),
        ensures
            final(out)@ == old(out)@ + spec_record_write(
                self@,
                old(dict)@,
                old(out)@.len() as int,
            ).0,
            final(dict)@ == spec_record_write(self@, old(dict)@, old(out)@.len() as int).1,
            final(dict).wf(),
    {
        let ghost (owner, d1) = spec_name_write(
            self@.name,
            old(dict)@,
            old(out)@.len() as int,
            self.rtype,
        );
        let ghost fixed = be16(spec_to_int(self.rtype)) + be16(self.class) + be32(self.ttl);
        self.name.write(out, dict, self.rtype);
        write_u16(out, to_int(self.rtype));
        write_u16(out, self.class);
        write_u32(out, self.ttl);
        proof {
            assert(out@ =~= old(out)@ + (owner + fixed));
        }
        let ghost mid = out@;
        self.rdata.write(out, dict, self.rtype);
        proof {
            let data = spec_rdata_write(self@.rdata, d1, mid.len() as int, self.rtype).0;
            assert(out@ =~= old(out)@ + (owner + fixed + data));
        }
    }

    /// Reads the record that starts at `pos`. Gives the record and the
    /// position behind it.
    pub fn read(input: &[u8], pos: usize) -> (r: Result<(DNSRecord, usize), WireError>)
        ensures
            match spec_record_read(input@, pos as int) {
                Some((rec, next)) => r matches Ok((d, n)) && d@ == rec && n == next && n
                    <= input@.len(),
                None => r matches Err(e) && e == WireError::Malformed,
            },
    {
        let total: usize = input.len();
        let (name, pos1) = match DNSName::read(input, pos) {
            Ok(x) => x,
            Err(_) => {
                return Err(WireError::Malformed);
            },
        };
        if pos1 > total || total - pos1 < 8 {
            return Err(WireError::Malformed);
        }
        let rtype: RType = from_int(read_u16(input, pos1).unwrap());
        let class: u16 = read_u16(input, pos1 + 2).unwrap();
        let ttl: u32 = read_u32(input, pos1 + 4).unwrap();
        match RData::read(input, pos1 + 8, rtype) {
            Ok((rdata, next)) => Ok((DNSRecord { name, rtype, class, ttl, rdata }, next)),
            Err(_) => Err(WireError::Malformed),
        }
    }
}

/// A list of records, as one section of a message carries it.
#[derive(Debug, PartialEq, Eq)]
pub struct VecDNSRecord(pub Vec<DNSRecord>);

impl View for VecDNSRecord {
    type V = Seq<RecordView>;

    open spec fn view(&self) -> Seq<RecordView> {
        Seq::new(self.0@.len(), |i: int| self.0@[i]@)
    }
}

/// The views of the records of `v`.
pub open spec fn records_view(v: Seq<DNSRecord>) -> Seq<RecordView> {
    Seq::new(v.len(), |i: int| v[i]@)
}

/// Whether every record of `v` can be written.
pub fn all_valid(v: &Vec<DNSRecord>) -> (r: bool)
    ensures
        r == all_wf(records_view(v@)),
{
    let mut i: usize = 0;
    while i < v.len()
        invariant
            i <= v@.len(),
            forall|j: int| 0 <= j < i ==> (#[trigger] records_view(v@)[j]).wf(),
        decreases v.len() - i,
    {
        if !v[i].is_valid() {
            assert(!records_view(v@)[i as int].wf());
            return false;
        }
        i += 1;
    }
    true
}

/// A copy of the records of `v`.
pub fn clone_records(v: &Vec<DNSRecord>) -> (r: Vec<DNSRecord>)
    ensures
        records_view(r@) == records_view(v@),
{
    let mut r: Vec<DNSRecord> = Vec::new();
    let mut i: usize = 0;
    while i < v.len()
        invariant
            i <= v.len(),
            r@.len() == i,
            forall|j: int| 0 <= j < i ==> r@[j]@ == v@[j]@,
        decreases v.len() - i,
    {
        r.push(v[i].clone());
        i += 1;
    }
    assert(records_view(r@) =~= records_view(v@));
    r
}

impl VecDNSRecord {
    /// Whether every record can be written.
    pub open spec fn wf(&self) -> bool {
        all_wf(self@)
    }

    /// Whether every record can be written.
    pub fn is_valid(&self) -> (r: bool)
        ensures
            r == self.wf(),
    {
        proof {
            assert(self@ =~= records_view(self.0@));
        }
        all_valid(&self.0)
    }

    /// The list that holds the records of `vec`.
    pub fn from(vec: Vec<DNSRecord>) -> (r: Self)
        ensures
            r.0 == vec,
            r@ == records_view(vec@),
    {
        VecDNSRecord(vec)
    }

    /// The number of records.
    pub fn len(&self) -> (r: usize)
        ensures
            r == self@.len(),
    {
        self.0.len()
    }

    /// Appends the first `count` records of the list, or all of them if
    /// there are fewer.
    pub fn write(&self, out: &mut Vec<u8>, dict: &mut Compressed, count: u16)
        requires
            self.wf(),
            old(dict).wf(),
        ensures
            final(out)@ == old(out)@ + spec_records_write(
                self@.take(
                    if count <= self@.len() {
                        count as int
                    } else {
                        self@.len() as int
                    },
                ),
                old(dict)@,
                old(out)@.len() as int,
            ).0,
            final(dict)@ == spec_records_write(
                self@.take(
                    if count <= self@.len() {
                        count as int
                    } else {
                        self@.len() as int
                    },
                ),
                old(dict)@,
                old(out)@.len() as int,
            ).1,
            final(dict).wf(),
    {
        let n: usize = if (count as usize) <= self.0.len() {
            count as usize
        } else {
            self.0.len()
        };
        let ghost offset = old(out)@.len() as int;
        let mut i: usize = 0;
        proof {
            assert(self@.take(0) =~= Seq::<RecordView>::empty());
            assert(out@ =~= old(out)@ + Seq::<u8>::empty());
        }
        while i < n
            invariant
                i <= n <= self.0@.len(),
                self@.len() == self.0@.len(),
                self.wf(),
                dict.wf(),
                offset == old(out)@.len(),
                out@ == old(out)@ + spec_records_write(self@.take(i as int), old(dict)@, offset).0,
                dict@ == spec_records_write(self@.take(i as int), old(dict)@, offset).1,
            decreases n - i,
        {
            let ghost before = spec_records_write(self@.take(i as int), old(dict)@, offset);
            proof {
                let next = self@.take(i + 1);
                assert(next.drop_last() =~= self@.take(i as int));
                assert(next.last() == self.0@[i as int]@);
                assert(self@[i as int].wf());
            }
            self.0[i].write(out, dict);
            proof {
                let step = spec_record_write(self.0@[i as int]@, before.1, offset + before.0.len());
                assert(out@ =~= old(out)@ + (before.0 + step.0));
            }
            i += 1;
        }
    }

    /// Reads `count` records that start at `pos`, one behind the other.
    /// Gives the list and the position behind the last record.
    pub fn read(input: &[u8], pos: usize, count: u16) -> (r: Result<(VecDNSRecord, usize), WireError>)
        ensures
            match spec_records_read(input@, pos as int, count as nat) {
                Some((recs, next)) => r matches Ok((v, n)) && v@ == recs && n == next,
                None => r matches Err(e) && e == WireError::Malformed,
            },
    {
        let mut records: Vec<DNSRecord> = Vec::new();
        let mut cur: usize = pos;
        let mut i: u16 = 0;
        proof {
            if let Some((rest, end)) = spec_records_read(input@, pos as int, count as nat) {
                assert(Seq::<RecordView>::empty() + rest =~= rest);
            }
        }
        while i < count
            invariant
                i <= count,
                spec_records_read(input@, pos as int, count as nat) == (match spec_records_read(
                    input@,
                    cur as int,
                    (count - i) as nat,
                ) {
                    Some((rest, end)) => Some((records_view(records@) + rest, end)),
                    None => None,
                }),
            decreases count - i,
        {
            let ghost acc = records_view(records@);
            match DNSRecord::read(input, cur) {
                Err(_) => {
                    return Err(WireError::Malformed);
                },
                Ok((record, next)) => {
                    let ghost rv = record@;
                    records.push(record);
                    proof {
                        let acc2 = records_view(records@);
                        assert(acc2 =~= acc + seq![rv]);
                        if let Some((rest, end)) = spec_records_read(
                            input@,
                            next as int,
                            (count - i - 1) as nat,
                        ) {
                            assert(acc + (seq![rv] + rest) =~= acc2 + rest);
                        }
                    }
                    cur = next;
                },
            }
            i += 1;
        }
        let v = VecDNSRecord(records);
        proof {
            assert(v@ =~= records_view(records@));
            assert(v@ + Seq::<RecordView>::empty() =~= v@);
        }
        Ok((v, cur))
    }
}

} // verus!
