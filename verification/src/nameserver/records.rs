use vstd::prelude::*;
use vstd::string::StringSliceAdditionalSpecFns;
use crate::dns::name::{name_relation, DNSName, NameCmp};
use crate::dns::record::{all_valid, all_wf, records_view, DNSRecord, RecordView};
use crate::dns::record_text::spec_parse_line;
use crate::dns::rtypes::RType;
use crate::nameserver::default_records::DEFAULT_RECORDS;

verus! {

/// The zone: the records this server answers from.
#[derive(Debug)]
pub struct Records {
    pub inner: Vec<DNSRecord>,
}

/// The section of a response that a record goes to.
#[derive(Copy, Clone, Debug, PartialEq, Eq, Structural)]
pub enum ResponseSection {
    Answer,
    Authority,
    Additional,
}

/// A record of the zone picked for a response, and the section it goes to.
#[derive(Debug)]
pub struct RecordItem<'a> {
    pub record: &'a DNSRecord,
    pub section: ResponseSection,
}

impl View for Records {
    type V = Seq<RecordView>;

    open spec fn view(&self) -> Seq<RecordView> {
        records_view(self.inner@)
    }
}

impl<'a> View for RecordItem<'a> {
    type V = (RecordView, ResponseSection);

    open spec fn view(&self) -> (RecordView, ResponseSection) {
        (self.record@, self.section)
    }
}

/// The views of the items of `items`.
pub open spec fn items_view(items: Seq<RecordItem>) -> Seq<(RecordView, ResponseSection)> {
    Seq::new(items.len(), |i: int| items[i]@)
}

/// The section that the record `rec` goes to when `qname` is asked for with
/// type `qtype`, if it goes to any. A name server record whose owner is the
/// queried name, above it or below it goes to the authority section. Any
/// other record must be owned by the queried name itself: it is an answer if
/// it has the queried type or is an alias, and additional otherwise.
pub open spec fn classify(rec: RecordView, qname: Seq<Seq<u8>>, qtype: RType) -> Option<
    ResponseSection,
> {
    let relation = name_relation(rec.name, qname);
    if relation == NameCmp::Different {
        None
    } else if rec.rtype == RType::NS {
        Some(ResponseSection::Authority)
    } else if relation == NameCmp::Equal {
        if rec.rtype == qtype || rec.rtype == RType::CNAME {
            Some(ResponseSection::Answer)
        } else {
            Some(ResponseSection::Additional)
        }
    } else {
        None
    }
}

/// The records of `zone` whose owner is related to `qname`, each with the
/// relation, in the order of the zone.
pub open spec fn spec_matching(zone: Seq<RecordView>, qname: Seq<Seq<u8>>) -> Seq<
    (RecordView, NameCmp),
>
    decreases zone.len(),
{
    if zone.len() == 0 {
        Seq::empty()
    } else {
        let before = spec_matching(zone.drop_last(), qname);
        let relation = name_relation(zone.last().name, qname);
        if relation == NameCmp::Different {
            before
        } else {
            before.push((zone.last(), relation))
        }
    }
}

/// The records of `zone` that go into a response to `qname` and `qtype`,
/// each with its section, in the order of the zone.
pub open spec fn spec_query(zone: Seq<RecordView>, qname: Seq<Seq<u8>>, qtype: RType) -> Seq<
    (RecordView, ResponseSection),
>
    decreases zone.len(),
{
    if zone.len() == 0 {
        Seq::empty()
    } else {
        let before = spec_query(zone.drop_last(), qname, qtype);
        match classify(zone.last(), qname, qtype) {
            Some(section) => before.push((zone.last(), section)),
            None => before,
        }
    }
}

/// The address records of `zone` that `target` owns, each bound for the
/// additional section, in the order of the zone: the glue for a name server
/// of that name.
pub open spec fn spec_additional(zone: Seq<RecordView>, target: Seq<Seq<u8>>) -> Seq<
    (RecordView, ResponseSection),
>
    decreases zone.len(),
{
    if zone.len() == 0 {
        Seq::empty()
    } else {
        let before = spec_additional(zone.drop_last(), target);
        if zone.last().name == target && zone.last().rtype == RType::A {
            before.push((zone.last(), ResponseSection::Additional))
        } else {
            before
        }
    }
}

/// The bytes of each line of `lines`.
pub open spec fn lines_view(lines: Seq<&str>) -> Seq<Seq<u8>> {
    Seq::new(lines.len(), |i: int| lines[i].spec_bytes())
}

/// The records that the lines of `lines` spell, in order; a line that spells
/// no record gives none.
pub open spec fn spec_zone_of(lines: Seq<Seq<u8>>) -> Seq<RecordView>
    decreases lines.len(),
{
    if lines.len() == 0 {
        Seq::empty()
    } else {
        let before = spec_zone_of(lines.drop_last());
        match spec_parse_line(lines.last()) {
            Ok(rec) => before.push(rec),
            Err(_) => before,
        }
    }
}

/// How the owner of `rec` stands to `qname`.
pub fn relation_to(rec: &DNSRecord, qname: &DNSName) -> (r: NameCmp)
    ensures
        r == name_relation(rec@.name, qname@),
{
    rec.name.cmp(qname)
}

/// The section that `rec` goes to when `qname` is asked for with type
/// `qtype`, if it goes to any.
pub fn section_of(rec: &DNSRecord, relation: NameCmp, qtype: &RType) -> (r: Option<ResponseSection>)
    requires
        relation != NameCmp::Different,
    ensures
        forall|qname: Seq<Seq<u8>>|
            name_relation(rec@.name, qname) == relation ==> r == #[trigger] classify(
                rec@,
                qname,
                *qtype,
            ),
{
    if rec.rtype == RType::NS {
        Some(ResponseSection::Authority)
    } else if relation == NameCmp::Equal {
        if rec.rtype == *qtype || rec.rtype == RType::CNAME {
            Some(ResponseSection::Answer)
        } else {
            Some(ResponseSection::Additional)
        }
    } else {
        None
    }
}

impl Records {
    /// Whether every record of the zone can be written.
    pub open spec fn wf(&self) -> bool {
        all_wf(self@)
    }

    /// Whether every record of the zone can be written.
    pub fn is_valid(&self) -> (r: bool)
        ensures
            r == self.wf(),
    {
        all_valid(&self.inner)
    }

    /// The zone that holds the records of `inner`.
    pub fn from_vec(inner: Vec<DNSRecord>) -> (r: Self)
        ensures
            r.inner == inner,
            r@ == records_view(inner@),
    {
        Records { inner }
    }

    /// The number of records.
    pub fn len(&self) -> (r: usize)
        ensures
            r == self@.len(),
    {
        self.inner.len()
    }

    /// The zone that the lines of `lines` spell. A line that spells no
    /// record is passed over.
    pub fn from_lines(lines: &[&str]) -> (r: Self)
        ensures
            r@ == spec_zone_of(lines_view(lines@)),
            r.wf(),
    {
        let mut inner: Vec<DNSRecord> = Vec::new();
        let mut i: usize = 0;
        let ghost all = lines_view(lines@);
        proof {
            assert(all.take(0) =~= Seq::<Seq<u8>>::empty());
            assert(records_view(inner@) =~= spec_zone_of(all.take(0)));
        }
        while i < lines.len()
            invariant
                i <= lines@.len(),
                all == lines_view(lines@),
                records_view(inner@) == spec_zone_of(all.take(i as int)),
                all_wf(records_view(inner@)),
            decreases lines.len() - i,
        {
            let ghost before = records_view(inner@);
            proof {
                let next = all.take(i + 1);
                assert(next.drop_last() =~= all.take(i as int));
                assert(next.last() == lines@[i as int].spec_bytes());
            }
            match DNSRecord::try_from(lines[i]) {
                Ok(record) => {
                    let ghost rv = record@;
                    inner.push(record);
                    proof {
                        assert(records_view(inner@) =~= before.push(rv));
                    }
                },
                Err(_) => {},
            }
            i += 1;
        }
        proof {
            assert(all.take(i as int) =~= all);
        }
        Records { inner }
    }

    /// The zone that the server starts with.
    pub fn predefined() -> (r: Self)
        ensures
            r@ == spec_zone_of(lines_view(DEFAULT_RECORDS@)),
            r.wf(),
    {
        let lines: [&'static str; 15] = DEFAULT_RECORDS;
        Records::from_lines(lines.as_slice())
    }

    /// The records whose owner is `name`, above it or below it, each with
    /// how its owner stands to `name`.
    pub fn map_matching<'a>(&'a self, name: &DNSName) -> (r: Vec<(&'a DNSRecord, NameCmp)>)
        ensures
            Seq::new(r@.len(), |i: int| (r@[i].0@, r@[i].1)) == spec_matching(self@, name@),
    {
        let mut found: Vec<(&'a DNSRecord, NameCmp)> = Vec::new();
        let mut i: usize = 0;
        proof {
            assert(self@.take(0) =~= Seq::<RecordView>::empty());
            assert(Seq::new(found@.len(), |k: int| (found@[k].0@, found@[k].1)) =~= spec_matching(
                self@.take(0),
                name@,
            ));
        }
        while i < self.inner.len()
            invariant
                i <= self.inner@.len(),
                self@.len() == self.inner@.len(),
                Seq::new(found@.len(), |k: int| (found@[k].0@, found@[k].1)) == spec_matching(
                    self@.take(i as int),
                    name@,
                ),
            decreases self.inner.len() - i,
        {
            let ghost before = Seq::new(found@.len(), |k: int| (found@[k].0@, found@[k].1));
            let p: &'a DNSRecord = &self.inner[i];
            let relation: NameCmp = relation_to(p, name);
            proof {
                let next = self@.take(i + 1);
                assert(next.drop_last() =~= self@.take(i as int));
                assert(next.last() == p@);
            }
            match relation {
                NameCmp::Different => {},
                _ => {
                    found.push((p, relation));
                    proof {
                        assert(Seq::new(found@.len(), |k: int| (found@[k].0@, found@[k].1))
                            =~= before.push((p@, relation)));
                    }
                },
            }
            i += 1;
        }
        proof {
            assert(self@.take(i as int) =~= self@);
        }
        found
    }

    /// The records that go into a response to `name` and `qtype`, each with
    /// its section, in the order of the zone.
    pub fn query<'a>(&'a self, name: &DNSName, qtype: &RType) -> (r: Vec<RecordItem<'a>>)
        ensures
            items_view(r@) == spec_query(self@, name@, *qtype),
    {
        let mut found: Vec<RecordItem<'a>> = Vec::new();
        let mut i: usize = 0;
        proof {
            assert(self@.take(0) =~= Seq::<RecordView>::empty());
            assert(items_view(found@) =~= spec_query(self@.take(0), name@, *qtype));
        }
        while i < self.inner.len()
            invariant
                i <= self.inner@.len(),
                self@.len() == self.inner@.len(),
                items_view(found@) == spec_query(self@.take(i as int), name@, *qtype),
            decreases self.inner.len() - i,
        {
            let ghost before = items_view(found@);
            let record: &'a DNSRecord = &self.inner[i];
            let relation: NameCmp = relation_to(record, name);
            proof {
                let next = self@.take(i + 1);
                assert(next.drop_last() =~= self@.take(i as int));
                assert(next.last() == record@);
            }
            match relation {
                NameCmp::Different => {},
                _ => {
                    match section_of(record, relation, qtype) {
                        Some(section) => {
                            found.push(RecordItem { record, section });
                            proof {
                                assert(classify(record@, name@, *qtype) == Some(section));
                                assert(items_view(found@) =~= before.push((record@, section)));
                            }
                        },
                        None => {
                            proof {
                                assert(classify(record@, name@, *qtype).is_none());
                            }
                        },
                    }
                },
            }
            i += 1;
        }
        proof {
            assert(self@.take(i as int) =~= self@);
        }
        found
    }

    /// The address records that `addl_name` owns, each bound for the
    /// additional section, in the order of the zone.
    pub fn additional_section<'a>(&'a self, addl_name: &DNSName) -> (r: Vec<RecordItem<'a>>)
        ensures
            items_view(r@) == spec_additional(self@, addl_name@),
    {
        let mut found: Vec<RecordItem<'a>> = Vec::new();
        let mut i: usize = 0;
        proof {
            assert(self@.take(0) =~= Seq::<RecordView>::empty());
            assert(items_view(found@) =~= spec_additional(self@.take(0), addl_name@));
        }
        while i < self.inner.len()
            invariant
                i <= self.inner@.len(),
                self@.len() == self.inner@.len(),
                items_view(found@) == spec_additional(self@.take(i as int), addl_name@),
            decreases self.inner.len() - i,
        {
            let ghost before = items_view(found@);
            let record: &'a DNSRecord = &self.inner[i];
            let relation: NameCmp = relation_to(record, addl_name);
            proof {
                let next = self@.take(i + 1);
                assert(next.drop_last() =~= self@.take(i as int));
                assert(next.last() == record@);
            }
            let is_address: bool = record.rtype == RType::A;
            match relation {
                NameCmp::Equal => {
                    if is_address {
                        found.push(RecordItem { record, section: ResponseSection::Additional });
                        proof {
                            assert(items_view(found@) =~= before.push(
                                (record@, ResponseSection::Additional),
                            ));
                        }
                    }
                },
                _ => {},
            }
            i += 1;
        }
        proof {
            assert(self@.take(i as int) =~= self@);
        }
        found
    }
}

} // verus!
