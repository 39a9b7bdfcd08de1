use vstd::prelude::*;
use crate::dns::compression::{Compressed, DictView};
use crate::dns::data::RDataView;
use crate::dns::header::{header_wire, response_header, spec_response_header, DNSHeader, Rcode};
use crate::dns::question::{spec_question_write, DNSQuestion, QuestionView};
use crate::dns::record::{all_wf, records_view, spec_records_write, DNSRecord, RecordView, VecDNSRecord};
use crate::dns::rtypes::RType;
use crate::nameserver::records::{
    items_view, spec_additional, spec_query, RecordItem, Records, ResponseSection,
};

verus! {

/// A message as it goes out, with the dictionary of the names written.
#[derive(Debug)]
pub struct Response {
    pub compress: Compressed,
    pub header: DNSHeader,
    pub question: DNSQuestion,
    pub answer: VecDNSRecord,
    pub authority: VecDNSRecord,
    pub additional: VecDNSRecord,
}

/// What a response holds.
pub struct ResponseView {
    pub dict: DictView,
    pub header: DNSHeader,
    pub question: QuestionView,
    pub answer: Seq<RecordView>,
    pub authority: Seq<RecordView>,
    pub additional: Seq<RecordView>,
}

impl View for Response {
    type V = ResponseView;

    open spec fn view(&self) -> ResponseView {
        ResponseView {
            dict: self.compress@,
            header: self.header,
            question: self.question@,
            answer: self.answer@,
            authority: self.authority@,
            additional: self.additional@,
        }
    }
}

impl ResponseView {
    /// Whether the header counts exactly the records of each list.
    pub open spec fn counts_match(self) -> bool {
        &&& self.header.ancount == self.answer.len()
        &&& self.header.nscount == self.authority.len()
        &&& self.header.arcount == self.additional.len()
    }

    /// Whether the dictionary is empty, and set up for a stream exactly when
    /// the header has a length field.
    pub open spec fn fresh(self) -> bool {
        &&& self.dict.pointers == Map::<Seq<Seq<u8>>, usize>::empty()
        &&& self.dict.is_tcp == (self.header.tcp_header_field.0 is Some)
    }
}

/// The first `count` records of `records`, or all of them if there are
/// fewer.
pub open spec fn first_records(records: Seq<RecordView>, count: u16) -> Seq<RecordView> {
    records.take(
        if count <= records.len() {
            count as int
        } else {
            records.len() as int
        },
    )
}

/// What writing a response at `offset` of the buffer appends, and the
/// dictionary afterwards: the header, the question, and of each list as many
/// records as the header counts.
pub open spec fn spec_response_write(r: ResponseView, offset: int) -> (Seq<u8>, DictView) {
    let h = header_wire(r.header);
    let (q, d1) = spec_question_write(r.question, r.dict, offset + h.len());
    let (an, d2) = spec_records_write(
        first_records(r.answer, r.header.ancount),
        d1,
        offset + h.len() + q.len(),
    );
    let (ns, d3) = spec_records_write(
        first_records(r.authority, r.header.nscount),
        d2,
        offset + h.len() + q.len() + an.len(),
    );
    let (ar, d4) = spec_records_write(
        first_records(r.additional, r.header.arcount),
        d3,
        offset + h.len() + q.len() + an.len() + ns.len(),
    );
    (h + q + an + ns + ar, d4)
}

/// The response to `question` that carries the given records and response
/// code: its header counts the records, and its dictionary is empty and
/// records names.
pub open spec fn spec_response(
    id: u16,
    question: QuestionView,
    answer: Seq<RecordView>,
    authority: Seq<RecordView>,
    additional: Seq<RecordView>,
    tcp: bool,
    rcode: Rcode,
) -> ResponseView {
    ResponseView {
        dict: DictView { pointers: Map::empty(), is_tcp: tcp, enabled: true },
        header: spec_response_header(
            id,
            answer.len() as int,
            authority.len() as int,
            additional.len() as int,
            tcp,
            false,
            rcode,
        ),
        question,
        answer,
        authority,
        additional,
    }
}

/// The records of `items` that go to `section`, in their order.
pub open spec fn section_records(
    items: Seq<(RecordView, ResponseSection)>,
    section: ResponseSection,
) -> Seq<RecordView>
    decreases items.len(),
{
    if items.len() == 0 {
        Seq::empty()
    } else {
        let before = section_records(items.drop_last(), section);
        if items.last().1 == section {
            before.push(items.last().0)
        } else {
            before
        }
    }
}

/// The glue for the name servers of `authority`: for each record whose data
/// is a name, in order, the address records of `zone` that this name owns.
pub open spec fn spec_glue(zone: Seq<RecordView>, authority: Seq<RecordView>) -> Seq<RecordView>
    decreases authority.len(),
{
    if authority.len() == 0 {
        Seq::empty()
    } else {
        let before = spec_glue(zone, authority.drop_last());
        match authority.last().rdata {
            RDataView::Name(target) => before + section_records(
                spec_additional(zone, target),
                ResponseSection::Additional,
            ),
            _ => before,
        }
    }
}

/// The response that the zone gives to `question`. The records picked for
/// the queried name and type fill the three sections, the glue for the name
/// servers of the authority section follows in the additional section, and
/// the name counts as not found when all three are empty. Should a section
/// hold more records than a header can count, the response is a server
/// failure without records.
pub open spec fn spec_zone_response(
    id: u16,
    question: QuestionView,
    zone: Seq<RecordView>,
    tcp: bool,
) -> ResponseView {
    let items = spec_query(zone, question.qname, question.qtype);
    let answer = section_records(items, ResponseSection::Answer);
    let authority = section_records(items, ResponseSection::Authority);
    let additional = section_records(items, ResponseSection::Additional) + spec_glue(
        zone,
        authority,
    );
    if answer.len() > 0xFFFF || authority.len() > 0xFFFF || additional.len() > 0xFFFF {
        spec_response(
            id,
            question,
            Seq::empty(),
            Seq::empty(),
            Seq::empty(),
            tcp,
            Rcode::ServerFailure,
        )
    } else if answer.len() == 0 && authority.len() == 0 && additional.len() == 0 {
        spec_response(id, question, answer, authority, additional, tcp, Rcode::NxDomain)
    } else {
        spec_response(id, question, answer, authority, additional, tcp, Rcode::NoError)
    }
}

/// Records picked from records that can be written can be written.
pub proof fn lemma_section_records_wf(
    items: Seq<(RecordView, ResponseSection)>,
    section: ResponseSection,
)
    requires
        forall|i: int| 0 <= i < items.len() ==> (#[trigger] items[i]).0.wf(),
    ensures
        all_wf(section_records(items, section)),
    decreases items.len(),
{
    if items.len() > 0 {
        let before = items.drop_last();
        assert forall|i: int| 0 <= i < before.len() implies (#[trigger] before[i]).0.wf() by {
            assert(before[i] == items[i]);
        }
        lemma_section_records_wf(before, section);
        assert(items.last() == items[items.len() - 1]);
    }
}

/// What the zone picks for a name it picks from its records.
pub proof fn lemma_query_wf(zone: Seq<RecordView>, qname: Seq<Seq<u8>>, qtype: RType)
    requires
        all_wf(zone),
    ensures
        forall|i: int|
            0 <= i < spec_query(zone, qname, qtype).len() ==> (#[trigger] spec_query(
                zone,
                qname,
                qtype,
            )[i]).0.wf(),
    decreases zone.len(),
{
    if zone.len() > 0 {
        let before = zone.drop_last();
        assert forall|i: int| 0 <= i < before.len() implies (#[trigger] before[i]).wf() by {
            assert(before[i] == zone[i]);
        }
        lemma_query_wf(before, qname, qtype);
        assert(zone.last() == zone[zone.len() - 1]);
        let prev = spec_query(before, qname, qtype);
        let all = spec_query(zone, qname, qtype);
        assert forall|i: int| 0 <= i < all.len() implies (#[trigger] all[i]).0.wf() by {
            if i < prev.len() {
                assert(all[i] == prev[i]);
            }
        }
    }
}

/// The glue that the zone has for a name it has among its records.
pub proof fn lemma_additional_wf(zone: Seq<RecordView>, target: Seq<Seq<u8>>)
    requires
        all_wf(zone),
    ensures
        forall|i: int|
            0 <= i < spec_additional(zone, target).len() ==> (#[trigger] spec_additional(
                zone,
                target,
            )[i]).0.wf(),
    decreases zone.len(),
{
    if zone.len() > 0 {
        let before = zone.drop_last();
        assert forall|i: int| 0 <= i < before.len() implies (#[trigger] before[i]).wf() by {
            assert(before[i] == zone[i]);
        }
        lemma_additional_wf(before, target);
        assert(zone.last() == zone[zone.len() - 1]);
        let prev = spec_additional(before, target);
        let all = spec_additional(zone, target);
        assert forall|i: int| 0 <= i < all.len() implies (#[trigger] all[i]).0.wf() by {
            if i < prev.len() {
                assert(all[i] == prev[i]);
            }
        }
    }
}

/// Appends copies of the records of `items` that go to `section`.
pub fn push_section(into: &mut Vec<DNSRecord>, items: &Vec<RecordItem<'_>>, section: ResponseSection)
    ensures
        records_view(final(into)@) == records_view(old(into)@) + section_records(
            items_view(items@),
            section,
        ),
{
    let mut i: usize = 0;
    proof {
        assert(items_view(items@).take(0) =~= Seq::<(RecordView, ResponseSection)>::empty());
        assert(records_view(into@) =~= records_view(old(into)@) + Seq::<RecordView>::empty());
    }
    while i < items.len()
        invariant
            i <= items@.len(),
            records_view(into@) == records_view(old(into)@) + section_records(
                items_view(items@).take(i as int),
                section,
            ),
        decreases items.len() - i,
    {
        let ghost before = records_view(into@);
        let ghost picked = section_records(items_view(items@).take(i as int), section);
        proof {
            let next = items_view(items@).take(i + 1);
            assert(next.drop_last() =~= items_view(items@).take(i as int));
            assert(next.last() == items@[i as int]@);
        }
        let wanted: bool = match (items[i].section, section) {
            (ResponseSection::Answer, ResponseSection::Answer) => true,
            (ResponseSection::Authority, ResponseSection::Authority) => true,
            (ResponseSection::Additional, ResponseSection::Additional) => true,
            _ => false,
        };
        if wanted {
            let copy: DNSRecord = items[i].record.clone();
            into.push(copy);
            proof {
                assert(records_view(into@) =~= before.push(items@[i as int].record@));
                assert(before.push(items@[i as int].record@) =~= records_view(old(into)@)
                    + picked.push(items@[i as int].record@));
            }
        }
        i += 1;
    }
    proof {
        assert(items_view(items@).take(i as int) =~= items_view(items@));
    }
}

impl Response {
    /// Whether the response can be written.
    pub open spec fn wf(&self) -> bool {
        &&& self.compress.wf()
        &&& self.header.wf()
        &&& self.question.wf()
        &&& self.answer.wf()
        &&& self.authority.wf()
        &&& self.additional.wf()
    }

    /// Whether the response can be written.
    pub fn is_valid(&self) -> (r: bool)
        ensures
            r == self.wf(),
    {
        self.compress.is_valid() && self.header.is_valid() && self.question.is_valid()
            && self.answer.is_valid() && self.authority.is_valid() && self.additional.is_valid()
    }

    /// Puts `error` in the header as the response code.
    pub fn set_return_code(&mut self, error: Rcode)
        ensures
            final(self)@ == (ResponseView {
                header: DNSHeader { rcode: error, ..old(self).header },
                ..old(self)@
            }),
            old(self).wf() ==> final(self).wf(),
    {
        self.header.rcode = error;
    }

    /// Forgets the names written so far.
    pub fn clear(&mut self)
        ensures
            final(self)@ == (ResponseView { dict: old(self)@.dict.clear(), ..old(self)@ }),
            old(self).wf() ==> final(self).wf(),
    {
        self.compress.clear();
    }

    /// The response to `question` that carries the given records and
    /// response code.
    pub fn new(
        id: u16,
        question: DNSQuestion,
        answer: Vec<DNSRecord>,
        authority: Vec<DNSRecord>,
        additional: Vec<DNSRecord>,
        tcp: bool,
        rcode: Rcode,
    ) -> (r: Response)
        requires
            answer@.len() <= 0xFFFF,
            authority@.len() <= 0xFFFF,
            additional@.len() <= 0xFFFF,
        ensures
            r@ == spec_response(
                id,
                question@,
                records_view(answer@),
                records_view(authority@),
                records_view(additional@),
                tcp,
                rcode,
            ),
            r@.counts_match(),
            r@.fresh(),
            r.header.wf(),
            r.compress.wf(),
    {
        Response {
            compress: Compressed::new(tcp),
            header: response_header(
                id,
                answer.len(),
                authority.len(),
                additional.len(),
                tcp,
                false,
                rcode,
            ),
            question,
            answer: VecDNSRecord::from(answer),
            authority: VecDNSRecord::from(authority),
            additional: VecDNSRecord::from(additional),
        }
    }

    /// The response to `question` that carries no records and the response
    /// code `rcode`.
    pub fn from_rcode(id: u16, question: DNSQuestion, rcode: Rcode, tcp: bool) -> (r: Response)
        ensures
            r@ == spec_response(
                id,
                question@,
                Seq::empty(),
                Seq::empty(),
                Seq::empty(),
                tcp,
                rcode,
            ),
            r@.counts_match(),
            r@.fresh(),
            question.wf() ==> r.wf(),
    {
        let r = Response::new(id, question, Vec::new(), Vec::new(), Vec::new(), tcp, rcode);
        proof {
            assert(r@.answer =~= Seq::<RecordView>::empty());
            assert(r@.authority =~= Seq::<RecordView>::empty());
            assert(r@.additional =~= Seq::<RecordView>::empty());
        }
        r
    }

    /// The response that the zone `records` gives to `question`.
    pub fn build_from_record_iter(
        id: u16,
        question: DNSQuestion,
        records: &Records,
        tcp: bool,
    ) -> (r: Response)
        requires
            records.wf(),
            question.wf(),
        ensures
            r@ == spec_zone_response(id, question@, records@, tcp),
            r@.counts_match(),
            r@.fresh(),
            r.wf(),
    {
        let mut answer: Vec<DNSRecord> = Vec::new();
        let mut authority: Vec<DNSRecord> = Vec::new();
        let mut additional: Vec<DNSRecord> = Vec::new();
        let items: Vec<RecordItem<'_>> = records.query(&question.qname, &question.qtype);
        push_section(&mut answer, &items, ResponseSection::Answer);
        push_section(&mut authority, &items, ResponseSection::Authority);
        push_section(&mut additional, &items, ResponseSection::Additional);
        let ghost picked = spec_query(records@, question@.qname, question@.qtype);
        let ghost first = section_records(picked, ResponseSection::Additional);
        proof {
            assert(records_view(answer@) =~= section_records(picked, ResponseSection::Answer));
            assert(records_view(authority@) =~= section_records(
                picked,
                ResponseSection::Authority,
            ));
            assert(records_view(additional@) =~= first);
            lemma_query_wf(records@, question@.qname, question@.qtype);
            lemma_section_records_wf(picked, ResponseSection::Answer);
            lemma_section_records_wf(picked, ResponseSection::Authority);
            lemma_section_records_wf(picked, ResponseSection::Additional);
            assert(records_view(authority@).take(0) =~= Seq::<RecordView>::empty());
            assert(first + Seq::<RecordView>::empty() =~= first);
        }
        let mut i: usize = 0;
        while i < authority.len()
            invariant
                i <= authority@.len(),
                records.wf(),
                all_wf(first),
                records_view(additional@) == first + spec_glue(
                    records@,
                    records_view(authority@).take(i as int),
                ),
                all_wf(records_view(additional@)),
            decreases authority.len() - i,
        {
            let ghost before = records_view(additional@);
            let ghost glue = spec_glue(records@, records_view(authority@).take(i as int));
            proof {
                let next = records_view(authority@).take(i + 1);
                assert(next.drop_last() =~= records_view(authority@).take(i as int));
                assert(next.last() == authority@[i as int]@);
            }
            match authority[i].rdata.try_get_name() {
                Some(dnsname) => {
                    let found: Vec<RecordItem<'_>> = records.additional_section(dnsname);
                    push_section(&mut additional, &found, ResponseSection::Additional);
                    proof {
                        let more = section_records(
                            spec_additional(records@, dnsname@),
                            ResponseSection::Additional,
                        );
                        lemma_additional_wf(records@, dnsname@);
                        lemma_section_records_wf(
                            spec_additional(records@, dnsname@),
                            ResponseSection::Additional,
                        );
                        assert(before + more =~= first + (glue + more));
                    }
                },
                None => {},
            }
            i += 1;
        }
        proof {
            assert(records_view(authority@).take(i as int) =~= records_view(authority@));
        }
        if answer.len() > 0xFFFF || authority.len() > 0xFFFF || additional.len() > 0xFFFF {
            return Response::from_rcode(id, question, Rcode::ServerFailure, tcp);
        }
        let rcode: Rcode = if answer.len() == 0 && authority.len() == 0 && additional.len() == 0 {
            Rcode::NxDomain
        } else {
            Rcode::NoError
        };
        Response::new(id, question, answer, authority, additional, tcp, rcode)
    }

    /// Appends the response: the header, the question, and of each list as
    /// many records as the header counts. Names written are kept in the
    /// dictionary of the response.
    pub fn write(&mut self, out: &mut Vec<u8>)
        requires
            old(self).wf(),
        ensures
            final(out)@ == old(out)@ + spec_response_write(old(self)@, old(out)@.len() as int).0,
            final(self)@ == (ResponseView {
                dict: spec_response_write(old(self)@, old(out)@.len() as int).1,
                ..old(self)@
            }),
            final(self).wf(),
    {
        let ghost offset = old(out)@.len() as int;
        let ghost v = old(self)@;
        let ghost h = header_wire(v.header);
        let ghost (q, d1) = spec_question_write(v.question, v.dict, offset + h.len());
        let ghost (an, d2) = spec_records_write(
            first_records(v.answer, v.header.ancount),
            d1,
            offset + h.len() + q.len(),
        );
        let ghost (ns, d3) = spec_records_write(
            first_records(v.authority, v.header.nscount),
            d2,
            offset + h.len() + q.len() + an.len(),
        );
        let ghost (ar, d4) = spec_records_write(
            first_records(v.additional, v.header.arcount),
            d3,
            offset + h.len() + q.len() + an.len() + ns.len(),
        );
        self.header.write(out);
        self.question.write(out, &mut self.compress);
        proof {
            assert(out@ =~= old(out)@ + (h + q));
        }
        self.answer.write(out, &mut self.compress, self.header.ancount);
        proof {
            assert(out@ =~= old(out)@ + (h + q + an));
        }
        self.authority.write(out, &mut self.compress, self.header.nscount);
        proof {
            assert(out@ =~= old(out)@ + (h + q + an + ns));
        }
        self.additional.write(out, &mut self.compress, self.header.arcount);
        proof {
            assert(out@ =~= old(out)@ + (h + q + an + ns + ar));
        }
    }
}

} // verus!
