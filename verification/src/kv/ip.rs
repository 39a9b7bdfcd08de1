use vstd::prelude::*;
use crate::decimal::{decimal_byte, spec_decimal_byte};
use crate::dns::data::{RData, RDataView};
use crate::dns::header::Rcode;
use crate::dns::name::DNSName;
use crate::dns::question::{DNSQuestion, QuestionView};
use crate::dns::record::{DNSRecord, RecordView};
use crate::dns::response::{spec_response, Response, ResponseView};
use crate::dns::rtypes::RType;
use crate::kv::{owned_view, spec_items_response, OwnedRecordItem};
use crate::nameserver::records::ResponseSection;

verus! {

/// The router that answers for names that spell an address in front of
/// `ip.henryn.ca`.
#[derive(Debug)]
pub struct IPRouter {}

/// What the router makes of a name.
pub enum Route {
    /// The name is not below the router's suffix: others may answer.
    Defer,
    /// The name stands for this address.
    Address(Seq<u8>),
    /// The name is below the suffix and spells no address.
    Refuse,
}

/// The labels `ip`, `henryn`, `ca`, under which the router answers.
pub open spec fn ip_suffix() -> Seq<Seq<u8>> {
    seq![
        seq![105u8, 112u8],
        seq![104u8, 101u8, 110u8, 114u8, 121u8, 110u8],
        seq![99u8, 97u8],
    ]
}

/// The address that the suffix itself stands for.
pub open spec fn base_address() -> Seq<u8> {
    seq![10u8, 0u8, 0u8, 1u8]
}

/// Whether `qname` ends in the router's suffix.
pub open spec fn spec_recognizes(qname: Seq<Seq<u8>>) -> bool {
    qname.len() >= 3 && qname.skip(qname.len() - 3) == ip_suffix()
}

/// What the router makes of `qname`. The suffix alone stands for the base
/// address. Four labels in front of it, each a byte in base ten, stand for
/// the address of these bytes. Any other name below the suffix is refused.
pub open spec fn spec_route(qname: Seq<Seq<u8>>) -> Route {
    if !spec_recognizes(qname) {
        Route::Defer
    } else if qname.len() == 3 {
        Route::Address(base_address())
    } else if qname.len() != 7 {
        Route::Refuse
    } else {
        match (
            spec_decimal_byte(qname[0]),
            spec_decimal_byte(qname[1]),
            spec_decimal_byte(qname[2]),
            spec_decimal_byte(qname[3]),
        ) {
            (Some(a), Some(b), Some(c), Some(d)) => Route::Address(seq![a, b, c, d]),
            _ => Route::Refuse,
        }
    }
}

/// The address record that the router gives for `qname`.
pub open spec fn address_record(qname: Seq<Seq<u8>>, address: Seq<u8>) -> RecordView {
    RecordView {
        name: qname,
        rtype: RType::A,
        class: 1,
        ttl: 0,
        rdata: RDataView::Vec(address),
    }
}

/// The response of the router to `question`: one address record as the
/// answer where the name stands for an address, a refusal where it spells
/// none, and a name not found where the name is not the router's.
pub open spec fn spec_ip_response(id: u16, question: QuestionView, tcp: bool) -> ResponseView {
    match spec_route(question.qname) {
        Route::Defer => spec_items_response(Seq::empty(), id, question, tcp),
        Route::Address(address) => spec_items_response(
            seq![(address_record(question.qname, address), ResponseSection::Answer)],
            id,
            question,
            tcp,
        ),
        Route::Refuse => spec_response(
            id,
            question,
            Seq::empty(),
            Seq::empty(),
            Seq::empty(),
            tcp,
            Rcode::Refused,
        ),
    }
}

/// The response that carries one address record for the name of `question`.
fn address_response(id: u16, question: DNSQuestion, tcp: bool, address: Vec<u8>) -> (r: Response)
    requires
        question.wf(),
        address@.len() == 4,
    ensures
        r@ == spec_items_response(
            seq![(address_record(question@.qname, address@), ResponseSection::Answer)],
            id,
            question@,
            tcp,
        ),
        r@.counts_match(),
        r@.fresh(),
        r.wf(),
{
    let record = OwnedRecordItem {
        record: DNSRecord {
            name: question.qname.clone(),
            rtype: RType::A,
            class: 1,
            ttl: 0,
            rdata: RData::Vec(address),
        },
        section: ResponseSection::Answer,
    };
    let mut list: Vec<OwnedRecordItem> = Vec::new();
    list.push(record);
    proof {
        assert(owned_view(list@) =~= seq![
            (address_record(question@.qname, address@), ResponseSection::Answer),
        ]);
        assert(list@[0].record.wf());
    }
    OwnedRecordItem::build_response(list.as_slice(), id, question, tcp)
}

/// The response to `question` that refuses it.
fn refusal(id: u16, question: DNSQuestion, tcp: bool) -> (r: Response)
    requires
        question.wf(),
    ensures
        r@ == spec_response(
            id,
            question@,
            Seq::empty(),
            Seq::empty(),
            Seq::empty(),
            tcp,
            Rcode::Refused,
        ),
        r@.counts_match(),
        r@.fresh(),
        r.wf(),
{
    let mut response = OwnedRecordItem::empty(id, question, tcp);
    response.set_return_code(Rcode::Refused);
    response
}

impl IPRouter {
    /// Whether `qname` ends in `ip.henryn.ca`, so that the router answers
    /// for it.
    pub fn recognizes(qname: &DNSName) -> (r: bool)
        ensures
            r == spec_recognizes(qname@),
    {
        let n: usize = qname.len();
        if n < 3 {
            return false;
        }
        let ghost tail = qname@.skip(n - 3);
        proof {
            assert(tail[0] == qname.0@[n - 3]@);
            assert(tail[1] == qname.0@[n - 2]@);
            assert(tail[2] == qname.0@[n - 1]@);
        }
        let a: &Vec<u8> = &qname.0[n - 3];
        let b: &Vec<u8> = &qname.0[n - 2];
        let c: &Vec<u8> = &qname.0[n - 1];
        let ok: bool = a.len() == 2 && a[0] == 105 && a[1] == 112 && b.len() == 6 && b[0] == 104
            && b[1] == 101 && b[2] == 110 && b[3] == 114 && b[4] == 121 && b[5] == 110 && c.len()
            == 2 && c[0] == 99 && c[1] == 97;
        proof {
            let want = ip_suffix();
            if ok {
                assert(a@ =~= want[0]);
                assert(b@ =~= want[1]);
                assert(c@ =~= want[2]);
                assert(tail =~= want);
            } else {
                if tail == want {
                    assert(tail[0] == want[0] && tail[1] == want[1] && tail[2] == want[2]);
                    assert(want[0].len() == 2 && want[0][0] == 105 && want[0][1] == 112);
                    assert(want[1].len() == 6 && want[1][0] == 104 && want[1][1] == 101
                        && want[1][2] == 110 && want[1][3] == 114 && want[1][4] == 121
                        && want[1][5] == 110);
                    assert(want[2].len() == 2 && want[2][0] == 99 && want[2][1] == 97);
                }
            }
        }
        ok
    }

    /// Answers `question`: with the base address for `ip.henryn.ca` itself,
    /// with the address that four labels in front of it spell, with a refusal
    /// for any other name below it, and with a name not found for a name that
    /// is not below it.
    pub fn build_response(&mut self, id: u16, question: DNSQuestion, tcp: bool) -> (r: Response)
        requires
            question.wf(),
        ensures
            r@ == spec_ip_response(id, question@, tcp),
            r@.counts_match(),
            r@.fresh(),
            r.wf(),
    {
        if !IPRouter::recognizes(&question.qname) {
            return OwnedRecordItem::empty(id, question, tcp);
        }
        let n: usize = question.qname.len();
        if n == 3 {
            let mut base: Vec<u8> = Vec::new();
            base.push(10);
            base.push(0);
            base.push(0);
            base.push(1);
            proof {
                assert(base@ =~= base_address());
            }
            return address_response(id, question, tcp, base);
        }
        if n != 7 {
            return refusal(id, question, tcp);
        }
        proof {
            assert(question@.qname[0] == question.qname.0@[0]@);
            assert(question@.qname[1] == question.qname.0@[1]@);
            assert(question@.qname[2] == question.qname.0@[2]@);
            assert(question@.qname[3] == question.qname.0@[3]@);
        }
        let a: Option<u8> = decimal_byte(question.qname.0[0].as_slice());
        let b: Option<u8> = decimal_byte(question.qname.0[1].as_slice());
        let c: Option<u8> = decimal_byte(question.qname.0[2].as_slice());
        let d: Option<u8> = decimal_byte(question.qname.0[3].as_slice());
        match (a, b, c, d) {
            (Some(a), Some(b), Some(c), Some(d)) => {
                let mut address: Vec<u8> = Vec::new();
                address.push(a);
                address.push(b);
                address.push(c);
                address.push(d);
                proof {
                    assert(address@ =~= seq![a, b, c, d]);
                }
                address_response(id, question, tcp, address)
            },
            _ => refusal(id, question, tcp),
        }
    }
}

} // verus!
