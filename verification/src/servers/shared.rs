use vstd::prelude::*;
use crate::dns::compression::{Compressed, DictView};
use crate::dns::header::{
    header_wire, lemma_header_round_trip, lemma_header_wire_len, spec_read_header, DNSHeader,
    Rcode, TcpHeaderField,
};
use crate::dns::message_laws::{lemma_response_reads_back, lemma_response_write_keeps_setup};
use crate::dns::question::{spec_message_read, MessageView, Question, QuestionView};
use crate::dns::record::{all_wf, RecordView};
use crate::dns::response::{
    first_records, spec_response, spec_response_write, spec_zone_response, Response,
    ResponseView,
};
use crate::dns::wire::{be16, be16_value, lemma_be16_round_trip};
use crate::kv::ip::{spec_ip_response, spec_recognizes, IPRouter};
use crate::kv::{spec_kv_response, spec_kv_store_after, KvStore};
use crate::nameserver::records::Records;

verus! {

/// What the server answers from, and how it is set up.
#[derive(Debug)]
pub struct AppData {
    /// The zone.
    pub records: Records,
    /// The key/value plane.
    pub kv: KvStore,
    /// Whether the key/value plane answers in place of the zone and the
    /// address router.
    pub use_kv: bool,
    /// Whether names in responses may be written as pointers.
    pub compression: bool,
}

/// The response cut down for a datagram that would be too long: marked as
/// truncated, with no records counted and no names remembered.
pub open spec fn truncated_view(r: ResponseView) -> ResponseView {
    ResponseView {
        dict: r.dict.clear(),
        header: DNSHeader { tc: 1, ancount: 0, nscount: 0, arcount: 0, ..r.header },
        ..r
    }
}

/// The response with `total` in the length field of its header.
pub open spec fn framed_view(r: ResponseView, total: u16) -> ResponseView {
    ResponseView {
        header: DNSHeader { tcp_header_field: TcpHeaderField(Some(total)), ..r.header },
        ..r
    }
}

/// The bytes that go out for a response. On a stream, the length field holds
/// the number of bytes behind it; a message too long for the field to say so
/// is not sent at all. On a datagram, a message of more than 512 bytes that
/// is not yet marked as truncated is sent marked so and without its records;
/// any other goes out as it is.
pub open spec fn spec_emit(r: ResponseView) -> Seq<u8> {
    let first = spec_response_write(r, 0).0;
    if r.header.tcp_header_field.0 is Some {
        if first.len() - 2 > 0xFFFF {
            Seq::empty()
        } else {
            spec_response_write(framed_view(r, (first.len() - 2) as u16), 0).0
        }
    } else if first.len() > 512 && r.header.tc == 0 {
        spec_response_write(truncated_view(r), 0).0
    } else {
        first
    }
}

/// What the bytes that go out for a response mean: the response itself with
/// the length of the message in its length field on a stream; the response
/// marked as truncated and without records for a datagram that would be too
/// long; the response itself otherwise.
pub open spec fn spec_emitted_message(r: ResponseView) -> MessageView {
    let first = spec_response_write(r, 0).0;
    if r.header.tcp_header_field.0 is Some {
        MessageView {
            header: framed_view(r, (first.len() - 2) as u16).header,
            question: r.question,
            answer: r.answer,
            authority: r.authority,
            additional: r.additional,
        }
    } else if first.len() > 512 && r.header.tc == 0 {
        MessageView {
            header: truncated_view(r).header,
            question: r.question,
            answer: Seq::empty(),
            authority: Seq::empty(),
            additional: Seq::empty(),
        }
    } else {
        MessageView {
            header: r.header,
            question: r.question,
            answer: r.answer,
            authority: r.authority,
            additional: r.additional,
        }
    }
}

/// Whether `response` is a message that answers the request `request`: a
/// response with the identifier and the question of the request, whose
/// header counts exactly the records that follow.
pub open spec fn answers(request: MessageView, response: MessageView) -> bool {
    &&& response.header.qr == 1
    &&& response.header.id == request.header.id
    &&& response.question == request.question
    &&& response.header.qdcount == 1
    &&& response.header.ancount == response.answer.len()
    &&& response.header.nscount == response.authority.len()
    &&& response.header.arcount == response.additional.len()
}

/// The response to a question: not implemented for a type this server has
/// no name for; else from the key/value plane where it is switched on; else
/// from the address router for the names below its suffix, and from the zone
/// for all others.
pub open spec fn spec_resolve(
    zone: Seq<RecordView>,
    store: Map<Seq<u8>, Seq<u8>>,
    use_kv: bool,
    id: u16,
    question: QuestionView,
    tcp: bool,
) -> ResponseView {
    if question.qtype is Unknown {
        spec_response(
            id,
            question,
            Seq::empty(),
            Seq::empty(),
            Seq::empty(),
            tcp,
            Rcode::NotImplemented,
        )
    } else if use_kv {
        spec_kv_response(store, id, question, tcp)
    } else if spec_recognizes(question.qname) {
        spec_ip_response(id, question, tcp)
    } else {
        spec_zone_response(id, question, zone, tcp)
    }
}

/// The key/value plane after a question.
pub open spec fn spec_store_after(
    store: Map<Seq<u8>, Seq<u8>>,
    use_kv: bool,
    question: QuestionView,
) -> Map<Seq<u8>, Seq<u8>> {
    if use_kv && !(question.qtype is Unknown) {
        spec_kv_store_after(store, question.qname, question.qtype)
    } else {
        store
    }
}

/// The bytes that answer the request `data`, and the key/value plane
/// afterwards. A request that cannot be read gets no answer.
pub open spec fn spec_handle(
    zone: Seq<RecordView>,
    store: Map<Seq<u8>, Seq<u8>>,
    use_kv: bool,
    compression: bool,
    data: Seq<u8>,
    tcp: bool,
) -> (Seq<u8>, Map<Seq<u8>, Seq<u8>>) {
    match spec_message_read(data, tcp) {
        None => (Seq::empty(), store),
        Some(m) => {
            let response = spec_resolve(zone, store, use_kv, m.header.id, m.question, tcp);
            let dict = DictView { pointers: Map::empty(), is_tcp: tcp, enabled: compression };
            (
                spec_emit(ResponseView { dict, ..response }),
                spec_store_after(store, use_kv, m.question),
            )
        },
    }
}

/// What goes out on a stream is nothing, or starts with the number of bytes
/// that follow its first two. What goes out as a datagram for a response not
/// yet marked as truncated has at most 512 bytes, or is marked as truncated
/// and counts no records.
pub proof fn lemma_emit_framing(r: ResponseView)
    requires
        r.header.wf(),
    ensures
        r.header.tcp_header_field.0 is Some ==> spec_emit(r).len() == 0 || (spec_emit(r).len() >= 2
            && be16_value(spec_emit(r)[0], spec_emit(r)[1]) == spec_emit(r).len() - 2),
        (r.header.tcp_header_field.0 is None && r.header.tc == 0) ==> spec_emit(r).len() <= 512
            || (spec_read_header(spec_emit(r), false) matches Some((h, _)) && h.tc == 1
            && h.ancount == 0 && h.nscount == 0 && h.arcount == 0),
{
    let first = spec_response_write(r, 0).0;
    lemma_header_wire_len(r.header);
    if r.header.tcp_header_field.0 is Some {
        if first.len() - 2 <= 0xFFFF {
            let total = (first.len() - 2) as u16;
            let f = framed_view(r, total);
            lemma_header_wire_len(f.header);
            let out = spec_response_write(f, 0).0;
            assert(out.len() == first.len());
            lemma_be16_round_trip(total);
            let hw = header_wire(f.header);
            assert(hw[0] == be16(total)[0] && hw[1] == be16(total)[1]);
            assert(out[0] == hw[0] && out[1] == hw[1]);
        }
    } else if first.len() > 512 && r.header.tc == 0 {
        let t = truncated_view(r);
        let out = spec_response_write(t, 0).0;
        let hw = header_wire(t.header);
        let rest = out.skip(hw.len() as int);
        assert(out =~= hw + rest);
        lemma_header_round_trip(t.header, rest);
    }
}

/// What goes out for a fresh response whose header counts its records is
/// read back as what it means. Only a response too long for the length field
/// of a stream gives no bytes at all.
pub proof fn lemma_emit_reads_back(r: ResponseView)
    requires
        r.header.wf(),
        r.question.wf(),
        all_wf(r.answer),
        all_wf(r.authority),
        all_wf(r.additional),
        r.counts_match(),
        r.fresh(),
    ensures
        spec_emit(r).len() == 0 <==> (r.header.tcp_header_field.0 is Some && spec_response_write(
            r,
            0,
        ).0.len() - 2 > 0xFFFF),
        spec_emit(r).len() > 0 ==> spec_message_read(spec_emit(r), r.dict.is_tcp) == Some(
            spec_emitted_message(r),
        ),
{
    let first = spec_response_write(r, 0).0;
    lemma_header_wire_len(r.header);
    assert(first_records(r.answer, r.header.ancount) =~= r.answer);
    assert(first_records(r.authority, r.header.nscount) =~= r.authority);
    assert(first_records(r.additional, r.header.arcount) =~= r.additional);
    if r.header.tcp_header_field.0 is Some {
        if first.len() - 2 <= 0xFFFF {
            let f = framed_view(r, (first.len() - 2) as u16);
            lemma_header_wire_len(f.header);
            lemma_response_reads_back(f);
        }
    } else if first.len() > 512 && r.header.tc == 0 {
        let t = truncated_view(r);
        lemma_header_wire_len(t.header);
        assert(first_records(t.answer, 0) =~= Seq::<RecordView>::empty());
        assert(first_records(t.authority, 0) =~= Seq::<RecordView>::empty());
        assert(first_records(t.additional, 0) =~= Seq::<RecordView>::empty());
        lemma_response_reads_back(t);
    } else {
        lemma_response_reads_back(r);
    }
}

/// Writes `src` over the first bytes of `out`.
pub fn overwrite_front(out: &mut Vec<u8>, src: &[u8])
    requires
        src@.len() <= old(out)@.len(),
    ensures
        final(out)@ == src@ + old(out)@.skip(src@.len() as int),
{
    let mut i: usize = 0;
    while i < src.len()
        invariant
            i <= src@.len() <= out@.len(),
            out@.len() == old(out)@.len(),
            forall|j: int| 0 <= j < i ==> out@[j] == src@[j],
            forall|j: int| i <= j < out@.len() ==> out@[j] == old(out)@[j],
        decreases src.len() - i,
    {
        out.set(i, src[i]);
        i += 1;
    }
    assert(out@ =~= src@ + old(out)@.skip(src@.len() as int));
}

/// Turns a response into the bytes that go out, with the length field set
/// on a stream and the truncation rule applied on a datagram.
pub fn emit(response: Response) -> (r: Vec<u8>)
    requires
        response.wf(),
    ensures
        r@ == spec_emit(response@),
        response.header.tcp_header_field.0 is Some ==> r@.len() == 0 || (r@.len() >= 2
            && be16_value(r@[0], r@[1]) == r@.len() - 2),
        (response.header.tcp_header_field.0 is None && response.header.tc == 0) ==> r@.len() <= 512
            || (spec_read_header(r@, false) matches Some((h, _)) && h.tc == 1 && h.ancount == 0
            && h.nscount == 0 && h.arcount == 0),
        (response@.counts_match() && response@.fresh() && r@.len() > 0) ==> spec_message_read(
            r@,
            response.compress.is_tcp,
        ) == Some(spec_emitted_message(response@)),
{
    let mut response = response;
    let ghost v = response@;
    let mut out: Vec<u8> = Vec::new();
    proof {
        if v.counts_match() && v.fresh() {
            response.compress.lemma_view_wf();
            lemma_emit_reads_back(v);
        }
        lemma_emit_framing(v);
        lemma_response_write_keeps_setup(v, 0);
        lemma_header_wire_len(v.header);
    }
    response.write(&mut out);
    let ghost first = out@;
    proof {
        assert(first =~= spec_response_write(v, 0).0);
    }
    let offset: usize = response.header.message_len_offset();
    let total: usize = out.len() - offset;
    if response.header.tcp_header_field.is_tcp() {
        if total > 0xFFFF {
            return Vec::new();
        }
        let _ = response.header.update_from_total_msg_len(total as u16);
        let mut front: Vec<u8> = Vec::new();
        response.header.write(&mut front);
        proof {
            lemma_header_wire_len(response.header);
            assert(front@ =~= header_wire(response.header));
        }
        overwrite_front(&mut out, front.as_slice());
        proof {
            let f = framed_view(v, total as u16);
            assert(response.header == f.header);
            let body = first.skip(header_wire(v.header).len() as int);
            assert(first =~= header_wire(v.header) + body);
            assert(spec_response_write(f, 0).0 =~= header_wire(f.header) + body);
            assert(out@ =~= spec_response_write(f, 0).0);
        }
        out
    } else {
        let capped: u16 = if total > 0xFFFF {
            0xFFFF
        } else {
            total as u16
        };
        let updated: bool = response.header.update_from_total_msg_len(capped);
        if updated {
            response.clear();
            response.header.ancount = 0;
            response.header.nscount = 0;
            response.header.arcount = 0;
            proof {
                assert(response@.dict == truncated_view(v).dict);
                assert(response@.header == truncated_view(v).header);
                assert(response@ == truncated_view(v));
            }
            let mut cut: Vec<u8> = Vec::new();
            response.write(&mut cut);
            proof {
                assert(cut@ =~= spec_response_write(truncated_view(v), 0).0);
            }
            cut
        } else {
            out
        }
    }
}

/// The response to the question of a request.
pub fn resolve(ad: &mut AppData, request: Question, tcp: bool) -> (r: Response)
    requires
        old(ad).records.wf(),
        old(ad).kv.wf(),
        request.question.wf(),
    ensures
        r@ == spec_resolve(
            old(ad).records@,
            old(ad).kv@,
            old(ad).use_kv,
            request.header.id,
            request.question@,
            tcp,
        ),
        r.wf(),
        r@.counts_match(),
        r@.fresh(),
        r.compress.is_tcp == tcp,
        r.header.id == request.header.id,
        r.header.qr == 1,
        r.header.qdcount == 1,
        r.header.tc == 0,
        final(ad).kv@ == spec_store_after(old(ad).kv@, old(ad).use_kv, request.question@),
        final(ad).kv.wf(),
        final(ad).records == old(ad).records,
        final(ad).use_kv == old(ad).use_kv,
        final(ad).compression == old(ad).compression,
{
    let id: u16 = request.header.id;
    let question = request.question;
    if question.qtype.is_unknown() {
        Response::from_rcode(id, question, Rcode::NotImplemented, tcp)
    } else if ad.use_kv {
        ad.kv.build_response(id, question, tcp)
    } else if IPRouter::recognizes(&question.qname) {
        let mut router = IPRouter {  };
        router.build_response(id, question, tcp)
    } else {
        Response::build_from_record_iter(id, question, &ad.records, tcp)
    }
}

/// Answers one request: reads it, finds the response, and turns the
/// response into the bytes that go out. A request that cannot be read gets
/// no bytes back.
pub fn handle_dns_packet1(ad: &mut AppData, data: &[u8], tcp: bool) -> (r: Vec<u8>)
    requires
        old(ad).records.wf(),
        old(ad).kv.wf(),
    ensures
        r@ == spec_handle(
            old(ad).records@,
            old(ad).kv@,
            old(ad).use_kv,
            old(ad).compression,
            data@,
            tcp,
        ).0,
        final(ad).kv@ == spec_handle(
            old(ad).records@,
            old(ad).kv@,
            old(ad).use_kv,
            old(ad).compression,
            data@,
            tcp,
        ).1,
        final(ad).kv.wf(),
        final(ad).records == old(ad).records,
        final(ad).use_kv == old(ad).use_kv,
        final(ad).compression == old(ad).compression,
        tcp ==> r@.len() == 0 || (r@.len() >= 2 && be16_value(r@[0], r@[1]) == r@.len() - 2),
        !tcp ==> r@.len() <= 512 || (spec_read_header(r@, false) matches Some((h, _)) && h.tc == 1
            && h.ancount == 0 && h.nscount == 0 && h.arcount == 0),
        r@.len() > 0 ==> (spec_message_read(data@, tcp) matches Some(request) && (
        spec_message_read(r@, tcp) matches Some(response) && answers(request, response))),
{
    let request: Question = match Question::read(data, tcp) {
        Ok(q) => q,
        Err(_) => {
            return Vec::new();
        },
    };
    let compression: bool = ad.compression;
    let mut response: Response = resolve(ad, request, tcp);
    response.compress = Compressed::with_compression(tcp, compression);
    emit(response)
}

} // verus!
