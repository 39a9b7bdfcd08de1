use vstd::prelude::*;
use crate::dns::compression::DictView;
use crate::dns::data::{spec_rdata_read, spec_rdata_write, RDataView};
use crate::dns::header::{
    header_wire, lemma_header_round_trip, lemma_header_wire_len, spec_read_header,
};
use crate::dns::labels::{
    counted_wire, lemma_counted_round_trip, spec_counted_at, spec_label_at, LabelView,
};
use crate::dns::name::labels_fit_wire;
use crate::dns::name_laws::{
    dict_matches, lemma_decode_extends, lemma_packed_len, lemma_written_name_reads_back,
};
use crate::dns::name_wire::{decode_name, name_wire, pointer_limit, spec_name_write};
use crate::dns::question::{
    spec_message_read, spec_question_read, spec_question_write, MessageView, QuestionView,
};
use crate::dns::record::{
    all_wf, spec_record_read, spec_record_write, spec_records_read, spec_records_write,
    RecordView,
};
use crate::dns::record_text::lemma_concat_front;
use crate::dns::response::{first_records, spec_response_write, ResponseView};
use crate::dns::rtypes::{reads_as_itself, spec_from_int, spec_to_int, RType};
use crate::dns::text::{concat_all, spec_strings_at, text_wire};
use crate::dns::wire::{
    be16, be32, lemma_be16_round_trip, lemma_be32_round_trip, spec_read_u16, spec_read_u32,
};

verus! {

/// Whether the dictionary fits the message written so far: its offsets fit a
/// pointer, and each name it knows stands in full at its offset of `msg`.
/// `msg` is the message without the length bytes of a stream.
#[verifier::opaque]
pub open spec fn in_step(msg: Seq<u8>, dict: DictView) -> bool {
    dict.wf() && dict_matches(msg, dict.pointers)
}

/// Writing a name leaves the setup of the dictionary as it was.
pub proof fn lemma_name_write_keeps_setup(
    labels: Seq<Seq<u8>>,
    dict: DictView,
    offset: int,
    rtype: RType,
)
    ensures
        spec_name_write(labels, dict, offset, rtype).1.is_tcp == dict.is_tcp,
        spec_name_write(labels, dict, offset, rtype).1.enabled == dict.enabled,
{
}

/// Writing a record leaves the setup of the dictionary as it was.
pub proof fn lemma_record_write_keeps_setup(rec: RecordView, dict: DictView, offset: int)
    ensures
        spec_record_write(rec, dict, offset).1.is_tcp == dict.is_tcp,
        spec_record_write(rec, dict, offset).1.enabled == dict.enabled,
{
    let (owner, d1) = spec_name_write(rec.name, dict, offset, rec.rtype);
    lemma_name_write_keeps_setup(rec.name, dict, offset, rec.rtype);
    match rec.rdata {
        RDataView::Name(n) => {
            lemma_name_write_keeps_setup(n, d1, offset + owner.len() + 8 + 2, rec.rtype);
        },
        _ => {},
    }
}

/// Writing records leaves the setup of the dictionary as it was.
pub proof fn lemma_records_write_keeps_setup(records: Seq<RecordView>, dict: DictView, offset: int)
    ensures
        spec_records_write(records, dict, offset).1.is_tcp == dict.is_tcp,
        spec_records_write(records, dict, offset).1.enabled == dict.enabled,
    decreases records.len(),
{
    if records.len() > 0 {
        lemma_records_write_keeps_setup(records.drop_last(), dict, offset);
        let (w0, d0) = spec_records_write(records.drop_last(), dict, offset);
        lemma_record_write_keeps_setup(records.last(), d0, offset + w0.len());
    }
}

/// Writing a response leaves the setup of the dictionary as it was.
pub proof fn lemma_response_write_keeps_setup(r: ResponseView, offset: int)
    ensures
        spec_response_write(r, offset).1.is_tcp == r.dict.is_tcp,
        spec_response_write(r, offset).1.enabled == r.dict.enabled,
{
    let h = header_wire(r.header);
    let (q, d1) = spec_question_write(r.question, r.dict, offset + h.len());
    lemma_name_write_keeps_setup(r.question.qname, r.dict, offset + h.len(), r.question.qtype);
    let (an, d2) = spec_records_write(
        first_records(r.answer, r.header.ancount),
        d1,
        offset + h.len() + q.len(),
    );
    lemma_records_write_keeps_setup(
        first_records(r.answer, r.header.ancount),
        d1,
        offset + h.len() + q.len(),
    );
    let (ns, d3) = spec_records_write(
        first_records(r.authority, r.header.nscount),
        d2,
        offset + h.len() + q.len() + an.len(),
    );
    lemma_records_write_keeps_setup(
        first_records(r.authority, r.header.nscount),
        d2,
        offset + h.len() + q.len() + an.len(),
    );
    lemma_records_write_keeps_setup(
        first_records(r.additional, r.header.arcount),
        d3,
        offset + h.len() + q.len() + an.len() + ns.len(),
    );
}

/// A dictionary that fits a message fits the message with more bytes behind
/// it.
pub proof fn lemma_in_step_extends(msg: Seq<u8>, more: Seq<u8>, dict: DictView)
    requires
        in_step(msg, dict),
    ensures
        in_step(msg + more, dict),
{
    reveal(in_step);
    assert forall|name: Seq<Seq<u8>>| #[trigger] dict.pointers.contains_key(name) implies (
    decode_name(msg + more, dict.pointers[name] as int, 0) matches Some((l, _)) && l == name) by {
        lemma_decode_extends(msg, more, dict.pointers[name] as int, 0);
    }
}

/// The bytes of a 16-bit number that stand at `pos` are read as the number.
pub proof fn lemma_read_u16_at(msg: Seq<u8>, pos: int, v: u16)
    requires
        0 <= pos,
        pos + 2 <= msg.len(),
        msg.subrange(pos, pos + 2) == be16(v),
    ensures
        spec_read_u16(msg, pos) == Some(v),
{
    let w = msg.subrange(pos, pos + 2);
    assert(w[0] == msg[pos] && w[1] == msg[pos + 1]);
    lemma_be16_round_trip(v);
}

/// The bytes of a 32-bit number that stand at `pos` are read as the number.
pub proof fn lemma_read_u32_at(msg: Seq<u8>, pos: int, v: u32)
    requires
        0 <= pos,
        pos + 4 <= msg.len(),
        msg.subrange(pos, pos + 4) == be32(v),
    ensures
        spec_read_u32(msg, pos) == Some(v),
{
    let w = msg.subrange(pos, pos + 4);
    assert(w[0] == msg[pos] && w[1] == msg[pos + 1] && w[2] == msg[pos + 2] && w[3] == msg[pos
        + 3]);
    lemma_be32_round_trip(v);
}

/// Counted strings found in a message are found in the same message with
/// more bytes behind it.
pub proof fn lemma_strings_extend(msg: Seq<u8>, more: Seq<u8>, pos: int, end: int)
    requires
        spec_strings_at(msg, pos, end) is Some,
    ensures
        spec_strings_at(msg + more, pos, end) == spec_strings_at(msg, pos, end),
    decreases end - pos,
{
    if pos < end {
        let long = msg + more;
        let (content, next) = spec_counted_at(msg, pos).unwrap();
        assert(long[pos] == msg[pos]);
        assert(long.subrange(pos + 1, next) =~= msg.subrange(pos + 1, next));
        lemma_strings_extend(msg, more, next, end);
    }
}

/// The data of a record found in a message is found in the same message
/// with more bytes behind it.
pub proof fn lemma_rdata_read_extends(msg: Seq<u8>, more: Seq<u8>, pos: int, rtype: RType)
    requires
        spec_rdata_read(msg, pos, rtype) is Some,
    ensures
        spec_rdata_read(msg + more, pos, rtype) == spec_rdata_read(msg, pos, rtype),
{
    let long = msg + more;
    let len = spec_read_u16(msg, pos).unwrap();
    assert(long[pos] == msg[pos] && long[pos + 1] == msg[pos + 1]);
    let start = pos + 2;
    let end = start + len;
    if rtype == RType::CNAME || rtype == RType::NS {
        lemma_decode_extends(msg, more, start, pointer_limit());
    } else if rtype == RType::TXT {
        lemma_strings_extend(msg, more, start, end);
    } else {
        assert(long.subrange(start, end) =~= msg.subrange(start, end));
    }
}

/// A record found in a message is found in the same message with more bytes
/// behind it.
pub proof fn lemma_record_read_extends(msg: Seq<u8>, more: Seq<u8>, pos: int)
    requires
        spec_record_read(msg, pos) is Some,
    ensures
        spec_record_read(msg + more, pos) == spec_record_read(msg, pos),
{
    let long = msg + more;
    lemma_decode_extends(msg, more, pos, pointer_limit());
    let (name, pos1) = decode_name(msg, pos, pointer_limit()).unwrap();
    lemma_decode_end(msg, pos, pointer_limit());
    assert forall|i: int| pos1 <= i < pos1 + 8 implies long[i] == msg[i] by {}
    let rtype = spec_from_int(spec_read_u16(msg, pos1).unwrap());
    lemma_rdata_read_extends(msg, more, pos1 + 8, rtype);
}

/// A name that is read ends behind where it starts.
pub proof fn lemma_decode_end(msg: Seq<u8>, pos: int, hops: nat)
    requires
        decode_name(msg, pos, hops) is Some,
    ensures
        0 <= pos < decode_name(msg, pos, hops).unwrap().1 <= msg.len(),
    decreases hops, msg.len() - pos,
{
    match spec_label_at(msg, pos) {
        Some((LabelView::Regular(content), next)) => {
            if content.len() > 0 {
                lemma_decode_end(msg, next, hops);
            }
        },
        _ => {},
    }
}

/// Records found in a message are found in the same message with more bytes
/// behind it.
pub proof fn lemma_records_read_extends(msg: Seq<u8>, more: Seq<u8>, pos: int, count: nat)
    requires
        spec_records_read(msg, pos, count) is Some,
    ensures
        spec_records_read(msg + more, pos, count) == spec_records_read(msg, pos, count),
    decreases count,
{
    if count > 0 {
        lemma_record_read_extends(msg, more, pos);
        let (first, next) = spec_record_read(msg, pos).unwrap();
        lemma_records_read_extends(msg, more, next, (count - 1) as nat);
    }
}

/// Reading some records and then one more is reading one more record.
pub proof fn lemma_records_read_append(
    msg: Seq<u8>,
    pos: int,
    count: nat,
    records: Seq<RecordView>,
    mid: int,
    last: RecordView,
    end: int,
)
    requires
        spec_records_read(msg, pos, count) == Some((records, mid)),
        spec_record_read(msg, mid) == Some((last, end)),
    ensures
        spec_records_read(msg, pos, count + 1) == Some((records.push(last), end)),
    decreases count,
{
    if count == 0 {
        assert(spec_records_read(msg, end, 0) == Some((Seq::<RecordView>::empty(), end)));
        assert(seq![last] + Seq::<RecordView>::empty() =~= records.push(last));
        assert((count + 1 - 1) as nat == 0);
    } else {
        let (first, next) = spec_record_read(msg, pos).unwrap();
        let (rest, _) = spec_records_read(msg, next, (count - 1) as nat).unwrap();
        lemma_records_read_append(msg, next, (count - 1) as nat, rest, mid, last, end);
        assert(((count - 1) as nat + 1) as nat == count);
        assert((count + 1 - 1) as nat == count);
        assert(seq![first] + rest.push(last) =~= (seq![first] + rest).push(last));
    }
}

/// Text that stands on the wire at `pos` is read as counted strings that,
/// joined, are the text.
pub proof fn lemma_text_reads_back(msg: Seq<u8>, pos: int, t: Seq<u8>)
    requires
        0 <= pos,
        pos + text_wire(t).len() <= msg.len(),
        msg.subrange(pos, pos + text_wire(t).len()) == text_wire(t),
    ensures
        spec_strings_at(msg, pos, pos + text_wire(t).len()) matches Some(strings) && concat_all(
            strings,
        ) == t,
    decreases t.len(),
{
    let w = text_wire(t);
    let here = msg.subrange(pos, pos + w.len());
    let end = pos + w.len();
    let none = Seq::<Seq<u8>>::empty();
    assert(concat_all(none) =~= Seq::<u8>::empty());
    if t.len() <= 255 {
        lemma_counted_round_trip(msg, pos, t);
        assert(spec_strings_at(msg, end, end) == Some(none));
        lemma_concat_front(t, none);
        assert(t + Seq::<u8>::empty() =~= t);
    } else {
        let first = t.take(255);
        let rest = t.skip(255);
        let step = counted_wire(first);
        let tail = text_wire(rest);
        assert(w =~= step + tail);
        assert(msg.subrange(pos, pos + step.len()) =~= step) by {
            assert forall|i: int| 0 <= i < step.len() implies msg[pos + i] == step[i] by {
                assert(here[i] == msg[pos + i]);
            }
        }
        lemma_counted_round_trip(msg, pos, first);
        let next = pos + 256;
        assert(msg.subrange(next, next + tail.len()) =~= tail) by {
            assert forall|i: int| 0 <= i < tail.len() implies msg[next + i] == tail[i] by {
                assert(here[256 + i] == msg[next + i]);
            }
        }
        lemma_text_reads_back(msg, next, rest);
        let more = spec_strings_at(msg, next, end).unwrap();
        lemma_concat_front(first, more);
        assert(first + rest =~= t);
    }
}

/// Plain bytes that are written behind their length are read back.
pub proof fn lemma_plain_rdata_reads_back(msg: Seq<u8>, v: Seq<u8>, rtype: RType)
    requires
        v.len() <= 0xFFFF,
        RDataView::Vec(v).fits(rtype),
    ensures
        spec_rdata_read(msg + (be16(v.len() as u16) + v), msg.len() as int, rtype) == Some(
            (RDataView::Vec(v), (msg.len() + 2 + v.len()) as int),
        ),
{
    let count = be16(v.len() as u16);
    let long = msg + (count + v);
    let pos = msg.len() as int;
    assert(long.subrange(pos, pos + 2) =~= count);
    lemma_read_u16_at(long, pos, v.len() as u16);
    assert(long.subrange(pos + 2, pos + 2 + v.len()) =~= v);
}

/// Text that is written behind its length is read back.
pub proof fn lemma_text_rdata_reads_back(msg: Seq<u8>, t: Seq<u8>)
    requires
        text_wire(t).len() <= 0xFFFF,
    ensures
        spec_rdata_read(
            msg + (be16(text_wire(t).len() as u16) + text_wire(t)),
            msg.len() as int,
            RType::TXT,
        ) == Some((RDataView::Text(t), (msg.len() + 2 + text_wire(t).len()) as int)),
{
    let body = text_wire(t);
    let count = be16(body.len() as u16);
    let long = msg + (count + body);
    let pos = msg.len() as int;
    assert(long.subrange(pos, pos + 2) =~= count);
    lemma_read_u16_at(long, pos, body.len() as u16);
    assert(long.subrange(pos + 2, pos + 2 + body.len()) =~= body);
    lemma_text_reads_back(long, pos + 2, t);
}

/// A name that is written behind its length, as the data of a record whose
/// type carries a name, is read back, and the dictionary afterwards fits the
/// message.
pub proof fn lemma_name_rdata_reads_back(
    msg: Seq<u8>,
    dict: DictView,
    n: Seq<Seq<u8>>,
    rtype: RType,
)
    requires
        in_step(msg, dict),
        labels_fit_wire(n),
        name_wire(n).len() <= 0xFFFF,
        rtype == RType::CNAME || rtype == RType::NS,
    ensures
        ({
            let (body, after) = spec_name_write(n, dict, dict.prefix_len() + msg.len() + 2, rtype);
            let w = be16(body.len() as u16) + body;
            &&& spec_rdata_read(msg + w, msg.len() as int, rtype) == Some(
                (RDataView::Name(n), (msg.len() + w.len()) as int),
            )
            &&& in_step(msg + w, after)
        }),
{
    let (body, after) = spec_name_write(n, dict, dict.prefix_len() + msg.len() + 2, rtype);
    let count = be16(body.len() as u16);
    let long = msg + (count + body);
    let pos = msg.len() as int;
    assert(dict.wf()) by {
        reveal(in_step);
    }
    lemma_packed_len(n, dict.pointers);
    assert(long.subrange(pos, pos + 2) =~= count);
    lemma_read_u16_at(long, pos, body.len() as u16);
    let front = msg + count;
    lemma_in_step_extends(msg, count, dict);
    lemma_written_name_reads_back_before(front, dict, n, rtype, Seq::empty());
    assert(front + body + Seq::<u8>::empty() =~= long);
}

/// The data of a record that is written behind a message is read back as it
/// was, and the dictionary afterwards fits the message.
pub proof fn lemma_rdata_reads_back(msg: Seq<u8>, dict: DictView, rdata: RDataView, rtype: RType)
    requires
        in_step(msg, dict),
        rdata.wf(),
        rdata.fits(rtype),
    ensures
        ({
            let (w, after) = spec_rdata_write(rdata, dict, dict.prefix_len() + msg.len(), rtype);
            &&& spec_rdata_read(msg + w, msg.len() as int, rtype) == Some(
                (rdata, (msg.len() + w.len()) as int),
            )
            &&& in_step(msg + w, after)
        }),
{
    match rdata {
        RDataView::Vec(v) => {
            lemma_plain_rdata_reads_back(msg, v, rtype);
            lemma_in_step_extends(msg, be16(v.len() as u16) + v, dict);
        },
        RDataView::Name(n) => {
            lemma_name_rdata_reads_back(msg, dict, n, rtype);
        },
        RDataView::Text(t) => {
            lemma_text_rdata_reads_back(msg, t);
            lemma_in_step_extends(msg, be16(text_wire(t).len() as u16) + text_wire(t), dict);
        },
    }
}

/// A name, eight bytes of type, class and time to live, and data that are
/// read one behind the other are read as one record.
pub proof fn lemma_record_parts(long: Seq<u8>, pos: int, rec: RecordView, pos1: int, end: int)
    requires
        decode_name(long, pos, pointer_limit()) == Some((rec.name, pos1)),
        0 <= pos1,
        pos1 + 8 <= long.len(),
        long.subrange(pos1, pos1 + 8) == be16(spec_to_int(rec.rtype)) + be16(rec.class) + be32(
            rec.ttl,
        ),
        reads_as_itself(rec.rtype),
        spec_rdata_read(long, pos1 + 8, rec.rtype) == Some((rec.rdata, end)),
    ensures
        spec_record_read(long, pos) == Some((rec, end)),
{
    let fixed = long.subrange(pos1, pos1 + 8);
    assert(long.subrange(pos1, pos1 + 2) =~= be16(spec_to_int(rec.rtype))) by {
        assert forall|i: int| 0 <= i < 2 implies long[pos1 + i] == be16(spec_to_int(rec.rtype))[i] by {
            assert(fixed[i] == long[pos1 + i]);
        }
    }
    assert(long.subrange(pos1 + 2, pos1 + 4) =~= be16(rec.class)) by {
        assert forall|i: int| 0 <= i < 2 implies long[pos1 + 2 + i] == be16(rec.class)[i] by {
            assert(fixed[2 + i] == long[pos1 + 2 + i]);
        }
    }
    assert(long.subrange(pos1 + 4, pos1 + 8) =~= be32(rec.ttl)) by {
        assert forall|i: int| 0 <= i < 4 implies long[pos1 + 4 + i] == be32(rec.ttl)[i] by {
            assert(fixed[4 + i] == long[pos1 + 4 + i]);
        }
    }
    lemma_read_u16_at(long, pos1, spec_to_int(rec.rtype));
    lemma_read_u16_at(long, pos1 + 2, rec.class);
    lemma_read_u32_at(long, pos1 + 4, rec.ttl);
}

/// A name that is written behind a message is read back also when more
/// bytes follow it.
pub proof fn lemma_written_name_reads_back_before(
    msg: Seq<u8>,
    dict: DictView,
    labels: Seq<Seq<u8>>,
    rtype: RType,
    more: Seq<u8>,
)
    requires
        in_step(msg, dict),
        labels_fit_wire(labels),
    ensures
        ({
            let (w, after) = spec_name_write(labels, dict, dict.prefix_len() + msg.len(), rtype);
            &&& decode_name(msg + w + more, msg.len() as int, pointer_limit()) == Some(
                (labels, (msg.len() + w.len()) as int),
            )
            &&& in_step(msg + w + more, after)
            &&& after.is_tcp == dict.is_tcp
            &&& after.enabled == dict.enabled
        }),
{
    let (w, after) = spec_name_write(labels, dict, dict.prefix_len() + msg.len(), rtype);
    assert(dict.wf() && dict_matches(msg, dict.pointers)) by {
        reveal(in_step);
    }
    lemma_written_name_reads_back(msg, dict, labels, rtype);
    lemma_decode_extends(msg + w, more, msg.len() as int, pointer_limit());
    assert(in_step(msg + w, after)) by {
        reveal(in_step);
    }
    lemma_in_step_extends(msg + w, more, after);
}

/// A record that is written behind a message is read back as it was, and
/// the dictionary afterwards fits the message.
pub proof fn lemma_record_reads_back(msg: Seq<u8>, dict: DictView, rec: RecordView)
    requires
        in_step(msg, dict),
        rec.wf(),
    ensures
        ({
            let (w, after) = spec_record_write(rec, dict, dict.prefix_len() + msg.len());
            &&& spec_record_read(msg + w, msg.len() as int) == Some(
                (rec, (msg.len() + w.len()) as int),
            )
            &&& in_step(msg + w, after)
        }),
{
    let offset = dict.prefix_len() + msg.len();
    let (owner, d1) = spec_name_write(rec.name, dict, offset, rec.rtype);
    let fixed = be16(spec_to_int(rec.rtype)) + be16(rec.class) + be32(rec.ttl);
    let front = msg + owner + fixed;
    let (data, d2) = spec_rdata_write(rec.rdata, d1, offset + owner.len() + 8, rec.rtype);
    let long = front + data;
    let pos = msg.len() as int;
    let pos1 = pos + owner.len();
    lemma_written_name_reads_back_before(msg, dict, rec.name, rec.rtype, fixed);
    lemma_decode_extends(front, data, pos, pointer_limit());
    lemma_rdata_reads_back(front, d1, rec.rdata, rec.rtype);
    assert(long.subrange(pos1, pos1 + 8) =~= fixed);
    lemma_record_parts(long, pos, rec, pos1, long.len() as int);
    assert(msg + (owner + fixed + data) =~= long);
}

/// Records read from a message, and one more record read behind them once
/// its bytes follow, are read as one list from the longer message.
pub proof fn lemma_records_read_step(
    mid: Seq<u8>,
    more: Seq<u8>,
    pos: int,
    init: Seq<RecordView>,
    last: RecordView,
)
    requires
        spec_records_read(mid, pos, init.len()) == Some((init, mid.len() as int)),
        spec_record_read(mid + more, mid.len() as int) == Some(
            (last, (mid.len() + more.len()) as int),
        ),
    ensures
        spec_records_read(mid + more, pos, init.len() + 1) == Some(
            (init.push(last), (mid.len() + more.len()) as int),
        ),
{
    lemma_records_read_extends(mid, more, pos, init.len());
    lemma_records_read_append(
        mid + more,
        pos,
        init.len(),
        init,
        mid.len() as int,
        last,
        (mid.len() + more.len()) as int,
    );
}

/// All but the last of records that can be written can be written, and so
/// can the last.
pub proof fn lemma_all_wf_parts(records: Seq<RecordView>)
    requires
        all_wf(records),
        records.len() > 0,
    ensures
        all_wf(records.drop_last()),
        records.last().wf(),
        records.drop_last().push(records.last()) == records,
        records.drop_last().len() + 1 == records.len(),
{
    let init = records.drop_last();
    assert forall|i: int| 0 <= i < init.len() implies (#[trigger] init[i]).wf() by {
        assert(init[i] == records[i]);
    }
    assert(records.last() == records[records.len() - 1]);
    assert(init.push(records.last()) =~= records);
}

/// Records that are written behind a message are read back as they were,
/// and the dictionary afterwards fits the message.
pub proof fn lemma_records_read_back(msg: Seq<u8>, dict: DictView, records: Seq<RecordView>)
    requires
        in_step(msg, dict),
        all_wf(records),
    ensures
        spec_records_read(
            msg + spec_records_write(records, dict, dict.prefix_len() + msg.len()).0,
            msg.len() as int,
            records.len(),
        ) == Some(
            (
                records,
                (msg.len() + spec_records_write(
                    records,
                    dict,
                    dict.prefix_len() + msg.len(),
                ).0.len()) as int,
            ),
        ),
        in_step(
            msg + spec_records_write(records, dict, dict.prefix_len() + msg.len()).0,
            spec_records_write(records, dict, dict.prefix_len() + msg.len()).1,
        ),
    decreases records.len(),
{
    let offset = dict.prefix_len() + msg.len();
    if records.len() == 0 {
        assert(msg + Seq::<u8>::empty() =~= msg);
        assert(records =~= Seq::<RecordView>::empty());
    } else {
        let init = records.drop_last();
        let last = records.last();
        lemma_all_wf_parts(records);
        lemma_records_read_back(msg, dict, init);
        lemma_records_write_keeps_setup(init, dict, offset);
        let w0 = spec_records_write(init, dict, offset).0;
        let d0 = spec_records_write(init, dict, offset).1;
        let mid = msg + w0;
        lemma_record_reads_back(mid, d0, last);
        let w1 = spec_record_write(last, d0, offset + w0.len()).0;
        lemma_records_read_step(mid, w1, msg.len() as int, init, last);
        assert(mid + w1 =~= msg + (w0 + w1));
    }
}

/// A question that is written behind a message is read back as it was, and
/// the dictionary afterwards fits the message.
pub proof fn lemma_question_reads_back(msg: Seq<u8>, dict: DictView, q: QuestionView)
    requires
        in_step(msg, dict),
        q.wf(),
    ensures
        ({
            let (w, after) = spec_question_write(q, dict, dict.prefix_len() + msg.len());
            &&& spec_question_read(msg + w, msg.len() as int) == Some(
                (q, (msg.len() + w.len()) as int),
            )
            &&& in_step(msg + w, after)
            &&& after.is_tcp == dict.is_tcp
            &&& after.enabled == dict.enabled
        }),
{
    let offset = dict.prefix_len() + msg.len();
    let (name, after) = spec_name_write(q.qname, dict, offset, q.qtype);
    let fixed = be16(spec_to_int(q.qtype)) + be16(q.qclass);
    let long = msg + name + fixed;
    let pos = msg.len() as int;
    let pos1 = pos + name.len();
    lemma_written_name_reads_back_before(msg, dict, q.qname, q.qtype, fixed);
    assert(long.subrange(pos1, pos1 + 2) =~= be16(spec_to_int(q.qtype)));
    assert(long.subrange(pos1 + 2, pos1 + 4) =~= be16(q.qclass));
    lemma_read_u16_at(long, pos1, spec_to_int(q.qtype));
    lemma_read_u16_at(long, pos1 + 2, q.qclass);
    assert(msg + (name + be16(spec_to_int(q.qtype)) + be16(q.qclass)) =~= long);
}

/// The first records of records that can be written can be written.
pub proof fn lemma_first_records(records: Seq<RecordView>, count: u16)
    requires
        all_wf(records),
    ensures
        all_wf(first_records(records, count)),
        count <= records.len() ==> first_records(records, count).len() == count,
{
    let first = first_records(records, count);
    assert forall|i: int| 0 <= i < first.len() implies (#[trigger] first[i]).wf() by {
        assert(first[i] == records[i]);
    }
}

/// Records that are written behind a message are read back also when more
/// bytes follow them.
pub proof fn lemma_records_read_back_before(
    msg: Seq<u8>,
    dict: DictView,
    records: Seq<RecordView>,
    more: Seq<u8>,
)
    requires
        in_step(msg, dict),
        all_wf(records),
    ensures
        ({
            let (w, after) = spec_records_write(records, dict, dict.prefix_len() + msg.len());
            &&& spec_records_read(msg + w + more, msg.len() as int, records.len()) == Some(
                (records, (msg.len() + w.len()) as int),
            )
            &&& in_step(msg + w, after)
            &&& after.is_tcp == dict.is_tcp
            &&& after.enabled == dict.enabled
        }),
{
    let start = dict.prefix_len() + msg.len();
    let w = spec_records_write(records, dict, start).0;
    lemma_records_read_back(msg, dict, records);
    lemma_records_write_keeps_setup(records, dict, start);
    lemma_records_read_extends(msg + w, more, msg.len() as int, records.len());
}

/// Three lists of records, each read from where the one before it ends once
/// what follows it is left out, are read one behind the other from the whole.
pub proof fn lemma_sections_in_place(
    msg: Seq<u8>,
    an: Seq<u8>,
    ns: Seq<u8>,
    ar: Seq<u8>,
    answer: Seq<RecordView>,
    authority: Seq<RecordView>,
    additional: Seq<RecordView>,
)
    requires
        spec_records_read(msg + an + (ns + ar), msg.len() as int, answer.len()) == Some(
            (answer, (msg.len() + an.len()) as int),
        ),
        spec_records_read(msg + an + ns + ar, (msg + an).len() as int, authority.len()) == Some(
            (authority, ((msg + an).len() + ns.len()) as int),
        ),
        spec_records_read(
            msg + an + ns + ar + Seq::<u8>::empty(),
            (msg + an + ns).len() as int,
            additional.len(),
        ) == Some((additional, ((msg + an + ns).len() + ar.len()) as int)),
    ensures
        ({
            let long = msg + an + ns + ar;
            let pos1 = msg.len() as int;
            let pos2 = pos1 + an.len();
            let pos3 = pos2 + ns.len();
            &&& spec_records_read(long, pos1, answer.len()) == Some((answer, pos2))
            &&& spec_records_read(long, pos2, authority.len()) == Some((authority, pos3))
            &&& spec_records_read(long, pos3, additional.len()) == Some(
                (additional, long.len() as int),
            )
        }),
{
    let long = msg + an + ns + ar;
    assert(msg + an + (ns + ar) =~= long);
    assert(long + Seq::<u8>::empty() =~= long);
}

/// Three lists of records that are written one behind the other are read
/// back one behind the other.
pub proof fn lemma_sections_read_back(
    msg: Seq<u8>,
    dict: DictView,
    answer: Seq<RecordView>,
    authority: Seq<RecordView>,
    additional: Seq<RecordView>,
)
    requires
        in_step(msg, dict),
        all_wf(answer),
        all_wf(authority),
        all_wf(additional),
    ensures
        ({
            let start = dict.prefix_len() + msg.len();
            let (an, d2) = spec_records_write(answer, dict, start);
            let (ns, d3) = spec_records_write(authority, d2, start + an.len());
            let (ar, d4) = spec_records_write(additional, d3, start + an.len() + ns.len());
            let long = msg + an + ns + ar;
            let pos1 = msg.len() as int;
            let pos2 = pos1 + an.len();
            let pos3 = pos2 + ns.len();
            &&& spec_records_read(long, pos1, answer.len()) == Some((answer, pos2))
            &&& spec_records_read(long, pos2, authority.len()) == Some((authority, pos3))
            &&& spec_records_read(long, pos3, additional.len()) == Some(
                (additional, long.len() as int),
            )
        }),
{
    let start = dict.prefix_len() + msg.len();
    let an = spec_records_write(answer, dict, start).0;
    let d2 = spec_records_write(answer, dict, start).1;
    let ns = spec_records_write(authority, d2, start + an.len()).0;
    let d3 = spec_records_write(authority, d2, start + an.len()).1;
    let ar = spec_records_write(additional, d3, start + an.len() + ns.len()).0;
    lemma_records_read_back_before(msg, dict, answer, ns + ar);
    lemma_records_read_back_before(msg + an, d2, authority, ar);
    lemma_records_read_back_before(msg + an + ns, d3, additional, Seq::empty());
    lemma_sections_in_place(msg, an, ns, ar, answer, authority, additional);
}

/// A header, a question and three lists of records that are read one
/// behind the other are read as one message.
pub proof fn lemma_message_parts(
    data: Seq<u8>,
    is_tcp: bool,
    m: MessageView,
    pos1: int,
    pos2: int,
    pos3: int,
    pos4: int,
)
    requires
        spec_read_header(data, is_tcp) matches Some((h, _)) && h == m.header,
        ({
            let msg = if is_tcp {
                data.skip(2)
            } else {
                data
            };
            &&& spec_question_read(msg, 12) == Some((m.question, pos1))
            &&& spec_records_read(msg, pos1, m.header.ancount as nat) == Some((m.answer, pos2))
            &&& spec_records_read(msg, pos2, m.header.nscount as nat) == Some((m.authority, pos3))
            &&& spec_records_read(msg, pos3, m.header.arcount as nat) == Some((m.additional, pos4))
        }),
    ensures
        spec_message_read(data, is_tcp) == Some(m),
{
}

/// A question and three lists of records that are written one behind the
/// other are read back one behind the other.
pub proof fn lemma_body_reads_back(
    msg: Seq<u8>,
    dict: DictView,
    question: QuestionView,
    answer: Seq<RecordView>,
    authority: Seq<RecordView>,
    additional: Seq<RecordView>,
)
    requires
        in_step(msg, dict),
        question.wf(),
        all_wf(answer),
        all_wf(authority),
        all_wf(additional),
    ensures
        ({
            let start = dict.prefix_len() + msg.len();
            let (q, d1) = spec_question_write(question, dict, start);
            let (an, d2) = spec_records_write(answer, d1, start + q.len());
            let (ns, d3) = spec_records_write(authority, d2, start + q.len() + an.len());
            let (ar, d4) = spec_records_write(
                additional,
                d3,
                start + q.len() + an.len() + ns.len(),
            );
            let long = msg + q + an + ns + ar;
            let pos1 = msg.len() + q.len();
            let pos2 = pos1 + an.len();
            let pos3 = pos2 + ns.len();
            &&& spec_question_read(long, msg.len() as int) == Some((question, pos1 as int))
            &&& spec_records_read(long, pos1 as int, answer.len()) == Some((answer, pos2 as int))
            &&& spec_records_read(long, pos2 as int, authority.len()) == Some(
                (authority, pos3 as int),
            )
            &&& spec_records_read(long, pos3 as int, additional.len()) == Some(
                (additional, long.len() as int),
            )
        }),
{
    let start = dict.prefix_len() + msg.len();
    let (q, d1) = spec_question_write(question, dict, start);
    let (an, d2) = spec_records_write(answer, d1, start + q.len());
    let (ns, d3) = spec_records_write(authority, d2, start + q.len() + an.len());
    let (ar, d4) = spec_records_write(additional, d3, start + q.len() + an.len() + ns.len());
    let m1 = msg + q;
    let long = m1 + an + ns + ar;
    lemma_question_reads_back(msg, dict, question);
    assert(m1 + (an + ns + ar) =~= long);
    lemma_question_read_extends(m1, an + ns + ar, msg.len() as int);
    lemma_sections_read_back(m1, d1, answer, authority, additional);
}

/// What a response is on the wire: its header, then the question and the
/// counted records, each written where the one before it ends.
pub proof fn lemma_response_layout(r: ResponseView)
    ensures
        ({
            let h = header_wire(r.header);
            let start = h.len() as int;
            let (q, d1) = spec_question_write(r.question, r.dict, start);
            let (an, d2) = spec_records_write(
                first_records(r.answer, r.header.ancount),
                d1,
                start + q.len(),
            );
            let (ns, d3) = spec_records_write(
                first_records(r.authority, r.header.nscount),
                d2,
                start + q.len() + an.len(),
            );
            let (ar, d4) = spec_records_write(
                first_records(r.additional, r.header.arcount),
                d3,
                start + q.len() + an.len() + ns.len(),
            );
            let data = spec_response_write(r, 0).0;
            let base: int = if r.header.tcp_header_field.0 is Some {
                2
            } else {
                0
            };
            &&& data == h + (q + an + ns + ar)
            &&& h.len() == base + 12
            &&& data.skip(base) == h.skip(base) + q + an + ns + ar
        }),
{
    let h = header_wire(r.header);
    let start = h.len() as int;
    let (q, d1) = spec_question_write(r.question, r.dict, start);
    let (an, d2) = spec_records_write(
        first_records(r.answer, r.header.ancount),
        d1,
        start + q.len(),
    );
    let (ns, d3) = spec_records_write(
        first_records(r.authority, r.header.nscount),
        d2,
        start + q.len() + an.len(),
    );
    let (ar, d4) = spec_records_write(
        first_records(r.additional, r.header.arcount),
        d3,
        start + q.len() + an.len() + ns.len(),
    );
    let data = spec_response_write(r, 0).0;
    let base: int = if r.header.tcp_header_field.0 is Some {
        2
    } else {
        0
    };
    lemma_header_wire_len(r.header);
    assert(data =~= h + (q + an + ns + ar));
    assert(data.skip(base) =~= h.skip(base) + q + an + ns + ar);
}

/// A response that is written with a fresh dictionary is read back as it
/// was meant: the same header and question, and in each section the records
/// that the header counts. This holds with compression on or off, for a
/// response whose counts do not exceed its lists, whose dictionary is set up
/// for a stream exactly when its header has a length field.
pub proof fn lemma_response_reads_back(r: ResponseView)
    requires
        r.header.wf(),
        r.question.wf(),
        all_wf(r.answer),
        all_wf(r.authority),
        all_wf(r.additional),
        r.header.ancount <= r.answer.len(),
        r.header.nscount <= r.authority.len(),
        r.header.arcount <= r.additional.len(),
        r.dict.pointers == Map::<Seq<Seq<u8>>, usize>::empty(),
        r.dict.is_tcp == (r.header.tcp_header_field.0 is Some),
    ensures
        spec_message_read(spec_response_write(r, 0).0, r.dict.is_tcp) == Some(
            MessageView {
                header: r.header,
                question: r.question,
                answer: first_records(r.answer, r.header.ancount),
                authority: first_records(r.authority, r.header.nscount),
                additional: first_records(r.additional, r.header.arcount),
            },
        ),
{
    let is_tcp = r.dict.is_tcp;
    let base: int = r.dict.prefix_len();
    let h = header_wire(r.header);
    let an_recs = first_records(r.answer, r.header.ancount);
    let ns_recs = first_records(r.authority, r.header.nscount);
    let ar_recs = first_records(r.additional, r.header.arcount);
    lemma_first_records(r.answer, r.header.ancount);
    lemma_first_records(r.authority, r.header.nscount);
    lemma_first_records(r.additional, r.header.arcount);
    lemma_response_layout(r);
    let m0 = h.skip(base);
    let start = h.len() as int;
    let (q, d1) = spec_question_write(r.question, r.dict, start);
    let (an, d2) = spec_records_write(an_recs, d1, start + q.len());
    let (ns, d3) = spec_records_write(ns_recs, d2, start + q.len() + an.len());
    let (ar, d4) = spec_records_write(ar_recs, d3, start + q.len() + an.len() + ns.len());
    let data = spec_response_write(r, 0).0;
    lemma_header_round_trip(r.header, q + an + ns + ar);
    assert(in_step(m0, r.dict)) by {
        reveal(in_step);
    }
    lemma_body_reads_back(m0, r.dict, r.question, an_recs, ns_recs, ar_recs);
    let msg = m0 + q + an + ns + ar;
    assert(data.skip(0) =~= data);
    assert((if is_tcp {
        data.skip(2)
    } else {
        data
    }) == msg);
    assert(data == h + (q + an + ns + ar));
    assert(an_recs.len() == r.header.ancount as nat);
    assert(ns_recs.len() == r.header.nscount as nat);
    assert(ar_recs.len() == r.header.arcount as nat);
    lemma_message_parts(
        data,
        is_tcp,
        MessageView {
            header: r.header,
            question: r.question,
            answer: an_recs,
            authority: ns_recs,
            additional: ar_recs,
        },
        (m0.len() + q.len()) as int,
        (m0.len() + q.len() + an.len()) as int,
        (m0.len() + q.len() + an.len() + ns.len()) as int,
        (m0.len() + q.len() + an.len() + ns.len() + ar.len()) as int,
    );
}

/// A question found in a message is found in the same message with more
/// bytes behind it.
pub proof fn lemma_question_read_extends(msg: Seq<u8>, more: Seq<u8>, pos: int)
    requires
        spec_question_read(msg, pos) is Some,
    ensures
        spec_question_read(msg + more, pos) == spec_question_read(msg, pos),
{
    let long = msg + more;
    lemma_decode_extends(msg, more, pos, pointer_limit());
    let (name, pos1) = decode_name(msg, pos, pointer_limit()).unwrap();
    lemma_decode_end(msg, pos, pointer_limit());
    assert forall|i: int| pos1 <= i < pos1 + 4 implies long[i] == msg[i] by {}
}

} // verus!
