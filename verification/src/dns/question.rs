use vstd::prelude::*;
use vstd::slice::slice_subrange;
use crate::dns::compression::{Compressed, DictView};
use crate::dns::header::{spec_read_header, DNSHeader};
use crate::dns::name::{labels_fit_wire, DNSName};
use crate::dns::name_wire::{decode_name, pointer_limit, spec_name_write};
use crate::dns::record::{spec_records_read, RecordView, VecDNSRecord};
use crate::dns::rtypes::{
    from_int, lemma_code_round_trip, reads_as_itself, spec_from_int, spec_to_int, to_int, RType,
};
use crate::dns::wire::{be16, read_u16, spec_read_u16, write_u16};
use crate::errors::WireError;

verus! {

/// The question of a message: a name, a record type and a class.
#[derive(Debug, PartialEq, Eq)]
pub struct DNSQuestion {
    pub qname: DNSName,
    pub qtype: RType,
    pub qclass: u16,
}

/// What a question holds.
pub struct QuestionView {
    pub qname: Seq<Seq<u8>>,
    pub qtype: RType,
    pub qclass: u16,
}

impl QuestionView {
    /// Whether the question can be written and read back: its labels fit
    /// the wire, and its type is read as itself.
    pub open spec fn wf(self) -> bool {
        labels_fit_wire(self.qname) && reads_as_itself(self.qtype)
    }
}

impl View for DNSQuestion {
    type V = QuestionView;

    open spec fn view(&self) -> QuestionView {
        QuestionView { qname: self.qname@, qtype: self.qtype, qclass: self.qclass }
    }
}

/// What writing a question at `offset` of the buffer appends, and the
/// dictionary afterwards: the name, treated as a name of a record of the
/// queried type, then the type and the class.
pub open spec fn spec_question_write(q: QuestionView, dict: DictView, offset: int) -> (
    Seq<u8>,
    DictView,
) {
    let (name, after) = spec_name_write(q.qname, dict, offset, q.qtype);
    (name + be16(spec_to_int(q.qtype)) + be16(q.qclass), after)
}

/// The question that starts at `pos` of `msg`, and the position behind it.
pub open spec fn spec_question_read(msg: Seq<u8>, pos: int) -> Option<(QuestionView, int)> {
    match decode_name(msg, pos, pointer_limit()) {
        None => None,
        Some((qname, pos1)) => {
            if pos1 + 4 > msg.len() {
                None
            } else {
                Some(
                    (
                        QuestionView {
                            qname,
                            qtype: spec_from_int(spec_read_u16(msg, pos1).unwrap()),
                            qclass: spec_read_u16(msg, pos1 + 2).unwrap(),
                        },
                        pos1 + 4,
                    ),
                )
            }
        },
    }
}

impl Clone for DNSQuestion {
    fn clone(&self) -> (r: Self)
        ensures
            r@ == self@,
    {
        DNSQuestion { qname: self.qname.clone(), qtype: self.qtype, qclass: self.qclass }
    }
}

impl DNSQuestion {
    /// Whether the question can be written and read back: its labels fit
    /// the wire, and its type is read as itself.
    pub open spec fn wf(&self) -> bool {
        self@.wf()
    }

    /// Whether the question can be written.
    pub fn is_valid(&self) -> (r: bool)
        ensures
            r == self.wf(),
    {
        self.qname.is_wire_name() && self.qtype.is_canonical()
    }

    /// Appends the question.
    pub fn write(&self, out: &mut Vec<u8>, dict: &mut Compressed)
        requires
            self.wf(),
            old(dict).wf(),
        ensures
            final(out)@ == old(out)@ + spec_question_write(
                self@,
                old(dict)@,
                old(out)@.len() as int,
            ).0,
            final(dict)@ == spec_question_write(self@, old(dict)@, old(out)@.len() as int).1,
            final(dict).wf(),
    {
        let ghost name = spec_name_write(
            self@.qname,
            old(dict)@,
            old(out)@.len() as int,
            self.qtype,
        ).0;
        self.qname.write(out, dict, self.qtype);
        write_u16(out, to_int(self.qtype));
        write_u16(out, self.qclass);
        proof {
            assert(out@ =~= old(out)@ + (name + be16(spec_to_int(self.qtype)) + be16(
                self.qclass,
            )));
        }
    }

    /// Reads the question that starts at `pos`. Gives the question and the
    /// position behind it.
    pub fn read(input: &[u8], pos: usize) -> (r: Result<(DNSQuestion, usize), WireError>)
        ensures
            match spec_question_read(input@, pos as int) {
                Some((q, next)) => r matches Ok((d, n)) && d@ == q && n == next && n
                    <= input@.len() && d.wf(),
                None => r matches Err(e) && e == WireError::Malformed,
            },
    {
        let total: usize = input.len();
        let (qname, pos1) = match DNSName::read(input, pos) {
            Ok(x) => x,
            Err(_) => {
                return Err(WireError::Malformed);
            },
        };
        if pos1 > total || total - pos1 < 4 {
            return Err(WireError::Malformed);
        }
        let code: u16 = read_u16(input, pos1).unwrap();
        let qtype: RType = from_int(code);
        let qclass: u16 = read_u16(input, pos1 + 2).unwrap();
        proof {
            lemma_code_round_trip(code);
        }
        Ok((DNSQuestion { qname, qtype, qclass }, pos1 + 4))
    }
}

/// A message as it comes in: the header, the question, and the three lists
/// of records.
#[derive(Debug, PartialEq, Eq)]
pub struct Question {
    pub header: DNSHeader,
    pub question: DNSQuestion,
    pub answer: VecDNSRecord,
    pub authority: VecDNSRecord,
    pub additional: VecDNSRecord,
}

/// What a message holds.
pub struct MessageView {
    pub header: DNSHeader,
    pub question: QuestionView,
    pub answer: Seq<RecordView>,
    pub authority: Seq<RecordView>,
    pub additional: Seq<RecordView>,
}

impl View for Question {
    type V = MessageView;

    open spec fn view(&self) -> MessageView {
        MessageView {
            header: self.header,
            question: self.question@,
            answer: self.answer@,
            authority: self.authority@,
            additional: self.additional@,
        }
    }
}

/// The message that `data` holds: on a stream two length bytes, then in
/// either case the header, one question, and as many answer, authority and
/// additional records as the header counts. Offsets inside the message count
/// from its header. What follows the last record is not looked at.
pub open spec fn spec_message_read(data: Seq<u8>, is_tcp: bool) -> Option<MessageView> {
    match spec_read_header(data, is_tcp) {
        None => None,
        Some((header, _)) => {
            let msg = if is_tcp {
                data.skip(2)
            } else {
                data
            };
            match spec_question_read(msg, 12) {
                None => None,
                Some((question, pos1)) => match spec_records_read(msg, pos1, header.ancount as nat) {
                    None => None,
                    Some((answer, pos2)) => match spec_records_read(
                        msg,
                        pos2,
                        header.nscount as nat,
                    ) {
                        None => None,
                        Some((authority, pos3)) => match spec_records_read(
                            msg,
                            pos3,
                            header.arcount as nat,
                        ) {
                            None => None,
                            Some((additional, _)) => Some(
                                MessageView { header, question, answer, authority, additional },
                            ),
                        },
                    },
                },
            }
        },
    }
}

impl Question {
    /// Reads the message that `input` holds, as it came by stream or by
    /// datagram.
    pub fn read(input: &[u8], is_tcp: bool) -> (r: Result<Question, WireError>)
        ensures
            match spec_message_read(input@, is_tcp) {
                Some(m) => r matches Ok(q) && q@ == m && q.question.wf() && q.header.wf(),
                None => r matches Err(e) && e == WireError::Malformed,
            },
    {
        let (header, _) = match DNSHeader::read(input, is_tcp) {
            Ok(x) => x,
            Err(_) => {
                return Err(WireError::Malformed);
            },
        };
        let msg: &[u8] = if is_tcp {
            slice_subrange(input, 2, input.len())
        } else {
            input
        };
        proof {
            if is_tcp {
                assert(msg@ =~= input@.skip(2));
            }
        }
        let (question, pos1) = match DNSQuestion::read(msg, 12) {
            Ok(x) => x,
            Err(_) => {
                return Err(WireError::Malformed);
            },
        };
        let (answer, pos2) = match VecDNSRecord::read(msg, pos1, header.ancount) {
            Ok(x) => x,
            Err(_) => {
                return Err(WireError::Malformed);
            },
        };
        let (authority, pos3) = match VecDNSRecord::read(msg, pos2, header.nscount) {
            Ok(x) => x,
            Err(_) => {
                return Err(WireError::Malformed);
            },
        };
        let (additional, _) = match VecDNSRecord::read(msg, pos3, header.arcount) {
            Ok(x) => x,
            Err(_) => {
                return Err(WireError::Malformed);
            },
        };
        Ok(Question { header, question, answer, authority, additional })
    }
}

} // verus!
