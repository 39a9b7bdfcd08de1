use vstd::prelude::*;
use crate::dns::compression::{Compressed, DictView};
use crate::dns::labels::{
    counted_wire, pointer_wire, spec_label_at, write_counted, write_pointer, Label, LabelView,
};
use crate::dns::name::{labels_fit_wire, DNSName};
use crate::dns::name_laws::lemma_name_wire_len;
use crate::dns::rtypes::RType;
use crate::errors::WireError;

verus! {

/// The number of pointers that a reader follows for one name before it gives
/// up.
pub open spec fn pointer_limit() -> nat {
    10
}

/// The name that starts at `pos` of `msg`, read with at most `hops` pointers
/// followed, and the position behind it. Labels are collected up to a label of
/// no bytes or up to a pointer; behind a pointer the name goes on at the
/// pointer's target, and the position behind the name is the one behind the
/// first pointer. There is no name where a label is cut short or reserved,
/// where a pointer leads out of the message, or where the pointers run out.
pub open spec fn decode_name(msg: Seq<u8>, pos: int, hops: nat) -> Option<(Seq<Seq<u8>>, int)>
    decreases hops, msg.len() - pos,
{
    match spec_label_at(msg, pos) {
        None => None,
        Some((LabelView::Regular(content), next)) => {
            if content.len() == 0 {
                Some((Seq::empty(), next))
            } else {
                match decode_name(msg, next, hops) {
                    Some((rest, end)) => Some((seq![content] + rest, end)),
                    None => None,
                }
            }
        },
        Some((LabelView::Pointer(target), next)) => {
            if target >= msg.len() || hops == 0 {
                None
            } else {
                match decode_name(msg, target as int, (hops - 1) as nat) {
                    Some((labels, _)) => Some((labels, next)),
                    None => None,
                }
            }
        },
    }
}

/// The name `labels` written in full: each label behind its count, then a
/// zero byte.
pub open spec fn name_wire(labels: Seq<Seq<u8>>) -> Seq<u8>
    decreases labels.len(),
{
    if labels.len() == 0 {
        seq![0u8]
    } else {
        counted_wire(labels[0]) + name_wire(labels.skip(1))
    }
}

/// The name `labels` written with pointers: labels are written up to the
/// first tail of the name that `pointers` knows, and a pointer to it ends the
/// name; with no such tail this is the name in full.
pub open spec fn name_wire_packed(labels: Seq<Seq<u8>>, pointers: Map<Seq<Seq<u8>>, usize>) -> Seq<
    u8,
>
    decreases labels.len(),
{
    if labels.len() == 0 {
        seq![0u8]
    } else if pointers.contains_key(labels) {
        pointer_wire(pointers[labels] as int)
    } else {
        counted_wire(labels[0]) + name_wire_packed(labels.skip(1), pointers)
    }
}

/// Whether some tail of `labels` that is not the root is known to `pointers`,
/// so that the packed name ends in a pointer.
pub open spec fn ends_in_pointer(labels: Seq<Seq<u8>>, pointers: Map<Seq<Seq<u8>>, usize>) -> bool
    decreases labels.len(),
{
    labels.len() > 0 && (pointers.contains_key(labels) || ends_in_pointer(
        labels.skip(1),
        pointers,
    ))
}

/// What writing the name `labels` at `offset` of the buffer appends, and the
/// dictionary afterwards. For a record type that supports compression the
/// name is packed, and unless it ended in a pointer the dictionary records it;
/// for any other type the name is written in full and the dictionary is left
/// alone.
pub open spec fn spec_name_write(
    labels: Seq<Seq<u8>>,
    dict: DictView,
    offset: int,
    rtype: RType,
) -> (Seq<u8>, DictView) {
    if rtype.spec_supports_compression() {
        (
            name_wire_packed(labels, dict.pointers),
            if ends_in_pointer(labels, dict.pointers) {
                dict
            } else {
                dict.add(labels, offset)
            },
        )
    } else {
        (name_wire(labels), dict)
    }
}

/// The labels read so far put in front of what the rest of the name reads as.
pub open spec fn graft(
    acc: Seq<Seq<u8>>,
    end: Option<usize>,
    sub: Option<(Seq<Seq<u8>>, int)>,
) -> Option<(Seq<Seq<u8>>, int)> {
    match sub {
        None => None,
        Some((rest, e)) => Some(
            (
                acc + rest,
                match end {
                    Some(x) => x as int,
                    None => e,
                },
            ),
        ),
    }
}

/// Whether the name `labels` can be the data of a record: its labels have 1
/// to 63 bytes, and written in full it fits the 16-bit length.
pub open spec fn name_fits_rdata(labels: Seq<Seq<u8>>) -> bool {
    labels_fit_wire(labels) && name_wire(labels).len() <= 0xFFFF
}

/// Whether `name` can be the data of a record.
pub fn fits_rdata(name: &DNSName) -> (r: bool)
    ensures
        r == name_fits_rdata(name@),
{
    if !name.is_wire_name() {
        return false;
    }
    let mut acc: usize = 0;
    let mut i: usize = 0;
    proof {
        assert(name@.skip(0) =~= name@);
    }
    while i < name.0.len()
        invariant
            i <= name.0@.len(),
            name@.len() == name.0@.len(),
            acc <= 0xFFFF,
            name_wire(name@).len() == acc + name_wire(name@.skip(i as int)).len(),
        decreases name.0.len() - i,
    {
        let n: usize = name.0[i].len();
        proof {
            let rest = name@.skip(i as int);
            lemma_name_wire_len(rest);
            assert(rest[0] == name.0@[i as int]@);
            assert(rest.skip(1) =~= name@.skip(i + 1));
            lemma_name_wire_len(name@.skip(i + 1));
        }
        if n > 0xFFFF || acc + n + 1 > 0xFFFF {
            return false;
        }
        acc = acc + n + 1;
        i += 1;
    }
    proof {
        lemma_name_wire_len(name@.skip(i as int));
        assert(name@.skip(i as int).len() == 0);
        assert(name_wire(name@.skip(i as int)).len() == 1);
    }
    acc + 1 <= 0xFFFF
}

impl DNSName {
    /// Reads the name that starts at `pos` of the message `input`, following
    /// at most ten pointers. Gives the name and the position behind it in the
    /// run of bytes that started at `pos`.
    pub fn read(input: &[u8], pos: usize) -> (r: Result<(DNSName, usize), WireError>)
        ensures
            match decode_name(input@, pos as int, pointer_limit()) {
                Some((labels, end)) => r matches Ok((name, e)) && name@ == labels && e == end
                    && name.wf(),
                None => r == Err::<(DNSName, usize), WireError>(WireError::Malformed),
            },
    {
        let mut hops_left: usize = 10;
        let mut decoded: Vec<Vec<u8>> = Vec::new();
        let mut cur: usize = pos;
        let mut end: Option<usize> = None;
        proof {
            let sub = decode_name(input@, pos as int, pointer_limit());
            if let Some((rest, e)) = sub {
                assert(Seq::<Seq<u8>>::empty() + rest =~= rest);
            }
        }
        loop
            invariant
                hops_left <= 10,
                decode_name(input@, pos as int, pointer_limit()) == graft(
                    Seq::new(decoded@.len(), |k: int| decoded@[k]@),
                    end,
                    decode_name(input@, cur as int, hops_left as nat),
                ),
                forall|k: int| 0 <= k < decoded@.len() ==> 1 <= (#[trigger] decoded@[k])@.len() <= 63,
            decreases hops_left, input@.len() - cur,
        {
            let ghost acc = Seq::new(decoded@.len(), |k: int| decoded@[k]@);
            match Label::read(input, cur) {
                Err(_) => {
                    return Err(WireError::Malformed);
                },
                Ok((label, next)) => {
                    match label {
                        Label::Regular(inner) => {
                            if inner.length == 0 {
                                let e: usize = match end {
                                    Some(x) => x,
                                    None => next,
                                };
                                let name = DNSName(decoded);
                                proof {
                                    assert(acc + Seq::<Seq<u8>>::empty() =~= acc);
                                    assert(name@ =~= acc);
                                }
                                return Ok((name, e));
                            }
                            let ghost content = inner.content@;
                            decoded.push(inner.content);
                            proof {
                                let acc2 = Seq::new(decoded@.len(), |k: int| decoded@[k]@);
                                assert(acc2 =~= acc + seq![content]);
                                if let Some((rest, e)) = decode_name(
                                    input@,
                                    next as int,
                                    hops_left as nat,
                                ) {
                                    assert(acc + (seq![content] + rest) =~= acc2 + rest);
                                }
                            }
                            cur = next;
                        },
                        Label::Pointer(target) => {
                            if target as usize >= input.len() || hops_left == 0 {
                                return Err(WireError::Malformed);
                            }
                            if end.is_none() {
                                end = Some(next);
                            }
                            cur = target as usize;
                            hops_left -= 1;
                        },
                    }
                },
            }
        }
    }

    /// Appends this name to `output`, which holds the message so far. For a
    /// record type that supports compression, a tail of the name that the
    /// dictionary knows is written as a pointer, and a name written without a
    /// pointer is recorded at the offset where it starts.
    pub fn write(&self, output: &mut Vec<u8>, dict: &mut Compressed, rtype: RType)
        requires
            self.wf(),
            old(dict).wf(),
        ensures
            final(output)@ == old(output)@ + spec_name_write(
                self@,
                old(dict)@,
                old(output)@.len() as int,
                rtype,
            ).0,
            final(dict)@ == spec_name_write(self@, old(dict)@, old(output)@.len() as int, rtype).1,
            final(dict).wf(),
    {
        let compress: bool = rtype.supports_compression();
        let offset: usize = output.len();
        let n: usize = self.0.len();
        let ghost full = if compress {
            name_wire_packed(self@, dict@.pointers)
        } else {
            name_wire(self@)
        };
        let mut index: usize = 0;
        proof {
            assert(self@.skip(0) =~= self@);
            assert(old(output)@ + Seq::<u8>::empty() =~= old(output)@);
            assert(Seq::<u8>::empty() + full =~= full);
        }
        let ghost mut done: Seq<u8> = Seq::empty();
        while index < n
            invariant
                index <= n,
                n == self@.len(),
                n == self.0@.len(),
                self.wf(),
                dict.wf(),
                *dict == *old(dict),
                offset == old(output)@.len(),
                output@ == old(output)@ + done,
                compress == rtype.spec_supports_compression(),
                full == if compress {
                    name_wire_packed(self@, dict@.pointers)
                } else {
                    name_wire(self@)
                },
                full == done + if compress {
                    name_wire_packed(self@.skip(index as int), dict@.pointers)
                } else {
                    name_wire(self@.skip(index as int))
                },
                compress ==> ends_in_pointer(self@, dict@.pointers) == ends_in_pointer(
                    self@.skip(index as int),
                    dict@.pointers,
                ),
            decreases n - index,
        {
            let ghost tail = self@.skip(index as int);
            if compress {
                match dict.query(self, index) {
                    Some(p) => {
                        write_pointer(output, p);
                        proof {
                            assert(done + pointer_wire(p as int) =~= full);
                            assert(output@ =~= old(output)@ + full);
                        }
                        return ;
                    },
                    None => {},
                }
            }
            let label: &Vec<u8> = &self.0[index];
            proof {
                assert(label@ == self@[index as int]);
                assert(tail[0] == self@[index as int]);
                assert(tail.skip(1) =~= self@.skip(index + 1));
                assert(1 <= label@.len() <= 63);
            }
            write_counted(output, label.as_slice());
            proof {
                let step = counted_wire(label@);
                let rest = if compress {
                    name_wire_packed(self@.skip(index + 1), dict@.pointers)
                } else {
                    name_wire(self@.skip(index + 1))
                };
                assert(done + (step + rest) =~= (done + step) + rest);
                assert(output@ =~= old(output)@ + (done + step));
                done = done + step;
            }
            index += 1;
        }
        output.push(0);
        proof {
            assert(self@.skip(n as int).len() == 0);
            assert(done + seq![0u8] =~= full);
            assert(output@ =~= old(output)@ + full);
        }
        if compress {
            dict.add(self.clone(), offset);
        }
    }
}

} // verus!
