use vstd::prelude::*;
use crate::dns::wire::{append_bytes, copy_range};
use crate::errors::WireError;

verus! {

/// A string of bytes behind a byte that counts them.
#[derive(Debug, PartialEq, Eq)]
pub struct RegularMsg1 {
    pub length: u8,
    pub content: Vec<u8>,
}

/// One step of a name on the wire: a pointer to an earlier offset of the
/// message, or a counted label.
#[derive(Debug, PartialEq, Eq)]
pub enum Label {
    Pointer(u16),
    Regular(RegularMsg1),
}

/// What a label holds.
pub enum LabelView {
    Pointer(u16),
    Regular(Seq<u8>),
}

impl View for RegularMsg1 {
    type V = Seq<u8>;

    open spec fn view(&self) -> Seq<u8> {
        self.content@
    }
}

impl View for Label {
    type V = LabelView;

    open spec fn view(&self) -> LabelView {
        match self {
            Label::Pointer(p) => LabelView::Pointer(*p),
            Label::Regular(m) => LabelView::Regular(m@),
        }
    }
}

/// The bytes `content` behind the byte that counts them.
pub open spec fn counted_wire(content: Seq<u8>) -> Seq<u8> {
    seq![content.len() as u8] + content
}

/// The two bytes of a pointer to offset `p`: the bits `11`, then the 14 bits
/// of `p`.
pub open spec fn pointer_wire(p: int) -> Seq<u8> {
    seq![(192 + p / 256) as u8, (p % 256) as u8]
}

/// The counted string at `pos` of `msg` and the position behind it, if the
/// count byte and that many bytes are there.
pub open spec fn spec_counted_at(msg: Seq<u8>, pos: int) -> Option<(Seq<u8>, int)> {
    if 0 <= pos < msg.len() && pos + 1 + msg[pos] <= msg.len() {
        Some((msg.subrange(pos + 1, pos + 1 + msg[pos]), pos + 1 + msg[pos]))
    } else {
        None
    }
}

/// The label at `pos` of `msg` and the position behind it. A first byte under
/// 64 counts the bytes of a label; one from 192 on starts a pointer; the
/// values between are reserved, and so there is no label.
pub open spec fn spec_label_at(msg: Seq<u8>, pos: int) -> Option<(LabelView, int)> {
    if 0 <= pos < msg.len() {
        if msg[pos] < 64 {
            match spec_counted_at(msg, pos) {
                Some((content, next)) => Some((LabelView::Regular(content), next)),
                None => None,
            }
        } else if msg[pos] >= 192 {
            if pos + 2 <= msg.len() {
                Some(
                    (
                        LabelView::Pointer(((msg[pos] - 192) * 256 + msg[pos + 1]) as u16),
                        pos + 2,
                    ),
                )
            } else {
                None
            }
        } else {
            None
        }
    } else {
        None
    }
}

impl RegularMsg1 {
    /// Whether the count is the number of bytes held.
    pub open spec fn wf(&self) -> bool {
        self.length as int == self.content@.len()
    }

    /// Reads the counted string that starts at `pos`.
    pub fn read(input: &[u8], pos: usize) -> (r: Result<(RegularMsg1, usize), WireError>)
        ensures
            match spec_counted_at(input@, pos as int) {
                Some((content, next)) => r matches Ok((m, n)) && m@ == content && n == next
                    && m.wf(),
                None => r == Err::<(RegularMsg1, usize), WireError>(WireError::Malformed),
            },
    {
        if pos >= input.len() {
            return Err(WireError::Malformed);
        }
        let length: u8 = input[pos];
        let count: usize = length as usize;
        if input.len() - pos - 1 < count {
            return Err(WireError::Malformed);
        }
        let content: Vec<u8> = copy_range(input, pos + 1, pos + 1 + count);
        Ok((RegularMsg1 { length, content }, pos + 1 + count))
    }

    /// Appends the count and the bytes.
    pub fn write(&self, out: &mut Vec<u8>)
        requires
            self.wf(),
        ensures
            final(out)@ == old(out)@ + counted_wire(self@),
    {
        out.push(self.length);
        append_bytes(out, self.content.as_slice());
        assert(out@ =~= old(out)@ + counted_wire(self@));
    }
}

impl Label {
    /// Whether the label can be written: a pointer fits 14 bits, a label
    /// counts its bytes and has fewer than 64.
    pub open spec fn wf(&self) -> bool {
        match self {
            Label::Pointer(p) => *p < 0x4000,
            Label::Regular(m) => m.wf() && m.length < 64,
        }
    }

    /// The bytes that stand for the label.
    pub open spec fn wire(&self) -> Seq<u8> {
        match self {
            Label::Pointer(p) => pointer_wire(*p as int),
            Label::Regular(m) => counted_wire(m@),
        }
    }

    /// Reads the label that starts at `pos`.
    pub fn read(input: &[u8], pos: usize) -> (r: Result<(Label, usize), WireError>)
        ensures
            match spec_label_at(input@, pos as int) {
                Some((label, next)) => r matches Ok((l, n)) && l@ == label && n == next && l.wf(),
                None => r == Err::<(Label, usize), WireError>(WireError::Malformed),
            },
    {
        if pos >= input.len() {
            return Err(WireError::Malformed);
        }
        let first: u8 = input[pos];
        if first < 64 {
            match RegularMsg1::read(input, pos) {
                Ok((m, next)) => Ok((Label::Regular(m), next)),
                Err(e) => Err(e),
            }
        } else if first >= 192 {
            if input.len() - pos < 2 {
                return Err(WireError::Malformed);
            }
            let hi: u16 = (first - 192) as u16;
            let lo: u16 = input[pos + 1] as u16;
            Ok((Label::Pointer(hi * 256 + lo), pos + 2))
        } else {
            Err(WireError::Malformed)
        }
    }

    /// Appends the bytes that stand for the label.
    pub fn write(&self, out: &mut Vec<u8>)
        requires
            self.wf(),
        ensures
            final(out)@ == old(out)@ + self.wire(),
    {
        match self {
            Label::Pointer(p) => {
                write_pointer(out, *p as usize);
            },
            Label::Regular(m) => {
                m.write(out);
            },
        }
    }
}

/// Appends the pointer to offset `p`.
pub fn write_pointer(out: &mut Vec<u8>, p: usize)
    requires
        p < 0x4000,
    ensures
        final(out)@ == old(out)@ + pointer_wire(p as int),
{
    let hi: u8 = (192 + p / 256) as u8;
    let lo: u8 = (p % 256) as u8;
    out.push(hi);
    out.push(lo);
    assert(out@ =~= old(out)@ + pointer_wire(p as int));
}

/// Appends the bytes of `content` behind the byte that counts them.
pub fn write_counted(out: &mut Vec<u8>, content: &[u8])
    requires
        content@.len() <= 255,
    ensures
        final(out)@ == old(out)@ + counted_wire(content@),
{
    out.push(content.len() as u8);
    append_bytes(out, content);
    assert(out@ =~= old(out)@ + counted_wire(content@));
}

/// A pointer that is written and read again is the same pointer, and takes
/// two bytes.
pub proof fn lemma_pointer_round_trip(msg: Seq<u8>, pos: int, p: int)
    requires
        0 <= p < 0x4000,
        0 <= pos,
        pos + 2 <= msg.len(),
        msg.subrange(pos, pos + 2) == pointer_wire(p),
    ensures
        spec_label_at(msg, pos) == Some((LabelView::Pointer(p as u16), pos + 2)),
{
    let w = msg.subrange(pos, pos + 2);
    assert(w[0] == msg[pos]);
    assert(w[1] == msg[pos + 1]);
}

/// A counted string that is written and read again is the same string.
pub proof fn lemma_counted_round_trip(msg: Seq<u8>, pos: int, content: Seq<u8>)
    requires
        content.len() <= 255,
        0 <= pos,
        pos + 1 + content.len() <= msg.len(),
        msg.subrange(pos, pos + 1 + content.len()) == counted_wire(content),
    ensures
        spec_counted_at(msg, pos) == Some((content, pos + 1 + content.len())),
{
    let w = msg.subrange(pos, pos + 1 + content.len());
    assert(w[0] == msg[pos]);
    assert(msg.subrange(pos + 1, pos + 1 + content.len()) =~= content) by {
        assert forall|i: int| 0 <= i < content.len() implies msg[pos + 1 + i] == content[i] by {
            assert(w[1 + i] == msg[pos + 1 + i]);
        }
    }
}

} // verus!
