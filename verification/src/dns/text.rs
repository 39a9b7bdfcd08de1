use vstd::prelude::*;
use vstd::string::StringSliceAdditionalSpecFns;
use crate::dns::labels::{counted_wire, spec_counted_at, write_counted, RegularMsg1};
use crate::dns::name::DNSName;
use crate::dns::wire::{append_bytes, copy_range};
use crate::errors::WireError;

verus! {

/// The text of a `TXT` record, held as the strings it came in.
#[derive(Debug, PartialEq, Eq)]
pub struct DNSText {
    pub inner: DNSName,
}

/// The strings of `parts` one after the other.
pub open spec fn concat_all(parts: Seq<Seq<u8>>) -> Seq<u8>
    decreases parts.len(),
{
    if parts.len() == 0 {
        Seq::empty()
    } else {
        concat_all(parts.drop_last()) + parts.last()
    }
}

/// The text `content` on the wire: one counted string if it has at most 255
/// bytes, else counted strings of 255 bytes and a last one of what is left.
pub open spec fn text_wire(content: Seq<u8>) -> Seq<u8>
    decreases content.len(),
{
    if content.len() <= 255 {
        counted_wire(content)
    } else {
        counted_wire(content.take(255)) + text_wire(content.skip(255))
    }
}

/// The number of bytes that a text of `n` bytes takes on the wire.
pub open spec fn text_wire_len(n: nat) -> nat
    decreases n,
{
    if n <= 255 {
        n + 1
    } else {
        256 + text_wire_len((n - 255) as nat)
    }
}

/// The counted strings that fill `msg` from `pos` up to `end` exactly.
pub open spec fn spec_strings_at(msg: Seq<u8>, pos: int, end: int) -> Option<Seq<Seq<u8>>>
    decreases end - pos,
{
    if pos >= end {
        if pos == end {
            Some(Seq::empty())
        } else {
            None
        }
    } else {
        match spec_counted_at(msg, pos) {
            Some((content, next)) => {
                if next <= end {
                    match spec_strings_at(msg, next, end) {
                        Some(rest) => Some(seq![content] + rest),
                        None => None,
                    }
                } else {
                    None
                }
            },
            None => None,
        }
    }
}

impl View for DNSText {
    type V = Seq<u8>;

    open spec fn view(&self) -> Seq<u8> {
        concat_all(self.inner@)
    }
}

impl Clone for DNSText {
    fn clone(&self) -> (r: Self)
        ensures
            r@ == self@,
            r.inner@ == self.inner@,
    {
        DNSText { inner: self.inner.clone() }
    }
}

/// The number of bytes that a text takes on the wire depends on its length
/// alone.
pub proof fn lemma_text_wire_len(content: Seq<u8>)
    ensures
        text_wire(content).len() == text_wire_len(content.len()),
    decreases content.len(),
{
    if content.len() > 255 {
        lemma_text_wire_len(content.skip(255));
    }
}

/// A longer text takes at least as many bytes, and more than its own length.
pub proof fn lemma_text_wire_len_grows(n: nat, m: nat)
    requires
        n <= m,
    ensures
        n < text_wire_len(n) <= text_wire_len(m),
    decreases m,
{
    if m > 255 {
        if n > 255 {
            lemma_text_wire_len_grows((n - 255) as nat, (m - 255) as nat);
        } else {
            lemma_text_wire_len_grows(0, (m - 255) as nat);
        }
    }
}

/// A text takes one byte more on the wire for each run of up to 255 bytes
/// that it is cut into, and one byte when it is empty.
pub proof fn lemma_text_len_bounds(n: nat)
    ensures
        text_wire_len(n) == (if n == 0 {
            1nat
        } else {
            n + (n + 254) / 255
        }),
    decreases n,
{
    if n > 255 {
        lemma_text_len_bounds((n - 255) as nat);
    }
}

/// Whether a text of `n` bytes fits the data of one record.
pub fn text_fits(n: usize) -> (r: bool)
    ensures
        r == (text_wire_len(n as nat) <= 0xFFFF),
        forall|t: Seq<u8>| t.len() == n ==> r == (#[trigger] text_wire(t).len() <= 0xFFFF),
{
    proof {
        lemma_text_wire_len_grows(n as nat, n as nat);
        lemma_text_len_bounds(n as nat);
        assert forall|t: Seq<u8>| t.len() == n implies #[trigger] text_wire(t).len()
            == text_wire_len(n as nat) by {
            lemma_text_wire_len(t);
        }
    }
    if n > 0xFFFF {
        return false;
    }
    let on_wire: usize = if n == 0 {
        1
    } else {
        n + (n + 254) / 255
    };
    on_wire <= 0xFFFF
}

impl DNSText {
    /// The text that holds the bytes of `value` as one string.
    pub fn from_bytes(value: Vec<u8>) -> (r: Self)
        ensures
            r@ == value@,
            r.inner@ == seq![value@],
    {
        let mut parts: Vec<Vec<u8>> = Vec::new();
        parts.push(value);
        let r = DNSText { inner: DNSName(parts) };
        proof {
            assert(r.inner@ =~= seq![value@]);
            assert(r.inner@.drop_last() =~= Seq::<Seq<u8>>::empty());
            assert(concat_all(r.inner@.drop_last()) =~= Seq::<u8>::empty());
            assert(r@ =~= value@);
        }
        r
    }

    /// The text that holds the bytes of `value`.
    pub fn from_text(value: &str) -> (r: Self)
        ensures
            r@ == value.spec_bytes(),
    {
        let b: &[u8] = value.as_bytes();
        let v: Vec<u8> = copy_range(b, 0, b.len());
        assert(v@ =~= b@);
        DNSText::from_bytes(v)
    }

    /// The bytes of the text, all strings joined.
    pub fn content(&self) -> (r: Vec<u8>)
        ensures
            r@ == self@,
    {
        let mut r: Vec<u8> = Vec::new();
        let mut i: usize = 0;
        proof {
            assert(self.inner@.take(0) =~= Seq::<Seq<u8>>::empty());
        }
        while i < self.inner.0.len()
            invariant
                i <= self.inner.0@.len(),
                self.inner@.len() == self.inner.0@.len(),
                r@ == concat_all(self.inner@.take(i as int)),
            decreases self.inner.0.len() - i,
        {
            append_bytes(&mut r, self.inner.0[i].as_slice());
            proof {
                let next = self.inner@.take(i + 1);
                assert(next.drop_last() =~= self.inner@.take(i as int));
                assert(next.last() == self.inner.0@[i as int]@);
            }
            i += 1;
        }
        proof {
            assert(self.inner@.take(i as int) =~= self.inner@);
        }
        r
    }

    /// Appends the text in counted strings of at most 255 bytes.
    pub fn write(&self, out: &mut Vec<u8>)
        ensures
            final(out)@ == old(out)@ + text_wire(self@),
    {
        let content: Vec<u8> = self.content();
        write_text(out, content.as_slice());
    }

    /// Reads the counted strings that fill `input` from `pos` up to `end`.
    pub fn read(input: &[u8], pos: usize, end: usize) -> (r: Result<DNSText, WireError>)
        ensures
            match spec_strings_at(input@, pos as int, end as int) {
                Some(strings) => r matches Ok(t) && t.inner@ == strings,
                None => r matches Err(e) && e == WireError::Malformed,
            },
    {
        if pos > end {
            return Err(WireError::Malformed);
        }
        let mut parts: Vec<Vec<u8>> = Vec::new();
        let mut cur: usize = pos;
        proof {
            if let Some(rest) = spec_strings_at(input@, pos as int, end as int) {
                assert(Seq::<Seq<u8>>::empty() + rest =~= rest);
            }
        }
        while cur < end
            invariant
                pos <= cur <= end,
                spec_strings_at(input@, pos as int, end as int) == (match spec_strings_at(
                    input@,
                    cur as int,
                    end as int,
                ) {
                    Some(rest) => Some(Seq::new(parts@.len(), |k: int| parts@[k]@) + rest),
                    None => None,
                }),
            decreases end - cur,
        {
            let ghost acc = Seq::new(parts@.len(), |k: int| parts@[k]@);
            match RegularMsg1::read(input, cur) {
                Err(_) => {
                    return Err(WireError::Malformed);
                },
                Ok((m, next)) => {
                    if next > end {
                        return Err(WireError::Malformed);
                    }
                    let ghost content = m.content@;
                    parts.push(m.content);
                    proof {
                        let acc2 = Seq::new(parts@.len(), |k: int| parts@[k]@);
                        assert(acc2 =~= acc + seq![content]);
                        if let Some(rest) = spec_strings_at(input@, next as int, end as int) {
                            assert(acc + (seq![content] + rest) =~= acc2 + rest);
                        }
                    }
                    cur = next;
                },
            }
        }
        let t = DNSText { inner: DNSName(parts) };
        proof {
            let acc = Seq::new(parts@.len(), |k: int| parts@[k]@);
            assert(acc + Seq::<Seq<u8>>::empty() =~= acc);
            assert(t.inner@ =~= acc);
        }
        Ok(t)
    }
}

/// Appends `content` in counted strings of at most 255 bytes.
pub fn write_text(out: &mut Vec<u8>, content: &[u8])
    ensures
        final(out)@ == old(out)@ + text_wire(content@),
{
    let mut start: usize = 0;
    let ghost mut done: Seq<u8> = Seq::empty();
    proof {
        assert(content@.skip(0) =~= content@);
        assert(old(out)@ + done =~= old(out)@);
        assert(done + text_wire(content@) =~= text_wire(content@));
    }
    while content.len() - start > 255
        invariant
            start <= content@.len(),
            out@ == old(out)@ + done,
            text_wire(content@) == done + text_wire(content@.skip(start as int)),
        decreases content@.len() - start,
    {
        let chunk: Vec<u8> = copy_range(content, start, start + 255);
        write_counted(out, chunk.as_slice());
        proof {
            let rest = content@.skip(start as int);
            assert(rest.take(255) =~= chunk@);
            assert(rest.skip(255) =~= content@.skip(start + 255));
            let step = counted_wire(chunk@);
            assert(done + (step + text_wire(rest.skip(255))) =~= (done + step) + text_wire(
                rest.skip(255),
            ));
            assert(out@ =~= old(out)@ + (done + step));
            done = done + step;
        }
        start = start + 255;
    }
    let last: Vec<u8> = copy_range(content, start, content.len());
    write_counted(out, last.as_slice());
    proof {
        assert(last@ =~= content@.skip(start as int));
        assert(out@ =~= old(out)@ + (done + counted_wire(last@)));
    }
}

} // verus!
