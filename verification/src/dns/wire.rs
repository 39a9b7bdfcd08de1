use vstd::prelude::*;

verus! {

/// The two bytes of `v` in network order.
pub open spec fn be16(v: u16) -> Seq<u8> {
    seq![(v / 256) as u8, (v % 256) as u8]
}

/// The four bytes of `v` in network order.
pub open spec fn be32(v: u32) -> Seq<u8> {
    seq![
        (v / 0x100_0000) as u8,
        ((v / 0x1_0000) % 256) as u8,
        ((v / 256) % 256) as u8,
        (v % 256) as u8,
    ]
}

/// The number whose network-order bytes are `hi`, `lo`.
pub open spec fn be16_value(hi: u8, lo: u8) -> u16 {
    (hi as int * 256 + lo as int) as u16
}

/// The number whose network-order bytes are `b0` to `b3`.
pub open spec fn be32_value(b0: u8, b1: u8, b2: u8, b3: u8) -> u32 {
    (b0 as int * 0x100_0000 + b1 as int * 0x1_0000 + b2 as int * 256 + b3 as int) as u32
}

/// The 16-bit number at `pos` in `s`, if two bytes are there.
pub open spec fn spec_read_u16(s: Seq<u8>, pos: int) -> Option<u16> {
    if 0 <= pos && pos + 2 <= s.len() {
        Some(be16_value(s[pos], s[pos + 1]))
    } else {
        None
    }
}

/// The 32-bit number at `pos` in `s`, if four bytes are there.
pub open spec fn spec_read_u32(s: Seq<u8>, pos: int) -> Option<u32> {
    if 0 <= pos && pos + 4 <= s.len() {
        Some(be32_value(s[pos], s[pos + 1], s[pos + 2], s[pos + 3]))
    } else {
        None
    }
}

/// Reading back the bytes of a 16-bit number gives the number.
pub proof fn lemma_be16_round_trip(v: u16)
    ensures
        be16(v).len() == 2,
        be16_value(be16(v)[0], be16(v)[1]) == v,
{
}

/// Reading back the bytes of a 32-bit number gives the number.
pub proof fn lemma_be32_round_trip(v: u32)
    ensures
        be32(v).len() == 4,
        be32_value(be32(v)[0], be32(v)[1], be32(v)[2], be32(v)[3]) == v,
{
}

/// Appends `v` to `out` in network order.
pub fn write_u16(out: &mut Vec<u8>, v: u16)
    ensures
        final(out)@ == old(out)@ + be16(v),
{
    let hi: u8 = (v / 256) as u8;
    let lo: u8 = (v % 256) as u8;
    out.push(hi);
    out.push(lo);
    assert(out@ =~= old(out)@ + be16(v));
}

/// Appends `v` to `out` in network order.
pub fn write_u32(out: &mut Vec<u8>, v: u32)
    ensures
        final(out)@ == old(out)@ + be32(v),
{
    let b0: u8 = (v / 0x100_0000) as u8;
    let b1: u8 = ((v / 0x1_0000) % 256) as u8;
    let b2: u8 = ((v / 256) % 256) as u8;
    let b3: u8 = (v % 256) as u8;
    out.push(b0);
    out.push(b1);
    out.push(b2);
    out.push(b3);
    assert(out@ =~= old(out)@ + be32(v));
}

/// Reads the 16-bit number that starts at `pos`.
pub fn read_u16(input: &[u8], pos: usize) -> (r: Option<u16>)
    ensures
        r == spec_read_u16(input@, pos as int),
{
    if pos < input.len() && input.len() - pos >= 2 {
        let hi: u16 = input[pos] as u16;
        let lo: u16 = input[pos + 1] as u16;
        Some(hi * 256 + lo)
    } else {
        None
    }
}

/// Reads the 32-bit number that starts at `pos`.
pub fn read_u32(input: &[u8], pos: usize) -> (r: Option<u32>)
    ensures
        r == spec_read_u32(input@, pos as int),
{
    if pos < input.len() && input.len() - pos >= 4 {
        let b0: u32 = input[pos] as u32;
        let b1: u32 = input[pos + 1] as u32;
        let b2: u32 = input[pos + 2] as u32;
        let b3: u32 = input[pos + 3] as u32;
        Some(b0 * 0x100_0000 + b1 * 0x1_0000 + b2 * 256 + b3)
    } else {
        None
    }
}

/// Whether two byte strings hold the same bytes.
pub fn bytes_eq(a: &[u8], b: &[u8]) -> (r: bool)
    ensures
        r == (a@ == b@),
{
    if a.len() != b.len() {
        return false;
    }
    let mut i: usize = 0;
    while i < a.len()
        invariant
            a.len() == b.len(),
            i <= a.len(),
            forall|j: int| 0 <= j < i ==> a@[j] == b@[j],
        decreases a.len() - i,
    {
        if a[i] != b[i] {
            return false;
        }
        i += 1;
    }
    assert(a@ =~= b@);
    true
}

/// Appends the bytes of `src` to `out`.
pub fn append_bytes(out: &mut Vec<u8>, src: &[u8])
    ensures
        final(out)@ == old(out)@ + src@,
{
    let mut i: usize = 0;
    while i < src.len()
        invariant
            i <= src.len(),
            out@ == old(out)@ + src@.take(i as int),
        decreases src.len() - i,
    {
        out.push(src[i]);
        assert(src@.take(i + 1) =~= src@.take(i as int).push(src@[i as int]));
        assert(out@ =~= old(out)@ + src@.take(i + 1));
        i += 1;
    }
    assert(src@.take(i as int) =~= src@);
}

/// A copy of the bytes of `src` from `from` up to `to`.
pub fn copy_range(src: &[u8], from: usize, to: usize) -> (r: Vec<u8>)
    requires
        from <= to <= src@.len(),
    ensures
        r@ == src@.subrange(from as int, to as int),
{
    let mut r: Vec<u8> = Vec::new();
    let mut i: usize = from;
    while i < to
        invariant
            from <= i <= to <= src@.len(),
            r@ == src@.subrange(from as int, i as int),
        decreases to - i,
    {
        r.push(src[i]);
        assert(r@ =~= src@.subrange(from as int, i + 1));
        i += 1;
    }
    r
}

} // verus!
