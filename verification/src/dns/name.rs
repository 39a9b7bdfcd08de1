use vstd::prelude::*;
use vstd::string::StringSliceAdditionalSpecFns;
use crate::dns::wire::{bytes_eq, copy_range};

verus! {

/// A domain name: its labels, leftmost first. No labels is the root.
#[derive(Debug, PartialEq, Eq, Hash)]
pub struct DNSName(pub Vec<Vec<u8>>);

/// How one name stands to another when both are read from the right.
#[derive(Debug, PartialEq, Eq, Clone, Copy, Structural)]
pub enum NameCmp {
    /// The same labels.
    Equal,
    /// The first name is a proper suffix of the second.
    Subdomain,
    /// The second name is a proper suffix of the first.
    Superdomain,
    /// Neither is a suffix of the other.
    Different,
}

impl View for DNSName {
    type V = Seq<Seq<u8>>;

    open spec fn view(&self) -> Seq<Seq<u8>> {
        Seq::new(self.0@.len(), |i: int| self.0@[i]@)
    }
}

/// Whether every label of `labels` has between 1 and 63 bytes, as the wire
/// format asks.
pub open spec fn labels_fit_wire(labels: Seq<Seq<u8>>) -> bool {
    forall|i: int| 0 <= i < labels.len() ==> 1 <= (#[trigger] labels[i]).len() <= 63
}

/// Whether `a` is the tail of `b`, label for label.
pub open spec fn is_suffix_of(a: Seq<Seq<u8>>, b: Seq<Seq<u8>>) -> bool {
    a.len() <= b.len() && b.skip(b.len() - a.len()) == a
}

/// How `a` stands to `b`.
pub open spec fn name_relation(a: Seq<Seq<u8>>, b: Seq<Seq<u8>>) -> NameCmp {
    if a == b {
        NameCmp::Equal
    } else if is_suffix_of(a, b) {
        NameCmp::Subdomain
    } else if is_suffix_of(b, a) {
        NameCmp::Superdomain
    } else {
        NameCmp::Different
    }
}

/// The label of `s` at `j`, counted from the right.
pub open spec fn from_right(s: Seq<Seq<u8>>, j: int) -> Seq<u8> {
    s[s.len() - 1 - j]
}

/// The position of the first `sep` in `s`, or the length of `s` if there is
/// none.
pub open spec fn first_sep(s: Seq<u8>, sep: Set<u8>) -> nat
    decreases s.len(),
{
    if s.len() == 0 || sep.contains(s[0]) {
        0
    } else {
        1 + first_sep(s.skip(1), sep)
    }
}

/// The non-empty pieces of `s` between bytes of `sep`, in order.
pub open spec fn split_pieces(s: Seq<u8>, sep: Set<u8>) -> Seq<Seq<u8>>
    decreases s.len(),
{
    if s.len() == 0 {
        Seq::empty()
    } else {
        let k = first_sep(s, sep) as int;
        if k == 0 {
            split_pieces(s.skip(1), sep)
        } else if k >= s.len() {
            seq![s]
        } else {
            seq![s.take(k)] + split_pieces(s.skip(k + 1), sep)
        }
    }
}

/// The pieces of `s` of `n` bytes each, the last one shorter if `s` does not
/// divide evenly.
pub open spec fn chunks_of(s: Seq<u8>, n: int) -> Seq<Seq<u8>>
    decreases s.len(),
{
    if n <= 0 || s.len() == 0 {
        Seq::empty()
    } else if s.len() <= n {
        seq![s]
    } else {
        seq![s.take(n)] + chunks_of(s.skip(n), n)
    }
}

/// The set that holds the dot alone.
pub open spec fn dot() -> Set<u8> {
    set![46u8]
}

/// The first separator of `s` is at `k` when `k` is in range, holds one, and
/// nothing before it does.
pub proof fn lemma_first_sep_is(s: Seq<u8>, sep: Set<u8>, k: int)
    requires
        0 <= k <= s.len(),
        k < s.len() ==> sep.contains(s[k]),
        forall|j: int| 0 <= j < k ==> !sep.contains(#[trigger] s[j]),
    ensures
        first_sep(s, sep) == k,
    decreases s.len(),
{
    if s.len() == 0 || sep.contains(s[0]) {
    } else {
        let t = s.skip(1);
        assert forall|j: int| 0 <= j < k - 1 implies !sep.contains(#[trigger] t[j]) by {
            assert(t[j] == s[j + 1]);
        }
        if k - 1 < t.len() {
            assert(t[k - 1] == s[k]);
        }
        lemma_first_sep_is(t, sep, k - 1);
    }
}

impl Clone for DNSName {
    fn clone(&self) -> (r: Self)
        ensures
            r@ == self@,
    {
        let mut labels: Vec<Vec<u8>> = Vec::new();
        let mut i: usize = 0;
        while i < self.0.len()
            invariant
                i <= self.0.len(),
                labels@.len() == i,
                forall|j: int| 0 <= j < i ==> labels@[j]@ == self.0@[j]@,
            decreases self.0.len() - i,
        {
            let l: Vec<u8> = copy_range(self.0[i].as_slice(), 0, self.0[i].len());
            assert(l@ =~= self.0@[i as int]@);
            labels.push(l);
            i += 1;
        }
        let r = DNSName(labels);
        assert(r@ =~= self@);
        r
    }
}

impl DNSName {
    /// Whether this name can be written on the wire: every label has between
    /// 1 and 63 bytes.
    pub open spec fn wf(&self) -> bool {
        labels_fit_wire(self@)
    }

    /// The name that dotted text spells: its non-empty pieces between dots.
    pub fn from_url(s: &str) -> (r: Self)
        ensures
            r@ == split_pieces(s.spec_bytes(), dot()),
    {
        Self::from_dotted(s.as_bytes())
    }

    /// The name that the dotted bytes `b` spell: its non-empty pieces
    /// between dots.
    pub fn from_dotted(b: &[u8]) -> (r: Self)
        ensures
            r@ == split_pieces(b@, dot()),
    {
        let mut labels: Vec<Vec<u8>> = Vec::new();
        let mut start: usize = 0;
        let mut i: usize = 0;
        proof {
            assert(b@.skip(0) =~= b@);
            assert(Seq::new(labels@.len(), |k: int| labels@[k]@) + split_pieces(b@, dot())
                =~= split_pieces(b@, dot()));
        }
        while i < b.len()
            invariant
                start <= i <= b.len(),
                forall|j: int| start <= j < i ==> b@[j] != 46u8,
                split_pieces(b@, dot()) == Seq::new(labels@.len(), |k: int| labels@[k]@)
                    + split_pieces(b@.skip(start as int), dot()),
            decreases b.len() - i,
        {
            if b[i] == 46 {
                let ghost rest = b@.skip(start as int);
                proof {
                    assert forall|j: int| 0 <= j < i - start implies !dot().contains(
                        #[trigger] rest[j],
                    ) by {
                        assert(rest[j] == b@[start + j]);
                    }
                    assert(rest[i - start] == b@[i as int]);
                    lemma_first_sep_is(rest, dot(), i - start);
                }
                if i > start {
                    let l: Vec<u8> = copy_range(b, start, i);
                    let ghost before = Seq::new(labels@.len(), |k: int| labels@[k]@);
                    labels.push(l);
                    proof {
                        assert(rest.take(i - start) =~= b@.subrange(start as int, i as int));
                        assert(rest.skip(i - start + 1) =~= b@.skip(i + 1));
                        assert(Seq::new(labels@.len(), |k: int| labels@[k]@) =~= before + seq![
                            l@,
                        ]);
                    }
                } else {
                    proof {
                        assert(rest.skip(1) =~= b@.skip(i + 1));
                    }
                }
                start = i + 1;
            }
            i += 1;
        }
        let ghost rest = b@.skip(start as int);
        proof {
            assert forall|j: int| 0 <= j < rest.len() implies !dot().contains(#[trigger] rest[j]) by {
                assert(rest[j] == b@[start + j]);
            }
            lemma_first_sep_is(rest, dot(), rest.len() as int);
        }
        if start < b.len() {
            let l: Vec<u8> = copy_range(b, start, b.len());
            let ghost before = Seq::new(labels@.len(), |k: int| labels@[k]@);
            labels.push(l);
            proof {
                assert(rest =~= b@.subrange(start as int, b@.len() as int));
                assert(Seq::new(labels@.len(), |k: int| labels@[k]@) =~= before + seq![l@]);
            }
        } else {
            proof {
                assert(rest.len() == 0);
            }
        }
        let r = DNSName(labels);
        assert(r@ =~= split_pieces(b@, dot()));
        r
    }

    /// The labels that hold the bytes of `s` in runs of 255.
    pub fn from_raw_string(s: &str) -> (r: Self)
        ensures
            r@ == chunks_of(s.spec_bytes(), 255),
    {
        Self::from_raw_bytes(s.as_bytes())
    }

    /// The labels that hold the bytes of `b` in runs of 255.
    pub fn from_raw_bytes(b: &[u8]) -> (r: Self)
        ensures
            r@ == chunks_of(b@, 255),
    {
        let mut labels: Vec<Vec<u8>> = Vec::new();
        let mut start: usize = 0;
        proof {
            assert(b@.skip(0) =~= b@);
            assert(Seq::new(labels@.len(), |k: int| labels@[k]@) + chunks_of(b@, 255)
                =~= chunks_of(b@, 255));
        }
        while b.len() - start > 255
            invariant
                start <= b.len(),
                chunks_of(b@, 255) == Seq::new(labels@.len(), |k: int| labels@[k]@) + chunks_of(
                    b@.skip(start as int),
                    255,
                ),
            decreases b.len() - start,
        {
            let l: Vec<u8> = copy_range(b, start, start + 255);
            let ghost before = Seq::new(labels@.len(), |k: int| labels@[k]@);
            let ghost rest = b@.skip(start as int);
            labels.push(l);
            proof {
                assert(rest.take(255) =~= b@.subrange(start as int, start + 255));
                assert(rest.skip(255) =~= b@.skip(start + 255));
                assert(Seq::new(labels@.len(), |k: int| labels@[k]@) =~= before + seq![l@]);
            }
            start = start + 255;
        }
        if start < b.len() {
            let l: Vec<u8> = copy_range(b, start, b.len());
            let ghost before = Seq::new(labels@.len(), |k: int| labels@[k]@);
            labels.push(l);
            proof {
                assert(b@.skip(start as int) =~= b@.subrange(start as int, b@.len() as int));
                assert(Seq::new(labels@.len(), |k: int| labels@[k]@) =~= before + seq![l@]);
            }
        }
        let r = DNSName(labels);
        assert(r@ =~= chunks_of(b@, 255));
        r
    }

    /// The number of labels.
    pub fn len(&self) -> (r: usize)
        ensures
            r == self@.len(),
    {
        self.0.len()
    }

    /// The label at `idx`, counted from the right.
    pub fn getrev(&self, idx: usize) -> (r: &[u8])
        requires
            idx < self@.len(),
        ensures
            r@ == self@[self@.len() - idx - 1],
    {
        self.0[self.0.len() - idx - 1].as_slice()
    }

    /// Whether every label has between 1 and 63 bytes.
    pub fn is_wire_name(&self) -> (r: bool)
        ensures
            r == self.wf(),
    {
        let mut i: usize = 0;
        while i < self.0.len()
            invariant
                i <= self.0.len(),
                forall|j: int| 0 <= j < i ==> 1 <= (#[trigger] self@[j]).len() <= 63,
            decreases self.0.len() - i,
        {
            let n: usize = self.0[i].len();
            if n < 1 || n > 63 {
                assert(self@[i as int].len() == n);
                return false;
            }
            assert(self@[i as int].len() == n);
            i += 1;
        }
        true
    }

    /// Whether `other` has the same labels.
    pub fn same_as(&self, other: &DNSName) -> (r: bool)
        ensures
            r == (self@ == other@),
    {
        assert(self@.skip(0) =~= self@);
        self.tail_same_as(0, other)
    }

    /// Whether the labels of this name from `start` on are those of `other`.
    pub fn tail_same_as(&self, start: usize, other: &DNSName) -> (r: bool)
        requires
            start <= self@.len(),
        ensures
            r == (self@.skip(start as int) == other@),
    {
        let n: usize = self.0.len() - start;
        if n != other.0.len() {
            assert(self@.skip(start as int).len() != other@.len());
            return false;
        }
        let mut i: usize = 0;
        while i < n
            invariant
                start <= self@.len(),
                self.0.len() == self@.len(),
                n == self@.len() - start,
                n == other@.len(),
                i <= n,
                forall|j: int| 0 <= j < i ==> self@[start + j] == other@[j],
            decreases n - i,
        {
            if !bytes_eq(self.0[start + i].as_slice(), other.0[i].as_slice()) {
                assert(self@.skip(start as int)[i as int] == self@[start + i]);
                return false;
            }
            i += 1;
        }
        assert(self@.skip(start as int) =~= other@);
        true
    }

    /// How this name stands to `other` when both are read from the right:
    /// equal, a proper suffix of it, it a proper suffix of this, or neither.
    pub fn cmp(&self, other: &Self) -> (r: NameCmp)
        ensures
            r == name_relation(self@, other@),
    {
        let n1: usize = self.len();
        let n2: usize = other.len();
        let len: usize = if n1 < n2 {
            n1
        } else {
            n2
        };
        let mut i: usize = 0;
        while i < len
            invariant
                n1 == self@.len(),
                n2 == other@.len(),
                len <= n1,
                len <= n2,
                i <= len,
                forall|j: int|
                    0 <= j < i ==> #[trigger] from_right(self@, j) == from_right(other@, j),
            decreases len - i,
        {
            if !bytes_eq(self.getrev(i), other.getrev(i)) {
                proof {
                    lemma_tails_differ(self@, other@, n1 - 1 - i, n2 - 1 - i);
                }
                return NameCmp::Different;
            }
            i += 1;
        }
        proof {
            lemma_tails_agree(self@, other@);
        }
        if n1 == n2 {
            NameCmp::Equal
        } else if n1 < n2 {
            NameCmp::Subdomain
        } else {
            NameCmp::Superdomain
        }
    }
}

/// Two names that differ in a label at the same distance from the right are
/// neither equal nor suffix of one another.
pub proof fn lemma_tails_differ(a: Seq<Seq<u8>>, b: Seq<Seq<u8>>, ia: int, ib: int)
    requires
        0 <= ia < a.len(),
        0 <= ib < b.len(),
        a.len() - ia == b.len() - ib,
        a[ia] != b[ib],
    ensures
        name_relation(a, b) == NameCmp::Different,
{
    if is_suffix_of(a, b) {
        assert(b.skip(b.len() - a.len())[ia] == b[ib]);
    }
    if is_suffix_of(b, a) {
        assert(a.skip(a.len() - b.len())[ib] == a[ia]);
    }
}

/// Two names that agree in every label that both have, counted from the
/// right, are equal or one a suffix of the other, as their lengths say.
pub proof fn lemma_tails_agree(a: Seq<Seq<u8>>, b: Seq<Seq<u8>>)
    requires
        forall|j: int|
            0 <= j < a.len() && j < b.len() ==> #[trigger] from_right(a, j) == from_right(b, j),
    ensures
        a.len() == b.len() ==> name_relation(a, b) == NameCmp::Equal,
        a.len() < b.len() ==> name_relation(a, b) == NameCmp::Subdomain,
        a.len() > b.len() ==> name_relation(a, b) == NameCmp::Superdomain,
{
    if a.len() <= b.len() {
        let t = b.skip(b.len() - a.len());
        assert forall|k: int| 0 <= k < a.len() implies t[k] == a[k] by {
            let j = a.len() - 1 - k;
            assert(from_right(a, j) == from_right(b, j));
        }
        assert(t =~= a);
        if a.len() == b.len() {
            assert(t =~= b);
        }
    } else {
        let t = a.skip(a.len() - b.len());
        assert forall|k: int| 0 <= k < b.len() implies t[k] == b[k] by {
            let j = b.len() - 1 - k;
            assert(from_right(a, j) == from_right(b, j));
        }
        assert(t =~= b);
    }
}

/// Reading the relation the other way round: the first name is a proper
/// suffix of the second exactly when the second has the first as a proper
/// suffix; every name equals itself; and two names whose rightmost labels
/// differ are unrelated.
pub proof fn lemma_relation_mirrors(a: Seq<Seq<u8>>, b: Seq<Seq<u8>>)
    ensures
        name_relation(a, b) == NameCmp::Subdomain <==> name_relation(b, a) == NameCmp::Superdomain,
        name_relation(a, b) == NameCmp::Equal <==> name_relation(b, a) == NameCmp::Equal,
        name_relation(a, b) == NameCmp::Different <==> name_relation(b, a) == NameCmp::Different,
        name_relation(a, a) == NameCmp::Equal,
        a.len() > 0 && b.len() > 0 && a.last() != b.last() ==> name_relation(a, b)
            == NameCmp::Different,
{
    if a != b && is_suffix_of(a, b) && is_suffix_of(b, a) {
        assert(b.skip(0) =~= b);
    }
    if a.len() > 0 && b.len() > 0 && a.last() != b.last() {
        lemma_tails_differ(a, b, a.len() - 1, b.len() - 1);
    }
}

} // verus!
