use vstd::prelude::*;
use crate::dns::name::DNSName;

verus! {

/// The offsets that a dictionary of written names holds, and how it was set up.
pub struct DictView {
    /// For each name written in full so far, where it starts in the message.
    pub pointers: Map<Seq<Seq<u8>>, usize>,
    /// Whether the buffer starts with the two length bytes of a stream.
    pub is_tcp: bool,
    /// Whether the dictionary records names at all.
    pub enabled: bool,
}

impl DictView {
    /// The number of bytes in the buffer before the message starts.
    pub open spec fn prefix_len(self) -> int {
        if self.is_tcp {
            2
        } else {
            0
        }
    }

    /// Whether every offset fits the 14 bits of a pointer.
    pub open spec fn wf(self) -> bool {
        forall|name: Seq<Seq<u8>>| #[trigger]
            self.pointers.contains_key(name) ==> self.pointers[name] < 0x4000
    }

    /// The dictionary after `name` was written at `offset` of the buffer. The
    /// offset is kept relative to the start of the message. Nothing is kept
    /// when the dictionary is switched off, when the offset lies before the
    /// message, or when a pointer cannot hold it.
    pub open spec fn add(self, name: Seq<Seq<u8>>, offset: int) -> DictView {
        if self.enabled && self.prefix_len() <= offset && offset - self.prefix_len() < 0x4000 {
            DictView {
                pointers: self.pointers.insert(name, (offset - self.prefix_len()) as usize),
                is_tcp: self.is_tcp,
                enabled: self.enabled,
            }
        } else {
            self
        }
    }

    /// Where `name` was written, if it was.
    pub open spec fn query(self, name: Seq<Seq<u8>>) -> Option<usize> {
        if self.pointers.contains_key(name) {
            Some(self.pointers[name])
        } else {
            None
        }
    }

    /// The dictionary with no names in it.
    pub open spec fn clear(self) -> DictView {
        DictView { pointers: Map::empty(), is_tcp: self.is_tcp, enabled: self.enabled }
    }
}

/// The map that a list of entries stands for: a later entry of a name
/// replaces an earlier one.
pub open spec fn entries_map(s: Seq<(DNSName, usize)>) -> Map<Seq<Seq<u8>>, usize>
    decreases s.len(),
{
    if s.len() == 0 {
        Map::empty()
    } else {
        entries_map(s.drop_last()).insert(s.last().0@, s.last().1)
    }
}

/// The last entry of a name decides what the map holds for it.
pub proof fn lemma_entries_found(s: Seq<(DNSName, usize)>, name: Seq<Seq<u8>>, i: int)
    requires
        0 <= i < s.len(),
        s[i].0@ == name,
        forall|j: int| i < j < s.len() ==> (#[trigger] s[j]).0@ != name,
    ensures
        entries_map(s).contains_key(name),
        entries_map(s)[name] == s[i].1,
    decreases s.len(),
{
    if i < s.len() - 1 {
        assert(s.last() == s[s.len() - 1]);
        assert forall|j: int| i < j < s.drop_last().len() implies (#[trigger] s.drop_last()[j]).0@
            != name by {
            assert(s.drop_last()[j] == s[j]);
        }
        lemma_entries_found(s.drop_last(), name, i);
    }
}

/// A name that no entry has is not in the map.
pub proof fn lemma_entries_absent(s: Seq<(DNSName, usize)>, name: Seq<Seq<u8>>)
    requires
        forall|j: int| 0 <= j < s.len() ==> (#[trigger] s[j]).0@ != name,
    ensures
        !entries_map(s).contains_key(name),
    decreases s.len(),
{
    if s.len() > 0 {
        assert(s.last() == s[s.len() - 1]);
        assert forall|j: int| 0 <= j < s.drop_last().len() implies (#[trigger] s.drop_last()[j]).0@
            != name by {
            assert(s.drop_last()[j] == s[j]);
        }
        lemma_entries_absent(s.drop_last(), name);
    }
}

/// The dictionary of one outgoing message: for each name written in full,
/// the offset in the message where it starts.
#[derive(Debug)]
pub struct Compressed {
    pub pointers: Vec<(DNSName, usize)>,
    pub is_tcp: bool,
    pub enabled: bool,
}

impl View for Compressed {
    type V = DictView;

    open spec fn view(&self) -> DictView {
        DictView {
            pointers: entries_map(self.pointers@),
            is_tcp: self.is_tcp,
            enabled: self.enabled,
        }
    }
}

/// Offsets that all fit a pointer make a map whose offsets all fit.
pub proof fn lemma_entries_fit(s: Seq<(DNSName, usize)>)
    requires
        forall|i: int| 0 <= i < s.len() ==> (#[trigger] s[i]).1 < 0x4000,
    ensures
        forall|name: Seq<Seq<u8>>| #[trigger]
            entries_map(s).contains_key(name) ==> entries_map(s)[name] < 0x4000,
    decreases s.len(),
{
    if s.len() > 0 {
        assert forall|i: int| 0 <= i < s.drop_last().len() implies (#[trigger] s.drop_last()[i]).1
            < 0x4000 by {
            assert(s.drop_last()[i] == s[i]);
        }
        lemma_entries_fit(s.drop_last());
        assert(s.last() == s[s.len() - 1]);
        let before = entries_map(s.drop_last());
        assert forall|name: Seq<Seq<u8>>| #[trigger]
            entries_map(s).contains_key(name) implies entries_map(s)[name] < 0x4000 by {
            if name != s.last().0@ {
                assert(before.contains_key(name));
            }
        }
    }
}

impl Compressed {
    /// Whether every offset kept fits the 14 bits of a pointer.
    pub open spec fn wf(&self) -> bool {
        forall|i: int| 0 <= i < self.pointers@.len() ==> (#[trigger] self.pointers@[i]).1 < 0x4000
    }

    /// Whether every offset kept fits the 14 bits of a pointer.
    pub fn is_valid(&self) -> (r: bool)
        ensures
            r == self.wf(),
    {
        let mut i: usize = 0;
        while i < self.pointers.len()
            invariant
                i <= self.pointers@.len(),
                forall|j: int| 0 <= j < i ==> (#[trigger] self.pointers@[j]).1 < 0x4000,
            decreases self.pointers.len() - i,
        {
            if self.pointers[i].1 >= 0x4000 {
                return false;
            }
            i += 1;
        }
        true
    }

    /// A dictionary whose offsets fit holds a map whose offsets fit.
    pub proof fn lemma_view_wf(&self)
        requires
            self.wf(),
        ensures
            self@.wf(),
    {
        lemma_entries_fit(self.pointers@);
    }

    /// An empty dictionary that records names, for a message that is or is
    /// not preceded by the two length bytes of a stream.
    pub fn new(is_tcp: bool) -> (r: Self)
        ensures
            r@ == (DictView { pointers: Map::empty(), is_tcp, enabled: true }),
            r.wf(),
    {
        Compressed { pointers: Vec::new(), is_tcp, enabled: true }
    }

    /// An empty dictionary that records names or, with `enabled` false, never
    /// records any, so that no pointer is ever written.
    pub fn with_compression(is_tcp: bool, enabled: bool) -> (r: Self)
        ensures
            r@ == (DictView { pointers: Map::empty(), is_tcp, enabled }),
            r.wf(),
    {
        Compressed { pointers: Vec::new(), is_tcp, enabled }
    }

    /// Forgets every name.
    pub fn clear(&mut self)
        ensures
            final(self)@ == old(self)@.clear(),
            final(self).wf(),
    {
        self.pointers.clear();
    }

    /// Records that `name` was written at `offset` of the buffer.
    pub fn add(&mut self, name: DNSName, offset: usize)
        requires
            old(self).wf(),
        ensures
            final(self)@ == old(self)@.add(name@, offset as int),
            final(self).wf(),
    {
        if !self.enabled {
            return ;
        }
        let prefix: usize = if self.is_tcp {
            2
        } else {
            0
        };
        if offset < prefix {
            return ;
        }
        let rel: usize = offset - prefix;
        if rel >= 0x4000 {
            return ;
        }
        let ghost before = self.pointers@;
        self.pointers.push((name, rel));
        proof {
            assert(self.pointers@.drop_last() =~= before);
            assert(self@.pointers =~= old(self)@.pointers.insert(name@, rel));
            assert forall|i: int| 0 <= i < self.pointers@.len() implies (
            #[trigger] self.pointers@[i]).1 < 0x4000 by {
                if i < before.len() {
                    assert(self.pointers@[i] == before[i]);
                }
            }
        }
    }

    /// Where the name made of the labels of `name` from `start` on was
    /// written, if it was.
    pub fn query(&self, name: &DNSName, start: usize) -> (r: Option<usize>)
        requires
            self.wf(),
            start <= name@.len(),
        ensures
            r == self@.query(name@.skip(start as int)),
            r matches Some(p) ==> p < 0x4000,
    {
        let ghost key = name@.skip(start as int);
        let mut i: usize = self.pointers.len();
        while i > 0
            invariant
                i <= self.pointers@.len(),
                self.wf(),
                start <= name@.len(),
                key == name@.skip(start as int),
                forall|j: int| i <= j < self.pointers@.len() ==> (#[trigger] self.pointers@[j]).0@ != key,
            decreases i,
        {
            i -= 1;
            if name.tail_same_as(start, &self.pointers[i].0) {
                proof {
                    lemma_entries_found(self.pointers@, key, i as int);
                }
                return Some(self.pointers[i].1);
            }
        }
        proof {
            lemma_entries_absent(self.pointers@, key);
        }
        None
    }
}

} // verus!
