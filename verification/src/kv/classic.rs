use vstd::prelude::*;
use vstd::hash_map::StringHashMap;

verus! {

/// A plain table from domain names to addresses.
pub struct Classic {
    pub domains: StringHashMap<[u8; 4]>,
}

impl View for Classic {
    type V = Map<Seq<char>, [u8; 4]>;

    open spec fn view(&self) -> Map<Seq<char>, [u8; 4]> {
        self.domains@
    }
}

impl Classic {
    /// A table without entries.
    pub fn new() -> (r: Self)
        ensures
            r@ == Map::<Seq<char>, [u8; 4]>::empty(),
    {
        Classic { domains: StringHashMap::new() }
    }

    /// Puts `ip` in the table as the address of `domain`, in place of what
    /// was there.
    pub fn handle_write(&mut self, domain: String, ip: [u8; 4])
        ensures
            final(self)@ == old(self)@.insert(domain@, ip),
    {
        self.domains.insert(domain, ip);
    }

    /// The address that the table holds for `domain`, if it holds one.
    pub fn lookup(&self, domain: &str) -> (r: Option<[u8; 4]>)
        ensures
            r == (if self@.contains_key(domain@) {
                Some(self@[domain@])
            } else {
                None
            }),
    {
        match self.domains.get(domain) {
            Some(ip) => Some(*ip),
            None => None,
        }
    }
}

} // verus!
