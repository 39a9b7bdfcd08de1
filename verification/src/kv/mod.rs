pub mod classic;
pub mod ip;

pub use ip::IPRouter;

use vstd::prelude::*;
use crate::dns::data::{RData, RDataView};
use crate::dns::header::Rcode;
use crate::dns::name::DNSName;
use crate::dns::question::{DNSQuestion, QuestionView};
use crate::dns::record::{records_view, DNSRecord, RecordView};
use crate::dns::response::{
    lemma_section_records_wf, push_section, section_records, spec_response, Response,
    ResponseView,
};
use crate::dns::rtypes::RType;
use crate::dns::text::{
    lemma_text_wire_len, lemma_text_wire_len_grows, text_fits, text_wire_len, DNSText,
};
use crate::dns::wire::{bytes_eq, copy_range};
use crate::errors::KvError;
use crate::nameserver::records::{items_view, RecordItem, ResponseSection};

verus! {

/// A record made for a response, and the section it goes to.
#[derive(Debug)]
pub struct OwnedRecordItem {
    pub record: DNSRecord,
    pub section: ResponseSection,
}

impl View for OwnedRecordItem {
    type V = (RecordView, ResponseSection);

    open spec fn view(&self) -> (RecordView, ResponseSection) {
        (self.record@, self.section)
    }
}

/// The views of the items of `items`.
pub open spec fn owned_view(items: Seq<OwnedRecordItem>) -> Seq<(RecordView, ResponseSection)> {
    Seq::new(items.len(), |i: int| items[i]@)
}

/// The response to `question` that carries the records of `items`, each in
/// its section: the name counts as found when there is any record at all.
pub open spec fn spec_items_response(
    items: Seq<(RecordView, ResponseSection)>,
    id: u16,
    question: QuestionView,
    tcp: bool,
) -> ResponseView {
    spec_response(
        id,
        question,
        section_records(items, ResponseSection::Answer),
        section_records(items, ResponseSection::Authority),
        section_records(items, ResponseSection::Additional),
        tcp,
        if items.len() == 0 {
            Rcode::NxDomain
        } else {
            Rcode::NoError
        },
    )
}

/// A section holds no more records than the items it was picked from, and
/// holds them all when every item goes to it.
pub proof fn lemma_section_records_len(
    items: Seq<(RecordView, ResponseSection)>,
    section: ResponseSection,
)
    ensures
        section_records(items, section).len() <= items.len(),
    decreases items.len(),
{
    if items.len() > 0 {
        lemma_section_records_len(items.drop_last(), section);
    }
}

impl OwnedRecordItem {
    /// The response to `question` that says the name was not found.
    pub fn empty(id: u16, question: DNSQuestion, tcp: bool) -> (r: Response)
        ensures
            r@ == spec_items_response(Seq::empty(), id, question@, tcp),
            r@ == spec_response(
                id,
                question@,
                Seq::empty(),
                Seq::empty(),
                Seq::empty(),
                tcp,
                Rcode::NxDomain,
            ),
            r@.counts_match(),
            r@.fresh(),
            question.wf() ==> r.wf(),
    {
        let list: Vec<OwnedRecordItem> = Vec::new();
        proof {
            assert(owned_view(list@) =~= Seq::<(RecordView, ResponseSection)>::empty());
        }
        Self::build_response(list.as_slice(), id, question, tcp)
    }

    /// The response to `question` that carries the records of `list`, each
    /// in its section.
    pub fn build_response(list: &[Self], id: u16, question: DNSQuestion, tcp: bool) -> (r: Response)
        requires
            list@.len() <= 0xFFFF,
        ensures
            r@ == spec_items_response(owned_view(list@), id, question@, tcp),
            r@.counts_match(),
            r@.fresh(),
            (question.wf() && forall|i: int| 0 <= i < list@.len() ==> (#[trigger] list@[i]).record.wf())
                ==> r.wf(),
    {
        let mut items: Vec<RecordItem<'_>> = Vec::new();
        let mut i: usize = 0;
        while i < list.len()
            invariant
                i <= list@.len(),
                items@.len() == i,
                forall|j: int| 0 <= j < i ==> (#[trigger] items@[j])@ == list@[j]@,
            decreases list.len() - i,
        {
            items.push(RecordItem { record: &list[i].record, section: list[i].section });
            i += 1;
        }
        proof {
            assert(items_view(items@) =~= owned_view(list@));
        }
        let mut answer: Vec<DNSRecord> = Vec::new();
        let mut authority: Vec<DNSRecord> = Vec::new();
        let mut additional: Vec<DNSRecord> = Vec::new();
        push_section(&mut answer, &items, ResponseSection::Answer);
        push_section(&mut authority, &items, ResponseSection::Authority);
        push_section(&mut additional, &items, ResponseSection::Additional);
        proof {
            let v = owned_view(list@);
            assert(records_view(answer@) =~= section_records(v, ResponseSection::Answer));
            assert(records_view(authority@) =~= section_records(v, ResponseSection::Authority));
            assert(records_view(additional@) =~= section_records(v, ResponseSection::Additional));
            lemma_section_records_len(v, ResponseSection::Answer);
            lemma_section_records_len(v, ResponseSection::Authority);
            lemma_section_records_len(v, ResponseSection::Additional);
            if forall|i: int| 0 <= i < list@.len() ==> (#[trigger] list@[i]).record.wf() {
                assert forall|i: int| 0 <= i < v.len() implies (#[trigger] v[i]).0.wf() by {
                    assert(list@[i].record.wf());
                }
                lemma_section_records_wf(v, ResponseSection::Answer);
                lemma_section_records_wf(v, ResponseSection::Authority);
                lemma_section_records_wf(v, ResponseSection::Additional);
            }
        }
        let rcode: Rcode = if list.len() == 0 {
            Rcode::NxDomain
        } else {
            Rcode::NoError
        };
        Response::new(id, question, answer, authority, additional, tcp, rcode)
    }
}

/// The map that a list of pairs stands for: a later pair of a key replaces
/// an earlier one.
pub open spec fn pairs_map(s: Seq<(Vec<u8>, Vec<u8>)>) -> Map<Seq<u8>, Seq<u8>>
    decreases s.len(),
{
    if s.len() == 0 {
        Map::empty()
    } else {
        pairs_map(s.drop_last()).insert(s.last().0@, s.last().1@)
    }
}

/// The last pair of a key decides what the map holds for it.
pub proof fn lemma_pairs_found(s: Seq<(Vec<u8>, Vec<u8>)>, key: Seq<u8>, i: int)
    requires
        0 <= i < s.len(),
        s[i].0@ == key,
        forall|j: int| i < j < s.len() ==> (#[trigger] s[j]).0@ != key,
    ensures
        pairs_map(s).contains_key(key),
        pairs_map(s)[key] == s[i].1@,
    decreases s.len(),
{
    if i < s.len() - 1 {
        assert(s.last() == s[s.len() - 1]);
        assert forall|j: int| i < j < s.drop_last().len() implies (#[trigger] s.drop_last()[j]).0@
            != key by {
            assert(s.drop_last()[j] == s[j]);
        }
        lemma_pairs_found(s.drop_last(), key, i);
    }
}

/// A key that no pair has is not in the map.
pub proof fn lemma_pairs_absent(s: Seq<(Vec<u8>, Vec<u8>)>, key: Seq<u8>)
    requires
        forall|j: int| 0 <= j < s.len() ==> (#[trigger] s[j]).0@ != key,
    ensures
        !pairs_map(s).contains_key(key),
    decreases s.len(),
{
    if s.len() > 0 {
        assert(s.last() == s[s.len() - 1]);
        assert forall|j: int| 0 <= j < s.drop_last().len() implies (#[trigger] s.drop_last()[j]).0@
            != key by {
            assert(s.drop_last()[j] == s[j]);
        }
        lemma_pairs_absent(s.drop_last(), key);
    }
}

/// The key/value plane: values stored under keys, both byte strings.
#[derive(Debug)]
pub struct KvStore {
    pub inner: Vec<(Vec<u8>, Vec<u8>)>,
}

impl View for KvStore {
    type V = Map<Seq<u8>, Seq<u8>>;

    open spec fn view(&self) -> Map<Seq<u8>, Seq<u8>> {
        pairs_map(self.inner@)
    }
}

/// Whether every value of `store` fits the data of one text record.
pub open spec fn values_fit(store: Map<Seq<u8>, Seq<u8>>) -> bool {
    forall|key: Seq<u8>| #[trigger]
        store.contains_key(key) ==> text_wire_len(store[key].len()) <= 0xFFFF
}

/// The text record that answers for `key` with `value`.
pub open spec fn kv_record(key: Seq<u8>, value: Seq<u8>) -> RecordView {
    RecordView {
        name: seq![key],
        rtype: RType::TXT,
        class: 1,
        ttl: 0,
        rdata: RDataView::Text(value),
    }
}

/// What a lookup of `key` gives: for the types `A` and `TXT`, one text
/// record with the stored value as an answer, if a value is stored; nothing
/// otherwise.
pub open spec fn spec_kv_get(store: Map<Seq<u8>, Seq<u8>>, key: Seq<u8>, qtype: RType) -> Seq<
    (RecordView, ResponseSection),
> {
    if (qtype == RType::TXT || qtype == RType::A) && store.contains_key(key) {
        seq![(kv_record(key, store[key]), ResponseSection::Answer)]
    } else {
        Seq::empty()
    }
}

/// The store after a question with the labels `qname` and the type `qtype`:
/// a name of two labels asked for as `A` or `TXT` stores its second label
/// under its first.
pub open spec fn spec_kv_store_after(
    store: Map<Seq<u8>, Seq<u8>>,
    qname: Seq<Seq<u8>>,
    qtype: RType,
) -> Map<Seq<u8>, Seq<u8>> {
    if qname.len() == 2 && (qtype == RType::TXT || qtype == RType::A) {
        store.insert(qname[0], qname[1])
    } else {
        store
    }
}

/// The records that answer a question with the labels `qname` and the type
/// `qtype`: a name of one label is looked up; a name of two labels stores
/// and is then looked up as text; any other name is no valid question.
pub open spec fn spec_kv_items(
    store: Map<Seq<u8>, Seq<u8>>,
    qname: Seq<Seq<u8>>,
    qtype: RType,
) -> Result<Seq<(RecordView, ResponseSection)>, KvError> {
    if qname.len() == 1 {
        Ok(spec_kv_get(store, qname[0], qtype))
    } else if qname.len() == 2 {
        if qtype == RType::TXT || qtype == RType::A {
            Ok(spec_kv_get(store.insert(qname[0], qname[1]), qname[0], RType::TXT))
        } else {
            Ok(Seq::empty())
        }
    } else {
        Err(KvError::InvalidQuery)
    }
}

/// The response of the key/value plane to `question`: the records found,
/// or a server failure where the question is not valid.
pub open spec fn spec_kv_response(
    store: Map<Seq<u8>, Seq<u8>>,
    id: u16,
    question: QuestionView,
    tcp: bool,
) -> ResponseView {
    match spec_kv_items(store, question.qname, question.qtype) {
        Ok(items) => spec_items_response(items, id, question, tcp),
        Err(_) => spec_response(
            id,
            question,
            Seq::empty(),
            Seq::empty(),
            Seq::empty(),
            tcp,
            Rcode::ServerFailure,
        ),
    }
}

impl Default for KvStore {
    fn default() -> (r: Self)
        ensures
            r@ == Map::<Seq<u8>, Seq<u8>>::empty(),
            r.wf(),
    {
        KvStore { inner: Vec::new() }
    }
}

/// Pairs whose values all fit make a map whose values all fit.
pub proof fn lemma_pairs_fit(s: Seq<(Vec<u8>, Vec<u8>)>)
    requires
        forall|i: int| 0 <= i < s.len() ==> text_wire_len((#[trigger] s[i]).1@.len()) <= 0xFFFF,
    ensures
        values_fit(pairs_map(s)),
    decreases s.len(),
{
    if s.len() > 0 {
        assert forall|i: int| 0 <= i < s.drop_last().len() implies text_wire_len(
            (#[trigger] s.drop_last()[i]).1@.len(),
        ) <= 0xFFFF by {
            assert(s.drop_last()[i] == s[i]);
        }
        lemma_pairs_fit(s.drop_last());
        assert(s.last() == s[s.len() - 1]);
        let before = pairs_map(s.drop_last());
        assert forall|key: Seq<u8>| #[trigger] pairs_map(s).contains_key(key) implies text_wire_len(
            pairs_map(s)[key].len(),
        ) <= 0xFFFF by {
            if key != s.last().0@ {
                assert(before.contains_key(key));
            }
        }
    }
}

impl KvStore {
    /// Whether every value kept fits the data of one text record.
    pub open spec fn wf(&self) -> bool {
        forall|i: int|
            0 <= i < self.inner@.len() ==> text_wire_len((#[trigger] self.inner@[i]).1@.len())
                <= 0xFFFF
    }

    /// Whether every value kept fits the data of one text record.
    pub fn is_valid(&self) -> (r: bool)
        ensures
            r == self.wf(),
    {
        let mut i: usize = 0;
        while i < self.inner.len()
            invariant
                i <= self.inner@.len(),
                forall|j: int|
                    0 <= j < i ==> text_wire_len((#[trigger] self.inner@[j]).1@.len()) <= 0xFFFF,
            decreases self.inner.len() - i,
        {
            if !text_fits(self.inner[i].1.len()) {
                return false;
            }
            i += 1;
        }
        true
    }

    /// A store whose values fit holds a map whose values fit.
    pub proof fn lemma_view_wf(&self)
        requires
            self.wf(),
        ensures
            values_fit(self@),
    {
        lemma_pairs_fit(self.inner@);
    }

    /// The value stored under `key`, if there is one.
    pub fn get(&self, key: &[u8]) -> (r: Option<&Vec<u8>>)
        ensures
            match r {
                Some(v) => self@.contains_key(key@) && v@ == self@[key@],
                None => !self@.contains_key(key@),
            },
            self.wf() ==> values_fit(self@),
    {
        proof {
            if self.wf() {
                self.lemma_view_wf();
            }
        }
        let mut i: usize = self.inner.len();
        while i > 0
            invariant
                i <= self.inner@.len(),
                self.wf() ==> values_fit(self@),
                forall|j: int| i <= j < self.inner@.len() ==> (#[trigger] self.inner@[j]).0@ != key@,
            decreases i,
        {
            i -= 1;
            if bytes_eq(self.inner[i].0.as_slice(), key) {
                proof {
                    lemma_pairs_found(self.inner@, key@, i as int);
                }
                return Some(&self.inner[i].1);
            }
        }
        proof {
            lemma_pairs_absent(self.inner@, key@);
        }
        None
    }

    /// Stores `value` under `key` when asked with the type `A` or `TXT`, in
    /// place of what was there, and gives what a lookup of `key` as text then
    /// gives. Does nothing and gives nothing for any other type.
    pub fn query_put(&mut self, key: &[u8], value: &[u8], qtype: &RType) -> (r: Vec<OwnedRecordItem>)
        requires
            old(self).wf(),
            text_wire_len(value@.len()) <= 0xFFFF,
        ensures
            final(self)@ == (if *qtype == RType::TXT || *qtype == RType::A {
                old(self)@.insert(key@, value@)
            } else {
                old(self)@
            }),
            owned_view(r@) == (if *qtype == RType::TXT || *qtype == RType::A {
                spec_kv_get(final(self)@, key@, RType::TXT)
            } else {
                Seq::empty()
            }),
            final(self).wf(),
            1 <= key@.len() <= 63 ==> forall|i: int|
                0 <= i < r@.len() ==> (#[trigger] r@[i]).record.wf(),
    {
        match qtype {
            RType::A | RType::TXT => {
                let k: Vec<u8> = copy_range(key, 0, key.len());
                let v: Vec<u8> = copy_range(value, 0, value.len());
                let ghost before = self.inner@;
                self.inner.push((k, v));
                proof {
                    assert(k@ =~= key@);
                    assert(v@ =~= value@);
                    assert(self.inner@.drop_last() =~= before);
                    assert(self@ =~= old(self)@.insert(key@, value@));
                    assert forall|i: int| 0 <= i < self.inner@.len() implies text_wire_len(
                        (#[trigger] self.inner@[i]).1@.len(),
                    ) <= 0xFFFF by {
                        if i < before.len() {
                            assert(self.inner@[i] == before[i]);
                        }
                    }
                }
                self.query_get(key, &RType::TXT)
            },
            _ => {
                let r: Vec<OwnedRecordItem> = Vec::new();
                proof {
                    assert(owned_view(r@) =~= Seq::<(RecordView, ResponseSection)>::empty());
                }
                r
            },
        }
    }

    /// Looks `name_str` up: for the types `A` and `TXT`, gives one text
    /// record with the stored value as an answer, if a value is stored, and
    /// nothing otherwise.
    pub fn query_get(&self, name_str: &[u8], qtype: &RType) -> (r: Vec<OwnedRecordItem>)
        ensures
            owned_view(r@) == spec_kv_get(self@, name_str@, *qtype),
            (self.wf() && 1 <= name_str@.len() <= 63) ==> forall|i: int|
                0 <= i < r@.len() ==> (#[trigger] r@[i]).record.wf(),
    {
        let mut answer: Vec<OwnedRecordItem> = Vec::new();
        match qtype {
            RType::TXT | RType::A => {
                match self.get(name_str) {
                    Some(x) => {
                        let mut labels: Vec<Vec<u8>> = Vec::new();
                        labels.push(copy_range(name_str, 0, name_str.len()));
                        let name = DNSName(labels);
                        let text = DNSText::from_bytes(copy_range(x.as_slice(), 0, x.len()));
                        let item = OwnedRecordItem {
                            record: DNSRecord {
                                name,
                                rtype: RType::TXT,
                                class: 1,
                                ttl: 0,
                                rdata: RData::Text(text),
                            },
                            section: ResponseSection::Answer,
                        };
                        proof {
                            assert(labels@[0]@ =~= name_str@);
                            assert(item.record@.name =~= seq![name_str@]);
                            assert(x@.subrange(0, x@.len() as int) =~= x@);
                            assert(item.record@ == kv_record(name_str@, self@[name_str@]));
                            lemma_text_wire_len(x@);
                        }
                        answer.push(item);
                        proof {
                            assert(owned_view(answer@) =~= seq![
                                (kv_record(name_str@, self@[name_str@]), ResponseSection::Answer),
                            ]);
                        }
                    },
                    None => {
                        proof {
                            assert(owned_view(answer@) =~= Seq::<
                                (RecordView, ResponseSection),
                            >::empty());
                        }
                    },
                }
            },
            _ => {
                proof {
                    assert(owned_view(answer@) =~= Seq::<(RecordView, ResponseSection)>::empty());
                }
            },
        }
        answer
    }

    /// Answers `question`: a name of one label is looked up, a name of two
    /// labels stores its second label under its first and is then looked up.
    /// A name of any other length is refused as no valid question.
    pub fn build_response_internal(&mut self, id: u16, question: DNSQuestion, tcp: bool) -> (r:
        Result<Response, KvError>)
        requires
            old(self).wf(),
            question.wf(),
        ensures
            final(self)@ == spec_kv_store_after(old(self)@, question@.qname, question@.qtype),
            final(self).wf(),
            match spec_kv_items(old(self)@, question@.qname, question@.qtype) {
                Ok(items) => r matches Ok(resp) && resp@ == spec_items_response(
                    items,
                    id,
                    question@,
                    tcp,
                ) && resp.wf() && resp@.counts_match() && resp@.fresh(),
                Err(e) => r matches Err(e2) && e2 == e,
            },
    {
        let n: usize = question.qname.len();
        if n == 1 {
            proof {
                assert(question@.qname[0] == question.qname.0@[0]@);
                assert(1 <= question@.qname[0].len() <= 63);
            }
            let answer: Vec<OwnedRecordItem> = self.query_get(
                question.qname.0[0].as_slice(),
                &question.qtype,
            );
            Ok(OwnedRecordItem::build_response(answer.as_slice(), id, question, tcp))
        } else if n == 2 {
            proof {
                assert(question@.qname[0] == question.qname.0@[0]@);
                assert(question@.qname[1] == question.qname.0@[1]@);
                assert(1 <= question@.qname[0].len() <= 63);
                assert(1 <= question@.qname[1].len() <= 63);
                lemma_text_wire_len_grows(question@.qname[1].len(), 63);
                assert(text_wire_len(63) == 64) by {
                    reveal_with_fuel(text_wire_len, 2);
                }
            }
            let answer: Vec<OwnedRecordItem> = self.query_put(
                question.qname.0[0].as_slice(),
                question.qname.0[1].as_slice(),
                &question.qtype,
            );
            Ok(OwnedRecordItem::build_response(answer.as_slice(), id, question, tcp))
        } else {
            Err(KvError::InvalidQuery)
        }
    }

    /// Answers `question`, with a server failure where the question is not
    /// valid.
    pub fn build_response(&mut self, id: u16, question: DNSQuestion, tcp: bool) -> (r: Response)
        requires
            old(self).wf(),
            question.wf(),
        ensures
            final(self)@ == spec_kv_store_after(old(self)@, question@.qname, question@.qtype),
            final(self).wf(),
            r@ == spec_kv_response(old(self)@, id, question@, tcp),
            r@.counts_match(),
            r@.fresh(),
            r.wf(),
    {
        let copy: DNSQuestion = question.clone();
        match self.build_response_internal(id, question, tcp) {
            Ok(resp) => resp,
            Err(_) => Response::from_rcode(id, copy, Rcode::ServerFailure, tcp),
        }
    }
}

} // verus!
