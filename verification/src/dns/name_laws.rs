use vstd::prelude::*;
use crate::dns::compression::DictView;
use crate::dns::labels::{
    counted_wire, lemma_counted_round_trip, lemma_pointer_round_trip, pointer_wire, spec_label_at,
    LabelView,
};
use crate::dns::name::labels_fit_wire;
use crate::dns::name_wire::{
    decode_name, ends_in_pointer, name_wire, name_wire_packed, pointer_limit, spec_name_write,
};
use crate::dns::rtypes::RType;

verus! {

/// Whether every name that `pointers` knows is written in full, without a
/// pointer, at its offset of `msg`.
pub open spec fn dict_matches(msg: Seq<u8>, pointers: Map<Seq<Seq<u8>>, usize>) -> bool {
    forall|name: Seq<Seq<u8>>| #[trigger]
        pointers.contains_key(name) ==> (decode_name(msg, pointers[name] as int, 0) matches Some(
            (labels, _),
        ) && labels == name)
}

/// Whether reading a name at `pos` of `msg` comes to follow at least `n`
/// pointers, one after the other.
pub open spec fn chain_at_least(msg: Seq<u8>, pos: int, n: nat) -> bool
    decreases n, msg.len() - pos,
{
    n == 0 || match spec_label_at(msg, pos) {
        Some((LabelView::Regular(content), next)) => content.len() > 0 && chain_at_least(
            msg,
            next,
            n,
        ),
        Some((LabelView::Pointer(target), _)) => target < msg.len() && chain_at_least(
            msg,
            target as int,
            (n - 1) as nat,
        ),
        None => false,
    }
}

/// A name written in full takes a byte more than its labels and their counts.
pub proof fn lemma_name_wire_len(labels: Seq<Seq<u8>>)
    ensures
        name_wire(labels).len() >= 1,
        labels.len() > 0 ==> name_wire(labels).len() == 1 + labels[0].len() + name_wire(
            labels.skip(1),
        ).len(),
    decreases labels.len(),
{
    if labels.len() > 0 {
        lemma_name_wire_len(labels.skip(1));
    }
}

/// A name that stands in full at `pos` of `msg` is read back, whatever
/// number of pointers the reader may follow, and the reader stops behind it.
pub proof fn lemma_decode_plain(msg: Seq<u8>, pos: int, labels: Seq<Seq<u8>>, hops: nat)
    requires
        labels_fit_wire(labels),
        0 <= pos,
        pos + name_wire(labels).len() <= msg.len(),
        msg.subrange(pos, pos + name_wire(labels).len()) == name_wire(labels),
    ensures
        decode_name(msg, pos, hops) == Some((labels, pos + name_wire(labels).len())),
    decreases labels.len(),
{
    let w = name_wire(labels);
    let here = msg.subrange(pos, pos + w.len());
    lemma_name_wire_len(labels);
    assert(here[0] == msg[pos]);
    if labels.len() == 0 {
        assert(msg.subrange(pos + 1, pos + 1) =~= Seq::<u8>::empty());
    } else {
        let first = labels[0];
        let rest = labels.skip(1);
        let step = counted_wire(first);
        assert(1 <= first.len() <= 63);
        assert(w =~= step + name_wire(rest));
        assert(msg.subrange(pos, pos + step.len()) =~= step) by {
            assert forall|i: int| 0 <= i < step.len() implies msg[pos + i] == step[i] by {
                assert(here[i] == msg[pos + i]);
            }
        }
        lemma_counted_round_trip(msg, pos, first);
        let next = pos + 1 + first.len();
        assert(msg.subrange(next, next + name_wire(rest).len()) =~= name_wire(rest)) by {
            assert forall|i: int| 0 <= i < name_wire(rest).len() implies msg[next + i]
                == name_wire(rest)[i] by {
                assert(here[step.len() + i] == msg[next + i]);
            }
        }
        assert forall|i: int| 0 <= i < rest.len() implies 1 <= (#[trigger] rest[i]).len()
            <= 63 by {
            assert(rest[i] == labels[i + 1]);
        }
        lemma_decode_plain(msg, next, rest, hops);
        assert(seq![first] + rest =~= labels);
    }
}

/// Writing a name in full and reading it back gives the name: wherever in a
/// message the bytes stand, and whatever follows them.
pub proof fn lemma_name_round_trip(
    before: Seq<u8>,
    labels: Seq<Seq<u8>>,
    after: Seq<u8>,
    hops: nat,
)
    requires
        labels_fit_wire(labels),
    ensures
        decode_name(before + name_wire(labels) + after, before.len() as int, hops) == Some(
            (labels, (before.len() + name_wire(labels).len()) as int),
        ),
{
    let msg = before + name_wire(labels) + after;
    assert(msg.subrange(before.len() as int, (before.len() + name_wire(labels).len()) as int)
        =~= name_wire(labels));
    lemma_decode_plain(msg, before.len() as int, labels, hops);
}

/// What a reader finds in a message it finds in the same message with more
/// bytes behind it.
pub proof fn lemma_decode_extends(msg: Seq<u8>, more: Seq<u8>, pos: int, hops: nat)
    requires
        decode_name(msg, pos, hops) is Some,
    ensures
        decode_name(msg + more, pos, hops) == decode_name(msg, pos, hops),
    decreases hops, msg.len() - pos,
{
    let long = msg + more;
    assert(long[pos] == msg[pos]);
    match spec_label_at(msg, pos) {
        None => {},
        Some((LabelView::Regular(content), next)) => {
            assert(long.subrange(pos + 1, pos + 1 + msg[pos]) =~= msg.subrange(
                pos + 1,
                pos + 1 + msg[pos],
            ));
            if content.len() > 0 {
                lemma_decode_extends(msg, more, next, hops);
            }
        },
        Some((LabelView::Pointer(target), next)) => {
            assert(long[pos + 1] == msg[pos + 1]);
            lemma_decode_extends(msg, more, target as int, (hops - 1) as nat);
        },
    }
}

/// What a reader finds with some pointers to follow it finds with more.
pub proof fn lemma_decode_more_hops(msg: Seq<u8>, pos: int, hops: nat, more: nat)
    requires
        decode_name(msg, pos, hops) is Some,
    ensures
        decode_name(msg, pos, hops + more) == decode_name(msg, pos, hops),
    decreases hops, msg.len() - pos,
{
    match spec_label_at(msg, pos) {
        None => {},
        Some((LabelView::Regular(content), next)) => {
            if content.len() > 0 {
                lemma_decode_more_hops(msg, next, hops, more);
            }
        },
        Some((LabelView::Pointer(target), next)) => {
            lemma_decode_more_hops(msg, target as int, (hops - 1) as nat, more);
            assert((hops + more - 1) as nat == (hops - 1) as nat + more);
        },
    }
}

/// A packed name that holds no pointer is the name in full.
pub proof fn lemma_packed_without_pointer(
    labels: Seq<Seq<u8>>,
    pointers: Map<Seq<Seq<u8>>, usize>,
)
    requires
        !ends_in_pointer(labels, pointers),
    ensures
        name_wire_packed(labels, pointers) == name_wire(labels),
    decreases labels.len(),
{
    if labels.len() > 0 {
        lemma_packed_without_pointer(labels.skip(1), pointers);
    }
}

/// A packed name is never longer than the name in full.
pub proof fn lemma_packed_len(labels: Seq<Seq<u8>>, pointers: Map<Seq<Seq<u8>>, usize>)
    requires
        labels_fit_wire(labels),
    ensures
        1 <= name_wire_packed(labels, pointers).len() <= name_wire(labels).len(),
    decreases labels.len(),
{
    lemma_name_wire_len(labels);
    if labels.len() > 0 {
        let rest = labels.skip(1);
        assert(1 <= labels[0].len());
        assert forall|i: int| 0 <= i < rest.len() implies 1 <= (#[trigger] rest[i]).len()
            <= 63 by {
            assert(rest[i] == labels[i + 1]);
        }
        lemma_packed_len(rest, pointers);
        lemma_name_wire_len(rest);
    }
}

/// A packed name that stands at `pos` of a message is read back as the name,
/// provided the names that the pointers lead to stand in full where the
/// dictionary says, and the reader may follow one pointer.
pub proof fn lemma_decode_packed(
    msg: Seq<u8>,
    pos: int,
    labels: Seq<Seq<u8>>,
    pointers: Map<Seq<Seq<u8>>, usize>,
    hops: nat,
)
    requires
        labels_fit_wire(labels),
        dict_matches(msg, pointers),
        forall|name: Seq<Seq<u8>>| #[trigger] pointers.contains_key(name) ==> pointers[name] < 0x4000,
        hops >= 1,
        0 <= pos,
        pos + name_wire_packed(labels, pointers).len() <= msg.len(),
        msg.subrange(pos, pos + name_wire_packed(labels, pointers).len()) == name_wire_packed(
            labels,
            pointers,
        ),
    ensures
        decode_name(msg, pos, hops) == Some(
            (labels, pos + name_wire_packed(labels, pointers).len()),
        ),
    decreases labels.len(),
{
    let w = name_wire_packed(labels, pointers);
    let here = msg.subrange(pos, pos + w.len());
    lemma_packed_len(labels, pointers);
    assert(here[0] == msg[pos]);
    if labels.len() == 0 {
        assert(msg.subrange(pos + 1, pos + 1) =~= Seq::<u8>::empty());
    } else if pointers.contains_key(labels) {
        let p = pointers[labels];
        lemma_pointer_round_trip(msg, pos, p as int);
        assert(decode_name(msg, p as int, 0) is Some);
        lemma_decode_more_hops(msg, p as int, 0, (hops - 1) as nat);
        assert(0 + (hops - 1) as nat == (hops - 1) as nat);
    } else {
        let first = labels[0];
        let rest = labels.skip(1);
        let step = counted_wire(first);
        let tail = name_wire_packed(rest, pointers);
        assert(1 <= first.len() <= 63);
        assert(w =~= step + tail);
        assert(msg.subrange(pos, pos + step.len()) =~= step) by {
            assert forall|i: int| 0 <= i < step.len() implies msg[pos + i] == step[i] by {
                assert(here[i] == msg[pos + i]);
            }
        }
        lemma_counted_round_trip(msg, pos, first);
        let next = pos + 1 + first.len();
        assert(msg.subrange(next, next + tail.len()) =~= tail) by {
            assert forall|i: int| 0 <= i < tail.len() implies msg[next + i] == tail[i] by {
                assert(here[step.len() + i] == msg[next + i]);
            }
        }
        assert forall|i: int| 0 <= i < rest.len() implies 1 <= (#[trigger] rest[i]).len()
            <= 63 by {
            assert(rest[i] == labels[i + 1]);
        }
        lemma_decode_packed(msg, next, rest, pointers, hops);
        assert(seq![first] + rest =~= labels);
    }
}

/// Writing a name behind a message and reading it back gives the name, with
/// or without compression, and the dictionary afterwards again says where
/// names stand in full. `msg` is the message so far, without the length bytes
/// of a stream.
pub proof fn lemma_written_name_reads_back(
    msg: Seq<u8>,
    dict: DictView,
    labels: Seq<Seq<u8>>,
    rtype: RType,
)
    requires
        labels_fit_wire(labels),
        dict.wf(),
        dict_matches(msg, dict.pointers),
    ensures
        ({
            let (w, after) = spec_name_write(labels, dict, dict.prefix_len() + msg.len(), rtype);
            &&& decode_name(msg + w, msg.len() as int, pointer_limit()) == Some(
                (labels, (msg.len() + w.len()) as int),
            )
            &&& after.wf()
            &&& dict_matches(msg + w, after.pointers)
        }),
{
    let offset = dict.prefix_len() + msg.len();
    let (w, after) = spec_name_write(labels, dict, offset, rtype);
    let long = msg + w;
    assert(long.subrange(msg.len() as int, (msg.len() + w.len()) as int) =~= w);
    assert forall|name: Seq<Seq<u8>>| #[trigger] dict.pointers.contains_key(name) implies (
    decode_name(long, dict.pointers[name] as int, 0) matches Some((l, _)) && l == name) by {
        lemma_decode_extends(msg, w, dict.pointers[name] as int, 0);
    }
    assert(dict_matches(long, dict.pointers));
    if rtype.spec_supports_compression() {
        lemma_decode_packed(long, msg.len() as int, labels, dict.pointers, pointer_limit());
        if !ends_in_pointer(labels, dict.pointers) {
            lemma_packed_without_pointer(labels, dict.pointers);
            lemma_decode_plain(long, msg.len() as int, labels, 0);
            assert forall|name: Seq<Seq<u8>>| #[trigger]
                after.pointers.contains_key(name) implies (decode_name(
                long,
                after.pointers[name] as int,
                0,
            ) matches Some((l, _)) && l == name) by {
                if dict.pointers.contains_key(name) && after.pointers[name]
                    == dict.pointers[name] {
                } else {
                    assert(name == labels);
                    assert(after.pointers[name] == msg.len());
                }
            }
        }
    } else {
        lemma_decode_plain(long, msg.len() as int, labels, pointer_limit());
    }
}

/// A name that is written a second time takes two bytes: a pointer to where
/// it stands. This holds with compression on, for a name other than the root
/// that starts within the reach of a pointer, when no proper tail of it was
/// written before.
pub proof fn lemma_repeated_name_is_pointer(
    dict: DictView,
    labels: Seq<Seq<u8>>,
    offset: int,
    later: int,
    rtype: RType,
)
    requires
        rtype.spec_supports_compression(),
        dict.enabled,
        labels.len() > 0,
        dict.prefix_len() <= offset < dict.prefix_len() + 0x4000,
        !ends_in_pointer(labels.skip(1), dict.pointers),
    ensures
        ({
            let after = spec_name_write(labels, dict, offset, rtype).1;
            let again = spec_name_write(labels, after, later, rtype);
            &&& again.0.len() == 2
            &&& again.0 == pointer_wire(after.pointers[labels] as int)
            &&& again.1 == after
        }),
{
}

/// A chain of more pointers than the reader may follow is not read as a
/// name: the reader gives up.
pub proof fn lemma_long_chain_rejected(msg: Seq<u8>, pos: int, hops: nat)
    requires
        chain_at_least(msg, pos, hops + 1),
    ensures
        decode_name(msg, pos, hops) is None,
    decreases hops, msg.len() - pos,
{
    match spec_label_at(msg, pos) {
        Some((LabelView::Regular(content), next)) => {
            lemma_long_chain_rejected(msg, next, hops);
        },
        Some((LabelView::Pointer(target), _)) => {
            if hops > 0 {
                lemma_long_chain_rejected(msg, target as int, (hops - 1) as nat);
            }
        },
        None => {},
    }
}

} // verus!
