//! Reassembly of logical messages from unreliable-transport fragments.
use std::collections::{HashMap, HashSet};
use vstd::prelude::*;
use vstd::slice::slice_to_vec;

use crate::ids::{
    ids_below, insert_ascending, lemma_ascending_is_ids_below, lemma_ids_below_ascending,
    lemma_ids_below_members, sorted_ids,
};
use crate::message::{Message, MessageModel};
use crate::metadata::MsgMetadata;

verus! {

/// How many logical messages of one sender may be open at once; fragments
/// that would open one more are dropped.
pub const MAX_OPEN_PER_SENDER: usize = 16;

/// The payload stored for seq `k`, or nothing when it has not arrived.
pub open spec fn part_at(parts: Map<u16, Seq<u8>>, k: int) -> Seq<u8> {
    if parts.contains_key(k as u16) {
        parts[k as u16]
    } else {
        Seq::<u8>::empty()
    }
}

/// The stored payloads with seq below `k`, in ascending seq order.
pub open spec fn concat_upto(parts: Map<u16, Seq<u8>>, k: int) -> Seq<u8>
    decreases k,
{
    if k <= 0 {
        Seq::<u8>::empty()
    } else {
        concat_upto(parts, k - 1) + part_at(parts, k - 1)
    }
}

/// All stored payloads, in ascending seq order.
pub open spec fn assembled(parts: Map<u16, Seq<u8>>) -> Seq<u8> {
    concat_upto(parts, 0x10000)
}

/// The payloads of `parts` taken in the order of `seqs`.
pub open spec fn concat_in(parts: Map<u16, Seq<u8>>, seqs: Seq<u16>) -> Seq<u8>
    decreases seqs.len(),
{
    if seqs.len() == 0 {
        Seq::<u8>::empty()
    } else {
        concat_in(parts, seqs.drop_last()) + parts[seqs.last()]
    }
}

/// Adding the payload of a seq not yet stored lengthens the concatenation by
/// that payload's length.
pub proof fn lemma_concat_insert_len(parts: Map<u16, Seq<u8>>, s: u16, p: Seq<u8>, k: int)
    requires
        !parts.contains_key(s),
        0 <= k <= 0x10000,
    ensures
        concat_upto(parts.insert(s, p), k).len() == concat_upto(parts, k).len() + if s < k {
            p.len() as int
        } else {
            0int
        },
    decreases k,
{
    if k > 0 {
        lemma_concat_insert_len(parts, s, p, k - 1);
        if k - 1 == s as int {
            assert(part_at(parts.insert(s, p), k - 1) == p);
        } else {
            assert(part_at(parts.insert(s, p), k - 1) == part_at(parts, k - 1));
        }
    }
}

/// Taking the stored payloads in ascending seq order is `concat_upto`.
pub proof fn lemma_concat_in_ascending(parts: Map<u16, Seq<u8>>, k: int)
    requires
        0 <= k <= 0x10000,
    ensures
        concat_in(parts, ids_below(parts.dom(), k)) == concat_upto(parts, k),
    decreases k,
{
    if k > 0 {
        lemma_concat_in_ascending(parts, k - 1);
        let prev = ids_below(parts.dom(), k - 1);
        if parts.dom().contains((k - 1) as u16) {
            let cur = prev.push((k - 1) as u16);
            assert(cur.drop_last() =~= prev);
        }
    }
}

/// Keeping only some seqs never lengthens the concatenation.
pub proof fn lemma_concat_restrict_len(parts: Map<u16, Seq<u8>>, keep: Set<u16>, k: int)
    ensures
        concat_upto(parts.restrict(keep), k).len() <= concat_upto(parts, k).len(),
    decreases k,
{
    if k > 0 {
        lemma_concat_restrict_len(parts, keep, k - 1);
    }
}

/// When keeping only some seqs loses no length, it loses nothing: the seqs
/// left out carried empty payloads.
pub proof fn lemma_concat_restrict_full(parts: Map<u16, Seq<u8>>, keep: Set<u16>, k: int)
    requires
        concat_upto(parts.restrict(keep), k).len() >= concat_upto(parts, k).len(),
    ensures
        concat_upto(parts.restrict(keep), k) == concat_upto(parts, k),
    decreases k,
{
    if k > 0 {
        lemma_concat_restrict_len(parts, keep, k - 1);
        lemma_concat_restrict_full(parts, keep, k - 1);
        let a = part_at(parts.restrict(keep), k - 1);
        let b = part_at(parts, k - 1);
        if a.len() == 0 {
            assert(a =~= b);
        }
    }
}

/// An open logical message: who sent it, its fragment id, the header of the
/// first fragment seen, and the payload stored for each seq.
pub struct BufferModel {
    pub sender: u16,
    pub id: u16,
    pub header: MsgMetadata,
    pub parts: Map<u16, Seq<u8>>,
}

/// The buffers of unfinished logical messages, and the `(sender, id)` keys of
/// those already handed on.
pub struct EngineModel {
    pub open: Seq<BufferModel>,
    pub done: Set<(u16, u16)>,
}

/// The number of payload bytes a buffer holds.
pub open spec fn received(b: BufferModel) -> nat {
    assembled(b.parts).len()
}

/// The logical message a complete buffer stands for: the first fragment's
/// header without the fragment fields, and the payloads in seq order.
pub open spec fn completed(b: BufferModel) -> MessageModel {
    MessageModel {
        metadata: MsgMetadata { fragment: None, ..b.header },
        payload: assembled(b.parts),
    }
}

/// The fragments of one logical message in flight.
pub struct FragmentBuffer {
    sender: u16,
    id: u16,
    header: MsgMetadata,
    parts: HashMap<u16, Vec<u8>>,
    seqs: Vec<u16>,
    received: u64,
}

impl View for FragmentBuffer {
    type V = BufferModel;

    closed spec fn view(&self) -> BufferModel {
        BufferModel {
            sender: self.sender,
            id: self.id,
            header: self.header,
            parts: self.parts@.map_values(|v: Vec<u8>| v@),
        }
    }
}

/// Whether a fragment may join buffer `b`: it declares the same total
/// length, its seq is new, and its payload fits in what is still missing.
pub open spec fn fits(b: BufferModel, frag: MessageModel, seq: u16) -> bool {
    &&& frag.metadata.message_length == b.header.message_length
    &&& !b.parts.contains_key(seq)
    &&& received(b) + frag.payload.len() <= b.header.message_length
}

impl FragmentBuffer {
    pub closed spec fn inv(&self) -> bool {
        &&& self.seqs@ == sorted_ids(self.parts@.dom())
        &&& self.received == received(self@)
        &&& self.received <= self.header.message_length
    }

    fn new(sender: u16, id: u16, header: MsgMetadata) -> (r: FragmentBuffer)
        ensures
            r.inv(),
            r@ == (BufferModel { sender, id, header, parts: Map::<u16, Seq<u8>>::empty() }),
    {
        let r = FragmentBuffer {
            sender,
            id,
            header,
            parts: HashMap::new(),
            seqs: Vec::new(),
            received: 0,
        };
        assert(r@.parts =~= Map::<u16, Seq<u8>>::empty());
        assert(r.seqs@ =~= sorted_ids(r.parts@.dom())) by {
            assert forall|x: u16| r.seqs@.contains(x) <==> (r.parts@.dom().contains(x) && x < 0x10000) by {
            }
            lemma_ascending_is_ids_below(r.seqs@, r.parts@.dom(), 0x10000);
        }
        proof {
            lemma_concat_empty(0x10000);
        }
        r
    }

    fn fits(&self, frag: &Message, seq: u16) -> (r: bool)
        requires
            self.inv(),
        ensures
            r == fits(self@, frag@, seq),
    {
        frag.metadata.message_length == self.header.message_length
            && !self.parts.contains_key(&seq)
            && (frag.content.len() as u64) <= self.header.message_length - self.received
    }

    fn add(&mut self, seq: u16, payload: Vec<u8>)
        requires
            old(self).inv(),
            !old(self)@.parts.contains_key(seq),
            received(old(self)@) + payload@.len() <= old(self)@.header.message_length,
        ensures
            final(self).inv(),
            final(self)@ == (BufferModel { parts: old(self)@.parts.insert(seq, payload@), ..old(self)@ }),
    {
        let ghost p = payload@;
        let len = payload.len() as u64;
        proof {
            lemma_concat_insert_len(self@.parts, seq, p, 0x10000);
        }
        assert(!self.seqs@.contains(seq)) by {
            if self.seqs@.contains(seq) {
                lemma_ids_below_members(self.parts@.dom(), 0x10000);
            }
        }
        proof {
            lemma_ids_below_members(self.parts@.dom(), 0x10000);
            lemma_ids_below_ascending(self.parts@.dom(), 0x10000);
        }
        insert_ascending(&mut self.seqs, seq);
        self.parts.insert(seq, payload);
        self.received = self.received + len;
        assert(self@.parts =~= old(self)@.parts.insert(seq, p));
        proof {
            assert forall|x: u16| self.seqs@.contains(x) <==> (self.parts@.dom().contains(x) && x < 0x10000) by {
            }
            lemma_ascending_is_ids_below(self.seqs@, self.parts@.dom(), 0x10000);
        }
    }

    /// The logical message this buffer holds, payloads in seq order.
    fn assemble(&self) -> (r: Message)
        requires
            self.inv(),
        ensures
            r@ == completed(self@),
    {
        let mut content: Vec<u8> = Vec::new();
        let mut i: usize = 0;
        while i < self.seqs.len()
            invariant
                i <= self.seqs@.len(),
                self.inv(),
                content@ == concat_in(self@.parts, self.seqs@.subrange(0, i as int)),
            decreases self.seqs@.len() - i,
        {
            let seq = self.seqs[i];
            proof {
                lemma_ids_below_members(self.parts@.dom(), 0x10000);
                assert(self.seqs@.contains(seq));
            }
            let part = self.parts.get(&seq).unwrap();
            let mut piece = slice_to_vec(part.as_slice());
            content.append(&mut piece);
            assert(self.seqs@.subrange(0, i + 1).drop_last() =~= self.seqs@.subrange(0, i as int));
            i += 1;
        }
        assert(self.seqs@.subrange(0, self.seqs@.len() as int) =~= self.seqs@);
        proof {
            assert(self@.parts.dom() =~= self.parts@.dom());
            lemma_concat_in_ascending(self@.parts, 0x10000);
        }
        let r = Message::new(MsgMetadata { fragment: None, ..self.header }, content);
        r
    }
}

proof fn lemma_concat_empty(k: int)
    ensures
        concat_upto(Map::<u16, Seq<u8>>::empty(), k).len() == 0,
    decreases k,
{
    if k > 0 {
        lemma_concat_empty(k - 1);
    }
}

pub open spec fn key_of(b: BufferModel) -> (u16, u16) {
    (b.sender, b.id)
}

/// The index of the open buffer of `(sender, id)`, or -1.
pub open spec fn find_buffer(open: Seq<BufferModel>, sender: u16, id: u16) -> int
    decreases open.len(),
{
    if open.len() == 0 {
        -1
    } else if key_of(open.last()) == (sender, id) {
        open.len() - 1
    } else {
        find_buffer(open.drop_last(), sender, id)
    }
}

/// How many open buffers belong to `sender`.
pub open spec fn open_count(open: Seq<BufferModel>, sender: u16) -> nat
    decreases open.len(),
{
    if open.len() == 0 {
        0
    } else {
        open_count(open.drop_last(), sender) + if open.last().sender == sender {
            1nat
        } else {
            0nat
        }
    }
}

/// No two open buffers share a `(sender, id)` key.
pub open spec fn keys_unique(open: Seq<BufferModel>) -> bool {
    forall|i: int, j: int|
        0 <= i < j < open.len() ==> key_of(#[trigger] open[i]) != key_of(#[trigger] open[j])
}

/// The open buffers that do not belong to `sender`, among the first `n`.
pub open spec fn keep_others(open: Seq<BufferModel>, sender: u16, n: int) -> Seq<BufferModel>
    decreases n,
{
    if n <= 0 {
        Seq::<BufferModel>::empty()
    } else {
        let rest = keep_others(open, sender, n - 1);
        if open[n - 1].sender == sender {
            rest
        } else {
            rest.push(open[n - 1])
        }
    }
}

/// The engine after `sender` goes away: its buffers and its record of
/// delivered messages are dropped.
pub open spec fn forget_spec(st: EngineModel, sender: u16) -> EngineModel {
    EngineModel {
        open: keep_others(st.open, sender, st.open.len() as int),
        done: st.done.filter(|k: (u16, u16)| k.0 != sender),
    }
}

/// What the engine does with fragment `frag` from `sender`: the new state
/// and the logical message it completes, if any. A fragment is dropped when
/// it has no fragment fields, when its message was already delivered, when it
/// would open one buffer too many for its sender, or when it does not fit
/// its buffer. A message completes when its stored payloads reach the
/// declared total length.
pub open spec fn accept_spec(st: EngineModel, sender: u16, frag: MessageModel) -> (EngineModel, Option<MessageModel>) {
    match frag.metadata.fragment {
        None => (st, None),
        Some(pos) => {
            let i = find_buffer(st.open, sender, pos.id);
            let b = if i < 0 {
                BufferModel { sender, id: pos.id, header: frag.metadata, parts: Map::<u16, Seq<u8>>::empty() }
            } else {
                st.open[i]
            };
            if st.done.contains((sender, pos.id)) || (i < 0 && open_count(st.open, sender)
                >= MAX_OPEN_PER_SENDER) || !fits(b, frag, pos.seq) {
                (st, None)
            } else {
                let b2 = BufferModel { parts: b.parts.insert(pos.seq, frag.payload), ..b };
                if received(b2) == b2.header.message_length {
                    (
                        EngineModel {
                            open: if i < 0 {
                                st.open
                            } else {
                                st.open.remove(i)
                            },
                            done: st.done.insert((sender, pos.id)),
                        },
                        Some(completed(b2)),
                    )
                } else {
                    (
                        EngineModel {
                            open: if i < 0 {
                                st.open.push(b2)
                            } else {
                                st.open.update(i, b2)
                            },
                            done: st.done,
                        },
                        None,
                    )
                }
            }
        },
    }
}

pub proof fn lemma_find_buffer(open: Seq<BufferModel>, sender: u16, id: u16)
    ensures
        find_buffer(open, sender, id) == -1 ==> forall|j: int|
            0 <= j < open.len() ==> key_of(#[trigger] open[j]) != (sender, id),
        find_buffer(open, sender, id) >= 0 ==> find_buffer(open, sender, id) < open.len()
            && key_of(open[find_buffer(open, sender, id)]) == (sender, id),
    decreases open.len(),
{
    if open.len() > 0 {
        lemma_find_buffer(open.drop_last(), sender, id);
        if key_of(open.last()) != (sender, id) {
            assert forall|j: int| 0 <= j < open.len() - 1 implies #[trigger] open[j] == open.drop_last()[j] by {
            }
        }
    }
}

proof fn lemma_keep_others(open: Seq<BufferModel>, sender: u16, n: int)
    requires
        keys_unique(open),
        0 <= n <= open.len(),
    ensures
        keys_unique(keep_others(open, sender, n)),
        forall|j: int|
            0 <= j < keep_others(open, sender, n).len() ==> exists|t: int|
                0 <= t < n && #[trigger] keep_others(open, sender, n)[j] == open[t],
    decreases n,
{
    if n > 0 {
        lemma_keep_others(open, sender, n - 1);
        let rest = keep_others(open, sender, n - 1);
        if open[n - 1].sender != sender {
            let cur = rest.push(open[n - 1]);
            assert forall|j: int| 0 <= j < cur.len() implies exists|t: int|
                0 <= t < n && #[trigger] cur[j] == open[t] by {
                if j < rest.len() {
                    let t = choose|t: int| 0 <= t < n - 1 && rest[j] == open[t];
                    assert(cur[j] == open[t]);
                } else {
                    assert(cur[j] == open[n - 1]);
                }
            }
            assert forall|a: int, b: int| 0 <= a < b < cur.len() implies key_of(#[trigger] cur[a])
                != key_of(#[trigger] cur[b]) by {
                let ta = choose|t: int| 0 <= t < n - 1 && rest[a] == open[t];
                assert(cur[a] == open[ta]);
                if b < rest.len() {
                    assert(cur[b] == rest[b]);
                } else {
                    assert(cur[b] == open[n - 1]);
                }
            }
        }
    }
}

/// The reassembly engine: rebuilds logical messages from fragments that may
/// arrive in any order, more than once, or not at all.
pub struct Reassembler {
    buffers: Vec<FragmentBuffer>,
    done: HashMap<u16, HashSet<u16>>,
}

impl View for Reassembler {
    type V = EngineModel;

    closed spec fn view(&self) -> EngineModel {
        EngineModel {
            open: self.buffers@.map_values(|b: FragmentBuffer| b@),
            done: Set::new(
                |k: (u16, u16)| self.done@.contains_key(k.0) && self.done@[k.0]@.contains(k.1),
            ),
        }
    }
}

impl Reassembler {
    pub closed spec fn wf(&self) -> bool {
        &&& forall|i: int| 0 <= i < self.buffers@.len() ==> (#[trigger] self.buffers@[i]).inv()
        &&& keys_unique(self@.open)
    }

    pub fn new() -> (r: Reassembler)
        ensures
            r.wf(),
            r@.open.len() == 0,
            r@.done == Set::<(u16, u16)>::empty(),
    {
        let r = Reassembler { buffers: Vec::new(), done: HashMap::new() };
        assert(r@.done =~= Set::<(u16, u16)>::empty());
        r
    }

    /// The number of logical messages still waiting for fragments.
    pub fn open_buffers(&self) -> (r: usize)
        ensures
            r == self@.open.len(),
    {
        self.buffers.len()
    }

    fn is_done(&self, sender: u16, id: u16) -> (r: bool)
        ensures
            r == self@.done.contains((sender, id)),
    {
        match self.done.get(&sender) {
            Some(set) => set.contains(&id),
            None => false,
        }
    }

    fn mark_done(&mut self, sender: u16, id: u16)
        ensures
            final(self).buffers == old(self).buffers,
            final(self)@.done == old(self)@.done.insert((sender, id)),
    {
        let mut set = match self.done.remove(&sender) {
            Some(s) => s,
            None => HashSet::new(),
        };
        set.insert(id);
        self.done.insert(sender, set);
        assert(self@.done =~= old(self)@.done.insert((sender, id)));
    }

    fn find(&self, sender: u16, id: u16) -> (r: Option<usize>)
        ensures
            match r {
                Some(i) => i as int == find_buffer(self@.open, sender, id),
                None => find_buffer(self@.open, sender, id) == -1,
            },
    {
        let ghost open = self@.open;
        let mut i: usize = self.buffers.len();
        assert(open.subrange(0, i as int) =~= open);
        while i > 0
            invariant
                i <= open.len(),
                open == self@.open,
                find_buffer(open, sender, id) == find_buffer(open.subrange(0, i as int), sender, id),
            decreases i,
        {
            if self.buffers[i - 1].sender == sender && self.buffers[i - 1].id == id {
                return Some(i - 1);
            }
            assert(open.subrange(0, i as int).drop_last() =~= open.subrange(0, i - 1));
            i -= 1;
        }
        None
    }

    fn count_open(&self, sender: u16) -> (r: usize)
        ensures
            r == open_count(self@.open, sender),
    {
        let ghost open = self@.open;
        let mut n: usize = 0;
        let mut i: usize = 0;
        while i < self.buffers.len()
            invariant
                i <= open.len(),
                open == self@.open,
                n == open_count(open.subrange(0, i as int), sender),
                n <= i,
            decreases open.len() - i,
        {
            assert(open.subrange(0, i + 1).drop_last() =~= open.subrange(0, i as int));
            if self.buffers[i].sender == sender {
                n += 1;
            }
            i += 1;
        }
        assert(open.subrange(0, open.len() as int) =~= open);
        n
    }

    /// Takes one decoded fragment from `sender`. Returns the logical message
    /// when this fragment completes it; the message is handed out once only.
    pub fn accept(&mut self, sender: u16, fragment: Message) -> (r: Option<Message>)
        requires
            old(self).wf(),
        ensures
            final(self).wf(),
            final(self)@ == accept_spec(old(self)@, sender, fragment@).0,
            match r {
                Some(m) => accept_spec(old(self)@, sender, fragment@).1 == Some(m@),
                None => accept_spec(old(self)@, sender, fragment@).1 == None::<MessageModel>,
            },
    {
        let ghost st = self@;
        let ghost fm = fragment@;
        let pos = match fragment.metadata.fragment {
            Some(p) => p,
            None => {
                return None;
            },
        };
        if self.is_done(sender, pos.id) {
            return None;
        }
        proof {
            lemma_find_buffer(st.open, sender, pos.id);
        }
        match self.find(sender, pos.id) {
            None => {
                if self.count_open(sender) >= MAX_OPEN_PER_SENDER {
                    return None;
                }
                let mut b = FragmentBuffer::new(sender, pos.id, fragment.metadata);
                if !b.fits(&fragment, pos.seq) {
                    return None;
                }
                b.add(pos.seq, fragment.content);
                if b.received == b.header.message_length {
                    let m = b.assemble();
                    self.mark_done(sender, pos.id);
                    assert(self@.open =~= st.open);
                    return Some(m);
                }
                self.buffers.push(b);
                assert(self@.open =~= st.open.push(b@));
                assert forall|i: int| 0 <= i < self.buffers@.len() implies (
                #[trigger] self.buffers@[i]).inv() by {
                    if i < st.open.len() {
                        assert(self.buffers@[i] == old(self).buffers@[i]);
                    }
                }
                None
            },
            Some(i) => {
                if !self.buffers[i].fits(&fragment, pos.seq) {
                    return None;
                }
                let mut b = self.buffers.remove(i);
                assert(b@ == st.open[i as int]);
                b.add(pos.seq, fragment.content);
                if b.received == b.header.message_length {
                    let m = b.assemble();
                    self.mark_done(sender, pos.id);
                    assert(self@.open =~= st.open.remove(i as int));
                    assert forall|a: int, c: int| 0 <= a < c < self@.open.len() implies key_of(
                        #[trigger] self@.open[a],
                    ) != key_of(#[trigger] self@.open[c]) by {
                        let ao = if a < i { a } else { a + 1 };
                        let co = if c < i { c } else { c + 1 };
                        assert(self@.open[a] == st.open[ao]);
                        assert(self@.open[c] == st.open[co]);
                    }
                    assert forall|j: int| 0 <= j < self.buffers@.len() implies (
                    #[trigger] self.buffers@[j]).inv() by {
                        if j < i {
                            assert(self.buffers@[j] == old(self).buffers@[j]);
                        } else {
                            assert(self.buffers@[j] == old(self).buffers@[j + 1]);
                        }
                    }
                    return Some(m);
                }
                self.buffers.insert(i, b);
                assert(self@.open =~= st.open.update(i as int, b@));
                assert forall|j: int| 0 <= j < self.buffers@.len() implies (
                #[trigger] self.buffers@[j]).inv() by {
                    if j != i {
                        assert(self.buffers@[j] == old(self).buffers@[j]);
                    }
                }
                assert forall|a: int, c: int| 0 <= a < c < self@.open.len() implies key_of(
                    #[trigger] self@.open[a],
                ) != key_of(#[trigger] self@.open[c]) by {
                    assert(key_of(self@.open[a]) == key_of(st.open[a]));
                    assert(key_of(self@.open[c]) == key_of(st.open[c]));
                }
                None
            },
        }
    }

    /// Drops every buffer of `sender` and its record of delivered messages,
    /// so that a later identity with the same id starts afresh.
    pub fn forget_sender(&mut self, sender: u16)
        requires
            old(self).wf(),
        ensures
            final(self).wf(),
            final(self)@ == forget_spec(old(self)@, sender),
    {
        let ghost st = self@;
        self.done.remove(&sender);
        let mut taken: Vec<FragmentBuffer> = Vec::new();
        std::mem::swap(&mut self.buffers, &mut taken);
        let ghost orig = taken@;
        let ghost d = self.done@;
        let total = taken.len();
        let ghost n = total as int;
        proof {
            lemma_keep_others(st.open, sender, n);
        }
        let mut k: usize = 0;
        while taken.len() > 0
            invariant
                k <= total,
                n == total,
                orig.len() == n,
                self.done@ == d,
                st.open == orig.map_values(|b: FragmentBuffer| b@),
                taken@ == orig.subrange(k as int, n),
                forall|j: int| 0 <= j < n ==> (#[trigger] orig[j]).inv(),
                forall|j: int| 0 <= j < self.buffers@.len() ==> (#[trigger] self.buffers@[j]).inv(),
                self@.open == keep_others(st.open, sender, k as int),
            decreases taken@.len(),
        {
            let b = taken.remove(0);
            assert(b == orig[k as int]);
            if b.sender != sender {
                self.buffers.push(b);
            }
            k += 1;
            assert(taken@ =~= orig.subrange(k as int, n));
            assert(self@.open =~= keep_others(st.open, sender, k as int));
        }
        proof {
            lemma_keep_others(st.open, sender, n);
        }
        assert(d == old(self).done@.remove(sender));
        assert(self@.done =~= forget_spec(st, sender).done);
        assert(self@.open == forget_spec(st, sender).open);
    }
}

/// Feeding `events` (sender, fragment) to the engine from state `st`: the
/// final state, and for each event what the engine handed on.
pub open spec fn run(st: EngineModel, events: Seq<(u16, MessageModel)>) -> (EngineModel, Seq<Option<MessageModel>>)
    decreases events.len(),
{
    if events.len() == 0 {
        (st, Seq::<Option<MessageModel>>::empty())
    } else {
        let prev = run(st, events.drop_last());
        let step = accept_spec(prev.0, events.last().0, events.last().1);
        (step.0, prev.1.push(step.1))
    }
}

/// The `(sender, fragment id)` key of an event.
pub open spec fn event_key(e: (u16, MessageModel)) -> (u16, u16) {
    (e.0, e.1.metadata.fragment.unwrap().id)
}

proof fn lemma_run_done(st: EngineModel, events: Seq<(u16, MessageModel)>)
    ensures
        st.done.subset_of(run(st, events).0.done),
        run(st, events).1.len() == events.len(),
        forall|i: int|
            0 <= i < events.len() && (#[trigger] run(st, events).1[i]).is_some() ==> run(
                st,
                events,
            ).0.done.contains(event_key(events[i])),
        forall|i: int, j: int|
            0 <= i < j < events.len() && (#[trigger] run(st, events).1[i]).is_some() && (
            #[trigger] run(st, events).1[j]).is_some() ==> event_key(events[i]) != event_key(
                events[j],
            ),
    decreases events.len(),
{
    if events.len() > 0 {
        let prefix = events.drop_last();
        lemma_run_done(st, prefix);
        let prev = run(st, prefix);
        let e = events.last();
        let step = accept_spec(prev.0, e.0, e.1);
        let outs = prev.1.push(step.1);
        assert(prev.0.done.subset_of(step.0.done));
        assert forall|i: int|
            0 <= i < events.len() && (#[trigger] outs[i]).is_some() implies step.0.done.contains(
            event_key(events[i]),
        ) by {
            if i < prefix.len() {
                assert(outs[i] == prev.1[i]);
                assert(events[i] == prefix[i]);
            }
        }
        assert forall|i: int, j: int|
            0 <= i < j < events.len() && (#[trigger] outs[i]).is_some() && (
            #[trigger] outs[j]).is_some() implies event_key(events[i]) != event_key(events[j]) by {
            assert(outs[i] == prev.1[i]);
            assert(events[i] == prefix[i]);
            if j < prefix.len() {
                assert(outs[j] == prev.1[j]);
                assert(events[j] == prefix[j]);
            } else {
                assert(prev.0.done.contains(event_key(events[i])));
            }
        }
    }
}

/// The engine never hands on the same `(sender, fragment id)` logical
/// message twice, whatever fragments arrive and in whatever order.
pub proof fn lemma_delivered_once(st: EngineModel, events: Seq<(u16, MessageModel)>)
    ensures
        forall|i: int, j: int|
            0 <= i < j < events.len() && (#[trigger] run(st, events).1[i]).is_some() && (
            #[trigger] run(st, events).1[j]).is_some() ==> event_key(events[i]) != event_key(
                events[j],
            ),
{
    lemma_run_done(st, events);
}

/// The fragment seq of a message.
pub open spec fn seq_of(m: MessageModel) -> u16 {
    m.metadata.fragment.unwrap().seq
}

/// The seq-to-payload map of a list of fragments.
pub open spec fn fragment_map(frags: Seq<MessageModel>) -> Map<u16, Seq<u8>> {
    Map::new(
        |s: u16| exists|i: int| 0 <= i < frags.len() && seq_of(#[trigger] frags[i]) == s,
        |s: u16| frags[choose|i: int| 0 <= i < frags.len() && seq_of(#[trigger] frags[i]) == s].payload,
    )
}

/// The fragments of one logical message from `sender`: fragment id `fid`,
/// pairwise distinct seqs, and each declaring the length of all payloads.
pub open spec fn logical_message(frags: Seq<MessageModel>, fid: u16) -> bool {
    &&& frags.len() > 0
    &&& forall|i: int|
        0 <= i < frags.len() ==> (#[trigger] frags[i]).metadata.fragment.is_some()
            && frags[i].metadata.fragment.unwrap().id == fid
            && frags[i].metadata.message_length == assembled(fragment_map(frags)).len()
    &&& forall|i: int, j: int|
        0 <= i < j < frags.len() ==> seq_of(#[trigger] frags[i]) != seq_of(#[trigger] frags[j])
}

/// The seqs among the first `n` deliveries.
pub open spec fn seen(deliveries: Seq<MessageModel>, n: int) -> Set<u16>
    decreases n,
{
    if n <= 0 {
        Set::<u16>::empty()
    } else {
        seen(deliveries, n - 1).insert(seq_of(deliveries[n - 1]))
    }
}

pub open spec fn from_sender(sender: u16, deliveries: Seq<MessageModel>) -> Seq<(u16, MessageModel)> {
    deliveries.map_values(|m: MessageModel| (sender, m))
}

/// Among the first `n` outputs, only the one at `c` is present, and it
/// carries `payload`.
pub open spec fn only_output_at(outs: Seq<Option<MessageModel>>, n: int, c: int, payload: Seq<u8>) -> bool {
    &&& 0 <= c < n
    &&& outs[c] matches Some(m) && m.payload == payload
    &&& forall|k: int| 0 <= k < n && k != c ==> (#[trigger] outs[k]).is_none()
}

/// Where reassembly of `frags` stands after the first `n` deliveries: either
/// nothing was handed on and the buffer holds the seqs seen so far, short
/// of the total; or exactly one delivery completed the whole message.
pub open spec fn progress(
    st: EngineModel,
    sender: u16,
    fid: u16,
    frags: Seq<MessageModel>,
    deliveries: Seq<MessageModel>,
    n: int,
) -> bool {
    let r = run(st, from_sender(sender, deliveries).subrange(0, n));
    let fm = fragment_map(frags);
    let total = assembled(fm).len();
    ||| {
        &&& forall|k: int| 0 <= k < n ==> (#[trigger] r.1[k]).is_none()
        &&& r.0.done == st.done
        &&& n == 0 ==> r.0.open == st.open
        &&& n > 0 ==> exists|b: BufferModel|
            {
                &&& r.0.open == st.open.push(b)
                &&& b.sender == sender
                &&& b.id == fid
                &&& b.header.message_length == total
                &&& b.parts == fm.restrict(seen(deliveries, n))
                &&& received(b) < total
            }
    }
    ||| (exists|c: int| only_output_at(r.1, n, c, assembled(fm))) && r.0.done.contains(
        (sender, fid),
    )
}

proof fn lemma_fragment_map(frags: Seq<MessageModel>)
    requires
        forall|i: int, j: int|
            0 <= i < j < frags.len() ==> seq_of(#[trigger] frags[i]) != seq_of(#[trigger] frags[j]),
    ensures
        forall|i: int|
            0 <= i < frags.len() ==> fragment_map(frags).contains_key(seq_of(#[trigger] frags[i]))
                && fragment_map(frags)[seq_of(frags[i])] == frags[i].payload,
{
    assert forall|i: int| 0 <= i < frags.len() implies fragment_map(frags).contains_key(
        seq_of(#[trigger] frags[i]),
    ) && fragment_map(frags)[seq_of(frags[i])] == frags[i].payload by {
        let s = seq_of(frags[i]);
        let c = choose|c: int| 0 <= c < frags.len() && seq_of(#[trigger] frags[c]) == s;
        if c != i {
            if c < i {
                assert(seq_of(frags[c]) != seq_of(frags[i]));
            } else {
                assert(seq_of(frags[i]) != seq_of(frags[c]));
            }
        }
    }
}

proof fn lemma_seen_members(deliveries: Seq<MessageModel>, n: int)
    requires
        0 <= n <= deliveries.len(),
    ensures
        forall|s: u16| seen(deliveries, n).contains(s) ==> exists|k: int|
            0 <= k < n && seq_of(#[trigger] deliveries[k]) == s,
        forall|k: int| 0 <= k < n ==> seen(deliveries, n).contains(seq_of(#[trigger] deliveries[k])),
    decreases n,
{
    if n > 0 {
        lemma_seen_members(deliveries, n - 1);
        assert forall|s: u16| seen(deliveries, n).contains(s) implies exists|k: int|
            0 <= k < n && seq_of(#[trigger] deliveries[k]) == s by {
            if !seen(deliveries, n - 1).contains(s) {
                assert(seq_of(deliveries[n - 1]) == s);
            }
        }
    }
}

proof fn lemma_progress_step(
    st: EngineModel,
    sender: u16,
    fid: u16,
    frags: Seq<MessageModel>,
    deliveries: Seq<MessageModel>,
    n: int,
)
    requires
        logical_message(frags, fid),
        forall|j: int| 0 <= j < deliveries.len() ==> frags.contains(#[trigger] deliveries[j]),
        !st.done.contains((sender, fid)),
        find_buffer(st.open, sender, fid) == -1,
        open_count(st.open, sender) < MAX_OPEN_PER_SENDER,
        0 <= n < deliveries.len(),
        progress(st, sender, fid, frags, deliveries, n),
    ensures
        progress(st, sender, fid, frags, deliveries, n + 1),
{
    let events = from_sender(sender, deliveries);
    let ev_n = events.subrange(0, n);
    let ev_n1 = events.subrange(0, n + 1);
    assert(ev_n1.drop_last() =~= ev_n);
    let r = run(st, ev_n);
    let r1 = run(st, ev_n1);
    lemma_run_done(st, ev_n);
    let f = deliveries[n];
    assert(ev_n1.last() == (sender, f));
    let step = accept_spec(r.0, sender, f);
    assert(r1.0 == step.0 && r1.1 == r.1.push(step.1));
    let fm = fragment_map(frags);
    let total = assembled(fm).len();
    lemma_fragment_map(frags);
    assert(frags.contains(f));
    let i = choose|i: int| 0 <= i < frags.len() && frags[i] == f;
    let pos = f.metadata.fragment.unwrap();
    assert(pos.id == fid);
    assert(f.metadata.message_length == total);
    assert(fm.contains_key(pos.seq) && fm[pos.seq] == f.payload);
    let seen_n = seen(deliveries, n);
    let seen_n1 = seen(deliveries, n + 1);
    assert(seen_n1 == seen_n.insert(pos.seq));
    if (exists|c: int| only_output_at(r.1, n, c, assembled(fm))) && r.0.done.contains((sender, fid)) {
        let c = choose|c: int| only_output_at(r.1, n, c, assembled(fm));
        assert(step.1.is_none());
        assert(r1.1[c] == r.1[c]);
        assert forall|k: int| 0 <= k < n + 1 && k != c implies (#[trigger] r1.1[k]).is_none() by {
            if k < n {
                assert(r1.1[k] == r.1[k]);
            }
        }
        assert(only_output_at(r1.1, n + 1, c, assembled(fm)));
    } else {
        // nothing handed on yet
        let b = if n == 0 {
            BufferModel { sender, id: fid, header: f.metadata, parts: Map::<u16, Seq<u8>>::empty() }
        } else {
            choose|b: BufferModel|
                {
                    &&& r.0.open == st.open.push(b)
                    &&& b.sender == sender
                    &&& b.id == fid
                    &&& b.header.message_length == total
                    &&& b.parts == fm.restrict(seen(deliveries, n))
                    &&& received(b) < total
                }
        };
        if n == 0 {
            assert(r.0 == st);
            assert(b.parts =~= fm.restrict(seen_n));
            lemma_concat_empty(0x10000);
        } else {
            assert(find_buffer(r.0.open, sender, fid) == st.open.len());
            assert(r.0.open[st.open.len() as int] == b);
        }
        assert(b.parts == fm.restrict(seen_n));
        if b.parts.contains_key(pos.seq) {
            assert(step.0 == r.0 && step.1.is_none());
            assert(seen_n1 =~= seen_n);
            assert forall|k: int| 0 <= k < n + 1 implies (#[trigger] r1.1[k]).is_none() by {
                if k < n {
                    assert(r1.1[k] == r.1[k]);
                }
            }
        } else {
            let parts2 = b.parts.insert(pos.seq, f.payload);
            assert(parts2 =~= fm.restrict(seen_n1));
            lemma_concat_insert_len(b.parts, pos.seq, f.payload, 0x10000);
            lemma_concat_restrict_len(fm, seen_n1, 0x10000);
            assert(fits(b, f, pos.seq));
            let b2 = BufferModel { parts: parts2, ..b };
            if received(b2) == total {
                lemma_concat_restrict_full(fm, seen_n1, 0x10000);
                assert(step.1 == Some(completed(b2)));
                assert(r1.1[n] == step.1);
                assert forall|k: int| 0 <= k < n + 1 && k != n implies (#[trigger] r1.1[k]).is_none() by {
                    assert(r1.1[k] == r.1[k]);
                }
                assert(only_output_at(r1.1, n + 1, n, assembled(fm)));
            } else {
                if n == 0 {
                    assert(step.0.open == st.open.push(b2));
                } else {
                    assert(step.0.open =~= st.open.push(b2));
                }
                assert forall|k: int| 0 <= k < n + 1 implies (#[trigger] r1.1[k]).is_none() by {
                    if k < n {
                        assert(r1.1[k] == r.1[k]);
                    }
                }
            }
        }
    }
}

proof fn lemma_progress(
    st: EngineModel,
    sender: u16,
    fid: u16,
    frags: Seq<MessageModel>,
    deliveries: Seq<MessageModel>,
    n: int,
)
    requires
        logical_message(frags, fid),
        forall|j: int| 0 <= j < deliveries.len() ==> frags.contains(#[trigger] deliveries[j]),
        !st.done.contains((sender, fid)),
        find_buffer(st.open, sender, fid) == -1,
        open_count(st.open, sender) < MAX_OPEN_PER_SENDER,
        0 <= n <= deliveries.len(),
    ensures
        progress(st, sender, fid, frags, deliveries, n),
    decreases n,
{
    if n == 0 {
        let events = from_sender(sender, deliveries);
        assert(events.subrange(0, 0) =~= Seq::<(u16, MessageModel)>::empty());
    } else {
        lemma_progress(st, sender, fid, frags, deliveries, n - 1);
        lemma_progress_step(st, sender, fid, frags, deliveries, n - 1);
    }
}

/// Whatever order the fragments of one logical message arrive in, and however
/// often each of them is repeated, the engine hands on exactly one message,
/// and its payload is all fragment payloads in ascending seq order. The
/// message must not have been delivered before, have no open buffer, and
/// its sender must be below the limit of open buffers.
pub proof fn lemma_reassembly_complete(
    st: EngineModel,
    sender: u16,
    fid: u16,
    frags: Seq<MessageModel>,
    deliveries: Seq<MessageModel>,
)
    requires
        logical_message(frags, fid),
        forall|j: int| 0 <= j < deliveries.len() ==> frags.contains(#[trigger] deliveries[j]),
        forall|i: int| 0 <= i < frags.len() ==> deliveries.contains(#[trigger] frags[i]),
        !st.done.contains((sender, fid)),
        find_buffer(st.open, sender, fid) == -1,
        open_count(st.open, sender) < MAX_OPEN_PER_SENDER,
    ensures
        exists|c: int|
            only_output_at(
                run(st, from_sender(sender, deliveries)).1,
                deliveries.len() as int,
                c,
                assembled(fragment_map(frags)),
            ),
{
    let n = deliveries.len() as int;
    let events = from_sender(sender, deliveries);
    lemma_progress(st, sender, fid, frags, deliveries, n);
    assert(events.subrange(0, n) =~= events);
    let r = run(st, events);
    let fm = fragment_map(frags);
    let total = assembled(fm).len();
    if !((exists|c: int| only_output_at(r.1, n, c, assembled(fm))) && r.0.done.contains((sender, fid))) {
        assert(deliveries.contains(frags[0]));
        assert(n > 0);
        let b = choose|b: BufferModel|
            {
                &&& r.0.open == st.open.push(b)
                &&& b.sender == sender
                &&& b.id == fid
                &&& b.header.message_length == total
                &&& b.parts == fm.restrict(seen(deliveries, n))
                &&& received(b) < total
            };
        lemma_seen_members(deliveries, n);
        assert forall|s: u16| fm.contains_key(s) implies #[trigger] seen(deliveries, n).contains(s) by {
            let i = choose|i: int| 0 <= i < frags.len() && seq_of(#[trigger] frags[i]) == s;
            assert(deliveries.contains(frags[i]));
            let j = choose|j: int| 0 <= j < deliveries.len() && deliveries[j] == frags[i];
            assert(seen(deliveries, n).contains(seq_of(deliveries[j])));
        }
        assert(fm.restrict(seen(deliveries, n)) =~= fm);
        assert(false);
    }
}

} // verus!
