use vstd::prelude::*;
use vstd::string::StringExecFns;

use crate::chunk::MessageChunk;

verus! {

/// Number of distinct chunk indices: one per base32 character.
pub const MAX_PARTS: usize = 32;

/// Number of filled slots.
pub open spec fn count_some(s: Seq<Option<MessageChunk>>) -> nat
    decreases s.len(),
{
    if s.len() == 0 {
        0
    } else {
        count_some(s.drop_last()) + if s.last() is Some { 1nat } else { 0nat }
    }
}

/// The payload fragments of the filled slots, concatenated in slot order.
pub open spec fn joined(s: Seq<Option<MessageChunk>>) -> Seq<char>
    decreases s.len(),
{
    if s.len() == 0 {
        Seq::empty()
    } else {
        joined(s.drop_last()) + match s.last() {
            Some(c) => c.content_spec(),
            None => Seq::empty(),
        }
    }
}

/// Abstract state of a message buffer: one slot per index, and the announced total (0 while unknown).
pub struct PartsView {
    pub parts: Seq<Option<MessageChunk>>,
    pub total: u8,
}

impl PartsView {
    /// The state of a fresh buffer.
    pub open spec fn empty() -> PartsView {
        PartsView { parts: Seq::new(MAX_PARTS as nat, |i: int| None), total: 0 }
    }

    /// The state after storing `c`: its slot is overwritten, and a terminal chunk fixes the total.
    pub open spec fn insert_spec(self, c: MessageChunk) -> PartsView {
        PartsView {
            parts: self.parts.update(c.idx as int, Some(c)),
            total: if c.last { (c.idx + 1) as u8 } else { self.total },
        }
    }

    /// Complete: the total is known and equals the number of stored chunks.
    pub open spec fn complete_spec(self) -> bool {
        self.total != 0 && self.total as nat == count_some(self.parts)
    }

    /// The assembled payload text.
    pub open spec fn message_spec(self) -> Seq<char> {
        joined(self.parts)
    }
}

/// The chunks of one message, each in the slot of its index.
#[derive(Debug)]
pub struct MessageBuffer {
    pub message_parts: Vec<Option<MessageChunk>>,
    /// The number of chunks, known once a terminal chunk came; 0 until then.
    pub message_parts_total_len: u8,
}

impl View for MessageBuffer {
    type V = PartsView;

    open spec fn view(&self) -> PartsView {
        PartsView { parts: self.message_parts@, total: self.message_parts_total_len }
    }
}

impl MessageBuffer {
    pub open spec fn wf(&self) -> bool {
        &&& self.message_parts@.len() == MAX_PARTS
        &&& self.message_parts_total_len <= MAX_PARTS
        &&& forall|i: int|
            0 <= i < MAX_PARTS ==> match #[trigger] self.message_parts@[i] {
                Some(c) => c.wf() && c.idx == i,
                None => true,
            }
    }

    /// An empty buffer.
    pub fn new() -> (r: Self)
        ensures
            r.wf(),
            r@ == PartsView::empty(),
    {
        let mut parts: Vec<Option<MessageChunk>> = Vec::new();
        let mut i: usize = 0;
        while i < MAX_PARTS
            invariant
                i <= MAX_PARTS,
                parts@.len() == i,
                forall|j: int| 0 <= j < i ==> parts@[j] is None,
            decreases MAX_PARTS - i,
        {
            parts.push(None);
            i = i + 1;
        }
        assert(parts@ == PartsView::empty().parts);
        MessageBuffer { message_parts: parts, message_parts_total_len: 0 }
    }

    /// Stores `message_chunk` at its index, replacing what was there, and tells
    /// whether the message is now complete.
    pub fn insert(&mut self, message_chunk: MessageChunk) -> (r: bool)
        requires
            old(self).wf(),
            message_chunk.wf(),
        ensures
            final(self).wf(),
            final(self)@ == old(self)@.insert_spec(message_chunk),
            r == final(self)@.complete_spec(),
    {
        let idx = message_chunk.idx;
        if message_chunk.last {
            self.message_parts_total_len = idx + 1;
        }
        self.message_parts.set(idx as usize, Some(message_chunk));
        self.is_complete()
    }

    /// Whether every chunk up to the terminal one has arrived.
    pub fn is_complete(&self) -> (r: bool)
        requires
            self.wf(),
        ensures
            r == self@.complete_spec(),
    {
        let mut n: usize = 0;
        let mut i: usize = 0;
        while i < MAX_PARTS
            invariant
                i <= MAX_PARTS,
                self.message_parts@.len() == MAX_PARTS,
                n == count_some(self.message_parts@.take(i as int)),
                n <= i,
            decreases MAX_PARTS - i,
        {
            assert(self.message_parts@.take(i as int + 1).drop_last() == self.message_parts@.take(i as int));
            if self.message_parts[i].is_some() {
                n = n + 1;
            }
            i = i + 1;
        }
        assert(self.message_parts@.take(MAX_PARTS as int) == self.message_parts@);
        self.message_parts_total_len != 0 && self.message_parts_total_len as usize == n
    }

    /// The payload fragments concatenated in ascending index order.
    pub fn get_message(&self) -> (r: String)
        requires
            self.wf(),
        ensures
            r@ == self@.message_spec(),
    {
        let mut content = String::new();
        let mut i: usize = 0;
        while i < MAX_PARTS
            invariant
                self.wf(),
                i <= MAX_PARTS,
                content@ == joined(self.message_parts@.take(i as int)),
            decreases MAX_PARTS - i,
        {
            assert(self.message_parts@.take(i as int + 1).drop_last() == self.message_parts@.take(i as int));
            match &self.message_parts[i] {
                Some(c) => {
                    assert(self.message_parts@[i as int] is Some);
                    let part = c.content();
                    content.append(part.as_str());
                },
                None => {},
            }
            i = i + 1;
        }
        assert(self.message_parts@.take(MAX_PARTS as int) == self.message_parts@);
        content
    }
}

/// Chunks at different indices may arrive in either order: unless both are
/// terminal, the buffer ends in the same state.
pub proof fn lemma_insert_order_irrelevant(b: PartsView, c1: MessageChunk, c2: MessageChunk)
    requires
        c1.wf(),
        c2.wf(),
        b.parts.len() == MAX_PARTS,
        c1.idx != c2.idx,
        !(c1.last && c2.last),
    ensures
        b.insert_spec(c1).insert_spec(c2) == b.insert_spec(c2).insert_spec(c1),
{
    assert(b.insert_spec(c1).insert_spec(c2).parts =~= b.insert_spec(c2).insert_spec(c1).parts);
}

/// The text of a buffer is the concatenation, by ascending index, of the
/// fragments of the chunks it holds: with every index below `n` filled, the
/// text is the fragments of those `n` chunks in index order.
pub proof fn lemma_text_in_index_order(parts: Seq<Option<MessageChunk>>, n: int)
    requires
        0 <= n <= parts.len(),
        forall|i: int| 0 <= i < n ==> (#[trigger] parts[i]) is Some,
        forall|i: int| n <= i < parts.len() ==> (#[trigger] parts[i]) is None,
    ensures
        joined(parts) == fragments(parts.take(n)),
    decreases parts.len(),
{
    if parts.len() > n {
        assert(parts.drop_last().take(n) == parts.take(n));
        lemma_text_in_index_order(parts.drop_last(), n);
    } else if n > 0 {
        assert(parts.take(n) == parts);
        lemma_text_in_index_order(parts.drop_last(), n - 1);
        assert(parts.drop_last().take(n - 1) == parts.drop_last());
        assert(parts.take(n).drop_last() == parts.drop_last());
    } else {
        assert(parts.take(0) =~= Seq::<Option<MessageChunk>>::empty());
    }
}

/// Fragments of a run of filled slots, concatenated.
pub open spec fn fragments(parts: Seq<Option<MessageChunk>>) -> Seq<char>
    decreases parts.len(),
{
    if parts.len() == 0 {
        Seq::empty()
    } else {
        fragments(parts.drop_last()) + parts.last().unwrap().content_spec()
    }
}

} // verus!
