use vstd::prelude::*;
use vstd::string::StringExecFns;
use vstd::utf8::is_ascii_chars;

use crate::buffer::{MessageBuffer, PartsView, MAX_PARTS};
use crate::chunk::MessageChunk;

verus! {

/// What the base32 decoder (RFC 4648 alphabet, no padding) makes of a text,
/// or `None` where the text is not valid base32.
pub uninterp spec fn base32_decoded(text: Seq<char>) -> Option<Seq<u8>>;

/// Relies on base32::decode with `Alphabet::RFC4648 { padding: false }`: it
/// refuses non-ASCII text, and keeps five bits of each character, so text
/// without `=` decodes to `len * 5 / 8` bytes.
#[verifier::external_body]
fn decode_base32(text: &str) -> (r: Option<Vec<u8>>)
    ensures
        match r {
            Some(v) => base32_decoded(text@) == Some(v@),
            None => base32_decoded(text@) is None,
        },
        !is_ascii_chars(text@) ==> r is None,
        r is Some && !text@.contains('=') ==> r.unwrap()@.len() == text@.len() * 5 / 8,
{
    base32::decode(base32::Alphabet::RFC4648 { padding: false }, text)
}

/// Abstract state of the cache: message ids in first-seen order (oldest first),
/// the buffer of each, and the capacity.
pub struct CacheView {
    pub ids: Seq<Seq<char>>,
    pub buffers: Seq<PartsView>,
    pub capacity: nat,
}

impl CacheView {
    /// Ids are unique, each has one buffer, and the capacity holds.
    pub open spec fn wf(self) -> bool {
        &&& self.ids.len() == self.buffers.len()
        &&& self.ids.len() <= self.capacity
        &&& forall|i: int, j: int| 0 <= i < j < self.ids.len() ==> self.ids[i] != self.ids[j]
    }

    /// The state after absorbing chunk `c`.
    pub open spec fn add_spec(self, c: MessageChunk) -> CacheView {
        let id = c.id_spec();
        if self.ids.contains(id) {
            let k = self.ids.index_of(id);
            CacheView { buffers: self.buffers.update(k, self.buffers[k].insert_spec(c)), ..self }
        } else {
            let ids = self.ids.push(id);
            let buffers = self.buffers.push(PartsView::empty().insert_spec(c));
            if ids.len() > self.capacity {
                CacheView { ids: ids.drop_first(), buffers: buffers.drop_first(), ..self }
            } else {
                CacheView { ids, buffers, ..self }
            }
        }
    }

    /// Whether the message that `c` belongs to is complete once `c` is stored.
    pub open spec fn add_result(self, c: MessageChunk) -> bool {
        let id = c.id_spec();
        if self.ids.contains(id) {
            self.buffers[self.ids.index_of(id)].insert_spec(c).complete_spec()
        } else {
            PartsView::empty().insert_spec(c).complete_spec()
        }
    }

    /// Whether message `id` is held and complete.
    pub open spec fn complete_of(self, id: Seq<char>) -> bool {
        self.ids.contains(id) && self.buffers[self.ids.index_of(id)].complete_spec()
    }

    /// The assembled text of message `id`, if it is held.
    pub open spec fn text_of(self, id: Seq<char>) -> Option<Seq<char>> {
        if self.ids.contains(id) {
            Some(self.buffers[self.ids.index_of(id)].message_spec())
        } else {
            None
        }
    }
}

/// Message buffers keyed by message id, holding at most `cache_size` ids and
/// evicting the one seen first when a new id would exceed that.
#[derive(Debug)]
pub struct MessageBufferCache {
    /// Ids in first-seen order, oldest first.
    pub buffer_list: Vec<String>,
    /// The buffer of `buffer_list[i]` at position `i`.
    pub message_buffers: Vec<MessageBuffer>,
    pub cache_size: usize,
}

impl View for MessageBufferCache {
    type V = CacheView;

    open spec fn view(&self) -> CacheView {
        CacheView {
            ids: self.buffer_list@.map_values(|s: String| s@),
            buffers: self.message_buffers@.map_values(|b: MessageBuffer| b@),
            capacity: self.cache_size as nat,
        }
    }
}

impl MessageBufferCache {
    pub open spec fn wf(&self) -> bool {
        &&& self.buffer_list@.len() == self.message_buffers@.len()
        &&& self.buffer_list@.len() <= self.cache_size
        &&& forall|i: int, j: int|
            0 <= i < j < self.buffer_list@.len() ==> #[trigger] self.buffer_list@[i]@
                != #[trigger] self.buffer_list@[j]@
        &&& forall|i: int| 0 <= i < self.message_buffers@.len() ==> #[trigger] self.message_buffers@[i].wf()
    }

    /// An empty cache for at most `cache_size` messages.
    pub fn new(cache_size: usize) -> (r: Self)
        ensures
            r.wf(),
            r@.ids.len() == 0,
            r@.capacity == cache_size,
    {
        MessageBufferCache { buffer_list: Vec::new(), message_buffers: Vec::new(), cache_size }
    }

    /// Position of `id` in first-seen order.
    fn position(&self, id: &String) -> (r: Option<usize>)
        requires
            self.wf(),
        ensures
            match r {
                Some(k) => k < self@.ids.len() && self@.ids.contains(id@) && self@.ids.index_of(id@) == k,
                None => !self@.ids.contains(id@),
            },
    {
        let n = self.buffer_list.len();
        let mut k: usize = 0;
        while k < n
            invariant
                self.wf(),
                n == self.buffer_list@.len(),
                k <= n,
                forall|j: int| 0 <= j < k ==> self@.ids[j] != id@,
            decreases n - k,
        {
            if self.buffer_list[k] == *id {
                assert(self@.ids[k as int] == id@);
                let ghost ix = self@.ids.index_of(id@);
                assert(self@.ids[ix] == id@);
                assert(self.buffer_list@[ix]@ == self.buffer_list@[k as int]@);
                return Some(k);
            }
            k = k + 1;
        }
        proof {
            if self@.ids.contains(id@) {
                let ix = choose|j: int| 0 <= j < self@.ids.len() && self@.ids[j] == id@;
                assert(self@.ids[ix] == id@);
            }
        }
        None
    }

    /// Stores `message_chunk` in the buffer of its message id and tells whether
    /// that message is now complete. A new id is appended to first-seen order,
    /// and the oldest id is evicted with its buffer when the capacity is exceeded.
    pub fn add(&mut self, message_chunk: MessageChunk) -> (r: bool)
        requires
            old(self).wf(),
            message_chunk.wf(),
        ensures
            final(self).wf(),
            final(self)@ == old(self)@.add_spec(message_chunk),
            r == old(self)@.add_result(message_chunk),
    {
        let message_id = message_chunk.id();
        match self.position(&message_id) {
            Some(k) => {
                let mut buffer = self.message_buffers.remove(k);
                let is_complete = buffer.insert(message_chunk);
                self.message_buffers.insert(k, buffer);
                assert(self@.buffers =~= old(self)@.buffers.update(
                    k as int,
                    old(self)@.buffers[k as int].insert_spec(message_chunk),
                ));
                assert(self@.ids =~= old(self)@.ids);
                assert forall|i: int| 0 <= i < self.message_buffers@.len() implies #[trigger] self.message_buffers@[i].wf() by {
                    if i != k {
                        assert(self.message_buffers@[i] == old(self).message_buffers@[i]);
                    }
                }
                assert(self.buffer_list@ == old(self).buffer_list@);
                is_complete
            },
            None => {
                let mut buffer = MessageBuffer::new();
                let is_complete = buffer.insert(message_chunk);
                self.buffer_list.push(message_id);
                self.message_buffers.push(buffer);
                assert(self@.ids =~= old(self)@.ids.push(message_chunk.id_spec()));
                assert(self@.buffers =~= old(self)@.buffers.push(
                    PartsView::empty().insert_spec(message_chunk),
                ));
                assert forall|i: int, j: int|
                    0 <= i < j < self.buffer_list@.len() implies #[trigger] self.buffer_list@[i]@
                        != #[trigger] self.buffer_list@[j]@ by {
                    if j == self.buffer_list@.len() - 1 {
                        assert(old(self)@.ids[i] == self.buffer_list@[i]@);
                    } else {
                        assert(old(self).buffer_list@[i] == self.buffer_list@[i]);
                        assert(old(self).buffer_list@[j] == self.buffer_list@[j]);
                    }
                }
                assert forall|i: int| 0 <= i < self.message_buffers@.len() implies #[trigger] self.message_buffers@[i].wf() by {
                    if i < old(self).message_buffers@.len() {
                        assert(self.message_buffers@[i] == old(self).message_buffers@[i]);
                    }
                }
                if self.buffer_list.len() > self.cache_size {
                    let ghost ids = self@.ids;
                    let ghost bufs = self@.buffers;
                    let ghost prev_list = self.buffer_list@;
                    let ghost prev_bufs = self.message_buffers@;
                    self.buffer_list.remove(0);
                    self.message_buffers.remove(0);
                    assert(self@.ids =~= ids.drop_first());
                    assert(self@.buffers =~= bufs.drop_first());
                    assert forall|i: int, j: int|
                        0 <= i < j < self.buffer_list@.len() implies #[trigger] self.buffer_list@[i]@
                            != #[trigger] self.buffer_list@[j]@ by {
                        assert(self.buffer_list@[i] == prev_list[i + 1]);
                        assert(self.buffer_list@[j] == prev_list[j + 1]);
                    }
                    assert forall|i: int| 0 <= i < self.message_buffers@.len() implies #[trigger] self.message_buffers@[i].wf() by {
                        assert(self.message_buffers@[i] == prev_bufs[i + 1]);
                    }
                }
                is_complete
            },
        }
    }

    /// Whether message `key` is held and complete.
    pub fn is_complete_id(&self, key: &String) -> (r: bool)
        requires
            self.wf(),
        ensures
            r == self@.complete_of(key@),
    {
        match self.position(key) {
            Some(k) => self.message_buffers[k].is_complete(),
            None => false,
        }
    }

    /// Number of message ids held.
    pub fn len(&self) -> (r: usize)
        requires
            self.wf(),
        ensures
            r == self@.ids.len(),
    {
        self.buffer_list.len()
    }

    /// Whether message `key` is held.
    pub fn contains_key(&self, key: &str) -> (r: bool)
        requires
            self.wf(),
        ensures
            r == self@.ids.contains(key@),
    {
        let id = String::from_str(key);
        self.position(&id).is_some()
    }

    /// The assembled payload text of message `key`, if it is held.
    pub fn get_text(&self, key: &str) -> (r: Option<String>)
        requires
            self.wf(),
        ensures
            match self@.text_of(key@) {
                Some(t) => r is Some && r.unwrap()@ == t,
                None => r is None,
            },
    {
        let id = String::from_str(key);
        match self.position(&id) {
            Some(k) => Some(self.message_buffers[k].get_message()),
            None => None,
        }
    }

    /// The decoded payload of message `key`: `None` where it is not held or its
    /// text is not valid base32.
    pub fn get_value(&self, key: &str) -> (r: Option<Vec<u8>>)
        requires
            self.wf(),
        ensures
            match self@.text_of(key@) {
                Some(t) => match r {
                    Some(v) => base32_decoded(t) == Some(v@),
                    None => base32_decoded(t) is None,
                },
                None => r is None,
            },
            match self@.text_of(key@) {
                Some(t) => r is Some && !t.contains('=') ==> r.unwrap()@.len() == t.len() * 5 / 8,
                None => true,
            },
    {
        match self.get_text(key) {
            Some(t) => decode_base32(t.as_str()),
            None => None,
        }
    }
}

/// A well-formed cache has a well-formed abstract state, every buffer of which has one slot per index.
pub proof fn lemma_view_wf(cache: &MessageBufferCache)
    requires
        cache.wf(),
    ensures
        cache@.wf(),
        forall|i: int| 0 <= i < cache@.buffers.len() ==> (#[trigger] cache@.buffers[i]).parts.len() == MAX_PARTS,
{
    assert forall|i: int, j: int| 0 <= i < j < cache@.ids.len() implies cache@.ids[i] != cache@.ids[j] by {
        assert(cache.buffer_list@[i]@ != cache.buffer_list@[j]@);
    }
    assert forall|i: int| 0 <= i < cache@.buffers.len() implies (#[trigger] cache@.buffers[i]).parts.len() == MAX_PARTS by {
        assert(cache.message_buffers@[i].wf());
    }
}

/// In a sequence without repeats, the one position of an element is the one `index_of` gives.
proof fn lemma_index_of_unique(ids: Seq<Seq<char>>, k: int)
    requires
        0 <= k < ids.len(),
        forall|i: int, j: int| 0 <= i < j < ids.len() ==> ids[i] != ids[j],
    ensures
        ids.contains(ids[k]),
        ids.index_of(ids[k]) == k,
{
    assert(ids[k] == ids[k]);
    let ix = ids.index_of(ids[k]);
    assert(ids[ix] == ids[k]);
}

/// Storing the same chunk twice leaves a buffer as storing it once.
pub proof fn lemma_insert_twice(b: PartsView, c: MessageChunk)
    requires
        c.wf(),
        b.parts.len() == MAX_PARTS,
    ensures
        b.insert_spec(c).insert_spec(c) == b.insert_spec(c),
{
    assert(b.insert_spec(c).insert_spec(c).parts =~= b.insert_spec(c).parts);
}

/// Adding a chunk that was just added changes nothing: neither the cache, nor
/// whether its message is complete, nor any message's text.
pub proof fn lemma_readd_idempotent(v: CacheView, c: MessageChunk)
    requires
        v.wf(),
        c.wf(),
        forall|i: int| 0 <= i < v.buffers.len() ==> (#[trigger] v.buffers[i]).parts.len() == MAX_PARTS,
    ensures
        v.add_spec(c).add_spec(c) == v.add_spec(c),
        v.add_spec(c).add_result(c) == v.add_result(c),
        forall|id: Seq<char>| v.add_spec(c).add_spec(c).text_of(id) == #[trigger] v.add_spec(c).text_of(id),
{
    let id = c.id_spec();
    let v1 = v.add_spec(c);
    if v.ids.contains(id) {
        let k = v.ids.index_of(id);
        lemma_index_of_unique(v.ids, k);
        lemma_insert_twice(v.buffers[k], c);
        assert(v1.ids == v.ids);
        assert(v1.buffers.update(k, v1.buffers[k].insert_spec(c)) =~= v1.buffers);
    } else {
        let ids = v.ids.push(id);
        let e = PartsView::empty().insert_spec(c);
        lemma_insert_twice(PartsView::empty(), c);
        if ids.len() > v.capacity {
            if v1.ids.len() > 0 {
                let n = v1.ids.len() - 1;
                assert(v1.ids[n] == id);
                assert forall|i: int, j: int| 0 <= i < j < v1.ids.len() implies v1.ids[i] != v1.ids[j] by {
                    assert(v1.ids[i] == ids[i + 1]);
                    assert(v1.ids[j] == ids[j + 1]);
                    if j == n {
                        assert(v.ids[i + 1] == ids[i + 1]);
                    }
                }
                lemma_index_of_unique(v1.ids, n);
                assert(v1.buffers[n] == e);
                assert(v1.buffers.update(n, e.insert_spec(c)) =~= v1.buffers);
            } else {
                assert(v1.ids.len() == 0);
                assert(!v1.ids.contains(id));
                let ids2 = v1.ids.push(id);
                assert(ids2.drop_first() =~= v1.ids);
                assert(v1.buffers.push(e).drop_first() =~= v1.buffers);
            }
        } else {
            let n = v1.ids.len() - 1;
            assert forall|i: int, j: int| 0 <= i < j < v1.ids.len() implies v1.ids[i] != v1.ids[j] by {
                if j == n {
                    assert(v.ids[i] == v1.ids[i]);
                }
            }
            lemma_index_of_unique(v1.ids, n);
            assert(v1.buffers.update(n, e.insert_spec(c)) =~= v1.buffers);
        }
    }
}

/// Adding a chunk of a new message to a full cache evicts exactly the message
/// seen first: its text is gone, every other message keeps its text, and the
/// new message is held.
pub proof fn lemma_full_cache_evicts_first_seen(v: CacheView, c: MessageChunk)
    requires
        v.wf(),
        c.wf(),
        v.capacity > 0,
        v.ids.len() == v.capacity,
        !v.ids.contains(c.id_spec()),
    ensures
        v.add_spec(c).ids == v.ids.drop_first().push(c.id_spec()),
        v.add_spec(c).text_of(v.ids[0]) is None,
        forall|i: int| 1 <= i < v.ids.len() ==> v.add_spec(c).text_of(#[trigger] v.ids[i]) == v.text_of(v.ids[i]),
        v.add_spec(c).text_of(c.id_spec()) == Some(PartsView::empty().insert_spec(c).message_spec()),
{
    let id = c.id_spec();
    let ids = v.ids.push(id);
    let v1 = v.add_spec(c);
    assert(v1.ids =~= v.ids.drop_first().push(id));
    assert(v1.buffers =~= v.buffers.drop_first().push(PartsView::empty().insert_spec(c)));
    let n = v1.ids.len() - 1;
    assert forall|i: int, j: int| 0 <= i < j < v1.ids.len() implies v1.ids[i] != v1.ids[j] by {
        assert(v1.ids[i] == v.ids[i + 1]);
        if j < n {
            assert(v1.ids[j] == v.ids[j + 1]);
        } else {
            assert(v.ids[i + 1] == v.ids[i + 1]);
        }
    }
    if v1.ids.contains(v.ids[0]) {
        let ix = choose|j: int| 0 <= j < v1.ids.len() && v1.ids[j] == v.ids[0];
        if ix < n {
            assert(v1.ids[ix] == v.ids[ix + 1]);
        } else {
            assert(v.ids[0] == v.ids[0]);
        }
    }
    assert forall|i: int| 1 <= i < v.ids.len() implies v1.text_of(#[trigger] v.ids[i]) == v.text_of(v.ids[i]) by {
        lemma_index_of_unique(v.ids, i);
        assert(v1.ids[i - 1] == v.ids[i]);
        lemma_index_of_unique(v1.ids, i - 1);
    }
    assert(v1.ids[n] == id);
    lemma_index_of_unique(v1.ids, n);
}

/// Re-adding a chunk that its message's buffer already holds at its index
/// changes nothing and reports whether the message is complete, at any later
/// time, unless the chunk is terminal and a different terminal chunk has since
/// set another total (overwriting by the last terminal chunk is the rule).
pub proof fn lemma_readd_stored_chunk(v: CacheView, c: MessageChunk)
    requires
        v.wf(),
        c.wf(),
        v.ids.contains(c.id_spec()),
        v.buffers[v.ids.index_of(c.id_spec())].parts.len() == MAX_PARTS,
        v.buffers[v.ids.index_of(c.id_spec())].parts[c.idx as int] == Some(c),
        c.last ==> v.buffers[v.ids.index_of(c.id_spec())].total == c.idx + 1,
    ensures
        v.add_spec(c) == v,
        v.add_result(c) == v.complete_of(c.id_spec()),
{
    let k = v.ids.index_of(c.id_spec());
    let b = v.buffers[k];
    assert(b.insert_spec(c).parts =~= b.parts);
    assert(b.insert_spec(c) == b);
    assert(v.buffers.update(k, b) =~= v.buffers);
}

} // verus!
