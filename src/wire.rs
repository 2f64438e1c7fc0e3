use vstd::prelude::*;
use vstd::string::StringSliceAdditionalSpecFns;

verus! {

/// Size of a DNS datagram buffer.
pub const BUF_SIZE: usize = 512;

/// Number of compression pointers that one name may follow.
pub const MAX_JUMPS: usize = 5;

/// Longest label that a name may hold.
pub const MAX_LABEL: usize = 63;

/// Why a wire operation failed.
#[derive(Debug, Clone, Copy, PartialEq, Eq)]
pub enum WireError {
    /// The operation would pass the end of the buffer.
    EndOfBuffer,
    /// A name follows more compression pointers than allowed.
    TooManyJumps,
    /// A label to write is longer than 63 bytes.
    LabelTooLong,
    /// A record of a type that is only read, never written.
    UnsupportedRecord,
}

/// Big-endian 16-bit value at `pos`.
pub open spec fn be16(b: Seq<u8>, pos: int) -> u16 {
    (b[pos] as int * 256 + b[pos + 1] as int) as u16
}

/// Big-endian 32-bit value at `pos`.
pub open spec fn be32(b: Seq<u8>, pos: int) -> u32 {
    (b[pos] as int * 16777216 + b[pos + 1] as int * 65536 + b[pos + 2] as int * 256
        + b[pos + 3] as int) as u32
}

/// The labels of the name stored at `pos`, following at most `jumps_left`
/// compression pointers; `None` where the name runs off the buffer or needs more jumps.
pub open spec fn name_labels(b: Seq<u8>, pos: int, jumps_left: nat) -> Option<Seq<Seq<u8>>>
    decreases jumps_left, b.len() - pos,
{
    if pos < 0 || pos >= b.len() {
        None
    } else {
        let len = b[pos];
        if len >= 0xC0 {
            if pos + 1 >= b.len() || jumps_left == 0 {
                None
            } else {
                name_labels(b, (len - 0xC0) * 256 + b[pos + 1], (jumps_left - 1) as nat)
            }
        } else if len == 0 {
            Some(Seq::empty())
        } else if pos + 1 + len > b.len() {
            None
        } else {
            match name_labels(b, pos + 1 + len, jumps_left) {
                Some(rest) => Some(seq![b.subrange(pos + 1, pos + 1 + len)] + rest),
                None => None,
            }
        }
    }
}

/// A compression pointer that leads back to itself yields no name, whatever
/// the jump allowance: the cap turns the loop into a failure.
pub proof fn lemma_pointer_loop_fails(b: Seq<u8>, pos: int, jumps_left: nat)
    requires
        0 <= pos,
        pos + 1 < b.len(),
        b[pos] >= 0xC0,
        (b[pos] - 0xC0) * 256 + b[pos + 1] == pos,
    ensures
        name_labels(b, pos, jumps_left) is None,
    decreases jumps_left,
{
    if jumps_left > 0 {
        lemma_pointer_loop_fails(b, pos, (jumps_left - 1) as nat);
    }
}

/// A chain of compression pointers longer than the allowance yields no name:
/// where each of `jumps_left + 1` positions holds a pointer to the next, reading fails.
pub proof fn lemma_pointer_chain_too_long(b: Seq<u8>, chain: Seq<int>, jumps_left: nat)
    requires
        chain.len() == jumps_left + 1,
        forall|i: int|
            0 <= i < chain.len() ==> 0 <= #[trigger] chain[i] && chain[i] + 1 < b.len() && b[chain[i]] >= 0xC0,
        forall|i: int|
            0 <= i < chain.len() - 1 ==> (b[#[trigger] chain[i]] - 0xC0) * 256 + b[chain[i] + 1] == chain[i + 1],
    ensures
        name_labels(b, chain[0], jumps_left) is None,
    decreases jumps_left,
{
    if jumps_left > 0 {
        let rest = chain.drop_first();
        assert forall|i: int| 0 <= i < rest.len() - 1 implies (b[#[trigger] rest[i]] - 0xC0) * 256 + b[rest[i] + 1]
            == rest[i + 1] by {
            assert(rest[i] == chain[i + 1]);
            assert(rest[i + 1] == chain[i + 2]);
        }
        assert forall|i: int| 0 <= i < rest.len() implies 0 <= #[trigger] rest[i] && rest[i] + 1 < b.len() && b[rest[i]]
            >= 0xC0 by {
            assert(rest[i] == chain[i + 1]);
        }
        lemma_pointer_chain_too_long(b, rest, (jumps_left - 1) as nat);
        assert(chain[1] == rest[0]);
    }
}

/// Where the name stored at `pos` ends in place: after its terminating zero, or
/// after the first compression pointer.
pub open spec fn name_end(b: Seq<u8>, pos: int) -> int
    decreases b.len() - pos,
{
    if pos < 0 || pos >= b.len() {
        pos
    } else if b[pos] >= 0xC0 {
        pos + 2
    } else if b[pos] == 0 {
        pos + 1
    } else if pos + 1 + b[pos] > b.len() {
        pos
    } else {
        name_end(b, pos + 1 + b[pos])
    }
}

/// Labels joined with dots.
pub open spec fn join_labels(ls: Seq<Seq<u8>>) -> Seq<u8>
    decreases ls.len(),
{
    if ls.len() == 0 {
        Seq::empty()
    } else if ls.len() == 1 {
        ls[0]
    } else {
        join_labels(ls.drop_last()) + seq![0x2Eu8] + ls.last()
    }
}

/// Text of ASCII bytes, one character per byte.
pub open spec fn ascii_text(b: Seq<u8>) -> Seq<char> {
    b.map_values(|x: u8| x as char)
}

/// The text that lossy UTF-8 decoding makes of `b`.
pub uninterp spec fn lossy_text(b: Seq<u8>) -> Seq<char>;

/// Relies on String::from_utf8_lossy: the text depends on the bytes alone, and
/// valid UTF-8, so ASCII, is kept as it is.
#[verifier::external_body]
fn text_from_bytes(b: &[u8]) -> (r: String)
    ensures
        r@ == lossy_text(b@),
        (forall|i: int| 0 <= i < b@.len() ==> b@[i] < 128) ==> r@ == ascii_text(b@),
{
    String::from_utf8_lossy(b).into_owned()
}

/// Wire form of the name text `n` from the label that starts at `s`, scanning at `i`:
/// each dot-separated label as a length byte and its bytes, then a zero byte. An
/// empty last label (the root name, or a trailing dot) adds nothing before the zero.
/// `None` where a label is longer than 63 bytes.
pub open spec fn encode_from(n: Seq<u8>, s: int, i: int) -> Option<Seq<u8>>
    decreases n.len() - i,
{
    if i >= n.len() || n[i] == 0x2Eu8 {
        let label = n.subrange(s, i);
        if i - s > MAX_LABEL {
            None
        } else if i >= n.len() && i == s {
            Some(seq![0u8])
        } else if i >= n.len() {
            Some(seq![(i - s) as u8] + label + seq![0u8])
        } else {
            match encode_from(n, i + 1, i + 1) {
                Some(rest) => Some(seq![(i - s) as u8] + label + rest),
                None => None,
            }
        }
    } else {
        encode_from(n, s, i + 1)
    }
}

/// A name text whose labels are all non-empty: it does not start or end with
/// a dot and holds no two dots in a row.
pub open spec fn labels_nonempty(n: Seq<u8>) -> bool {
    &&& n.len() > 0
    &&& n[0] != 0x2Eu8
    &&& n.last() != 0x2Eu8
    &&& forall|i: int| 0 <= i < n.len() - 1 && n[i] == 0x2Eu8 ==> #[trigger] n[i + 1] != 0x2Eu8
}

proof fn lemma_join_cons(l: Seq<u8>, ls: Seq<Seq<u8>>)
    requires
        ls.len() > 0,
    ensures
        join_labels(seq![l] + ls) == l + seq![0x2Eu8] + join_labels(ls),
    decreases ls.len(),
{
    let all = seq![l] + ls;
    assert(all.last() == ls.last());
    if ls.len() == 1 {
        assert(all.drop_last() =~= seq![l]);
        assert(join_labels(all.drop_last()) == l);
        assert(join_labels(ls) == ls[0]);
        assert(join_labels(all) =~= l + seq![0x2Eu8] + join_labels(ls));
    } else {
        assert(all.drop_last() =~= seq![l] + ls.drop_last());
        lemma_join_cons(l, ls.drop_last());
        assert(join_labels(ls) == join_labels(ls.drop_last()) + seq![0x2Eu8] + ls.last());
        assert(join_labels(all) == join_labels(all.drop_last()) + seq![0x2Eu8] + all.last());
        assert(join_labels(all) =~= l + seq![0x2Eu8] + join_labels(ls));
    }
}

proof fn lemma_decode_encoded(n: Seq<u8>, s: int, i: int, b: Seq<u8>, q: int, j: nat)
    requires
        labels_nonempty(n),
        0 <= s <= i <= n.len(),
        s == 0 || n[s - 1] == 0x2Eu8,
        forall|k: int| s <= k < i ==> n[k] != 0x2Eu8,
        encode_from(n, s, i) is Some,
        0 <= q,
        q + encode_from(n, s, i).unwrap().len() <= b.len(),
        b.subrange(q, q + encode_from(n, s, i).unwrap().len()) == encode_from(n, s, i).unwrap(),
    ensures
        name_labels(b, q, j) is Some,
        name_labels(b, q, j).unwrap().len() > 0,
        join_labels(name_labels(b, q, j).unwrap()) == n.subrange(s, n.len() as int),
        name_end(b, q) == q + encode_from(n, s, i).unwrap().len(),
    decreases n.len() - i,
{
    let x = encode_from(n, s, i).unwrap();
    if i < n.len() && n[i] != 0x2Eu8 {
        lemma_decode_encoded(n, s, i + 1, b, q, j);
    } else {
        let len = i - s;
        if s == i {
            if s == 0 {
                assert(n[0] == 0x2Eu8 || n.len() == 0);
            } else {
                assert(n[s - 1] == 0x2Eu8);
                if i < n.len() {
                    assert(n[(s - 1) + 1] != 0x2Eu8);
                } else {
                    assert(n.last() == n[s - 1]);
                }
            }
        }
        assert(1 <= len <= MAX_LABEL);
        let label = n.subrange(s, i);
        assert(b[q] == x[0]);
        assert(b.subrange(q + 1, q + 1 + len) =~= label) by {
            assert forall|k: int| 0 <= k < len implies b[q + 1 + k] == label[k] by {
                assert(b.subrange(q, q + x.len())[1 + k] == x[1 + k]);
            }
        }
        assert(b[q] == len as u8);
        if i >= n.len() {
            assert(b[q + 1 + len] == x[1 + len]);
            assert(name_end(b, q + 1 + len) == q + 2 + len);
            assert(name_labels(b, q + 1 + len, j) == Some(Seq::<Seq<u8>>::empty()));
            assert(seq![label] + Seq::<Seq<u8>>::empty() =~= seq![label]);
            assert(label =~= n.subrange(s, n.len() as int));
        } else {
            let y = encode_from(n, i + 1, i + 1).unwrap();
            let q2 = q + 1 + len;
            assert(x =~= seq![len as u8] + label + y);
            assert(b.subrange(q2, q2 + y.len()) =~= y) by {
                assert forall|k: int| 0 <= k < y.len() implies b[q2 + k] == y[k] by {
                    assert(b.subrange(q, q + x.len())[1 + len + k] == x[1 + len + k]);
                }
            }
            lemma_decode_encoded(n, i + 1, i + 1, b, q2, j);
            let ls = name_labels(b, q2, j).unwrap();
            lemma_join_cons(label, ls);
            assert(n.subrange(s, n.len() as int) =~= label + seq![0x2Eu8] + n.subrange(i + 1, n.len() as int));
        }
    }
}

/// Reading back the wire form of a name whose labels are all non-empty gives
/// the name's labels, and ends right after the written bytes.
pub proof fn lemma_name_round_trip(n: Seq<u8>, b: Seq<u8>, q: int)
    requires
        labels_nonempty(n),
        encode_name_spec(n) is Some,
        0 <= q,
        q + encode_name_spec(n).unwrap().len() <= b.len(),
        b.subrange(q, q + encode_name_spec(n).unwrap().len()) == encode_name_spec(n).unwrap(),
    ensures
        name_labels(b, q, MAX_JUMPS as nat) is Some,
        join_labels(name_labels(b, q, MAX_JUMPS as nat).unwrap()) == n,
        name_end(b, q) == q + encode_name_spec(n).unwrap().len(),
{
    lemma_decode_encoded(n, 0, 0, b, q, MAX_JUMPS as nat);
    assert(n.subrange(0, n.len() as int) =~= n);
}

/// Wire form of the name text `n` (see `encode_from`).
pub open spec fn encode_name_spec(n: Seq<u8>) -> Option<Seq<u8>> {
    encode_from(n, 0, 0)
}

/// Appends `n[s..e]` to `out`.
fn push_range(out: &mut Vec<u8>, n: &[u8], s: usize, e: usize)
    requires
        s <= e <= n@.len(),
    ensures
        final(out)@ == old(out)@ + n@.subrange(s as int, e as int),
{
    let mut j: usize = s;
    while j < e
        invariant
            s <= j <= e <= n@.len(),
            out@ == old(out)@ + n@.subrange(s as int, j as int),
        decreases e - j,
    {
        out.push(n[j]);
        assert(n@.subrange(s as int, j + 1) == n@.subrange(s as int, j as int).push(n@[j as int]));
        j = j + 1;
    }
}

/// Encodes the name text `n` into its wire form.
pub fn encode_name(n: &[u8]) -> (r: Result<Vec<u8>, WireError>)
    ensures
        match encode_name_spec(n@) {
            Some(e) => r is Ok && r.unwrap()@ == e,
            None => r == Err::<Vec<u8>, WireError>(WireError::LabelTooLong),
        },
{
    let mut out: Vec<u8> = Vec::new();
    let mut s: usize = 0;
    let mut i: usize = 0;
    loop
        invariant
            s <= i <= n@.len(),
            encode_name_spec(n@) == match encode_from(n@, s as int, i as int) {
                Some(x) => Some(out@ + x),
                None => None::<Seq<u8>>,
            },
        decreases n@.len() - i,
    {
        if i == n.len() || n[i] == 0x2E {
            if i - s > MAX_LABEL {
                return Err(WireError::LabelTooLong);
            }
            if i == n.len() && i == s {
                let ghost before = out@;
                out.push(0);
                assert(out@ =~= before + seq![0u8]);
                return Ok(out);
            }
            let ghost before = out@;
            out.push((i - s) as u8);
            push_range(&mut out, n, s, i);
            if i == n.len() {
                out.push(0);
                assert(out@ =~= before + (seq![(i - s) as u8] + n@.subrange(s as int, i as int) + seq![0u8]));
                return Ok(out);
            }
            proof {
                match encode_from(n@, i + 1, i + 1) {
                    Some(x) => {
                        assert(out@ + x =~= before + (seq![(i - s) as u8] + n@.subrange(s as int, i as int) + x));
                    },
                    None => {},
                }
            }
            s = i + 1;
            i = i + 1;
        } else {
            i = i + 1;
        }
    }
}

/// A fixed 512-byte datagram buffer with a cursor.
#[derive(Debug)]
pub struct BytePacketBuffer {
    pub buf: Vec<u8>,
    pub pos: usize,
}

impl BytePacketBuffer {
    pub open spec fn wf(&self) -> bool {
        self.buf@.len() == BUF_SIZE && self.pos <= BUF_SIZE
    }

    /// A zeroed buffer with the cursor at 0.
    pub fn new() -> (r: Self)
        ensures
            r.wf(),
            r.pos == 0,
            r.buf@ == Seq::new(BUF_SIZE as nat, |i: int| 0u8),
    {
        let mut buf: Vec<u8> = Vec::new();
        let mut i: usize = 0;
        while i < BUF_SIZE
            invariant
                i <= BUF_SIZE,
                buf@ == Seq::new(i as nat, |j: int| 0u8),
            decreases BUF_SIZE - i,
        {
            buf.push(0);
            i = i + 1;
        }
        BytePacketBuffer { buf, pos: 0 }
    }

    /// The cursor.
    pub fn pos(&self) -> (r: usize)
        ensures
            r == self.pos,
    {
        self.pos
    }

    /// Moves the cursor forward by `steps`.
    pub fn step(&mut self, steps: usize) -> (r: Result<(), WireError>)
        requires
            old(self).wf(),
        ensures
            final(self).wf(),
            final(self).buf == old(self).buf,
            r is Ok <==> old(self).pos + steps <= BUF_SIZE,
            r is Ok ==> final(self).pos == old(self).pos + steps,
            r is Err ==> r == Err::<(), WireError>(WireError::EndOfBuffer) && final(self).pos == old(self).pos,
    {
        if steps > BUF_SIZE - self.pos {
            return Err(WireError::EndOfBuffer);
        }
        self.pos = self.pos + steps;
        Ok(())
    }

    /// Moves the cursor to `pos`.
    pub fn seek(&mut self, pos: usize) -> (r: Result<(), WireError>)
        requires
            old(self).wf(),
        ensures
            final(self).wf(),
            final(self).buf == old(self).buf,
            r is Ok <==> pos <= BUF_SIZE,
            r is Ok ==> final(self).pos == pos,
            r is Err ==> r == Err::<(), WireError>(WireError::EndOfBuffer) && final(self).pos == old(self).pos,
    {
        if pos > BUF_SIZE {
            return Err(WireError::EndOfBuffer);
        }
        self.pos = pos;
        Ok(())
    }

    /// Reads one byte and advances.
    pub fn read(&mut self) -> (r: Result<u8, WireError>)
        requires
            old(self).wf(),
        ensures
            final(self).wf(),
            final(self).buf == old(self).buf,
            match r {
                Ok(v) => old(self).pos < BUF_SIZE && v == old(self).buf@[old(self).pos as int]
                    && final(self).pos == old(self).pos + 1,
                Err(e) => old(self).pos >= BUF_SIZE && e == WireError::EndOfBuffer
                    && final(self).pos == old(self).pos,
            },
    {
        if self.pos >= BUF_SIZE {
            return Err(WireError::EndOfBuffer);
        }
        let v = self.buf[self.pos];
        self.pos = self.pos + 1;
        Ok(v)
    }

    /// The byte at `pos`, without moving the cursor.
    pub fn get(&self, pos: usize) -> (r: Result<u8, WireError>)
        requires
            self.wf(),
        ensures
            match r {
                Ok(v) => pos < BUF_SIZE && v == self.buf@[pos as int],
                Err(e) => pos >= BUF_SIZE && e == WireError::EndOfBuffer,
            },
    {
        if pos >= BUF_SIZE {
            return Err(WireError::EndOfBuffer);
        }
        Ok(self.buf[pos])
    }

    /// The `len` bytes from `start`, without moving the cursor.
    pub fn get_range(&self, start: usize, len: usize) -> (r: Result<Vec<u8>, WireError>)
        requires
            self.wf(),
        ensures
            match r {
                Ok(v) => start + len <= BUF_SIZE && v@ == self.buf@.subrange(start as int, start + len),
                Err(e) => start + len > BUF_SIZE && e == WireError::EndOfBuffer,
            },
    {
        if start > BUF_SIZE || len > BUF_SIZE - start {
            return Err(WireError::EndOfBuffer);
        }
        let mut v: Vec<u8> = Vec::new();
        let mut i: usize = start;
        while i < start + len
            invariant
                self.wf(),
                start <= i <= start + len <= BUF_SIZE,
                v@ == self.buf@.subrange(start as int, i as int),
            decreases start + len - i,
        {
            v.push(self.buf[i]);
            assert(v@ =~= self.buf@.subrange(start as int, i + 1));
            i = i + 1;
        }
        Ok(v)
    }

    /// The bytes before the cursor: what has been written.
    pub fn get_data(&self) -> (r: Vec<u8>)
        requires
            self.wf(),
        ensures
            r@ == self.buf@.take(self.pos as int),
    {
        let r = self.get_range(0, self.pos);
        match r {
            Ok(v) => v,
            Err(_) => Vec::new(),
        }
    }

    /// Reads a big-endian 16-bit value and advances.
    pub fn read_u16(&mut self) -> (r: Result<u16, WireError>)
        requires
            old(self).wf(),
        ensures
            final(self).wf(),
            final(self).buf == old(self).buf,
            match r {
                Ok(v) => old(self).pos + 2 <= BUF_SIZE && v == be16(old(self).buf@, old(self).pos as int)
                    && final(self).pos == old(self).pos + 2,
                Err(e) => old(self).pos + 2 > BUF_SIZE && e == WireError::EndOfBuffer,
            },
    {
        if self.pos + 2 > BUF_SIZE {
            return Err(WireError::EndOfBuffer);
        }
        let hi = self.buf[self.pos] as u16;
        let lo = self.buf[self.pos + 1] as u16;
        self.pos = self.pos + 2;
        Ok(hi * 256 + lo)
    }

    /// Reads a big-endian 32-bit value and advances.
    pub fn read_u32(&mut self) -> (r: Result<u32, WireError>)
        requires
            old(self).wf(),
        ensures
            final(self).wf(),
            final(self).buf == old(self).buf,
            match r {
                Ok(v) => old(self).pos + 4 <= BUF_SIZE && v == be32(old(self).buf@, old(self).pos as int)
                    && final(self).pos == old(self).pos + 4,
                Err(e) => old(self).pos + 4 > BUF_SIZE && e == WireError::EndOfBuffer,
            },
    {
        if self.pos + 4 > BUF_SIZE {
            return Err(WireError::EndOfBuffer);
        }
        let p = self.pos;
        let a = self.buf[p] as u32;
        let b = self.buf[p + 1] as u32;
        let c = self.buf[p + 2] as u32;
        let d = self.buf[p + 3] as u32;
        self.pos = p + 4;
        Ok(a * 16777216 + b * 65536 + c * 256 + d)
    }

    /// Writes one byte and advances.
    pub fn write_u8(&mut self, val: u8) -> (r: Result<(), WireError>)
        requires
            old(self).wf(),
        ensures
            final(self).wf(),
            r is Ok <==> old(self).pos < BUF_SIZE,
            r is Ok ==> final(self).pos == old(self).pos + 1
                && final(self).buf@ == old(self).buf@.update(old(self).pos as int, val),
            r is Err ==> r == Err::<(), WireError>(WireError::EndOfBuffer) && *final(self) == *old(self),
    {
        if self.pos >= BUF_SIZE {
            return Err(WireError::EndOfBuffer);
        }
        self.buf.set(self.pos, val);
        self.pos = self.pos + 1;
        Ok(())
    }

    /// Writes a big-endian 16-bit value and advances.
    pub fn write_u16(&mut self, val: u16) -> (r: Result<(), WireError>)
        requires
            old(self).wf(),
        ensures
            final(self).wf(),
            r is Ok <==> old(self).pos + 2 <= BUF_SIZE,
            r is Ok ==> final(self).pos == old(self).pos + 2
                && final(self).buf@ == old(self).buf@.update(old(self).pos as int, (val / 256) as u8)
                    .update(old(self).pos + 1, (val % 256) as u8),
            r is Err ==> r == Err::<(), WireError>(WireError::EndOfBuffer) && *final(self) == *old(self),
    {
        if self.pos + 2 > BUF_SIZE {
            return Err(WireError::EndOfBuffer);
        }
        self.buf.set(self.pos, (val / 256) as u8);
        self.buf.set(self.pos + 1, (val % 256) as u8);
        self.pos = self.pos + 2;
        Ok(())
    }

    /// Writes a big-endian 32-bit value and advances.
    pub fn write_u32(&mut self, val: u32) -> (r: Result<(), WireError>)
        requires
            old(self).wf(),
        ensures
            final(self).wf(),
            r is Ok <==> old(self).pos + 4 <= BUF_SIZE,
            r is Ok ==> final(self).pos == old(self).pos + 4
                && final(self).buf@ == old(self).buf@
                    .update(old(self).pos as int, (val / 16777216) as u8)
                    .update(old(self).pos + 1, ((val / 65536) % 256) as u8)
                    .update(old(self).pos + 2, ((val / 256) % 256) as u8)
                    .update(old(self).pos + 3, (val % 256) as u8),
            r is Err ==> r == Err::<(), WireError>(WireError::EndOfBuffer) && *final(self) == *old(self),
    {
        if self.pos + 4 > BUF_SIZE {
            return Err(WireError::EndOfBuffer);
        }
        let p = self.pos;
        self.buf.set(p, (val / 16777216) as u8);
        self.buf.set(p + 1, ((val / 65536) % 256) as u8);
        self.buf.set(p + 2, ((val / 256) % 256) as u8);
        self.buf.set(p + 3, (val % 256) as u8);
        self.pos = p + 4;
        Ok(())
    }

    /// Reads the name at the cursor, following compression pointers, and leaves
    /// the cursor after the name's bytes in place.
    pub fn read_qname_bytes(&mut self) -> (r: Result<Vec<u8>, WireError>)
        requires
            old(self).wf(),
        ensures
            final(self).wf(),
            final(self).buf@ == old(self).buf@,
            match name_labels(old(self).buf@, old(self).pos as int, MAX_JUMPS as nat) {
                Some(ls) => r is Ok && r.unwrap()@ == join_labels(ls)
                    && final(self).pos == name_end(old(self).buf@, old(self).pos as int),
                None => r is Err,
            },
    {
        let ghost b = self.buf@;
        let ghost start = self.pos as int;
        let mut cur: usize = self.pos;
        let mut jumps_left: usize = MAX_JUMPS;
        let mut jumped = false;
        let mut end: usize = 0;
        let mut out: Vec<u8> = Vec::new();
        let mut any = false;
        let ghost mut done: Seq<Seq<u8>> = Seq::empty();
        loop
            invariant
                self.wf(),
                self.buf@ == b,
                b == old(self).buf@,
                start == old(self).pos,
                self.pos == start,
                cur <= BUF_SIZE,
                jumps_left <= MAX_JUMPS,
                name_labels(b, start, MAX_JUMPS as nat) == match name_labels(b, cur as int, jumps_left as nat) {
                    Some(rest) => Some(done + rest),
                    None => None::<Seq<Seq<u8>>>,
                },
                out@ == join_labels(done),
                any == (done.len() > 0),
                jumped ==> end as int == name_end(b, start) && end <= BUF_SIZE,
                !jumped ==> name_end(b, start) == name_end(b, cur as int),
            decreases jumps_left, BUF_SIZE - cur,
        {
            if cur >= BUF_SIZE {
                return Err(WireError::EndOfBuffer);
            }
            let len = self.buf[cur];
            if len >= 0xC0 {
                if cur + 1 >= BUF_SIZE {
                    return Err(WireError::EndOfBuffer);
                }
                if jumps_left == 0 {
                    return Err(WireError::TooManyJumps);
                }
                let target = (len as usize - 0xC0) * 256 + self.buf[cur + 1] as usize;
                if target >= BUF_SIZE {
                    assert(name_labels(b, target as int, (jumps_left - 1) as nat) is None);
                    return Err(WireError::EndOfBuffer);
                }
                if !jumped {
                    end = cur + 2;
                    jumped = true;
                }
                jumps_left = jumps_left - 1;
                cur = target;
            } else if len == 0 {
                if !jumped {
                    end = cur + 1;
                }
                assert(done + Seq::<Seq<u8>>::empty() == done);
                self.pos = end;
                return Ok(out);
            } else {
                let n = len as usize;
                if cur + 1 + n > BUF_SIZE {
                    return Err(WireError::EndOfBuffer);
                }
                let ghost label = b.subrange(cur + 1, cur + 1 + n);
                let ghost rest = name_labels(b, cur + 1 + n, jumps_left as nat);
                if any {
                    out.push(0x2E);
                }
                let mut i: usize = cur + 1;
                while i < cur + 1 + n
                    invariant
                        self.buf@ == b,
                        self.wf(),
                        cur + 1 <= i <= cur + 1 + n <= BUF_SIZE,
                        out@ == (if done.len() > 0 { join_labels(done) + seq![0x2Eu8] } else { Seq::<u8>::empty() })
                            + b.subrange(cur + 1, i as int),
                    decreases cur + 1 + n - i,
                {
                    out.push(self.buf[i]);
                    assert(b.subrange(cur + 1, i + 1) == b.subrange(cur + 1, i as int).push(b[i as int]));
                    i = i + 1;
                }
                proof {
                    let nd = done.push(label);
                    assert(nd.drop_last() == done);
                    assert(out@ =~= join_labels(nd));
                    match rest {
                        Some(r) => {
                            assert(done + (seq![label] + r) =~= nd + r);
                        },
                        None => {},
                    }
                    done = nd;
                }
                any = true;
                cur = cur + 1 + n;
            }
        }
    }

    /// Reads the name at the cursor as text (see `read_qname_bytes`).
    pub fn read_qname(&mut self) -> (r: Result<String, WireError>)
        requires
            old(self).wf(),
        ensures
            final(self).wf(),
            final(self).buf@ == old(self).buf@,
            match name_labels(old(self).buf@, old(self).pos as int, MAX_JUMPS as nat) {
                Some(ls) => r is Ok && final(self).pos == name_end(old(self).buf@, old(self).pos as int)
                    && r.unwrap()@ == lossy_text(join_labels(ls)) && ((forall|i: int| 0 <= i < join_labels(ls).len() ==> join_labels(ls)[i] < 128)
                        ==> r.unwrap()@ == ascii_text(join_labels(ls))),
                None => r is Err,
            },
    {
        let b = self.read_qname_bytes()?;
        Ok(text_from_bytes(b.as_slice()))
    }

    /// Writes `bytes` at the cursor and advances; fails, writing nothing, where
    /// they do not fit.
    pub fn write_bytes(&mut self, bytes: &[u8]) -> (r: Result<(), WireError>)
        requires
            old(self).wf(),
        ensures
            final(self).wf(),
            r is Ok <==> old(self).pos + bytes@.len() <= BUF_SIZE,
            r is Ok ==> final(self).pos == old(self).pos + bytes@.len()
                && final(self).buf@ == old(self).buf@.take(old(self).pos as int) + bytes@
                    + old(self).buf@.skip(old(self).pos + bytes@.len()),
            r is Err ==> r == Err::<(), WireError>(WireError::EndOfBuffer) && *final(self) == *old(self),
    {
        if bytes.len() > BUF_SIZE - self.pos {
            return Err(WireError::EndOfBuffer);
        }
        let p = self.pos;
        let ghost b = self.buf@;
        let mut k: usize = 0;
        while k < bytes.len()
            invariant
                p == old(self).pos,
                b == old(self).buf@,
                b.len() == BUF_SIZE,
                p + bytes@.len() <= BUF_SIZE,
                k <= bytes@.len(),
                self.pos == p,
                self.buf@ == b.take(p as int) + bytes@.take(k as int) + b.skip(p + k),
            decreases bytes@.len() - k,
        {
            self.buf.set(p + k, bytes[k]);
            assert(self.buf@ =~= b.take(p as int) + bytes@.take(k + 1) + b.skip(p + k + 1));
            k = k + 1;
        }
        assert(bytes@.take(k as int) == bytes@);
        self.pos = p + bytes.len();
        Ok(())
    }

    /// Writes `qname` as labels and a terminating zero byte, without compression.
    pub fn write_qname(&mut self, qname: &str) -> (r: Result<(), WireError>)
        requires
            old(self).wf(),
        ensures
            final(self).wf(),
            match encode_name_spec(qname.spec_bytes()) {
                None => r == Err::<(), WireError>(WireError::LabelTooLong) && *final(self) == *old(self),
                Some(e) => (r is Ok <==> old(self).pos + e.len() <= BUF_SIZE) && (r is Ok ==> final(self).pos
                    == old(self).pos + e.len() && final(self).buf@ == old(self).buf@.take(old(self).pos as int)
                    + e + old(self).buf@.skip(old(self).pos + e.len())) && (r is Err ==> *final(self) == *old(self)),
            },
    {
        let e = encode_name(qname.as_bytes())?;
        self.write_bytes(e.as_slice())
    }
}

} // verus!
