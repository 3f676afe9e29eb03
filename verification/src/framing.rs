//! Byte framing of messages on a stream: every message is preceded by its
//! length, written with a configurable width and byte order. Datagram
//! messages instead carry the sender's session id in front.

use vstd::prelude::*;

verus! {

/// Width of the length prefix of a framed message.
#[derive(Clone, Copy, Debug, PartialEq, Eq, Structural)]
pub enum BytesOptions {
    U8,
    U16,
    U32,
    U64,
}

/// Byte order of the length prefix.
#[derive(Clone, Copy, Debug, PartialEq, Eq, Structural)]
pub enum OrderOptions {
    LittleEndian,
    BigEndian,
}

pub open spec fn width(b: BytesOptions) -> nat {
    match b {
        BytesOptions::U8 => 1,
        BytesOptions::U16 => 2,
        BytesOptions::U32 => 4,
        BytesOptions::U64 => 8,
    }
}

/// Largest length the prefix can carry.
pub open spec fn max_length(b: BytesOptions) -> nat {
    match b {
        BytesOptions::U8 => 0xff,
        BytesOptions::U16 => 0xffff,
        BytesOptions::U32 => 0xffff_ffff,
        BytesOptions::U64 => 0xffff_ffff_ffff_ffff,
    }
}

pub open spec fn pow256(n: nat) -> nat
    decreases n,
{
    if n == 0 {
        1
    } else {
        256 * pow256((n - 1) as nat)
    }
}

/// The number whose little-endian bytes are `s`.
pub open spec fn le_value(s: Seq<u8>) -> nat
    decreases s.len(),
{
    if s.len() == 0 {
        0
    } else {
        s[0] as nat + 256 * le_value(s.drop_first())
    }
}

/// The `n` low little-endian bytes of `v`.
pub open spec fn le_bytes(v: nat, n: nat) -> Seq<u8>
    decreases n,
{
    if n == 0 {
        seq![]
    } else {
        seq![(v % 256) as u8] + le_bytes(v / 256, (n - 1) as nat)
    }
}

/// The number that the bytes `s` stand for in byte order `o`.
pub open spec fn value_of(s: Seq<u8>, o: OrderOptions) -> nat {
    match o {
        OrderOptions::LittleEndian => le_value(s),
        OrderOptions::BigEndian => le_value(s.reverse()),
    }
}

/// The bytes of the length prefix for `v`.
pub open spec fn encode_length(v: nat, b: BytesOptions, o: OrderOptions) -> Seq<u8> {
    match o {
        OrderOptions::LittleEndian => le_bytes(v, width(b)),
        OrderOptions::BigEndian => le_bytes(v, width(b)).reverse(),
    }
}

/// One framed message: its length prefix, then its bytes.
pub open spec fn frame(payload: Seq<u8>, b: BytesOptions, o: OrderOptions) -> Seq<u8> {
    encode_length(payload.len(), b, o) + payload
}

/// Splits a stream buffer into the complete messages at its front and the
/// bytes that remain (an incomplete frame, or nothing).
pub open spec fn split_frames(buf: Seq<u8>, b: BytesOptions, o: OrderOptions) -> (
    Seq<Seq<u8>>,
    Seq<u8>,
)
    decreases buf.len(),
{
    let w = width(b);
    if buf.len() < w {
        (seq![], buf)
    } else {
        let n = value_of(buf.take(w as int), o);
        if buf.len() - w < n {
            (seq![], buf)
        } else {
            let rest = split_frames(buf.skip((w + n) as int), b, o);
            (seq![buf.subrange(w as int, (w + n) as int)] + rest.0, rest.1)
        }
    }
}

pub open spec fn views(s: Seq<Vec<u8>>) -> Seq<Seq<u8>> {
    s.map_values(|m: Vec<u8>| m@)
}

pub proof fn lemma_le_value_bound(s: Seq<u8>)
    ensures
        le_value(s) < pow256(s.len()),
    decreases s.len(),
{
    if s.len() > 0 {
        lemma_le_value_bound(s.drop_first());
        let a = s[0] as nat;
        let r = le_value(s.drop_first());
        let p = pow256((s.len() - 1) as nat);
        assert(a + 256 * r < 256 * p) by (nonlinear_arith)
            requires
                a < 256,
                r < p,
        ;
    }
}

pub proof fn lemma_le_roundtrip(v: nat, n: nat)
    requires
        v < pow256(n),
    ensures
        le_bytes(v, n).len() == n,
        le_value(le_bytes(v, n)) == v,
    decreases n,
{
    if n > 0 {
        let p = pow256((n - 1) as nat);
        assert(v / 256 < p) by (nonlinear_arith)
            requires
                v < 256 * p,
        ;
        lemma_le_roundtrip(v / 256, (n - 1) as nat);
        let s = le_bytes(v, n);
        assert(s.drop_first() =~= le_bytes(v / 256, (n - 1) as nat));
        assert(v == v % 256 + 256 * (v / 256)) by (nonlinear_arith);
    }
}

pub proof fn lemma_pow256_width(b: BytesOptions)
    ensures
        pow256(width(b)) == max_length(b) + 1,
{
    reveal_with_fuel(pow256, 9);
}

pub proof fn lemma_reverse_reverse(s: Seq<u8>)
    ensures
        s.reverse().reverse() =~= s,
        s.reverse().len() == s.len(),
{
}

/// The length prefix is read back as the length it was written for.
pub proof fn lemma_length_roundtrip(v: nat, b: BytesOptions, o: OrderOptions)
    requires
        v <= max_length(b),
    ensures
        encode_length(v, b, o).len() == width(b),
        value_of(encode_length(v, b, o), o) == v,
{
    lemma_pow256_width(b);
    lemma_le_roundtrip(v, width(b));
    lemma_reverse_reverse(le_bytes(v, width(b)));
}


/// A complete frame at the front of a buffer comes out as exactly its
/// message, and the bytes after it are split as if they stood alone.
pub proof fn lemma_split_frame_front(payload: Seq<u8>, rest: Seq<u8>, b: BytesOptions, o: OrderOptions)
    requires
        payload.len() <= max_length(b),
    ensures
        split_frames(frame(payload, b, o) + rest, b, o) == (
            seq![payload] + split_frames(rest, b, o).0,
            split_frames(rest, b, o).1,
        ),
{
    lemma_length_roundtrip(payload.len(), b, o);
    let w = width(b);
    let n = payload.len();
    let buf = frame(payload, b, o) + rest;
    assert(buf.take(w as int) =~= encode_length(n, b, o));
    assert(buf.skip((w + n) as int) =~= rest);
    assert(buf.subrange(w as int, (w + n) as int) =~= payload);
}

pub open spec fn concat_frames(msgs: Seq<Seq<u8>>, b: BytesOptions, o: OrderOptions) -> Seq<u8>
    decreases msgs.len(),
{
    if msgs.len() == 0 {
        seq![]
    } else {
        frame(msgs[0], b, o) + concat_frames(msgs.drop_first(), b, o)
    }
}

/// Messages framed one after the other are split back into the same
/// messages, with nothing left over.
pub proof fn lemma_frames_roundtrip(msgs: Seq<Seq<u8>>, b: BytesOptions, o: OrderOptions)
    requires
        forall|i: int| 0 <= i < msgs.len() ==> #[trigger] msgs[i].len() <= max_length(b),
    ensures
        split_frames(concat_frames(msgs, b, o), b, o) == (msgs, Seq::<u8>::empty()),
    decreases msgs.len(),
{
    if msgs.len() == 0 {
        assert(split_frames(Seq::<u8>::empty(), b, o) == (Seq::<Seq<u8>>::empty(), Seq::<u8>::empty()));
    } else {
        assert(msgs[0].len() <= max_length(b));
        lemma_frames_roundtrip(msgs.drop_first(), b, o);
        lemma_split_frame_front(msgs[0], concat_frames(msgs.drop_first(), b, o), b, o);
        assert(seq![msgs[0]] + msgs.drop_first() =~= msgs);
    }
}

/// Splitting a stream piece by piece gives the same messages as splitting
/// it all at once: bytes that arrive later complete the frame left over.
pub proof fn lemma_split_streaming(buf1: Seq<u8>, buf2: Seq<u8>, b: BytesOptions, o: OrderOptions)
    ensures
        ({
            let first = split_frames(buf1, b, o);
            let later = split_frames(first.1 + buf2, b, o);
            split_frames(buf1 + buf2, b, o) == (first.0 + later.0, later.1)
        }),
    decreases buf1.len(),
{
    let w = width(b);
    let whole = buf1 + buf2;
    let first = split_frames(buf1, b, o);
    if buf1.len() < w {
        assert(first.1 =~= buf1);
        assert(first.0 + split_frames(first.1 + buf2, b, o).0 =~= split_frames(first.1 + buf2, b, o).0);
    } else {
        let n = value_of(buf1.take(w as int), o);
        assert(whole.take(w as int) =~= buf1.take(w as int));
        if buf1.len() - w < n {
            assert(first.1 =~= buf1);
            assert(first.0 + split_frames(first.1 + buf2, b, o).0 =~= split_frames(first.1 + buf2, b, o).0);
        } else {
            let tail1 = buf1.skip((w + n) as int);
            lemma_split_streaming(tail1, buf2, b, o);
            assert(whole.skip((w + n) as int) =~= tail1 + buf2);
            assert(whole.subrange(w as int, (w + n) as int) =~= buf1.subrange(w as int, (w + n) as int));
            let rest1 = split_frames(tail1, b, o);
            let later = split_frames(rest1.1 + buf2, b, o);
            assert(seq![buf1.subrange(w as int, (w + n) as int)] + (rest1.0 + later.0) =~= (seq![
                buf1.subrange(w as int, (w + n) as int),
            ] + rest1.0) + later.0);
        }
    }
}


pub proof fn lemma_pow256_fits(k: nat)
    requires
        k <= 16,
    ensures
        pow256(k) <= 0x1_0000_0000_0000_0000_0000_0000_0000_0000,
        k <= 8 ==> pow256(k) <= 0x1_0000_0000_0000_0000,
    decreases k,
{
    if k > 0 {
        lemma_pow256_fits((k - 1) as nat);
        reveal_with_fuel(pow256, 18);
    }
}

/// Width of the length prefix, in bytes.
pub fn prefix_width(b: &BytesOptions) -> (r: usize)
    ensures
        r == width(*b),
{
    match b {
        BytesOptions::U8 => 1,
        BytesOptions::U16 => 2,
        BytesOptions::U32 => 4,
        BytesOptions::U64 => 8,
    }
}

/// Largest length the prefix can carry.
pub fn prefix_max_length(b: &BytesOptions) -> (r: u64)
    ensures
        r == max_length(*b),
{
    match b {
        BytesOptions::U8 => 0xff,
        BytesOptions::U16 => 0xffff,
        BytesOptions::U32 => 0xffff_ffff,
        BytesOptions::U64 => 0xffff_ffff_ffff_ffff,
    }
}

/// Reads the number stored in `buf[start..start + count]` in byte order `o`.
pub fn read_number(buf: &Vec<u8>, start: usize, count: usize, o: &OrderOptions) -> (r: u128)
    requires
        start + count <= buf@.len(),
        count <= 16,
    ensures
        r == value_of(buf@.subrange(start as int, start + count), *o),
{
    let ghost s = buf@.subrange(start as int, start + count);
    let total = buf.len();
    match o {
        OrderOptions::LittleEndian => {
            let mut acc: u128 = 0;
            let mut i: usize = count;
            assert(s.subrange(count as int, count as int) =~= Seq::<u8>::empty());
            while i > 0
                invariant
                    i <= count <= 16,
                    start + count <= buf@.len(),
                    total == buf@.len(),
                    s == buf@.subrange(start as int, start + count),
                    acc == le_value(s.subrange(i as int, count as int)),
                decreases i,
            {
                let ghost tail = s.subrange(i as int, count as int);
                let ghost longer = s.subrange(i - 1, count as int);
                assert(longer.drop_first() =~= tail);
                assert(longer[0] == buf@[start + i - 1]);
                proof {
                    lemma_le_value_bound(longer);
                    lemma_pow256_fits(longer.len());
                }
                acc = acc * 256 + buf[start + i - 1] as u128;
                i = i - 1;
            }
            assert(s.subrange(0, count as int) =~= s);
            acc
        },
        OrderOptions::BigEndian => {
            let mut acc: u128 = 0;
            let mut i: usize = 0;
            assert(s.subrange(0, 0).reverse() =~= Seq::<u8>::empty());
            while i < count
                invariant
                    i <= count <= 16,
                    start + count <= buf@.len(),
                    total == buf@.len(),
                    s == buf@.subrange(start as int, start + count),
                    acc == le_value(s.subrange(0, i as int).reverse()),
                decreases count - i,
            {
                let ghost head = s.subrange(0, i as int).reverse();
                let ghost longer = s.subrange(0, i + 1).reverse();
                assert(longer.drop_first() =~= head);
                assert(longer[0] == buf@[start + i]);
                proof {
                    lemma_le_value_bound(longer);
                    lemma_pow256_fits(longer.len());
                }
                acc = acc * 256 + buf[start + i] as u128;
                i = i + 1;
            }
            assert(s.subrange(0, count as int) =~= s);
            acc
        },
    }
}

/// The little-endian bytes `le_bytes(value, count)`.
fn number_le_bytes(value: u128, count: usize) -> (r: Vec<u8>)
    ensures
        r@ == le_bytes(value as nat, count as nat),
{
    let mut out: Vec<u8> = Vec::new();
    let mut cur: u128 = value;
    let mut i: usize = 0;
    while i < count
        invariant
            i <= count,
            out@ + le_bytes(cur as nat, (count - i) as nat) == le_bytes(value as nat, count as nat),
        decreases count - i,
    {
        let ghost before = out@;
        assert(le_bytes(cur as nat, (count - i) as nat) == seq![(cur % 256) as u8] + le_bytes(
            (cur / 256) as nat,
            (count - i - 1) as nat,
        ));
        out.push((cur % 256) as u8);
        cur = cur / 256;
        i = i + 1;
    }
    assert(le_bytes(cur as nat, 0) =~= Seq::<u8>::empty());
    assert(out@ + Seq::<u8>::empty() =~= out@);
    out
}

/// The bytes of `v` in reverse order.
fn reversed(v: &Vec<u8>) -> (r: Vec<u8>)
    ensures
        r@ == v@.reverse(),
{
    let mut out: Vec<u8> = Vec::new();
    let n = v.len();
    let mut i: usize = 0;
    while i < n
        invariant
            n == v@.len(),
            i <= n,
            out@ =~= v@.reverse().take(i as int),
        decreases n - i,
    {
        out.push(v[n - 1 - i]);
        i = i + 1;
        assert(out@ =~= v@.reverse().take(i as int));
    }
    assert(v@.reverse().take(n as int) =~= v@.reverse());
    out
}

/// The length prefix for a message of `len` bytes; `None` when the length
/// does not fit in the prefix's width.
pub fn encode_length_prefix(len: u64, b: &BytesOptions, o: &OrderOptions) -> (r: Option<Vec<u8>>)
    ensures
        match r {
            Some(v) => len <= max_length(*b) && v@ == encode_length(len as nat, *b, *o),
            None => len > max_length(*b),
        },
{
    if len > prefix_max_length(b) {
        return None;
    }
    let le = number_le_bytes(len as u128, prefix_width(b));
    match o {
        OrderOptions::LittleEndian => Some(le),
        OrderOptions::BigEndian => Some(reversed(&le)),
    }
}

/// A whole frame: the length prefix followed by the message. `None` when the
/// message is too long for the prefix.
pub fn frame_message(payload: &Vec<u8>, b: &BytesOptions, o: &OrderOptions) -> (r: Option<Vec<u8>>)
    ensures
        match r {
            Some(v) => payload@.len() <= max_length(*b) && v@ == frame(payload@, *b, *o),
            None => payload@.len() > max_length(*b),
        },
{
    match encode_length_prefix(payload.len() as u64, b, o) {
        None => None,
        Some(mut out) => {
            let ghost prefix = out@;
            let mut i: usize = 0;
            while i < payload.len()
                invariant
                    i <= payload@.len(),
                    out@ =~= prefix + payload@.take(i as int),
                decreases payload@.len() - i,
            {
                out.push(payload[i]);
                i = i + 1;
                assert(out@ =~= prefix + payload@.take(i as int));
            }
            assert(payload@.take(payload@.len() as int) =~= payload@);
            Some(out)
        },
    }
}

/// Copies `buf[from..to]`.
fn copy_range(buf: &Vec<u8>, from: usize, to: usize) -> (r: Vec<u8>)
    requires
        from <= to <= buf@.len(),
    ensures
        r@ == buf@.subrange(from as int, to as int),
{
    let mut out: Vec<u8> = Vec::new();
    let mut i: usize = from;
    while i < to
        invariant
            from <= i <= to <= buf@.len(),
            out@ =~= buf@.subrange(from as int, i as int),
        decreases to - i,
    {
        out.push(buf[i]);
        i = i + 1;
        assert(out@ =~= buf@.subrange(from as int, i as int));
    }
    out
}

/// Takes every complete message off the front of a stream buffer, in order,
/// and leaves in the buffer the bytes of a frame that is not complete yet.
pub fn extract_messages_from_buffer(buffer: &mut Vec<u8>, bytes: &BytesOptions, order: &OrderOptions) -> (r: Vec<Vec<u8>>)
    ensures
        (views(r@), final(buffer)@) == split_frames(old(buffer)@, *bytes, *order),
{
    let w = prefix_width(bytes);
    let len = buffer.len();
    let ghost buf = buffer@;
    let mut messages: Vec<Vec<u8>> = Vec::new();
    let mut pos: usize = 0;
    assert(buf.skip(0) =~= buf);
    loop
        invariant_except_break
            buffer@ == buf,
            len == buf.len(),
            w == width(*bytes),
            pos <= len,
            split_frames(buf, *bytes, *order) == (
                views(messages@) + split_frames(buf.skip(pos as int), *bytes, *order).0,
                split_frames(buf.skip(pos as int), *bytes, *order).1,
            ),
        ensures
            buffer@ == buf,
            pos <= len,
            split_frames(buf, *bytes, *order) == (views(messages@), buf.skip(pos as int)),
        decreases len - pos,
    {
        let ghost rest = buf.skip(pos as int);
        if len - pos < w {
            assert(views(messages@) + Seq::<Seq<u8>>::empty() =~= views(messages@));
            break;
        }
        let n = read_number(buffer, pos, w, order);
        assert(buf.subrange(pos as int, pos + w) =~= rest.take(w as int));
        proof {
            lemma_le_value_bound(rest.take(w as int).reverse());
            lemma_le_value_bound(rest.take(w as int));
            lemma_pow256_fits(w as nat);
        }
        if ((len - pos - w) as u128) < n {
            assert(views(messages@) + Seq::<Seq<u8>>::empty() =~= views(messages@));
            break;
        }
        let end = pos + w + n as usize;
        let msg = copy_range(buffer, pos + w, end);
        assert(rest.subrange(w as int, (w + n) as int) =~= buf.subrange((pos + w) as int, end as int));
        assert(rest.skip((w + n) as int) =~= buf.skip(end as int));
        let ghost before = messages@;
        messages.push(msg);
        assert(views(messages@) =~= views(before) + seq![msg@]);
        let ghost next = split_frames(buf.skip(end as int), *bytes, *order);
        assert(views(before) + (seq![msg@] + next.0) =~= views(messages@) + next.0);
        pos = end;
    }
    let remaining = copy_range(buffer, pos, len);
    assert(buf.subrange(pos as int, len as int) =~= buf.skip(pos as int));
    *buffer = remaining;
    messages
}

/// Session id carried in front of a datagram: its 16 bytes, most
/// significant first.
pub open spec fn uuid_bytes(uuid: u128) -> Seq<u8> {
    le_bytes(uuid as nat, 16).reverse()
}

/// Puts the sender's session id in front of a datagram.
pub fn inject_uuid(buffer: Vec<u8>, uuid: u128) -> (r: Vec<u8>)
    ensures
        r@ == uuid_bytes(uuid) + buffer@,
{
    let le = number_le_bytes(uuid, 16);
    let mut out = reversed(&le);
    let ghost prefix = out@;
    let mut i: usize = 0;
    while i < buffer.len()
        invariant
            i <= buffer@.len(),
            out@ =~= prefix + buffer@.take(i as int),
        decreases buffer@.len() - i,
    {
        out.push(buffer[i]);
        i = i + 1;
        assert(out@ =~= prefix + buffer@.take(i as int));
    }
    assert(buffer@.take(buffer@.len() as int) =~= buffer@);
    out
}

/// Splits a datagram into the sender's session id and the rest; `None` when
/// it is shorter than a session id.
pub fn extract_uuid(buffer: &Vec<u8>) -> (r: Option<(u128, Vec<u8>)>)
    ensures
        match r {
            Some((uuid, rest)) => buffer@.len() >= 16 && uuid == le_value(
                buffer@.take(16).reverse(),
            ) && rest@ == buffer@.skip(16),
            None => buffer@.len() < 16,
        },
{
    if buffer.len() < 16 {
        return None;
    }
    let uuid = read_number(buffer, 0, 16, &OrderOptions::BigEndian);
    assert(buffer@.subrange(0, 16) =~= buffer@.take(16));
    let rest = copy_range(buffer, 16, buffer.len());
    assert(buffer@.subrange(16, buffer@.len() as int) =~= buffer@.skip(16));
    Some((uuid, rest))
}

/// The sender's session and the rest of a datagram that names one; `None`
/// when the datagram is shorter than a session id or names the nil session.
pub fn datagram_session(buffer: &Vec<u8>) -> (r: Option<(u128, Vec<u8>)>)
    ensures
        match r {
            Some((uuid, rest)) => buffer@.len() >= 16 && uuid == le_value(buffer@.take(16).reverse()) && uuid
                != 0 && rest@ == buffer@.skip(16),
            None => buffer@.len() < 16 || le_value(buffer@.take(16).reverse()) == 0,
        },
{
    match extract_uuid(buffer) {
        Some((uuid, rest)) => {
            if uuid == 0 {
                None
            } else {
                Some((uuid, rest))
            }
        },
        None => None,
    }
}

/// A session id put in front of a datagram is read back, with the datagram
/// unchanged.
pub proof fn lemma_uuid_roundtrip(uuid: u128, payload: Seq<u8>)
    ensures
        ({
            let d = uuid_bytes(uuid) + payload;
            d.len() >= 16 && le_value(d.take(16).reverse()) == uuid && d.skip(16) == payload
        }),
{
    lemma_pow256_fits(16);
    reveal_with_fuel(pow256, 17);
    lemma_le_roundtrip(uuid as nat, 16);
    let d = uuid_bytes(uuid) + payload;
    lemma_reverse_reverse(le_bytes(uuid as nat, 16));
    assert(d.take(16) =~= uuid_bytes(uuid));
    assert(d.skip(16) =~= payload);
}

} // verus!
