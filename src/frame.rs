//! Length-prefixed framing: an 8-byte little-endian length, then the payload.

use vstd::prelude::*;

verus! {

/// Number of bytes of the length prefix.
pub const HEADER_LEN: usize = 8;

/// `256` to the power `k`.
pub open spec fn pow256(k: nat) -> nat
    decreases k,
{
    if k == 0 {
        1
    } else {
        256 * pow256((k - 1) as nat)
    }
}

/// The number that a byte sequence denotes, least significant byte first.
pub open spec fn le_value(b: Seq<u8>) -> nat
    decreases b.len(),
{
    if b.len() == 0 {
        0
    } else {
        b[0] as nat + 256 * le_value(b.subrange(1, b.len() as int))
    }
}

/// The `k` least significant bytes of `v`, least significant first.
pub open spec fn le_bytes(v: nat, k: nat) -> Seq<u8>
    decreases k,
{
    if k == 0 {
        Seq::empty()
    } else {
        seq![(v % 256) as u8] + le_bytes(v / 256, (k - 1) as nat)
    }
}

/// The wire form of a payload: its length in eight bytes, then the payload.
pub open spec fn frame_of(payload: Seq<u8>) -> Seq<u8> {
    le_bytes(payload.len(), HEADER_LEN as nat) + payload
}

/// The payload that a complete frame carries, if `buf` is exactly one frame.
pub open spec fn payload_of(buf: Seq<u8>) -> Option<Seq<u8>> {
    if buf.len() >= HEADER_LEN && le_value(buf.subrange(0, HEADER_LEN as int)) == buf.len()
        - HEADER_LEN {
        Some(buf.subrange(HEADER_LEN as int, buf.len() as int))
    } else {
        None
    }
}

pub proof fn lemma_pow256_8()
    ensures
        pow256(8) == 0x1_0000_0000_0000_0000,
{
    reveal_with_fuel(pow256, 9);
}

pub proof fn lemma_le_bytes_len(v: nat, k: nat)
    ensures
        le_bytes(v, k).len() == k,
    decreases k,
{
    if k > 0 {
        lemma_le_bytes_len(v / 256, (k - 1) as nat);
    }
}

/// Reading back the bytes of a number that fits in them gives the number.
pub proof fn lemma_le_round_trip(v: nat, k: nat)
    requires
        v < pow256(k),
    ensures
        le_value(le_bytes(v, k)) == v,
    decreases k,
{
    if k > 0 {
        let p = pow256((k - 1) as nat);
        assert(v / 256 < p) by (nonlinear_arith)
            requires
                v < 256 * p,
        ;
        lemma_le_round_trip(v / 256, (k - 1) as nat);
        let b = le_bytes(v, k);
        lemma_le_bytes_len(v / 256, (k - 1) as nat);
        assert(b.subrange(1, b.len() as int) =~= le_bytes(v / 256, (k - 1) as nat));
        assert(v == (v % 256) + 256 * (v / 256)) by (nonlinear_arith);
    }
}

pub proof fn lemma_le_value_bound(b: Seq<u8>)
    ensures
        le_value(b) < pow256(b.len()),
    decreases b.len(),
{
    if b.len() > 0 {
        let t = b.subrange(1, b.len() as int);
        lemma_le_value_bound(t);
        let x = le_value(t);
        let p = pow256(t.len());
        let h = b[0] as nat;
        assert(h + 256 * x < 256 * p) by (nonlinear_arith)
            requires
                x < p,
                h < 256,
        ;
    }
}

/// Decoding the frame of a payload gives the payload back.
pub proof fn lemma_frame_round_trip(payload: Seq<u8>)
    requires
        payload.len() <= u64::MAX,
    ensures
        payload_of(frame_of(payload)) == Some(payload),
{
    lemma_pow256_8();
    lemma_le_bytes_len(payload.len(), 8);
    lemma_le_round_trip(payload.len(), 8);
    let f = frame_of(payload);
    assert(f.subrange(0, 8) =~= le_bytes(payload.len(), 8));
    assert(f.subrange(8, f.len() as int) =~= payload);
}

/// The eight bytes of `v`, least significant first.
pub fn encode_len(v: u64) -> (r: Vec<u8>)
    ensures
        r@ == le_bytes(v as nat, HEADER_LEN as nat),
{
    let mut r: Vec<u8> = Vec::new();
    let mut rest: u64 = v;
    let mut i: usize = 0;
    while i < HEADER_LEN
        invariant
            i <= HEADER_LEN,
            r@ + le_bytes(rest as nat, (HEADER_LEN - i) as nat) == le_bytes(v as nat, HEADER_LEN as nat),
        decreases HEADER_LEN - i,
    {
        let ghost k = (HEADER_LEN - i) as nat;
        assert(le_bytes(rest as nat, k) == seq![(rest % 256) as u8] + le_bytes(
            (rest / 256) as nat,
            (k - 1) as nat,
        ));
        r.push((rest % 256) as u8);
        rest = rest / 256;
        i = i + 1;
        assert(r@ + le_bytes(rest as nat, (HEADER_LEN - i) as nat) =~= le_bytes(
            v as nat,
            HEADER_LEN as nat,
        ));
    }
    assert(r@ + Seq::<u8>::empty() =~= r@);
    r
}

/// The number held by the first eight bytes of `buf`, least significant first.
pub fn decode_len(buf: &Vec<u8>) -> (r: u64)
    requires
        buf@.len() >= HEADER_LEN,
    ensures
        r as nat == le_value(buf@.subrange(0, HEADER_LEN as int)),
{
    let ghost h = buf@.subrange(0, HEADER_LEN as int);
    let mut acc: u64 = 0;
    let mut i: usize = HEADER_LEN;
    while i > 0
        invariant
            i <= HEADER_LEN,
            buf@.len() >= HEADER_LEN,
            h == buf@.subrange(0, HEADER_LEN as int),
            acc as nat == le_value(h.subrange(i as int, HEADER_LEN as int)),
        decreases i,
    {
        let ghost t = h.subrange(i as int, HEADER_LEN as int);
        let ghost s = h.subrange(i - 1, HEADER_LEN as int);
        assert(s.subrange(1, s.len() as int) =~= t);
        proof {
            lemma_le_value_bound(s);
            lemma_pow256_8();
            assert(pow256(s.len()) <= pow256(8)) by {
                lemma_pow256_mono(s.len(), 8);
            }
        }
        acc = (buf[i - 1] as u64) + 256 * acc;
        i = i - 1;
    }
    assert(h.subrange(0, HEADER_LEN as int) =~= h);
    acc
}

pub proof fn lemma_pow256_mono(a: nat, b: nat)
    requires
        a <= b,
    ensures
        pow256(a) <= pow256(b),
    decreases b,
{
    if a < b {
        lemma_pow256_mono(a, (b - 1) as nat);
    }
}

/// The frame that carries `payload`.
pub fn encode_frame(payload: &Vec<u8>) -> (r: Vec<u8>)
    ensures
        r@ == frame_of(payload@),
{
    let mut r = encode_len(payload.len() as u64);
    let mut i: usize = 0;
    while i < payload.len()
        invariant
            i <= payload@.len(),
            r@ == le_bytes(payload@.len(), HEADER_LEN as nat) + payload@.subrange(0, i as int),
        decreases payload@.len() - i,
    {
        r.push(payload[i]);
        i = i + 1;
        assert(r@ =~= le_bytes(payload@.len(), HEADER_LEN as nat) + payload@.subrange(0, i as int));
    }
    assert(payload@.subrange(0, i as int) =~= payload@);
    r
}

/// The payload of `buf` if `buf` is exactly one frame, else `None`.
pub fn decode_frame(buf: &Vec<u8>) -> (r: Option<Vec<u8>>)
    ensures
        r matches Some(p) ==> payload_of(buf@) == Some(p@),
        r is None ==> payload_of(buf@) is None,
{
    if buf.len() < HEADER_LEN {
        return None;
    }
    let len = decode_len(buf);
    if len as u128 != (buf.len() - HEADER_LEN) as u128 {
        return None;
    }
    let mut p: Vec<u8> = Vec::new();
    let mut i: usize = HEADER_LEN;
    while i < buf.len()
        invariant
            HEADER_LEN <= i <= buf@.len(),
            p@ == buf@.subrange(HEADER_LEN as int, i as int),
        decreases buf@.len() - i,
    {
        p.push(buf[i]);
        i = i + 1;
        assert(p@ =~= buf@.subrange(HEADER_LEN as int, i as int));
    }
    Some(p)
}

/// The frames of `items`, one after another.
pub open spec fn list_of(items: Seq<Seq<u8>>) -> Seq<u8>
    decreases items.len(),
{
    if items.len() == 0 {
        Seq::empty()
    } else {
        frame_of(items[0]) + list_of(items.drop_first())
    }
}

/// The items of a sequence of frames, read from the front; `None` where the
/// bytes end inside a frame.
pub open spec fn parse_list(buf: Seq<u8>) -> Option<Seq<Seq<u8>>>
    decreases buf.len(),
{
    if buf.len() == 0 {
        Some(Seq::empty())
    } else if buf.len() < HEADER_LEN {
        None
    } else {
        let l = le_value(buf.subrange(0, HEADER_LEN as int));
        if HEADER_LEN + l > buf.len() {
            None
        } else {
            match parse_list(buf.subrange(HEADER_LEN + l, buf.len() as int)) {
                Some(rest) => Some(seq![buf.subrange(HEADER_LEN as int, HEADER_LEN + l)] + rest),
                None => None,
            }
        }
    }
}

/// Reading back a sequence of frames gives the items that were framed.
pub proof fn lemma_list_round_trip(items: Seq<Seq<u8>>)
    requires
        forall|i: int| 0 <= i < items.len() ==> #[trigger] items[i].len() <= u64::MAX,
    ensures
        parse_list(list_of(items)) == Some(items),
    decreases items.len(),
{
    if items.len() > 0 {
        let f = frame_of(items[0]);
        let rest = items.drop_first();
        assert forall|i: int| 0 <= i < rest.len() implies #[trigger] rest[i].len() <= u64::MAX by {
            assert(rest[i] == items[i + 1]);
        }
        lemma_list_round_trip(rest);
        lemma_frame_round_trip(items[0]);
        lemma_le_bytes_len(items[0].len(), 8);
        let buf = list_of(items);
        let l = items[0].len() as int;
        assert(buf.subrange(0, 8) =~= f.subrange(0, 8));
        assert(buf.subrange(8, 8 + l) =~= items[0]);
        assert(buf.subrange(8 + l, buf.len() as int) =~= list_of(rest));
        assert(seq![items[0]] + rest =~= items);
    }
}

/// The frames of `items`, one after another.
pub fn encode_list(items: &Vec<Vec<u8>>) -> (r: Vec<u8>)
    ensures
        r@ == list_of(items@.map_values(|b: Vec<u8>| b@)),
{
    let ghost its = items@.map_values(|b: Vec<u8>| b@);
    let mut r: Vec<u8> = Vec::new();
    let mut i: usize = items.len();
    // Built from the back: list_of unfolds from the front.
    while i > 0
        invariant
            i <= items@.len(),
            its == items@.map_values(|b: Vec<u8>| b@),
            r@ == list_of(its.subrange(i as int, its.len() as int)),
        decreases i,
    {
        let f = encode_frame(&items[i - 1]);
        let mut nr = f;
        let mut k: usize = 0;
        while k < r.len()
            invariant
                k <= r@.len(),
                nr@ == frame_of(items@[i - 1]@) + r@.subrange(0, k as int),
            decreases r@.len() - k,
        {
            nr.push(r[k]);
            k = k + 1;
            assert(nr@ =~= frame_of(items@[i - 1]@) + r@.subrange(0, k as int));
        }
        assert(r@.subrange(0, k as int) =~= r@);
        let ghost tail = its.subrange(i - 1, its.len() as int);
        assert(tail.drop_first() =~= its.subrange(i as int, its.len() as int));
        assert(tail[0] == items@[i - 1]@);
        r = nr;
        i = i - 1;
    }
    assert(its.subrange(0, its.len() as int) =~= its);
    r
}

/// The items of `buf` read as a sequence of frames, or `None`.
pub fn decode_list(buf: &Vec<u8>) -> (r: Option<Vec<Vec<u8>>>)
    ensures
        r is None <==> parse_list(buf@) is None,
        r matches Some(v) ==> parse_list(buf@) == Some(v@.map_values(|b: Vec<u8>| b@)),
{
    let mut out: Vec<Vec<u8>> = Vec::new();
    let mut pos: usize = 0;
    proof {
        assert(buf@.subrange(0, buf@.len() as int) =~= buf@);
        match parse_list(buf@) {
            Some(rest) => {
                assert(out@.map_values(|b: Vec<u8>| b@) + rest =~= rest);
            },
            None => {},
        }
    }
    while pos < buf.len()
        invariant
            pos <= buf@.len(),
            parse_list(buf@) == match parse_list(buf@.subrange(pos as int, buf@.len() as int)) {
                Some(rest) => Some(out@.map_values(|b: Vec<u8>| b@) + rest),
                None => None::<Seq<Seq<u8>>>,
            },
        decreases buf@.len() - pos,
    {
        let ghost cur = buf@.subrange(pos as int, buf@.len() as int);
        if buf.len() - pos < HEADER_LEN {
            return None;
        }
        let mut header: Vec<u8> = Vec::new();
        let mut k: usize = 0;
        while k < HEADER_LEN
            invariant
                k <= HEADER_LEN,
                pos + HEADER_LEN <= buf@.len() <= usize::MAX,
                header@ == buf@.subrange(pos as int, pos + k),
            decreases HEADER_LEN - k,
        {
            header.push(buf[pos + k]);
            k = k + 1;
            assert(header@ =~= buf@.subrange(pos as int, pos + k));
        }
        let l = decode_len(&header);
        assert(header@.subrange(0, 8) =~= cur.subrange(0, 8));
        if l as u128 > (buf.len() - pos - HEADER_LEN) as u128 {
            return None;
        }
        let l = l as usize;
        let mut item: Vec<u8> = Vec::new();
        let mut j: usize = 0;
        while j < l
            invariant
                j <= l,
                pos + HEADER_LEN + l <= buf@.len() <= usize::MAX,
                item@ == buf@.subrange(pos + HEADER_LEN, pos + HEADER_LEN + j),
            decreases l - j,
        {
            item.push(buf[pos + HEADER_LEN + j]);
            j = j + 1;
            assert(item@ =~= buf@.subrange(pos + HEADER_LEN, pos + HEADER_LEN + j));
        }
        let ghost before = out@.map_values(|b: Vec<u8>| b@);
        assert(cur.subrange(8, 8 + l) =~= item@);
        assert(cur.subrange(8 + l, cur.len() as int) =~= buf@.subrange(
            pos + HEADER_LEN + l,
            buf@.len() as int,
        ));
        out.push(item);
        assert(out@.map_values(|b: Vec<u8>| b@) =~= before.push(item@));
        pos = pos + HEADER_LEN + l;
        proof {
            match parse_list(buf@.subrange(pos as int, buf@.len() as int)) {
                Some(rest) => {
                    assert(before + (seq![item@] + rest) =~= before.push(item@) + rest);
                },
                None => {},
            }
        }
    }
    assert(buf@.subrange(pos as int, buf@.len() as int) =~= Seq::<u8>::empty());
    assert(out@.map_values(|b: Vec<u8>| b@) + Seq::<Seq<u8>>::empty() =~= out@.map_values(
        |b: Vec<u8>| b@,
    ));
    Some(out)
}

} // verus!
