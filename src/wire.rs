use vstd::prelude::*;
use crate::geometry::Rect;

verus! {

/// The four little-endian bytes of `v`.
pub open spec fn le_bytes(v: u32) -> Seq<u8> {
    seq![(v & 0xff) as u8, ((v >> 8u32) & 0xff) as u8, ((v >> 16u32) & 0xff) as u8, (v >> 24u32) as u8]
}

/// The little-endian word at `s[i..i + 4]`.
pub open spec fn word_at(s: Seq<u8>, i: int) -> u32 {
    (s[i] as u32) | ((s[i + 1] as u32) << 8u32) | ((s[i + 2] as u32) << 16u32) | ((s[i + 3] as u32) << 24u32)
}

/// The bytes of one rectangle: its four sides in order.
pub open spec fn rect_bytes(b: Rect) -> Seq<u8> {
    le_bytes(b.0) + le_bytes(b.1) + le_bytes(b.2) + le_bytes(b.3)
}

/// The bytes of `boxes[0..n)`, box after box.
pub open spec fn boxes_bytes(boxes: Seq<Rect>, n: int) -> Seq<u8>
    decreases n,
{
    if n <= 0 {
        Seq::empty()
    } else {
        boxes_bytes(boxes, n - 1) + rect_bytes(boxes[n - 1])
    }
}

/// A list of rectangles on the wire: the count, then each rectangle.
pub open spec fn encoded(boxes: Seq<Rect>) -> Seq<u8> {
    le_bytes(boxes.len() as u32) + boxes_bytes(boxes, boxes.len() as int)
}

/// Reading back the bytes of a word gives the word.
pub proof fn lemma_word_round_trip(v: u32)
    ensures
        word_at(le_bytes(v), 0) == v,
{
    let b0 = (v & 0xff) as u8;
    let b1 = ((v >> 8u32) & 0xff) as u8;
    let b2 = ((v >> 16u32) & 0xff) as u8;
    let b3 = (v >> 24u32) as u8;
    assert(le_bytes(v)[0] == b0 && le_bytes(v)[1] == b1 && le_bytes(v)[2] == b2 && le_bytes(v)[3] == b3);
    assert((b0 as u32) | ((b1 as u32) << 8u32) | ((b2 as u32) << 16u32) | ((b3 as u32) << 24u32) == v) by (bit_vector)
        requires
            b0 == (v & 0xff) as u8,
            b1 == ((v >> 8u32) & 0xff) as u8,
            b2 == ((v >> 16u32) & 0xff) as u8,
            b3 == (v >> 24u32) as u8,
    ;
}

fn push_word(out: &mut Vec<u8>, v: u32)
    ensures
        final(out)@ == old(out)@ + le_bytes(v),
{
    out.push((v & 0xff) as u8);
    out.push(((v >> 8) & 0xff) as u8);
    out.push(((v >> 16) & 0xff) as u8);
    out.push((v >> 24) as u8);
    proof {
        assert(out@ =~= old(out)@ + le_bytes(v));
    }
}

/// Writes a list of rectangles: its length, then the four sides of each, every
/// number as four little-endian bytes.
pub fn encode_boxes(boxes: &Vec<Rect>) -> (r: Vec<u8>)
    requires
        boxes@.len() <= u32::MAX,
    ensures
        r@ == encoded(boxes@),
{
    let mut out: Vec<u8> = Vec::new();
    push_word(&mut out, boxes.len() as u32);
    let mut i: usize = 0;
    while i < boxes.len()
        invariant
            boxes@.len() <= u32::MAX,
            i <= boxes@.len(),
            out@ == le_bytes(boxes@.len() as u32) + boxes_bytes(boxes@, i as int),
        decreases boxes@.len() - i,
    {
        let b = boxes[i];
        push_word(&mut out, b.0);
        push_word(&mut out, b.1);
        push_word(&mut out, b.2);
        push_word(&mut out, b.3);
        proof {
            assert(out@ =~= le_bytes(boxes@.len() as u32) + boxes_bytes(boxes@, i + 1));
        }
        i = i + 1;
    }
    out
}

fn read_word(bytes: &Vec<u8>, i: usize) -> (r: u32)
    requires
        i + 4 <= bytes@.len(),
    ensures
        r == word_at(bytes@, i as int),
{
    let len: usize = bytes.len();
    (bytes[i] as u32) | ((bytes[i + 1] as u32) << 8) | ((bytes[i + 2] as u32) << 16) | ((bytes[i + 3] as u32) << 24)
}

/// The rectangle whose bytes start at `s[i]`.
pub open spec fn rect_at(s: Seq<u8>, i: int) -> Rect {
    (word_at(s, i), word_at(s, i + 4), word_at(s, i + 8), word_at(s, i + 12))
}

/// Reads a list of rectangles starting at byte `pos`: the rectangles and the
/// position after them, or `None` when the bytes end too early.
pub fn decode_boxes(bytes: &Vec<u8>, pos: usize) -> (r: Option<(Vec<Rect>, usize)>)
    ensures
        r is Some <==> pos + 4 <= bytes@.len() && pos + 4 + 16 * word_at(bytes@, pos as int) <= bytes@.len(),
        r matches Some((boxes, end)) ==> {
            let n = word_at(bytes@, pos as int) as int;
            &&& boxes@.len() == n
            &&& end == pos + 4 + 16 * n
            &&& forall|k: int| 0 <= k < n ==> #[trigger] boxes@[k] == rect_at(bytes@, pos + 4 + 16 * k)
        },
{
    let len = bytes.len();
    if len < 4 || pos > len - 4 {
        return None;
    }
    let n = read_word(bytes, pos);
    let start = pos + 4;
    if (len - start) as u64 / 16 < n as u64 {
        return None;
    }
    let mut boxes: Vec<Rect> = Vec::new();
    let mut k: u32 = 0;
    while k < n
        invariant
            len == bytes@.len(),
            start == pos + 4,
            start + 16 * n <= len,
            k <= n,
            boxes@.len() == k,
            forall|q: int| 0 <= q < k ==> #[trigger] boxes@[q] == rect_at(bytes@, start + 16 * q),
        decreases n - k,
    {
        let at: usize = start + 16 * (k as usize);
        boxes.push((read_word(bytes, at), read_word(bytes, at + 4), read_word(bytes, at + 8), read_word(bytes, at + 12)));
        k = k + 1;
    }
    Some((boxes, start + 16 * (n as usize)))
}

proof fn lemma_boxes_bytes_len(boxes: Seq<Rect>, n: int)
    requires
        0 <= n <= boxes.len(),
    ensures
        boxes_bytes(boxes, n).len() == 16 * n,
    decreases n,
{
    if n > 0 {
        lemma_boxes_bytes_len(boxes, n - 1);
    }
}

proof fn lemma_boxes_bytes_at(boxes: Seq<Rect>, n: int, k: int)
    requires
        0 <= k < n <= boxes.len(),
    ensures
        boxes_bytes(boxes, n).subrange(16 * k, 16 * k + 16) == rect_bytes(boxes[k]),
    decreases n,
{
    lemma_boxes_bytes_len(boxes, n - 1);
    let prev = boxes_bytes(boxes, n - 1);
    let all = boxes_bytes(boxes, n);
    if k < n - 1 {
        lemma_boxes_bytes_at(boxes, n - 1, k);
        assert(all.subrange(16 * k, 16 * k + 16) =~= prev.subrange(16 * k, 16 * k + 16));
    } else {
        assert(all.subrange(16 * k, 16 * k + 16) =~= rect_bytes(boxes[k]));
    }
}

/// Decoding what `encode_boxes` wrote, followed by anything, gives back the
/// rectangles and the position right after them.
pub proof fn lemma_wire_round_trip(boxes: Seq<Rect>, rest: Seq<u8>)
    requires
        boxes.len() <= u32::MAX,
    ensures
        ({
            let s = encoded(boxes) + rest;
            &&& word_at(s, 0) == boxes.len()
            &&& 4 + 16 * boxes.len() <= s.len()
            &&& forall|k: int| 0 <= k < boxes.len() ==> #[trigger] rect_at(s, 4 + 16 * k) == boxes[k]
        }),
{
    let s = encoded(boxes) + rest;
    let n = boxes.len() as int;
    lemma_boxes_bytes_len(boxes, n);
    lemma_word_round_trip(n as u32);
    assert(s.subrange(0, 4) =~= le_bytes(n as u32));
    assert(word_at(s, 0) == word_at(le_bytes(n as u32), 0));
    assert forall|k: int| 0 <= k < n implies #[trigger] rect_at(s, 4 + 16 * k) == boxes[k] by {
        lemma_boxes_bytes_at(boxes, n, k);
        let b = boxes[k];
        let rb = rect_bytes(b);
        let base = 4 + 16 * k;
        assert forall|q: int| 0 <= q < 16 implies s[base + q] == rb[q] by {
            assert(s[base + q] == boxes_bytes(boxes, n)[16 * k + q]);
            assert(boxes_bytes(boxes, n).subrange(16 * k, 16 * k + 16)[q] == boxes_bytes(boxes, n)[16 * k + q]);
        }
        assert forall|q: int| 0 <= q < 4 implies s[base + q] == le_bytes(b.0)[q] && s[base + 4 + q] == le_bytes(b.1)[q]
            && s[base + 8 + q] == le_bytes(b.2)[q] && s[base + 12 + q] == le_bytes(b.3)[q] by {
            assert(rb[q] == le_bytes(b.0)[q]);
            assert(rb[4 + q] == le_bytes(b.1)[q]);
            assert(rb[8 + q] == le_bytes(b.2)[q]);
            assert(rb[12 + q] == le_bytes(b.3)[q]);
            assert(s[base + q] == rb[q]);
            assert(s[base + 4 + q] == rb[4 + q]);
            assert(s[base + 8 + q] == rb[8 + q]);
            assert(s[base + 12 + q] == rb[12 + q]);
        }
        lemma_word_round_trip(b.0);
        lemma_word_round_trip(b.1);
        lemma_word_round_trip(b.2);
        lemma_word_round_trip(b.3);
        assert(word_at(s, base) == word_at(le_bytes(b.0), 0));
        assert(word_at(s, base + 4) == word_at(le_bytes(b.1), 0));
        assert(word_at(s, base + 8) == word_at(le_bytes(b.2), 0));
        assert(word_at(s, base + 12) == word_at(le_bytes(b.3), 0));
    }
}

} // verus!
