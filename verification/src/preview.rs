//! The head-and-tail preview of a long text, cut at UTF-8 character
//! boundaries.
use vstd::prelude::*;
use vstd::string::StringSliceAdditionalSpecFns;
use vstd::utf8::*;
use crate::text::utf8_len;

verus! {

broadcast use {vstd::string::group_string_axioms, vstd::utf8::group_utf8_lib};

/// The greatest character boundary of `bytes` at or below `i`.
pub open spec fn floor_boundary(bytes: Seq<u8>, i: nat) -> nat
    decreases i,
{
    if i == 0 || is_char_boundary(bytes, i as int) {
        i
    } else {
        floor_boundary(bytes, (i - 1) as nat)
    }
}

/// The least character boundary of `bytes` at or above `i`, or `i` itself
/// when `i` is at or past the end.
pub open spec fn ceil_boundary(bytes: Seq<u8>, i: nat) -> nat
    decreases bytes.len() - i,
{
    if i >= bytes.len() || is_char_boundary(bytes, i as int) {
        i
    } else {
        ceil_boundary(bytes, i + 1)
    }
}

/// `floor_boundary` is the greatest boundary at or below `i`.
pub proof fn lemma_floor_boundary(bytes: Seq<u8>, i: nat)
    requires
        valid_utf8(bytes),
    ensures
        floor_boundary(bytes, i) <= i,
        is_char_boundary(bytes, floor_boundary(bytes, i) as int),
        forall|j: int|
            floor_boundary(bytes, i) < j <= i ==> !#[trigger] is_char_boundary(bytes, j),
    decreases i,
{
    is_char_boundary_start_end_of_seq(bytes);
    if i > 0 && !is_char_boundary(bytes, i as int) {
        lemma_floor_boundary(bytes, (i - 1) as nat);
    }
}

/// `ceil_boundary` is the least boundary at or above `i` inside the text.
pub proof fn lemma_ceil_boundary(bytes: Seq<u8>, i: nat)
    requires
        valid_utf8(bytes),
        i <= bytes.len(),
    ensures
        i <= ceil_boundary(bytes, i) <= bytes.len(),
        is_char_boundary(bytes, ceil_boundary(bytes, i) as int),
        forall|j: int| i <= j < ceil_boundary(bytes, i) ==> !#[trigger] is_char_boundary(bytes, j),
    decreases bytes.len() - i,
{
    is_char_boundary_start_end_of_seq(bytes);
    if i < bytes.len() && !is_char_boundary(bytes, i as int) {
        lemma_ceil_boundary(bytes, i + 1);
    }
}

/// The greatest character boundary of `text` at or below byte `idx`.
pub fn floor_char_boundary(text: &str, idx: usize) -> (r: usize)
    ensures
        r == floor_boundary(encode_utf8(text@), idx as nat),
{
    let mut i = idx;
    while i > 0 && !text.is_char_boundary(i)
        invariant
            i <= idx,
            floor_boundary(text.spec_bytes(), i as nat) == floor_boundary(
                text.spec_bytes(),
                idx as nat,
            ),
        decreases i,
    {
        i = i - 1;
    }
    i
}

/// The least character boundary of `text` at or above byte `idx`, or
/// `idx` when it is at or past the end.
pub fn ceil_char_boundary(text: &str, idx: usize) -> (r: usize)
    ensures
        r == ceil_boundary(encode_utf8(text@), idx as nat),
{
    let mut i = idx;
    let n = utf8_len(text);
    while i < n && !text.is_char_boundary(i)
        invariant
            idx <= i,
            n == text.spec_bytes().len(),
            ceil_boundary(text.spec_bytes(), i as nat) == ceil_boundary(
                text.spec_bytes(),
                idx as nat,
            ),
        decreases text.spec_bytes().len() - i,
    {
        i = i + 1;
    }
    i
}

/// The bytes of the head kept by a preview: the longest prefix of at most
/// `head` bytes that ends on a character boundary.
pub open spec fn preview_head_end(bytes: Seq<u8>, head: nat) -> nat {
    floor_boundary(bytes, if head < bytes.len() { head } else { bytes.len() })
}

/// Where the tail kept by a preview starts: the shortest suffix of at most
/// `tail` bytes that starts on a character boundary.
pub open spec fn preview_tail_start(bytes: Seq<u8>, tail: nat) -> nat {
    ceil_boundary(
        bytes,
        if tail < bytes.len() {
            (bytes.len() - tail) as nat
        } else {
            0
        },
    )
}

/// The preview of `text`: the text itself when it has at most
/// `head + tail` bytes; otherwise its head, a line holding `...`, and its
/// tail.
pub open spec fn preview_of(text: Seq<char>, head: nat, tail: nat) -> Seq<char> {
    let bytes = encode_utf8(text);
    if bytes.len() <= head + tail {
        text
    } else {
        decode_utf8(bytes.subrange(0, preview_head_end(bytes, head) as int)) + "\n...\n"@
            + decode_utf8(
            bytes.subrange(preview_tail_start(bytes, tail) as int, bytes.len() as int),
        )
    }
}

/// The encoding of a concatenation is the concatenation of the encodings.
proof fn lemma_encode_concat(a: Seq<char>, b: Seq<char>)
    ensures
        encode_utf8(a + b) == encode_utf8(a) + encode_utf8(b),
    decreases a.len(),
{
    if a.len() == 0 {
        assert(a + b =~= b);
        assert(encode_utf8(a) + encode_utf8(b) =~= encode_utf8(b));
    } else {
        lemma_encode_concat(a.drop_first(), b);
        assert((a + b).drop_first() =~= a.drop_first() + b);
        assert((a + b)[0] == a[0]);
        assert(encode_utf8(a + b) == encode_scalar(a[0] as u32) + encode_utf8(
            a.drop_first() + b,
        ));
        assert(encode_utf8(a) == encode_scalar(a[0] as u32) + encode_utf8(a.drop_first()));
        assert(encode_utf8(a + b) =~= encode_utf8(a) + encode_utf8(b));
    }
}

/// A text with at least one character has at least one byte.
proof fn lemma_encode_nonempty(a: Seq<char>)
    requires
        a.len() > 0,
    ensures
        encode_utf8(a).len() > 0,
{
    assert(encode_utf8(a) == encode_scalar(a[0] as u32) + encode_utf8(a.drop_first()));
    assert(encode_scalar(a[0] as u32).len() >= 1);
}

/// The bytes of the first `m` characters of `s` end on a character
/// boundary of the bytes of `s`, and the rest of the bytes encode the
/// rest of the characters.
proof fn lemma_prefix_ends_on_boundary(s: Seq<char>, m: int)
    requires
        0 <= m <= s.len(),
    ensures
        encode_utf8(s) == encode_utf8(s.take(m)) + encode_utf8(s.skip(m)),
        is_char_boundary(encode_utf8(s), encode_utf8(s.take(m)).len() as int),
{
    assert(s =~= s.take(m) + s.skip(m));
    lemma_encode_concat(s.take(m), s.skip(m));
    let bytes = encode_utf8(s);
    let l = encode_utf8(s.take(m)).len() as int;
    is_char_boundary_start_end_of_seq(bytes);
    if m < s.len() {
        let rest = encode_utf8(s.skip(m));
        encode_utf8_first_scalar(s.skip(m));
        assert(rest.len() > 0);
        assert(bytes[l] == rest[0]);
        assert(!is_continuation_byte(bytes[l]));
        is_char_boundary_iff_not_is_continuation_byte(bytes, l);
    } else {
        assert(s.skip(m) =~= Seq::<char>::empty());
        assert(l == bytes.len());
    }
}

/// More characters of a prefix take strictly more bytes.
proof fn lemma_prefix_bytes_increase(s: Seq<char>, m1: int, m2: int)
    requires
        0 <= m1 < m2 <= s.len(),
    ensures
        encode_utf8(s.take(m1)).len() < encode_utf8(s.take(m2)).len(),
{
    let mid = s.subrange(m1, m2);
    assert(s.take(m2) =~= s.take(m1) + mid);
    lemma_encode_concat(s.take(m1), mid);
    lemma_encode_nonempty(mid);
}

/// The preview of a text longer than `head + tail` bytes is a head, the
/// `...` line and a tail, where the head is the longest prefix of the text
/// with at most `head` bytes and the tail the longest suffix with at most
/// `tail` bytes: no longer prefix or suffix within those bounds exists.
pub proof fn lemma_preview_keeps_longest_head_and_tail(text: Seq<char>, head: nat, tail: nat)
    requires
        encode_utf8(text).len() > head + tail,
    ensures
        exists|h: Seq<char>, t: Seq<char>|
            {
                &&& preview_of(text, head, tail) == h + "\n...\n"@ + t
                &&& h.is_prefix_of(text)
                &&& t.is_suffix_of(text)
                &&& encode_utf8(h).len() <= head
                &&& encode_utf8(t).len() <= tail
                &&& forall|m: int|
                    0 <= m <= text.len() && #[trigger] encode_utf8(text.take(m)).len() <= head
                        ==> m <= h.len()
                &&& forall|m: int|
                    0 <= m <= text.len() && #[trigger] encode_utf8(text.skip(m)).len() <= tail
                        ==> text.len() - m <= t.len()
            },
{
    let bytes = encode_utf8(text);
    let total = bytes.len();
    let hi: nat = if head < total {
        head
    } else {
        total
    };
    let lo: nat = if tail < total {
        (total - tail) as nat
    } else {
        0
    };
    let e = preview_head_end(bytes, head);
    let c = preview_tail_start(bytes, tail);
    lemma_floor_boundary(bytes, hi);
    lemma_ceil_boundary(bytes, lo);
    let hb = decode_utf8(bytes.subrange(0, e as int));
    let tb = decode_utf8(bytes.subrange(c as int, total as int));
    let pre_t = decode_utf8(bytes.subrange(0, c as int));
    decode_utf8_split(bytes, e as int);
    decode_utf8_split(bytes, c as int);
    valid_utf8_split(bytes, e as int);
    valid_utf8_split(bytes, c as int);
    decode_utf8_encode_utf8(bytes.subrange(0, e as int));
    decode_utf8_encode_utf8(bytes.subrange(c as int, total as int));
    decode_utf8_encode_utf8(bytes.subrange(0, c as int));
    assert(preview_of(text, head, tail) == hb + "\n...\n"@ + tb);
    let hc = hb.len() as int;
    let sc = text.len() - tb.len();
    assert(text == hb + decode_utf8(bytes.subrange(e as int, total as int)));
    assert(text == pre_t + tb);
    assert(text.take(hc) =~= hb);
    assert(text.skip(sc) =~= tb);
    assert(text.take(sc) =~= pre_t);
    assert(encode_utf8(hb).len() == e);
    assert(encode_utf8(pre_t).len() == c);
    assert forall|m: int|
        0 <= m <= text.len() && #[trigger] encode_utf8(text.take(m)).len() <= head implies m
        <= hb.len() by {
        lemma_prefix_ends_on_boundary(text, m);
        let l = encode_utf8(text.take(m)).len() as int;
        assert(l <= hi);
        if e < l {
            assert(!is_char_boundary(bytes, l));
        }
        if m > hc {
            lemma_prefix_bytes_increase(text, hc, m);
        }
    }
    assert forall|m: int|
        0 <= m <= text.len() && #[trigger] encode_utf8(text.skip(m)).len() <= tail implies text.len()
        - m <= tb.len() by {
        lemma_prefix_ends_on_boundary(text, m);
        let l = encode_utf8(text.take(m)).len() as int;
        assert(lo <= l <= total);
        if l < c {
            assert(!is_char_boundary(bytes, l));
        }
        if m < sc {
            lemma_prefix_bytes_increase(text, m, sc);
        }
    }
    assert(hb.is_prefix_of(text));
    assert(tb.is_suffix_of(text)) by {
        assert(text.subrange(text.len() - tb.len(), text.len() as int) =~= tb);
    }
}

/// A preview of `text` that keeps at most `head_bytes` bytes of its start
/// and `tail_bytes` bytes of its end, never cutting a character in two.
pub fn head_tail_preview(text: &str, head_bytes: usize, tail_bytes: usize) -> (r: String)
    ensures
        r@ == preview_of(text@, head_bytes as nat, tail_bytes as nat),
        encode_utf8(text@).len() <= head_bytes + tail_bytes ==> r@ == text@,
        encode_utf8(text@).len() > head_bytes + tail_bytes ==> exists|h: Seq<char>, t: Seq<char>|
            {
                &&& r@ == h + "\n...\n"@ + t
                &&& h.is_prefix_of(text@)
                &&& t.is_suffix_of(text@)
                &&& encode_utf8(h).len() <= head_bytes
                &&& encode_utf8(t).len() <= tail_bytes
                &&& forall|m: int|
                    0 <= m <= text@.len() && #[trigger] encode_utf8(text@.take(m)).len()
                        <= head_bytes ==> m <= h.len()
                &&& forall|m: int|
                    0 <= m <= text@.len() && #[trigger] encode_utf8(text@.skip(m)).len()
                        <= tail_bytes ==> text@.len() - m <= t.len()
            },
{
    let total = utf8_len(text);
    if total <= head_bytes.saturating_add(tail_bytes) {
        return text.to_owned();
    }
    let ghost bytes = text.spec_bytes();
    let head_end = floor_char_boundary(text, if head_bytes < total {
        head_bytes
    } else {
        total
    });
    let tail_start = ceil_char_boundary(text, total.saturating_sub(tail_bytes));
    proof {
        lemma_floor_boundary(bytes, if head_bytes < total {
            head_bytes as nat
        } else {
            total as nat
        });
        lemma_ceil_boundary(bytes, (total - (if tail_bytes < total {
            tail_bytes
        } else {
            total
        })) as nat);
    }
    let (h, _) = text.split_at(head_end);
    let (_, t) = text.split_at(tail_start);
    let mut out = h.to_owned();
    out.append("\n...\n");
    out.append(t);
    proof {
        assert(h@ == decode_utf8(h.spec_bytes()));
        assert(t@ == decode_utf8(t.spec_bytes()));
        decode_utf8_split(bytes, head_end as int);
        decode_utf8_split(bytes, tail_start as int);
        assert(decode_utf8(bytes) == text@);
        let rest_h = decode_utf8(bytes.subrange(head_end as int, bytes.len() as int));
        let pre_t = decode_utf8(bytes.subrange(0, tail_start as int));
        assert(h@.is_prefix_of(text@)) by {
            assert(text@ =~= h@ + rest_h);
            assert(text@.take(h@.len() as int) =~= h@);
        }
        assert(t@.is_suffix_of(text@)) by {
            assert(text@ =~= pre_t + t@);
            assert(text@.skip(text@.len() - t@.len()) =~= t@);
            assert(text@.subrange(text@.len() - t@.len(), text@.len() as int) =~= t@);
        }
        assert(encode_utf8(h@) == h.spec_bytes());
        assert(encode_utf8(t@) == t.spec_bytes());
        assert(out@ == h@ + "\n...\n"@ + t@);
        lemma_preview_keeps_longest_head_and_tail(text@, head_bytes as nat, tail_bytes as nat);
    }
    out
}

} // verus!
