//! UTF-8 text buffers: byte-level editing of `String`s at character
//! boundaries, and the grapheme and word segmentation of a text.
use unicode_segmentation::UnicodeSegmentation;
use vstd::prelude::*;
use vstd::utf8::*;

verus! {

broadcast use vstd::utf8::group_utf8_lib;

/// The UTF-8 bytes of a character sequence.
pub open spec fn utf8(chars: Seq<char>) -> Seq<u8> {
    encode_utf8(chars)
}

/// `b` with the bytes `start..end` replaced by `ins`.
pub open spec fn splice(b: Seq<u8>, start: int, end: int, ins: Seq<u8>) -> Seq<u8> {
    b.subrange(0, start) + ins + b.subrange(end, b.len() as int)
}

/// `i` is a character boundary of the UTF-8 encoding of `chars`: 0, the
/// length in bytes, or the first byte of a character.
pub open spec fn boundary(chars: Seq<char>, i: int) -> bool {
    is_char_boundary(utf8(chars), i)
}

/// A character sequence is empty exactly when its encoding is.
pub proof fn lemma_utf8_empty(chars: Seq<char>)
    ensures
        (utf8(chars).len() == 0) == (chars.len() == 0),
{
    if chars.len() > 0 {
        encode_utf8_first_scalar(chars);
        assert(utf8(chars) == encode_scalar(chars[0] as u32) + encode_utf8(chars.drop_first()));
    }
}

/// 0 and the length in bytes are boundaries, and a boundary lies within
/// the bytes.
pub proof fn lemma_boundary_ends(chars: Seq<char>)
    ensures
        boundary(chars, 0),
        boundary(chars, utf8(chars).len() as int),
        forall|i: int| #[trigger] boundary(chars, i) ==> 0 <= i <= utf8(chars).len(),
{
    let b = utf8(chars);
    assert(valid_utf8(b));
    assert forall|i: int| #[trigger] boundary(chars, i) implies 0 <= i <= b.len() by {
        if i != 0 {
            reveal_with_fuel(is_char_boundary, 1);
        }
    }
}

/// Replacing the bytes between two boundaries by a valid encoding yields a
/// valid encoding, whose boundaries include both ends of the inserted bytes.
pub proof fn lemma_splice(b: Seq<u8>, s: int, e: int, ins: Seq<u8>)
    requires
        valid_utf8(b),
        valid_utf8(ins),
        0 <= s <= e <= b.len(),
        is_char_boundary(b, s),
        is_char_boundary(b, e),
    ensures
        valid_utf8(splice(b, s, e, ins)),
        splice(b, s, e, ins).len() == b.len() - (e - s) + ins.len(),
        is_char_boundary(splice(b, s, e, ins), s),
        is_char_boundary(splice(b, s, e, ins), s + ins.len()),
{
    let pre = b.subrange(0, s);
    let post = b.subrange(e, b.len() as int);
    let n = splice(b, s, e, ins);
    assert(valid_utf8(pre));
    assert(valid_utf8(post));
    assert(valid_utf8(pre + ins));
    assert(n == (pre + ins) + post);
    assert(valid_utf8(n));
    assert(is_char_boundary(n, 0));
    assert(is_char_boundary(n, n.len() as int));
    if s < n.len() {
        if ins.len() > 0 {
            assert(is_char_boundary(ins, 0));
            assert(!is_continuation_byte(ins[0]));
            assert(n[s] == ins[0]);
        } else {
            assert(e < b.len());
            assert(!is_continuation_byte(b[e]));
            assert(n[s] == b[e]);
        }
        assert(is_char_boundary(n, s));
    }
    let t = s + ins.len();
    if t < n.len() {
        assert(e < b.len());
        assert(!is_continuation_byte(b[e]));
        assert(n[t] == b[e]);
        assert(is_char_boundary(n, t));
    }
}

/// `String::insert`: puts the character `c` at byte `idx` of the string.
#[verifier::external_body]
pub(crate) fn string_insert(s: &mut String, idx: usize, c: char)
    requires
        boundary(old(s)@, idx as int),
    ensures
        utf8(final(s)@) == splice(utf8(old(s)@), idx as int, idx as int, utf8(seq![c])),
{
    s.insert(idx, c)
}

/// `String::insert_str`: puts the bytes of `ins` at byte `idx` of the
/// string.
#[verifier::external_body]
pub(crate) fn string_insert_str(s: &mut String, idx: usize, ins: &str)
    requires
        boundary(old(s)@, idx as int),
    ensures
        utf8(final(s)@) == splice(utf8(old(s)@), idx as int, idx as int, utf8(ins@)),
{
    s.insert_str(idx, ins)
}

/// `String::drain`: removes the bytes `start..end` of the string, both of
/// them character boundaries; the drained characters are dropped.
#[verifier::external_body]
pub(crate) fn string_drain(s: &mut String, start: usize, end: usize)
    requires
        start <= end,
        boundary(old(s)@, start as int),
        boundary(old(s)@, end as int),
    ensures
        utf8(final(s)@) == splice(utf8(old(s)@), start as int, end as int, Seq::empty()),
{
    s.drain(start..end);
}

/// `String::push`: appends one character.
#[verifier::external_body]
pub(crate) fn string_push(s: &mut String, c: char)
    ensures
        final(s)@ == old(s)@.push(c),
{
    s.push(c)
}

/// The number of bytes of the UTF-8 encoding of `c`.
pub(crate) fn char_len_utf8(c: char) -> (r: usize)
    ensures
        r == utf8(seq![c]).len(),
{
    let v = c as u32;
    proof {
        assert(seq![c].drop_first() =~= Seq::<char>::empty());
        assert(seq![c][0] == c);
        assert(encode_utf8(seq![c]) == encode_scalar(v) + encode_utf8(Seq::<char>::empty()));
    }
    if v <= 0x7F {
        1
    } else if v <= 0x7FF {
        2
    } else if v <= 0xFFFF {
        3
    } else {
        4
    }
}

} // verus!

verus! {

/// Byte offsets at which the grapheme clusters of `text` start, in order:
/// extended clusters when `extended`, legacy clusters otherwise.
pub uninterp spec fn grapheme_starts(text: Seq<char>, extended: bool) -> Seq<usize>;

/// Byte offsets at which the pieces of `text` between two word boundaries
/// (Unicode Standard Annex #29) start, in order.
pub uninterp spec fn word_starts(text: Seq<char>) -> Seq<usize>;

/// `x`, lowered to `bound` when it exceeds it.
pub open spec fn at_most(x: int, bound: int) -> int {
    if x < bound { x } else { bound }
}

/// The values strictly increase along the sequence.
pub open spec fn increasing(s: Seq<usize>) -> bool {
    forall|i: int, j: int| 0 <= i < j < s.len() ==> s[i] < s[j]
}

/// `starts` are the start offsets of a cut of `text` into consecutive
/// non-empty pieces made of whole characters: none for an empty text,
/// otherwise an increasing list of character boundaries that begins at 0.
pub open spec fn segmentation(text: Seq<char>, starts: Seq<usize>) -> bool {
    &&& (starts.len() == 0) == (text.len() == 0)
    &&& starts.len() > 0 ==> starts[0] == 0
    &&& increasing(starts)
    &&& forall|i: int|
        0 <= i < starts.len() ==> #[trigger] starts[i] < utf8(text).len() && boundary(text, starts[i] as int)
}

/// `UnicodeSegmentation::grapheme_indices`: the start offsets of the
/// grapheme clusters of `text`. The crate yields the clusters as
/// consecutive non-empty slices of the text whose concatenation is the
/// text, which is what `segmentation` states of their offsets.
#[verifier::external_body]
pub(crate) fn grapheme_indices(text: &str, extended: bool) -> (r: Vec<usize>)
    ensures
        r@ == grapheme_starts(text@, extended),
        segmentation(text@, r@),
{
    text.grapheme_indices(extended).map(|(i, _)| i).collect()
}

/// `UnicodeSegmentation::split_word_bound_indices`: the start offsets of the
/// pieces of `text` between word boundaries. The crate documents that the
/// pieces concatenate to the text; they are non-empty slices of it.
#[verifier::external_body]
pub(crate) fn split_word_bound_indices(text: &str) -> (r: Vec<usize>)
    ensures
        r@ == word_starts(text@),
        segmentation(text@, r@),
{
    text.split_word_bound_indices().map(|(i, _)| i).collect()
}

/// The length of `text` in bytes.
pub fn byte_len(text: &str) -> (r: usize)
    ensures
        r == utf8(text@).len(),
{
    text.as_bytes().len()
}

/// `r` is the last start before `at`, or 0 when no start is before `at`.
pub open spec fn is_prev_start(starts: Seq<usize>, at: int, r: int) -> bool {
    &&& (r == 0 || (r < at && exists|k: int| 0 <= k < starts.len() && starts[k] == r))
    &&& forall|i: int| 0 <= i < starts.len() && #[trigger] starts[i] < at ==> starts[i] <= r
}

/// `r` is the first start after `at`, or `end` when no start is after `at`.
pub open spec fn is_next_start(starts: Seq<usize>, at: int, end: int, r: int) -> bool {
    &&& (r == end || (r > at && exists|k: int| 0 <= k < starts.len() && starts[k] == r))
    &&& forall|i: int| 0 <= i < starts.len() && #[trigger] starts[i] > at ==> r <= starts[i]
}

/// The last of the increasing `starts` that lies before `at`, or 0.
pub fn prev_start_before(starts: &[usize], at: usize) -> (r: usize)
    requires
        increasing(starts@),
    ensures
        is_prev_start(starts@, at as int, r as int),
{
    let mut prev: usize = 0;
    let mut i: usize = 0;
    while i < starts.len()
        invariant_except_break
            0 <= i <= starts@.len(),
            forall|k: int| 0 <= k < i ==> #[trigger] starts@[k] < at,
            i == 0 ==> prev == 0,
            i > 0 ==> prev == starts@[i - 1],
        ensures
            0 <= i <= starts@.len(),
            forall|k: int| 0 <= k < i ==> #[trigger] starts@[k] < at,
            i < starts@.len() ==> starts@[i as int] >= at,
            i == 0 ==> prev == 0,
            i > 0 ==> prev == starts@[i - 1],
        decreases starts@.len() - i,
    {
        if starts[i] >= at {
            break;
        }
        prev = starts[i];
        i += 1;
    }
    proof {
        if i > 0 {
            assert(starts@[i - 1] == prev);
        }
        assert forall|k: int| 0 <= k < starts@.len() && #[trigger] starts@[k] < at implies starts@[k] <= prev by {
            if k >= i {
                assert(starts@[i as int] >= at);
                if k > i {
                    assert(starts@[i as int] < starts@[k]);
                }
            } else if k < i - 1 {
                assert(starts@[k] < starts@[i - 1]);
            }
        }
    }
    prev
}

/// The first of the increasing `starts` that lies after `at`, or `end`.
pub fn next_start_after(starts: &[usize], at: usize, end: usize) -> (r: usize)
    requires
        increasing(starts@),
    ensures
        is_next_start(starts@, at as int, end as int, r as int),
{
    let mut i: usize = 0;
    while i < starts.len()
        invariant
            increasing(starts@),
            0 <= i <= starts@.len(),
            forall|k: int| 0 <= k < i ==> #[trigger] starts@[k] <= at,
        decreases starts@.len() - i,
    {
        if starts[i] > at {
            proof {
                assert forall|k: int| 0 <= k < starts@.len() && #[trigger] starts@[k] > at implies starts@[i as int] <= starts@[k] by {
                    if k < i {
                    } else if k > i {
                        assert(starts@[i as int] < starts@[k]);
                    }
                }
            }
            return starts[i];
        }
        i += 1;
    }
    end
}

/// The grapheme-cluster boundary before byte `offset` of `text` (taken at
/// most the length of the text): the last cluster start before it, or 0.
pub fn prev_grapheme_boundary(text: &str, offset: usize) -> (r: usize)
    ensures
        is_prev_start(grapheme_starts(text@, true), at_most(offset as int, utf8(text@).len() as int), r as int),
        segmentation(text@, grapheme_starts(text@, true)),
        boundary(text@, r as int),
        r <= at_most(offset as int, utf8(text@).len() as int),
        0 < offset && 0 < text@.len() ==> r < at_most(offset as int, utf8(text@).len() as int),
{
    let len = byte_len(text);
    let clamped = if offset < len { offset } else { len };
    let starts = grapheme_indices(text, true);
    let r = prev_start_before(starts.as_slice(), clamped);
    proof {
        lemma_boundary_ends(text@);
        lemma_utf8_empty(text@);
        if r != 0 {
            let k = choose|k: int| 0 <= k < starts@.len() && starts@[k] == r;
        }
    }
    r
}

/// The grapheme-cluster boundary after byte `offset` of `text` (taken at
/// most the length of the text): the first cluster start after it, or the
/// length of the text.
pub fn next_grapheme_boundary(text: &str, offset: usize) -> (r: usize)
    ensures
        is_next_start(grapheme_starts(text@, true), at_most(offset as int, utf8(text@).len() as int), utf8(text@).len() as int, r as int),
        segmentation(text@, grapheme_starts(text@, true)),
        boundary(text@, r as int),
        at_most(offset as int, utf8(text@).len() as int) <= r <= utf8(text@).len(),
        offset < utf8(text@).len() ==> offset < r,
{
    let len = byte_len(text);
    let clamped = if offset < len { offset } else { len };
    let starts = grapheme_indices(text, true);
    let r = next_start_after(starts.as_slice(), clamped, len);
    proof {
        lemma_boundary_ends(text@);
        if r != len {
            let k = choose|k: int| 0 <= k < starts@.len() && starts@[k] == r;
        }
    }
    r
}

/// The word boundary before byte `offset` of `text` (taken at most the
/// length of the text): the last word-piece start before it, or 0.
pub fn prev_word_boundary(text: &str, offset: usize) -> (r: usize)
    ensures
        is_prev_start(word_starts(text@), at_most(offset as int, utf8(text@).len() as int), r as int),
        segmentation(text@, word_starts(text@)),
        boundary(text@, r as int),
        r <= at_most(offset as int, utf8(text@).len() as int),
        0 < offset && 0 < text@.len() ==> r < at_most(offset as int, utf8(text@).len() as int),
{
    let len = byte_len(text);
    let clamped = if offset < len { offset } else { len };
    let starts = split_word_bound_indices(text);
    let r = prev_start_before(starts.as_slice(), clamped);
    proof {
        lemma_boundary_ends(text@);
        lemma_utf8_empty(text@);
        if r != 0 {
            let k = choose|k: int| 0 <= k < starts@.len() && starts@[k] == r;
        }
    }
    r
}

/// The word boundary after byte `offset` of `text` (taken at most the
/// length of the text): the first word-piece start after it, or the length
/// of the text.
pub fn next_word_boundary(text: &str, offset: usize) -> (r: usize)
    ensures
        is_next_start(word_starts(text@), at_most(offset as int, utf8(text@).len() as int), utf8(text@).len() as int, r as int),
        segmentation(text@, word_starts(text@)),
        boundary(text@, r as int),
        at_most(offset as int, utf8(text@).len() as int) <= r <= utf8(text@).len(),
        offset < utf8(text@).len() ==> offset < r,
{
    let len = byte_len(text);
    let clamped = if offset < len { offset } else { len };
    let starts = split_word_bound_indices(text);
    let r = next_start_after(starts.as_slice(), clamped, len);
    proof {
        lemma_boundary_ends(text@);
        if r != len {
            let k = choose|k: int| 0 <= k < starts@.len() && starts@[k] == r;
        }
    }
    r
}

} // verus!

verus! {

/// A boundary before the end of a prefix cut at a boundary is a boundary of
/// the prefix.
proof fn lemma_prefix_boundary(b: Seq<u8>, e: int, a: int)
    requires
        valid_utf8(b),
        is_char_boundary(b, e),
        is_char_boundary(b, a),
        0 <= a <= e <= b.len(),
    ensures
        valid_utf8(b.subrange(0, e)),
        is_char_boundary(b.subrange(0, e), a),
{
    let p = b.subrange(0, e);
    assert(valid_utf8(p));
    assert(is_char_boundary(p, p.len() as int));
    if a < e {
        assert(a < b.len());
        assert(!is_continuation_byte(b[a]));
        assert(p[a] == b[a]);
    }
}

/// The characters of `text` between the byte boundaries `a` and `b`.
pub fn substring(text: &str, a: usize, b: usize) -> (r: String)
    requires
        a <= b,
        boundary(text@, a as int),
        boundary(text@, b as int),
    ensures
        utf8(r@) == utf8(text@).subrange(a as int, b as int),
{
    proof {
        lemma_boundary_ends(text@);
        lemma_prefix_boundary(utf8(text@), b as int, a as int);
    }
    let (pre, _) = text.split_at(b);
    let (_, mid) = pre.split_at(a);
    proof {
        assert(utf8(mid@) =~= utf8(text@).subrange(a as int, b as int));
    }
    mid.to_owned()
}

} // verus!
