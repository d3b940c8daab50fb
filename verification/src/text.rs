//! Texts as byte sequences: the model over which substitution is stated,
//! and the few string operations of the standard library it rests on.

use vstd::prelude::*;
use vstd::utf8::*;

verus! {

/// The bytes of a text, in the encoding in which `str` and `String` hold it.
pub open spec fn bytes(s: Seq<char>) -> Seq<u8> {
    encode_utf8(s)
}

/// The byte sequences of a list of texts, in order.
pub open spec fn bytes_of_all(items: Seq<&str>) -> Seq<Seq<u8>> {
    Seq::new(items.len(), |i: int| bytes(items[i]@))
}

/// `pat` occurs in `hay` at byte index `at`.
pub open spec fn matches_at(hay: Seq<u8>, pat: Seq<u8>, at: int) -> bool {
    0 <= at && at + pat.len() <= hay.len() && hay.subrange(at, at + pat.len()) == pat
}

/// `at` is the least byte index at which `pat` occurs in `hay`.
pub open spec fn first_match(hay: Seq<u8>, pat: Seq<u8>, at: int) -> bool {
    matches_at(hay, pat, at) && forall|j: int| 0 <= j < at ==> !matches_at(hay, pat, j)
}

/// Two texts with the same bytes are the same text.
pub proof fn lemma_bytes_injective(a: Seq<char>, b: Seq<char>)
    requires
        bytes(a) == bytes(b),
    ensures
        a == b,
{
    encode_utf8_decode_utf8(a);
    encode_utf8_decode_utf8(b);
}

/// In a text, a byte index is a character boundary exactly when it is the
/// end of the text or the byte there does not continue a character.
pub proof fn lemma_boundary_by_byte(b: Seq<u8>, at: int)
    requires
        valid_utf8(b),
        0 <= at <= b.len(),
    ensures
        is_char_boundary(b, at) <==> (at == b.len() || !is_continuation_byte(b[at])),
{
    if at == b.len() {
        is_char_boundary_start_end_of_seq(b);
    } else {
        is_char_boundary_iff_not_is_continuation_byte(b, at);
    }
}

/// The bytes of two texts joined are the bytes of the first followed by
/// those of the second.
pub proof fn lemma_bytes_concat(a: Seq<char>, b: Seq<char>)
    ensures
        bytes(a + b) == bytes(a) + bytes(b),
{
    let ba = bytes(a);
    let bb = bytes(b);
    encode_utf8_valid_utf8(a);
    encode_utf8_valid_utf8(b);
    valid_utf8_concat(ba, bb);
    let all = ba + bb;
    lemma_boundary_by_byte(bb, 0);
    lemma_boundary_by_byte(all, ba.len() as int);
    assert(is_char_boundary(bb, 0));
    if bb.len() > 0 {
        assert(all[ba.len() as int] == bb[0]);
    }
    assert(is_char_boundary(all, ba.len() as int));
    decode_utf8_split(all, ba.len() as int);
    assert(all.subrange(0, ba.len() as int) =~= ba);
    assert(all.subrange(ba.len() as int, all.len() as int) =~= bb);
    encode_utf8_decode_utf8(a);
    encode_utf8_decode_utf8(b);
    assert(decode_utf8(all) == a + b);
    decode_utf8_encode_utf8(all);
}

/// The number of bytes of a text.
pub fn byte_len(s: &str) -> (n: usize)
    ensures
        n == bytes(s@).len(),
{
    s.as_bytes().len()
}

/// Whether two texts are the same, byte for byte.
pub fn same_text(a: &str, b: &str) -> (r: bool)
    ensures
        r == (a@ == b@),
{
    let x = a.as_bytes();
    let y = b.as_bytes();
    if x.len() != y.len() {
        return false;
    }
    let mut i: usize = 0;
    while i < x.len()
        invariant
            x@ == bytes(a@),
            y@ == bytes(b@),
            x@.len() == y@.len(),
            i <= x@.len(),
            forall|j: int| 0 <= j < i ==> x@[j] == y@[j],
        decreases x@.len() - i,
    {
        if x[i] != y[i] {
            return false;
        }
        i = i + 1;
    }
    proof {
        assert(x@ =~= y@);
        lemma_bytes_injective(a@, b@);
    }
    true
}

/// A text that begins another text ends between two characters of it.
pub proof fn lemma_prefix_ends_on_boundary(s: Seq<u8>, p: Seq<u8>)
    requires
        valid_utf8(s),
        valid_utf8(p),
        p.len() <= s.len(),
        s.subrange(0, p.len() as int) == p,
    ensures
        is_char_boundary(s, p.len() as int),
    decreases p.len(),
{
    if p.len() > 0 {
        assert(s.subrange(0, p.len() as int)[0] == s[0]);
        let ps = pop_first_scalar(p);
        let ss = pop_first_scalar(s);
        assert(ss.subrange(0, ps.len() as int) =~= ps);
        lemma_prefix_ends_on_boundary(ss, ps);
    }
}

/// Where one text occurs in another, it begins and ends between two
/// characters of the other.
pub proof fn lemma_match_boundaries(hay: Seq<u8>, pat: Seq<u8>, at: int)
    requires
        valid_utf8(hay),
        valid_utf8(pat),
        pat.len() > 0,
        matches_at(hay, pat, at),
    ensures
        is_char_boundary(hay, at),
        is_char_boundary(hay, at + pat.len()),
{
    assert(hay.subrange(at, at + pat.len())[0] == hay[at]);
    lemma_boundary_by_byte(pat, 0);
    lemma_boundary_by_byte(hay, at);
    valid_utf8_split(hay, at);
    let tail = hay.subrange(at, hay.len() as int);
    assert(tail.subrange(0, pat.len() as int) =~= hay.subrange(at, at + pat.len()));
    lemma_prefix_ends_on_boundary(tail, pat);
    lemma_boundary_by_byte(tail, pat.len() as int);
    lemma_boundary_by_byte(hay, at + pat.len());
    if at + pat.len() < hay.len() {
        assert(tail[pat.len() as int] == hay[at + pat.len()]);
    }
}

/// `str::find` with a text as the pattern: the byte index at which the
/// pattern first occurs, if it occurs at all.
#[verifier::external_body]
pub(crate) fn find_str(hay: &str, pat: &str) -> (r: Option<usize>)
    ensures
        match r {
            Some(at) => first_match(bytes(hay@), bytes(pat@), at as int),
            None => forall|j: int| !matches_at(bytes(hay@), bytes(pat@), j),
        },
{
    hay.find(pat)
}

/// `String::insert_str`: puts `piece` into `s` at byte index `at`, which
/// must lie between two characters of `s`; what stood there moves back.
#[verifier::external_body]
pub(crate) fn insert_at(s: &mut String, at: usize, piece: &str)
    requires
        at <= bytes(old(s)@).len(),
        is_char_boundary(bytes(old(s)@), at as int),
    ensures
        bytes(final(s)@) == bytes(old(s)@).subrange(0, at as int) + bytes(piece@) + bytes(
            old(s)@,
        ).subrange(at as int, bytes(old(s)@).len() as int),
{
    s.insert_str(at, piece)
}

} // verus!
