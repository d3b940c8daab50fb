//! One word of the command, compiled against the substitution pattern.

use vstd::prelude::*;
use vstd::utf8::*;
use vstd::string::*;
use crate::text::{bytes, bytes_of_all, matches_at, first_match, byte_len, find_str, insert_at,
    lemma_bytes_concat, lemma_boundary_by_byte, lemma_match_boundaries};

verus! {

/// A word of the command that is not the pattern itself: either emitted as
/// it is, or a base text with the places where input values are spliced in.
#[derive(Debug, PartialEq, Eq)]
pub enum Template {
    Static(String),
    Interp { offsets: Vec<usize>, base: String },
}

/// Every number of `s` raised by `by`.
pub open spec fn shift(s: Seq<int>, by: int) -> Seq<int> {
    Seq::new(s.len(), |i: int| s[i] + by)
}

/// `hay` without the occurrences of `pat`, found from the left and not
/// overlapping.
pub open spec fn strip(hay: Seq<u8>, pat: Seq<u8>) -> Seq<u8>
    decreases hay.len(),
{
    if pat.len() == 0 || hay.len() < pat.len() {
        hay
    } else if hay.subrange(0, pat.len() as int) == pat {
        strip(hay.subrange(pat.len() as int, hay.len() as int), pat)
    } else {
        seq![hay[0]] + strip(hay.subrange(1, hay.len() as int), pat)
    }
}

/// For each occurrence of `pat` that `strip` removes from `hay`, in order,
/// the byte index in `strip(hay, pat)` at which it stood.
pub open spec fn marks(hay: Seq<u8>, pat: Seq<u8>) -> Seq<int>
    decreases hay.len(),
{
    if pat.len() == 0 || hay.len() < pat.len() {
        seq![]
    } else if hay.subrange(0, pat.len() as int) == pat {
        seq![0int] + marks(hay.subrange(pat.len() as int, hay.len() as int), pat)
    } else {
        shift(marks(hay.subrange(1, hay.len() as int), pat), 1)
    }
}

/// The total length of the first `k` values of `inputs`.
pub open spec fn inserted(inputs: Seq<Seq<u8>>, k: nat) -> int
    decreases k,
{
    if k == 0 {
        0
    } else {
        inserted(inputs, (k - 1) as nat) + inputs[k - 1].len()
    }
}

/// `base` after the first `k` values of `inputs` were put in, one after
/// another: value `i` at mark `i` moved back by what was put in before it.
pub open spec fn splice(base: Seq<u8>, at: Seq<int>, inputs: Seq<Seq<u8>>, k: nat) -> Seq<u8>
    decreases k,
{
    if k == 0 {
        base
    } else {
        let before = splice(base, at, inputs, (k - 1) as nat);
        let pos = at[k - 1] + inserted(inputs, (k - 1) as nat);
        before.subrange(0, pos) + inputs[k - 1] + before.subrange(pos, before.len() as int)
    }
}

/// Up to the first occurrence nothing is removed; after it the rest is
/// stripped on its own.
pub proof fn lemma_strip_at_first(hay: Seq<u8>, pat: Seq<u8>, at: int)
    requires
        pat.len() > 0,
        first_match(hay, pat, at),
    ensures
        strip(hay, pat) == hay.subrange(0, at) + strip(
            hay.subrange(at + pat.len(), hay.len() as int),
            pat,
        ),
        marks(hay, pat) == seq![at] + shift(
            marks(hay.subrange(at + pat.len(), hay.len() as int), pat),
            at,
        ),
    decreases at,
{
    let m = pat.len() as int;
    let rest = hay.subrange(at + m, hay.len() as int);
    if at == 0 {
        assert(hay.subrange(0, 0) + strip(rest, pat) =~= strip(rest, pat));
        assert(shift(marks(rest, pat), 0) =~= marks(rest, pat));
    } else {
        assert(!matches_at(hay, pat, 0));
        let tail = hay.subrange(1, hay.len() as int);
        assert(tail.subrange(at - 1, at - 1 + m) =~= hay.subrange(at, at + m));
        assert forall|j: int| 0 <= j < at - 1 implies !matches_at(tail, pat, j) by {
            assert(!matches_at(hay, pat, j + 1));
            if j + m <= tail.len() {
                assert(tail.subrange(j, j + m) =~= hay.subrange(j + 1, j + 1 + m));
            }
        }
        lemma_strip_at_first(tail, pat, at - 1);
        assert(tail.subrange(at - 1 + m, tail.len() as int) =~= rest);
        assert(seq![hay[0]] + (tail.subrange(0, at - 1) + strip(rest, pat)) =~= hay.subrange(0, at)
            + strip(rest, pat));
        assert(shift(seq![at - 1] + shift(marks(rest, pat), at - 1), 1) =~= seq![at] + shift(
            marks(rest, pat),
            at,
        ));
    }
}

/// Where the pattern does not occur, nothing is removed.
pub proof fn lemma_strip_none(hay: Seq<u8>, pat: Seq<u8>)
    requires
        forall|j: int| !matches_at(hay, pat, j),
    ensures
        strip(hay, pat) == hay,
        marks(hay, pat) == Seq::<int>::empty(),
    decreases hay.len(),
{
    if pat.len() == 0 || hay.len() < pat.len() {
        if pat.len() == 0 {
            assert(hay.subrange(0, 0) =~= pat);
            assert(matches_at(hay, pat, 0));
        }
    } else {
        let m = pat.len() as int;
        assert(!matches_at(hay, pat, 0));
        let tail = hay.subrange(1, hay.len() as int);
        assert forall|j: int| !matches_at(tail, pat, j) by {
            assert(!matches_at(hay, pat, j + 1));
            if 0 <= j && j + m <= tail.len() {
                assert(tail.subrange(j, j + m) =~= hay.subrange(j + 1, j + 1 + m));
            }
        }
        lemma_strip_none(tail, pat);
        assert(seq![hay[0]] + tail =~= hay);
        assert(shift(Seq::<int>::empty(), 1) =~= Seq::<int>::empty());
    }
}

/// What is left and what was removed make up the whole: the stripped text
/// is shorter than the text by one pattern length for each mark.
pub proof fn lemma_strip_length(hay: Seq<u8>, pat: Seq<u8>)
    requires
        pat.len() > 0,
    ensures
        strip(hay, pat).len() + marks(hay, pat).len() * pat.len() == hay.len(),
    decreases hay.len(),
{
    let m = pat.len() as int;
    if hay.len() < pat.len() {
    } else if hay.subrange(0, m) == pat {
        let rest = hay.subrange(m, hay.len() as int);
        lemma_strip_length(rest, pat);
        let c = marks(rest, pat).len() as int;
        assert((1 + c) * m == m + c * m) by (nonlinear_arith);
    } else {
        lemma_strip_length(hay.subrange(1, hay.len() as int), pat);
    }
}

/// Each mark counts the bytes that are left before its occurrence: in the
/// text itself, occurrence `i` stands at its mark moved back by the `i`
/// occurrences removed before it. The marks do not decrease and lie within
/// the stripped text.
pub proof fn lemma_mark_is_occurrence(hay: Seq<u8>, pat: Seq<u8>, i: int)
    requires
        pat.len() > 0,
        0 <= i < marks(hay, pat).len(),
    ensures
        matches_at(hay, pat, marks(hay, pat)[i] + i * pat.len()),
        0 <= marks(hay, pat)[i] <= strip(hay, pat).len(),
        i > 0 ==> marks(hay, pat)[i - 1] <= marks(hay, pat)[i],
    decreases hay.len(),
{
    let m = pat.len() as int;
    if hay.len() < pat.len() {
    } else if hay.subrange(0, m) == pat {
        let rest = hay.subrange(m, hay.len() as int);
        if i > 0 {
            lemma_mark_is_occurrence(rest, pat, i - 1);
            let at = marks(rest, pat)[i - 1] + (i - 1) * m;
            assert(i * m == (i - 1) * m + m) by (nonlinear_arith);
            assert(hay.subrange(at + m, at + m + m) =~= rest.subrange(at, at + m));
        } else {
            assert(0 * m == 0);
        }
    } else {
        let tail = hay.subrange(1, hay.len() as int);
        lemma_mark_is_occurrence(tail, pat, i);
        let at = marks(tail, pat)[i] + i * m;
        assert(hay.subrange(at + 1, at + 1 + m) =~= tail.subrange(at, at + m));
    }
}

/// A text in which the pattern occurs has a mark.
pub proof fn lemma_occurrence_gives_mark(hay: Seq<u8>, pat: Seq<u8>, at: int)
    requires
        pat.len() > 0,
        matches_at(hay, pat, at),
    ensures
        marks(hay, pat).len() > 0,
    decreases hay.len(),
{
    let m = pat.len() as int;
    if hay.subrange(0, m) == pat {
    } else {
        let tail = hay.subrange(1, hay.len() as int);
        assert(tail.subrange(at - 1, at - 1 + m) =~= hay.subrange(at, at + m));
        lemma_occurrence_gives_mark(tail, pat, at - 1);
    }
}

/// A text that has a character has a byte.
pub proof fn lemma_bytes_nonempty(s: Seq<char>)
    requires
        s.len() > 0,
    ensures
        bytes(s).len() > 0,
{
    encode_utf8_decode_utf8(s);
    if bytes(s).len() == 0 {
        assert(decode_utf8(bytes(s)).len() == 0);
    }
}

impl Template {
    /// The text into which values are put: the word itself where it holds
    /// no pattern.
    pub open spec fn base_bytes(&self) -> Seq<u8> {
        match self {
            Template::Static(s) => bytes(s@),
            Template::Interp { base, .. } => bytes(base@),
        }
    }

    /// The byte indices in the base at which values are put, in order.
    pub open spec fn marks(&self) -> Seq<int> {
        match self {
            Template::Static(_) => Seq::<int>::empty(),
            Template::Interp { offsets, .. } => Seq::new(offsets@.len(), |i: int| offsets@[i] as int),
        }
    }

    /// An interpolated word has at least one mark; its marks do not
    /// decrease, and each lies between two characters of the base.
    pub open spec fn wf(&self) -> bool {
        match self {
            Template::Static(_) => true,
            Template::Interp { offsets, base } => {
                &&& offsets@.len() > 0
                &&& forall|i: int, j: int| 0 <= i <= j < offsets@.len() ==> offsets@[i] <= offsets@[j]
                &&& forall|i: int|
                    0 <= i < offsets@.len() ==> offsets@[i] <= bytes(base@).len()
                        && is_char_boundary(bytes(base@), #[trigger] offsets@[i] as int)
            },
        }
    }

    /// How many values this word takes: its number of marks.
    pub open spec fn slots(&self) -> nat {
        self.marks().len()
    }

    /// How many of `avail` values this word uses up.
    pub open spec fn takes(&self, avail: nat) -> nat {
        if self.slots() <= avail {
            self.slots()
        } else {
            avail
        }
    }

    /// The word with the values of `inputs` put in, as far as they reach.
    pub open spec fn fill(&self, inputs: Seq<Seq<u8>>) -> Seq<u8> {
        splice(self.base_bytes(), self.marks(), inputs, self.takes(inputs.len()))
    }

    /// Compiles one word against the pattern. A word without the pattern
    /// stays as it is; otherwise every occurrence is removed and its place
    /// recorded.
    pub fn new(pattern: &str, s: String) -> (t: Template)
        requires
            pattern@.len() > 0,
        ensures
            t.wf(),
            t.base_bytes() == strip(bytes(s@), bytes(pattern@)),
            t.marks() == marks(bytes(s@), bytes(pattern@)),
            (t is Static) <==> marks(bytes(s@), bytes(pattern@)).len() == 0,
            (t is Static) <==> forall|j: int| !matches_at(bytes(s@), bytes(pattern@), j),
            t is Static ==> t == Template::Static(s),
    {
        let ghost sb = bytes(s@);
        let ghost pb = bytes(pattern@);
        proof {
            lemma_bytes_nonempty(pattern@);
            encode_utf8_valid_utf8(s@);
        }
        let found = find_str(s.as_str(), pattern);
        match found {
            None => {
                proof {
                    lemma_strip_none(sb, pb);
                }
                Template::Static(s)
            },
            Some(idx) => {
                proof {
                    lemma_occurrence_gives_mark(sb, pb, idx as int);
                    encode_utf8_valid_utf8(pattern@);
                    lemma_match_boundaries(sb, pb, idx as int);
                }
                let plen = byte_len(pattern);
                let total = byte_len(s.as_str());
                let mut offsets: Vec<usize> = Vec::new();
                offsets.push(idx);
                let mut base = String::new();
                let (head, tail) = s.as_str().split_at(idx);
                proof {
                    lemma_tail_boundary(sb, idx as int, idx + plen);
                    lemma_strip_at_first(sb, pb, idx as int);
                    lemma_bytes_concat(base@, head@);
                    assert(bytes(base@).len() == 0) by {
                        assert(base@ + base@ =~= base@);
                        lemma_bytes_concat(base@, base@);
                    }
                    encode_utf8_valid_utf8(head@);
                }
                base.append(head);
                let (_, after) = tail.split_at(plen);
                let mut rest = after;
                let mut prev: usize = idx;
                proof {
                    assert(bytes(rest@) =~= sb.subrange(idx + plen, sb.len() as int));
                    assert(bytes(base@) =~= sb.subrange(0, idx as int));
                    assert(offsets@.map_values(|o: usize| o as int) =~= seq![idx as int]);
                    assert(seq![idx as int] + shift(marks(bytes(rest@), pb), idx as int)
                        =~= offsets@.map_values(|o: usize| o as int) + shift(
                        marks(bytes(rest@), pb),
                        prev as int,
                    ));
                }
                loop
                    invariant
                        pb == bytes(pattern@),
                        sb == bytes(s@),
                        pb.len() > 0,
                        plen == pb.len(),
                        prev == bytes(base@).len(),
                        prev + bytes(rest@).len() <= sb.len(),
                        sb.len() == total,
                        strip(sb, pb) == bytes(base@) + strip(bytes(rest@), pb),
                        marks(sb, pb) == offsets@.map_values(|o: usize| o as int) + shift(
                            marks(bytes(rest@), pb),
                            prev as int,
                        ),
                        offsets@.len() > 0,
                        forall|i: int, j: int|
                            0 <= i <= j < offsets@.len() ==> offsets@[i] <= offsets@[j],
                        forall|i: int|
                            0 <= i < offsets@.len() ==> (#[trigger] offsets@[i]) <= prev && (
                            offsets@[i] < prev ==> !is_continuation_byte(
                                bytes(base@)[offsets@[i] as int],
                            )),
                    ensures
                        strip(bytes(rest@), pb) == bytes(rest@),
                        marks(bytes(rest@), pb) == Seq::<int>::empty(),
                    decreases bytes(rest@).len(),
                {
                    let ghost rb = bytes(rest@);
                    let ghost bb = bytes(base@);
                    let ghost offs = offsets@.map_values(|o: usize| o as int);
                    proof {
                        encode_utf8_valid_utf8(rest@);
                    }
                    match find_str(rest, pattern) {
                        None => {
                            proof {
                                lemma_strip_none(rb, pb);
                            }
                            break ;
                        },
                        Some(i) => {
                            proof {
                                encode_utf8_valid_utf8(pattern@);
                                lemma_match_boundaries(rb, pb, i as int);
                                lemma_strip_at_first(rb, pb, i as int);
                                lemma_tail_boundary(rb, i as int, i + plen);
                            }
                            offsets.push(i + prev);
                            let (h, t) = rest.split_at(i);
                            proof {
                                lemma_bytes_concat(base@, h@);
                                encode_utf8_valid_utf8(h@);
                                lemma_boundary_by_byte(bytes(h@), 0);
                                is_char_boundary_start_end_of_seq(bytes(h@));
                            }
                            base.append(h);
                            let (_, r2) = t.split_at(plen);
                            rest = r2;
                            prev = prev + i;
                            proof {
                                let nb = bytes(base@);
                                let nr = bytes(rest@);
                                assert(nr =~= rb.subrange(i + plen, rb.len() as int));
                                assert(nb =~= bb + rb.subrange(0, i as int));
                                assert(bb + (rb.subrange(0, i as int) + strip(nr, pb)) =~= nb + strip(
                                    nr,
                                    pb,
                                ));
                                assert(offs + shift(
                                    seq![i as int] + shift(marks(nr, pb), i as int),
                                    bb.len() as int,
                                ) =~= offsets@.map_values(|o: usize| o as int) + shift(
                                    marks(nr, pb),
                                    prev as int,
                                ));
                            }
                        },
                    }
                }
                proof {
                    lemma_bytes_concat(base@, rest@);
                    encode_utf8_valid_utf8(rest@);
                    lemma_boundary_by_byte(bytes(rest@), 0);
                    is_char_boundary_start_end_of_seq(bytes(rest@));
                }
                let ghost before = bytes(base@);
                base.append(rest);
                proof {
                    let nb = bytes(base@);
                    encode_utf8_valid_utf8(base@);
                    assert forall|i: int| 0 <= i < offsets@.len() implies offsets@[i] <= nb.len()
                        && is_char_boundary(nb, #[trigger] offsets@[i] as int) by {
                        let o = offsets@[i] as int;
                        lemma_boundary_by_byte(nb, o);
                        if o < before.len() {
                            assert(nb[o] == before[o]);
                        } else if o < nb.len() {
                            assert(nb[o] == bytes(rest@)[0]);
                        }
                    }
                    assert(Seq::new(offsets@.len(), |i: int| offsets@[i] as int)
                        =~= offsets@.map_values(|o: usize| o as int));
                }
                Template::Interp { offsets, base }
            },
        }
    }

    /// The number of values this word takes.
    pub fn slot_count(&self) -> (n: usize)
        ensures
            n == self.slots(),
    {
        match self {
            Template::Static(_) => 0,
            Template::Interp { offsets, .. } => offsets.len(),
        }
    }

    /// Puts the values of `inputs` into the word, the first at the first
    /// mark, as far as values and marks reach. With too few values the
    /// later marks stay as they are in the base.
    pub fn apply(&self, inputs: &[&str]) -> (res: String)
        requires
            self.wf(),
        ensures
            bytes(res@) == self.fill(bytes_of_all(inputs@)),
    {
        proof {
            let all = bytes_of_all(inputs@);
            assert(all.subrange(0, all.len() as int) =~= all);
        }
        self.apply_from(inputs, 0)
    }

    /// As `apply`, with the values of `inputs` from index `start` on.
    pub fn apply_from(&self, inputs: &[&str], start: usize) -> (res: String)
        requires
            self.wf(),
            start <= inputs@.len(),
        ensures
            bytes(res@) == self.fill(
                bytes_of_all(inputs@).subrange(start as int, inputs@.len() as int),
            ),
    {
        let ghost ins = bytes_of_all(inputs@).subrange(start as int, inputs@.len() as int);
        match self {
            Template::Static(s) => s.clone(),
            Template::Interp { offsets, base } => {
                let ghost bb = bytes(base@);
                let ghost at = self.marks();
                let avail = inputs.len() - start;
                let mut res = base.clone();
                let mut len = byte_len(res.as_str());
                let mut adjust: usize = 0;
                let mut k: usize = 0;
                proof {
                    encode_utf8_valid_utf8(base@);
                }
                while k < offsets.len() && k < avail
                    invariant
                        self.wf(),
                        self == (Template::Interp { offsets: *offsets, base: *base }),
                        bb == bytes(base@),
                        at == self.marks(),
                        ins == bytes_of_all(inputs@).subrange(start as int, inputs@.len() as int),
                        start + avail == inputs@.len(),
                        inputs@.len() <= usize::MAX,
                        valid_utf8(bb),
                        k <= offsets@.len(),
                        k <= avail,
                        bytes(res@) == splice(bb, at, ins, k as nat),
                        adjust == inserted(ins, k as nat),
                        len == bytes(res@).len(),
                        len == bb.len() + adjust,
                        forall|p: int|
                            (if k == 0 {
                                0
                            } else {
                                at[k - 1]
                            }) <= p < bb.len() ==> bytes(res@)[adjust + p] == bb[p],
                    decreases offsets@.len() - k,
                {
                    let offset = offsets[k];
                    let piece = inputs[start + k];
                    let ghost rb = bytes(res@);
                    proof {
                        assert(at[k as int] == offset);
                        assert(ins[k as int] == bytes(piece@));
                        encode_utf8_valid_utf8(res@);
                        lemma_boundary_by_byte(rb, adjust + offset);
                        lemma_boundary_by_byte(bb, offset as int);
                    }
                    insert_at(&mut res, adjust + offset, piece);
                    len = byte_len(res.as_str());
                    adjust = adjust + byte_len(piece);
                    k = k + 1;
                }
                res
            },
        }
    }
}

/// A character boundary of a text that lies behind another one is a
/// boundary of what follows that one.
pub proof fn lemma_tail_boundary(b: Seq<u8>, from: int, at: int)
    requires
        valid_utf8(b),
        0 <= from <= at <= b.len(),
        is_char_boundary(b, from),
        is_char_boundary(b, at),
    ensures
        valid_utf8(b.subrange(from, b.len() as int)),
        valid_utf8(b.subrange(0, from)),
        is_char_boundary(b.subrange(from, b.len() as int), at - from),
{
    valid_utf8_split(b, from);
    let tail = b.subrange(from, b.len() as int);
    lemma_boundary_by_byte(b, at);
    lemma_boundary_by_byte(tail, at - from);
    if at < b.len() {
        assert(tail[at - from] == b[at]);
    }
}

} // verus!
