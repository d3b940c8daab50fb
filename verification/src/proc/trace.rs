//! Showing a command line and asking whether it shall run.

use vstd::prelude::*;
use vstd::string::*;
use crate::invoker::preview::{Preview, rendered};

verus! {

/// What follows from a reply to the question whether to run.
#[derive(Debug, Clone, Copy, PartialEq, Eq, Structural)]
pub enum Gate {
    /// The reply was a yes: run the command line.
    Run,
    /// The reply was a no: leave the command line out.
    Skip,
    /// The reply was neither: ask again.
    Again,
}

/// `memchr::memchr`: the index of the first byte of `haystack` that is
/// `needle`, or nothing where no byte is.
#[verifier::external_body]
fn find_byte(needle: u8, haystack: &[u8]) -> (r: Option<usize>)
    ensures
        match r {
            Some(at) => is_first(haystack@, needle, at as int),
            None => forall|j: int| 0 <= j < haystack@.len() ==> haystack@[j] != needle,
        },
{
    memchr::memchr(needle, haystack)
}

/// `at` is the first index of `buf` that holds `needle`.
pub open spec fn is_first(buf: Seq<u8>, needle: u8, at: int) -> bool {
    &&& 0 <= at < buf.len()
    &&& buf[at] == needle
    &&& forall|j: int| 0 <= j < at ==> buf[j] != needle
}

/// A capital letter of ASCII as its small letter, any other byte as it is.
pub open spec fn lower(b: u8) -> u8 {
    if 65 <= b <= 90 {
        (b + 32) as u8
    } else {
        b
    }
}

/// A text with every byte passed through `lower`.
pub open spec fn lowered(text: Seq<u8>) -> Seq<u8> {
    Seq::new(text.len(), |i: int| lower(text[i]))
}

/// Where the reply ends in a buffer whose first null byte is at `stop`: a
/// line end just before the null byte belongs to the end, not to the reply.
pub open spec fn reply_end(buf: Seq<u8>, stop: int) -> int {
    if stop > 0 && buf[stop - 1] == 10 {
        stop - 1
    } else {
        stop
    }
}

/// What a reply says, whatever its case: `yes`, `y`, `true` and `t` say
/// yes; `no`, `n`, `false` and `f` say no; anything else says nothing.
pub open spec fn meaning(text: Seq<u8>) -> Option<bool> {
    let t = lowered(text);
    if t == seq![121u8, 101u8, 115u8] || t == seq![121u8] || t == seq![116u8, 114u8, 117u8, 101u8]
        || t == seq![116u8] {
        Some(true)
    } else if t == seq![110u8, 111u8] || t == seq![110u8] || t == seq![
        102u8,
        97u8,
        108u8,
        115u8,
        101u8,
    ] || t == seq![102u8] {
        Some(false)
    } else {
        None
    }
}

fn lower_byte(b: u8) -> (r: u8)
    ensures
        r == lower(b),
{
    if b >= 65 && b <= 90 {
        b + 32
    } else {
        b
    }
}

/// Whether the first `end` bytes of `buf` spell `word`, whatever their case.
fn spells(buf: &[u8], end: usize, word: &Vec<u8>) -> (r: bool)
    requires
        end <= buf@.len(),
    ensures
        r == (lowered(buf@.subrange(0, end as int)) == word@),
{
    if end != word.len() {
        return false;
    }
    let mut i: usize = 0;
    while i < end
        invariant
            end == word@.len(),
            end <= buf@.len(),
            i <= end,
            forall|j: int| 0 <= j < i ==> lower(buf@[j]) == word@[j],
        decreases end - i,
    {
        if lower_byte(buf[i]) != word[i] {
            proof {
                assert(lowered(buf@.subrange(0, end as int))[i as int] != word@[i as int]);
            }
            return false;
        }
        i = i + 1;
    }
    proof {
        assert(lowered(buf@.subrange(0, end as int)) =~= word@);
    }
    true
}

/// Reads the reply that a user typed. The reply is what stands before the
/// first null byte of the buffer, without a line end just before that
/// byte; a buffer without a null byte holds no reply.
pub fn answer(buf: &[u8]) -> (r: Option<bool>)
    ensures
        (forall|j: int| 0 <= j < buf@.len() ==> buf@[j] != 0) ==> r is None,
        forall|stop: int|
            is_first(buf@, 0, stop) ==> r == meaning(buf@.subrange(0, reply_end(buf@, stop))),
{
    let stop = match find_byte(0, buf) {
        Some(stop) => stop,
        None => {
            return None;
        },
    };
    let end = if stop > 0 && buf[stop - 1] == 10 {
        stop - 1
    } else {
        stop
    };
    proof {
        assert forall|other: int| is_first(buf@, 0, other) implies other == stop by {
            if other < stop {
                assert(buf@[other] != 0);
            } else if stop < other {
                assert(buf@[stop as int] != 0);
            }
        }
    }
    let ghost text = buf@.subrange(0, end as int);
    let w_yes: Vec<u8> = vec![121u8, 101u8, 115u8];
    let w_y: Vec<u8> = vec![121u8];
    let w_true: Vec<u8> = vec![116u8, 114u8, 117u8, 101u8];
    let w_t: Vec<u8> = vec![116u8];
    let w_no: Vec<u8> = vec![110u8, 111u8];
    let w_n: Vec<u8> = vec![110u8];
    let w_false: Vec<u8> = vec![102u8, 97u8, 108u8, 115u8, 101u8];
    let w_f: Vec<u8> = vec![102u8];
    proof {
        assert(w_yes@ =~= seq![121u8, 101u8, 115u8]);
        assert(w_y@ =~= seq![121u8]);
        assert(w_true@ =~= seq![116u8, 114u8, 117u8, 101u8]);
        assert(w_t@ =~= seq![116u8]);
        assert(w_no@ =~= seq![110u8, 111u8]);
        assert(w_n@ =~= seq![110u8]);
        assert(w_false@ =~= seq![102u8, 97u8, 108u8, 115u8, 101u8]);
        assert(w_f@ =~= seq![102u8]);
    }
    let yes = spells(buf, end, &w_yes) || spells(buf, end, &w_y) || spells(buf, end, &w_true)
        || spells(buf, end, &w_t);
    let no = spells(buf, end, &w_no) || spells(buf, end, &w_n) || spells(buf, end, &w_false)
        || spells(buf, end, &w_f);
    proof {
        assert(yes == (meaning(text) == Some(true)));
        assert(!yes ==> no == (meaning(text) == Some(false)));
    }
    if yes {
        Some(true)
    } else if no {
        Some(false)
    } else {
        None
    }
}

/// What follows from the reply in `buf`.
pub fn gate(buf: &[u8]) -> (g: Gate)
    ensures
        (forall|j: int| 0 <= j < buf@.len() ==> buf@[j] != 0) ==> g == Gate::Again,
        forall|stop: int|
            is_first(buf@, 0, stop) ==> g == match meaning(
                buf@.subrange(0, reply_end(buf@, stop)),
            ) {
                Some(true) => Gate::Run,
                Some(false) => Gate::Skip,
                None => Gate::Again,
            },
{
    match answer(buf) {
        Some(true) => Gate::Run,
        Some(false) => Gate::Skip,
        None => Gate::Again,
    }
}

/// The question put to the user before a command line runs.
pub fn prompt(preview: &Preview) -> (s: String)
    ensures
        s@ == "exec '"@ + rendered(preview@) + "'? "@,
{
    let mut s = String::from_str("exec '");
    let line = preview.render();
    s.append(line.as_str());
    s.append("'? ");
    s
}

} // verus!
