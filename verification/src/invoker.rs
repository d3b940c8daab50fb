//! The compiled command and the construction of argument vectors from it.

pub mod template;
pub mod preview;

use std::borrow::Cow;
use vstd::prelude::*;
use crate::text::{bytes, bytes_of_all, same_text};
use crate::invoker::template::{Template, strip, marks, splice, inserted, lemma_bytes_nonempty,
    lemma_occurrence_gives_mark, lemma_strip_none};
use crate::text::matches_at;
use crate::invoker::preview::{Preview, texts};

verus! {

/// The byte sequences of a list of arguments, in order.
pub open spec fn arg_bytes(args: Seq<Seq<char>>) -> Seq<Seq<u8>> {
    Seq::new(args.len(), |i: int| bytes(args[i]))
}

/// The positions below `upto` at which the command has the pattern itself
/// (`slot`), or another word (`!slot`), in ascending order.
pub open spec fn positions(command: Seq<String>, pattern: Seq<char>, upto: nat, slot: bool) -> Seq<
    int,
>
    decreases upto,
{
    if upto == 0 {
        Seq::<int>::empty()
    } else {
        let before = positions(command, pattern, (upto - 1) as nat, slot);
        if (command[upto - 1]@ == pattern) == slot {
            before.push(upto - 1)
        } else {
            before
        }
    }
}

/// The number of values that the first `n` of `templates` take together.
pub open spec fn template_slots(templates: Seq<Template>, n: nat) -> nat
    decreases n,
{
    if n == 0 {
        0
    } else {
        template_slots(templates, (n - 1) as nat) + templates[n - 1].slots()
    }
}

/// How many of the first `n` words of the command are the pattern itself.
pub open spec fn slots_below(command: Seq<String>, pattern: Seq<char>, n: nat) -> nat {
    positions(command, pattern, n, true).len()
}

/// How often the pattern occurs in the first `n` words of the command,
/// each word searched from the left without overlap: the number of values
/// that these words take.
pub open spec fn occurrences(command: Seq<String>, pattern: Seq<char>, n: nat) -> nat
    decreases n,
{
    if n == 0 {
        0
    } else {
        occurrences(command, pattern, (n - 1) as nat) + marks(
            bytes(command[n - 1]@),
            bytes(pattern),
        ).len()
    }
}

/// A word with its occurrences of the pattern replaced by `values`, the
/// first occurrence by the first value, as far as the values reach; the
/// occurrences beyond are replaced by nothing.
pub open spec fn word_filled(word: Seq<u8>, pat: Seq<u8>, values: Seq<Seq<u8>>) -> Seq<u8> {
    let at = marks(word, pat);
    splice(
        strip(word, pat),
        at,
        values,
        if at.len() <= values.len() {
            at.len()
        } else {
            values.len()
        },
    )
}

/// Word `i` of the command has its place in the compiled form: where it
/// is the pattern, it is the slot position numbered by the slot positions
/// before it; else it is compiled as the word numbered by the other words
/// before it.
pub open spec fn placed(
    offsets: Seq<usize>,
    templates: Seq<Template>,
    pattern: Seq<char>,
    command: Seq<String>,
    i: int,
) -> bool {
    let oj = slots_below(command, pattern, i as nat) as int;
    if command[i]@ == pattern {
        oj < offsets.len() && offsets[oj] == i
    } else {
        let t = i - oj;
        &&& 0 <= t < templates.len()
        &&& templates[t].base_bytes() == strip(bytes(command[i]@), bytes(pattern))
        &&& templates[t].marks() == marks(bytes(command[i]@), bytes(pattern))
    }
}

/// Slot position `k` of the compiled form is a word of the command that is
/// the pattern, with `k` such words before it.
pub open spec fn numbered(
    offsets: Seq<usize>,
    pattern: Seq<char>,
    command: Seq<String>,
    k: int,
) -> bool {
    &&& offsets[k] < command.len()
    &&& command[offsets[k] as int]@ == pattern
    &&& slots_below(command, pattern, offsets[k] as nat) == k
}

/// A command compiled against a pattern: the positions of the words that
/// are the pattern itself, and the other words, compiled, in their order.
#[derive(Debug, PartialEq, Eq)]
pub struct Invoker {
    pub offsets: Vec<usize>,
    pub templates: Vec<Template>,
}

impl Invoker {
    /// The number of words of the command.
    pub open spec fn width(&self) -> nat {
        self.offsets@.len() + self.templates@.len()
    }

    /// The slot positions ascend and lie within the command, and every
    /// compiled word is well formed.
    pub open spec fn wf(&self) -> bool {
        &&& self.width() <= usize::MAX
        &&& forall|i: int, j: int|
            0 <= i < j < self.offsets@.len() ==> self.offsets@[i] < self.offsets@[j]
        &&& forall|i: int| 0 <= i < self.offsets@.len() ==> self.offsets@[i] < self.width()
        &&& forall|i: int| 0 <= i < self.templates@.len() ==> (#[trigger] self.templates@[i]).wf()
    }

    /// The number of values that one full argument vector takes: one for
    /// each slot position and one for each mark of a compiled word.
    pub open spec fn slot_total(&self) -> nat {
        self.offsets@.len() + template_slots(self.templates@, self.templates@.len())
    }

    /// The arguments built from position `oi + ti` of the command on, where
    /// `oi` slot positions and `ti` compiled words lie before it, with
    /// `inputs` the values not yet used. A slot position takes one value
    /// and is left out when none is there; a compiled word takes what its
    /// marks ask for; the values left after the last word follow.
    pub open spec fn emit(&self, inputs: Seq<Seq<u8>>, oi: int, ti: int) -> Seq<Seq<u8>>
        decreases self.offsets@.len() - oi, self.templates@.len() - ti,
    {
        if 0 <= oi < self.offsets@.len() && self.offsets@[oi] == oi + ti {
            if inputs.len() > 0 {
                seq![inputs[0]] + self.emit(inputs.subrange(1, inputs.len() as int), oi + 1, ti)
            } else {
                self.emit(inputs, oi + 1, ti)
            }
        } else if 0 <= ti < self.templates@.len() {
            let t = self.templates@[ti];
            seq![t.fill(inputs)] + self.emit(
                inputs.subrange(t.takes(inputs.len()) as int, inputs.len() as int),
                oi,
                ti + 1,
            )
        } else {
            inputs
        }
    }

    /// The argument vector built from `inputs`.
    pub open spec fn filled(&self, inputs: Seq<Seq<u8>>) -> Seq<Seq<u8>> {
        self.emit(inputs, 0, 0)
    }

    /// This is the command compiled against the pattern: each word that is
    /// the pattern is a slot position, numbered by the slot positions before
    /// it, and each other word is compiled, numbered by the other words
    /// before it.
    pub open spec fn lays_out(&self, pattern: Seq<char>, command: Seq<String>) -> bool {
        &&& self.width() == command.len()
        &&& self.offsets@.len() == slots_below(command, pattern, command.len())
        &&& forall|k: int|
            0 <= k < self.offsets@.len() ==> #[trigger] numbered(
                self.offsets@,
                pattern,
                command,
                k,
            )
        &&& forall|i: int|
            0 <= i < command.len() ==> #[trigger] placed(
                self.offsets@,
                self.templates@,
                pattern,
                command,
                i,
            )
    }

    /// Compiles a command: a word that is the pattern becomes a slot
    /// position, every other word a compiled word.
    pub fn new(pattern: &str, command: Vec<String>) -> (inv: Invoker)
        requires
            pattern@.len() > 0,
        ensures
            inv.wf(),
            inv.width() == command@.len(),
            inv.lays_out(pattern@, command@),
            Seq::new(inv.offsets@.len(), |i: int| inv.offsets@[i] as int) == positions(
                command@,
                pattern@,
                command@.len(),
                true,
            ),
            inv.templates@.len() == positions(command@, pattern@, command@.len(), false).len(),
            forall|k: int|
                #![trigger inv.templates@[k]]
                0 <= k < inv.templates@.len() ==> {
                    let word = bytes(
                        command@[positions(command@, pattern@, command@.len(), false)[k]]@,
                    );
                    &&& inv.templates@[k].base_bytes() == strip(word, bytes(pattern@))
                    &&& inv.templates@[k].marks() == marks(word, bytes(pattern@))
                    &&& (inv.templates@[k] is Static) <==> marks(word, bytes(pattern@)).len() == 0
                },
    {
        let mut offsets: Vec<usize> = Vec::new();
        let mut templates: Vec<Template> = Vec::with_capacity(command.len());
        let mut i: usize = 0;
        while i < command.len()
            invariant
                pattern@.len() > 0,
                i <= command@.len(),
                offsets@.len() + templates@.len() == i,
                Seq::new(offsets@.len(), |k: int| offsets@[k] as int) == positions(
                    command@,
                    pattern@,
                    i as nat,
                    true,
                ),
                templates@.len() == positions(command@, pattern@, i as nat, false).len(),
                forall|a: int, b: int| 0 <= a < b < offsets@.len() ==> offsets@[a] < offsets@[b],
                forall|a: int| 0 <= a < offsets@.len() ==> offsets@[a] < i,
                forall|k: int|
                    0 <= k < offsets@.len() ==> #[trigger] numbered(
                        offsets@,
                        pattern@,
                        command@,
                        k,
                    ),
                forall|p: int|
                    0 <= p < i ==> #[trigger] placed(offsets@, templates@, pattern@, command@, p),
                forall|k: int| 0 <= k < templates@.len() ==> (#[trigger] templates@[k]).wf(),
                forall|k: int|
                    #![trigger templates@[k]]
                    0 <= k < templates@.len() ==> {
                        let word = bytes(command@[positions(command@, pattern@, i as nat, false)[k]]@);
                        &&& 0 <= positions(command@, pattern@, i as nat, false)[k] < i
                        &&& templates@[k].base_bytes() == strip(word, bytes(pattern@))
                        &&& templates@[k].marks() == marks(word, bytes(pattern@))
                        &&& (templates@[k] is Static) <==> marks(word, bytes(pattern@)).len() == 0
                    },
            decreases command@.len() - i,
        {
            let ghost before_slots = positions(command@, pattern@, i as nat, true);
            let ghost before_words = positions(command@, pattern@, i as nat, false);
            let ghost had_offsets = offsets@;
            let ghost had_templates = templates@;
            if same_text(command[i].as_str(), pattern) {
                offsets.push(i);
                proof {
                    assert(Seq::new(offsets@.len(), |k: int| offsets@[k] as int)
                        =~= before_slots.push(i as int));
                }
            } else {
                templates.push(Template::new(pattern, command[i].clone()));
                proof {
                    assert(positions(command@, pattern@, (i + 1) as nat, false)
                        == before_words.push(i as int));
                }
            }
            proof {
                assert forall|k: int| 0 <= k < offsets@.len() implies #[trigger] numbered(
                    offsets@,
                    pattern@,
                    command@,
                    k,
                ) by {
                    if k < had_offsets.len() {
                        assert(numbered(had_offsets, pattern@, command@, k));
                    }
                }
                assert forall|p: int| 0 <= p < i + 1 implies #[trigger] placed(
                    offsets@,
                    templates@,
                    pattern@,
                    command@,
                    p,
                ) by {
                    if p < i {
                        assert(placed(had_offsets, had_templates, pattern@, command@, p));
                    }
                }
            }
            i = i + 1;
        }
        Invoker { offsets, templates }
    }

    /// Room for an argument vector: the larger of the number of slot
    /// positions and the number of values, and the number of compiled words.
    fn capacity_hint(&self, values: usize) -> (n: usize)
        ensures
            ({
                let most = if self.offsets@.len() < values {
                    values as int
                } else {
                    self.offsets@.len() as int
                };
                n == if most + self.templates@.len() <= usize::MAX {
                    most + self.templates@.len()
                } else {
                    most
                }
            }),
    {
        let slots = self.offsets.len();
        let most = if slots < values {
            values
        } else {
            slots
        };
        match most.checked_add(self.templates.len()) {
            Some(n) => n,
            None => most,
        }
    }

    /// Builds the argument vector for one batch of values: the command's
    /// words in order, each slot position replaced by the next value, each
    /// compiled word filled with the values it takes, and the values that
    /// are left appended.
    pub fn fill<'a>(&self, inputs: &[&'a str]) -> (out: Vec<Cow<'a, str>>)
        requires
            self.wf(),
        ensures
            arg_bytes(texts(out@)) == self.filled(bytes_of_all(inputs@)),
    {
        let ghost ins = bytes_of_all(inputs@);
        let mut fill: Vec<Cow<'a, str>> = Vec::with_capacity(self.capacity_hint(inputs.len()));
        let mut current: usize = 0;
        let mut oi: usize = 0;
        let mut ti: usize = 0;
        let mut ii: usize = 0;
        proof {
            assert(ins.subrange(0, ins.len() as int) =~= ins);
            assert(arg_bytes(texts(fill@)) + self.filled(ins) =~= self.filled(ins));
        }
        loop
            invariant
                self.wf(),
                ins == bytes_of_all(inputs@),
                oi <= self.offsets@.len(),
                ti <= self.templates@.len(),
                ii <= inputs@.len(),
                current == oi + ti,
                arg_bytes(texts(fill@)) + self.emit(
                    ins.subrange(ii as int, ins.len() as int),
                    oi as int,
                    ti as int,
                ) == self.filled(ins),
            ensures
                ii <= inputs@.len(),
                ins == bytes_of_all(inputs@),
                arg_bytes(texts(fill@)) + ins.subrange(ii as int, ins.len() as int) == self.filled(
                    ins,
                ),
            decreases self.offsets@.len() - oi + self.templates@.len() - ti,
        {
            let ghost rest = ins.subrange(ii as int, ins.len() as int);
            let ghost done = arg_bytes(texts(fill@));
            if oi < self.offsets.len() && self.offsets[oi] == current {
                if ii < inputs.len() {
                    fill.push(Cow::Borrowed(inputs[ii]));
                    ii = ii + 1;
                    proof {
                        assert(rest.subrange(1, rest.len() as int) =~= ins.subrange(
                            ii as int,
                            ins.len() as int,
                        ));
                        assert(arg_bytes(texts(fill@)) =~= done + seq![rest[0]]);
                        assert(done + (seq![rest[0]] + self.emit(
                            rest.subrange(1, rest.len() as int),
                            oi + 1,
                            ti as int,
                        )) =~= done + seq![rest[0]] + self.emit(
                            rest.subrange(1, rest.len() as int),
                            oi + 1,
                            ti as int,
                        ));
                    }
                }
                oi = oi + 1;
            } else if ti < self.templates.len() {
                let template = &self.templates[ti];
                let word = template.apply_from(inputs, ii);
                let left = inputs.len() - ii;
                let asked = template.slot_count();
                let used = if asked <= left {
                    asked
                } else {
                    left
                };
                fill.push(Cow::Owned(word));
                ii = ii + used;
                ti = ti + 1;
                proof {
                    let t = self.templates@[ti - 1];
                    assert(used == t.takes(rest.len()));
                    assert(rest.subrange(used as int, rest.len() as int) =~= ins.subrange(
                        ii as int,
                        ins.len() as int,
                    ));
                    assert(arg_bytes(texts(fill@)) =~= done + seq![t.fill(rest)]);
                    assert(done + (seq![t.fill(rest)] + self.emit(
                        rest.subrange(used as int, rest.len() as int),
                        oi as int,
                        ti as int,
                    )) =~= done + seq![t.fill(rest)] + self.emit(
                        rest.subrange(used as int, rest.len() as int),
                        oi as int,
                        ti as int,
                    ));
                }
            } else {
                break ;
            }
            current = current + 1;
        }
        while ii < inputs.len()
            invariant
                ii <= inputs@.len(),
                ins == bytes_of_all(inputs@),
                arg_bytes(texts(fill@)) + ins.subrange(ii as int, ins.len() as int) == self.filled(
                    ins,
                ),
            decreases inputs@.len() - ii,
        {
            let ghost done = arg_bytes(texts(fill@));
            let ghost rest = ins.subrange(ii as int, ins.len() as int);
            fill.push(Cow::Borrowed(inputs[ii]));
            ii = ii + 1;
            proof {
                assert(arg_bytes(texts(fill@)) =~= done + seq![rest[0]]);
                assert(done + seq![rest[0]] + ins.subrange(ii as int, ins.len() as int) =~= done
                    + rest);
            }
        }
        proof {
            assert(arg_bytes(texts(fill@)) + ins.subrange(ii as int, ins.len() as int)
                =~= arg_bytes(texts(fill@)));
        }
        fill
    }

    /// The argument vector for one batch of values, ready to run.
    pub fn preview<'a>(&self, inputs: &[&'a str]) -> (p: Preview<'a>)
        requires
            self.wf(),
        ensures
            arg_bytes(p@) == self.filled(bytes_of_all(inputs@)),
    {
        Preview::new(self.fill(inputs))
    }

    /// The number of values that one full argument vector takes, where it
    /// fits the result.
    pub fn try_slots(&self) -> (n: Option<u32>)
        ensures
            match n {
                Some(n) => n == self.slot_total(),
                None => self.slot_total() > u32::MAX,
            },
    {
        let mut slots: usize = self.offsets.len();
        let mut i: usize = 0;
        while i < self.templates.len()
            invariant
                i <= self.templates@.len(),
                slots == self.offsets@.len() + template_slots(self.templates@, i as nat),
            decreases self.templates@.len() - i,
        {
            match slots.checked_add(self.templates[i].slot_count()) {
                Some(more) => {
                    slots = more;
                },
                None => {
                    proof {
                        lemma_template_slots_grow(
                            self.templates@,
                            (i + 1) as nat,
                            self.templates@.len(),
                        );
                    }
                    return None;
                },
            }
            i = i + 1;
        }
        if slots <= 0xffff_ffff {
            Some(slots as u32)
        } else {
            None
        }
    }

    /// The number of values that one full argument vector takes.
    pub fn slots(&self) -> (n: u32)
        requires
            self.slot_total() <= u32::MAX,
        ensures
            n == self.slot_total(),
    {
        match self.try_slots() {
            Some(n) => n,
            None => 0,
        }
    }
}

impl Invoker {
    /// The number of values taken from position `oi + ti` of the command
    /// on, where `oi` slot positions and `ti` compiled words lie before it.
    pub open spec fn need_from(&self, oi: int, ti: int) -> int {
        (self.offsets@.len() - oi) + (template_slots(self.templates@, self.templates@.len())
            - template_slots(self.templates@, ti as nat))
    }

    /// With at least as many values as are taken, the values beyond those
    /// follow the rest unchanged, and the rest is built from the first
    /// alone; it has one argument for each remaining word of the command.
    pub proof fn lemma_emit_enough(&self, inputs: Seq<Seq<u8>>, oi: int, ti: int)
        requires
            0 <= oi <= self.offsets@.len(),
            0 <= ti <= self.templates@.len(),
            inputs.len() >= self.need_from(oi, ti),
        ensures
            self.need_from(oi, ti) >= 0,
            self.emit(inputs, oi, ti) == self.emit(
                inputs.subrange(0, self.need_from(oi, ti)),
                oi,
                ti,
            ) + inputs.subrange(self.need_from(oi, ti), inputs.len() as int),
            self.emit(inputs.subrange(0, self.need_from(oi, ti)), oi, ti).len() == (
            self.offsets@.len() - oi) + (self.templates@.len() - ti),
        decreases self.offsets@.len() - oi, self.templates@.len() - ti,
    {
        let need = self.need_from(oi, ti);
        lemma_template_slots_grow(self.templates@, ti as nat, self.templates@.len());
        let first = inputs.subrange(0, need);
        let extra = inputs.subrange(need, inputs.len() as int);
        if oi < self.offsets@.len() && self.offsets@[oi] == oi + ti {
            let after = inputs.subrange(1, inputs.len() as int);
            self.lemma_emit_enough(after, oi + 1, ti);
            assert(first.subrange(1, first.len() as int) =~= after.subrange(0, need - 1));
            assert(after.subrange(need - 1, after.len() as int) =~= extra);
            assert(seq![inputs[0]] + (self.emit(after.subrange(0, need - 1), oi + 1, ti) + extra)
                =~= seq![first[0]] + self.emit(first.subrange(1, first.len() as int), oi + 1, ti)
                + extra);
        } else if ti < self.templates@.len() {
            let t = self.templates@[ti];
            let s = t.slots() as int;
            lemma_template_slots_grow(self.templates@, (ti + 1) as nat, self.templates@.len());
            let after = inputs.subrange(s, inputs.len() as int);
            self.lemma_emit_enough(after, oi, ti + 1);
            lemma_splice_prefix(t.base_bytes(), t.marks(), inputs, first, s as nat);
            assert(first.subrange(s, first.len() as int) =~= after.subrange(0, need - s));
            assert(after.subrange(need - s, after.len() as int) =~= extra);
            assert(seq![t.fill(inputs)] + (self.emit(after.subrange(0, need - s), oi, ti + 1)
                + extra) =~= seq![t.fill(first)] + self.emit(
                first.subrange(s, first.len() as int),
                oi,
                ti + 1,
            ) + extra);
        } else {
            assert(first + extra =~= inputs);
        }
    }

    /// With no more values than are taken, every remaining compiled word
    /// still gives an argument, and no more arguments are built than the
    /// command has words left.
    pub proof fn lemma_emit_short(&self, inputs: Seq<Seq<u8>>, oi: int, ti: int)
        requires
            0 <= oi <= self.offsets@.len(),
            0 <= ti <= self.templates@.len(),
            inputs.len() <= self.need_from(oi, ti),
        ensures
            self.templates@.len() - ti <= self.emit(inputs, oi, ti).len() <= (self.offsets@.len()
                - oi) + (self.templates@.len() - ti),
        decreases self.offsets@.len() - oi, self.templates@.len() - ti,
    {
        lemma_template_slots_grow(self.templates@, ti as nat, self.templates@.len());
        if oi < self.offsets@.len() && self.offsets@[oi] == oi + ti {
            if inputs.len() > 0 {
                self.lemma_emit_short(inputs.subrange(1, inputs.len() as int), oi + 1, ti);
            } else {
                self.lemma_emit_short(inputs, oi + 1, ti);
            }
        } else if ti < self.templates@.len() {
            let t = self.templates@[ti];
            lemma_template_slots_grow(self.templates@, (ti + 1) as nat, self.templates@.len());
            self.lemma_emit_short(
                inputs.subrange(t.takes(inputs.len()) as int, inputs.len() as int),
                oi,
                ti + 1,
            );
        } else {
        }
    }

    /// Without values, every remaining slot position is left out and every
    /// remaining compiled word is given as its base, nothing put in.
    pub proof fn lemma_emit_none(&self, oi: int, ti: int)
        requires
            0 <= oi <= self.offsets@.len(),
            0 <= ti <= self.templates@.len(),
        ensures
            self.emit(Seq::<Seq<u8>>::empty(), oi, ti) == Seq::new(
                (self.templates@.len() - ti) as nat,
                |i: int| self.templates@[ti + i].base_bytes(),
            ),
        decreases self.offsets@.len() - oi, self.templates@.len() - ti,
    {
        let none = Seq::<Seq<u8>>::empty();
        let bare = Seq::new(
            (self.templates@.len() - ti) as nat,
            |i: int| self.templates@[ti + i].base_bytes(),
        );
        if oi < self.offsets@.len() && self.offsets@[oi] == oi + ti {
            self.lemma_emit_none(oi + 1, ti);
        } else if ti < self.templates@.len() {
            self.lemma_emit_none(oi, ti + 1);
            assert(none.subrange(0, 0) =~= none);
            let later = Seq::new(
                (self.templates@.len() - ti - 1) as nat,
                |i: int| self.templates@[ti + 1 + i].base_bytes(),
            );
            assert(seq![self.templates@[ti].base_bytes()] + later =~= bare);
        } else {
            assert(none =~= bare);
        }
    }

    /// A batch of exactly as many values as the command has slots gives
    /// one argument for each word of the command: no slot position is left
    /// out and no value is left over.
    pub proof fn lemma_exact_fill(&self, inputs: Seq<Seq<u8>>)
        requires
            inputs.len() == self.slot_total(),
        ensures
            self.filled(inputs).len() == self.width(),
    {
        self.lemma_emit_enough(inputs, 0, 0);
        assert(inputs.subrange(0, inputs.len() as int) =~= inputs);
    }

    /// A batch of more values than the command has slots gives what its
    /// first values alone give, followed by the other values in order.
    pub proof fn lemma_overfill(&self, inputs: Seq<Seq<u8>>)
        requires
            inputs.len() >= self.slot_total(),
        ensures
            self.filled(inputs) == self.filled(inputs.subrange(0, self.slot_total() as int))
                + inputs.subrange(self.slot_total() as int, inputs.len() as int),
            self.filled(inputs).len() == self.width() + inputs.len() - self.slot_total(),
    {
        self.lemma_emit_enough(inputs, 0, 0);
    }

    /// A batch of fewer values than the command has slots still gives an
    /// argument for every compiled word, and at most one for each word of
    /// the command: slot positions without a value are left out.
    pub proof fn lemma_underfill(&self, inputs: Seq<Seq<u8>>)
        requires
            inputs.len() <= self.slot_total(),
        ensures
            self.templates@.len() <= self.filled(inputs).len() <= self.width(),
    {
        self.lemma_emit_short(inputs, 0, 0);
    }
}

impl Invoker {
    /// The walk over the command has reached slot position `oi` and
    /// compiled word `ti` in step: no slot position was passed over.
    pub open spec fn in_step(&self, oi: int, ti: int) -> bool {
        &&& 0 <= oi <= self.offsets@.len()
        &&& 0 <= ti <= self.templates@.len()
        &&& oi < self.offsets@.len() ==> self.offsets@[oi] >= oi + ti
    }

    /// Compiled word `t` stands behind exactly `oj` slot positions.
    pub open spec fn word_behind(&self, oj: int, t: int) -> bool {
        &&& 0 <= oj <= self.offsets@.len()
        &&& 0 <= t < self.templates@.len()
        &&& oj > 0 ==> self.offsets@[oj - 1] < oj + t
        &&& oj < self.offsets@.len() ==> self.offsets@[oj] > oj + t
    }

    /// Slot positions lie at least as far apart as they are numbered: the
    /// number of compiled words before a slot position does not fall from
    /// one slot position to a later one, and it is never more than the
    /// number of compiled words there are.
    pub proof fn lemma_gap_grows(&self, i: int, j: int)
        requires
            self.wf(),
            0 <= i <= j < self.offsets@.len(),
        ensures
            self.offsets@[j] - j >= self.offsets@[i] - i,
            self.offsets@[i] - i >= 0,
            self.offsets@[j] - j <= self.templates@.len(),
    {
        self.lemma_gap_step(0, i);
        self.lemma_gap_step(i, j);
        self.lemma_gap_step(j, self.offsets@.len() - 1);
    }

    /// From one slot position to a later one, the number of compiled words
    /// before it does not fall.
    pub proof fn lemma_gap_step(&self, i: int, j: int)
        requires
            self.wf(),
            0 <= i <= j < self.offsets@.len(),
        ensures
            self.offsets@[j] - j >= self.offsets@[i] - i,
        decreases j - i,
    {
        if i < j {
            self.lemma_gap_step(i, j - 1);
        }
    }

    /// Slot position `j` of the rest of the command gets the value that the
    /// slots and marks before it leave as the next, where there is one.
    pub proof fn lemma_walk_slot(&self, inputs: Seq<Seq<u8>>, oi: int, ti: int, j: int)
        requires
            self.wf(),
            self.in_step(oi, ti),
            oi <= j < self.offsets@.len(),
            (j - oi) + template_slots(self.templates@, (self.offsets@[j] - j) as nat)
                - template_slots(self.templates@, ti as nat) < inputs.len(),
        ensures
            ({
                let at = self.offsets@[j] - (oi + ti);
                let which = (j - oi) + template_slots(
                    self.templates@,
                    (self.offsets@[j] - j) as nat,
                ) - template_slots(self.templates@, ti as nat);
                &&& self.offsets@[j] - j >= ti
                &&& 0 <= at < self.emit(inputs, oi, ti).len()
                &&& 0 <= which < inputs.len()
                &&& self.emit(inputs, oi, ti)[at] == inputs[which]
            }),
        decreases self.offsets@.len() - oi, self.templates@.len() - ti,
    {
        self.lemma_gap_grows(oi, j);
        lemma_template_slots_grow(self.templates@, ti as nat, (self.offsets@[j] - j) as nat);
        lemma_template_slots_grow(
            self.templates@,
            (self.offsets@[j] - j) as nat,
            self.templates@.len(),
        );
        if self.offsets@[oi] == oi + ti {
            let after = inputs.subrange(1, inputs.len() as int);
            if j > oi {
                self.lemma_walk_slot(after, oi + 1, ti, j);
            }
        } else {
            let t = self.templates@[ti];
            lemma_template_slots_grow(self.templates@, (ti + 1) as nat, self.templates@.len());
            let after = inputs.subrange(t.slots() as int, inputs.len() as int);
            self.lemma_walk_slot(after, oi, ti + 1, j);
        }
    }

    /// Compiled word `t` of the rest of the command is filled with the
    /// values that the slots and marks before it leave, where those before
    /// it all had theirs.
    pub proof fn lemma_walk_word(&self, inputs: Seq<Seq<u8>>, oi: int, ti: int, oj: int, t: int)
        requires
            self.wf(),
            self.in_step(oi, ti),
            self.word_behind(oj, t),
            oi <= oj,
            ti <= t,
            (oj - oi) + template_slots(self.templates@, t as nat) - template_slots(
                self.templates@,
                ti as nat,
            ) <= inputs.len(),
        ensures
            ({
                let at = (oj + t) - (oi + ti);
                let used = (oj - oi) + template_slots(self.templates@, t as nat) - template_slots(
                    self.templates@,
                    ti as nat,
                );
                &&& 0 <= at < self.emit(inputs, oi, ti).len()
                &&& 0 <= used <= inputs.len()
                &&& self.emit(inputs, oi, ti)[at] == self.templates@[t].fill(
                    inputs.subrange(used, inputs.len() as int),
                )
            }),
        decreases self.offsets@.len() - oi, self.templates@.len() - ti,
    {
        lemma_template_slots_grow(self.templates@, ti as nat, t as nat);
        lemma_template_slots_grow(self.templates@, (t + 1) as nat, self.templates@.len());
        if oi < self.offsets@.len() && self.offsets@[oi] == oi + ti {
            let after = inputs.subrange(1, inputs.len() as int);
            self.lemma_walk_word(after, oi + 1, ti, oj, t);
            let used = (oj - oi) + template_slots(self.templates@, t as nat) - template_slots(
                self.templates@,
                ti as nat,
            );
            assert(after.subrange(used - 1, after.len() as int) =~= inputs.subrange(
                used,
                inputs.len() as int,
            ));
        } else {
            let first = self.templates@[ti];
            lemma_template_slots_grow(self.templates@, (ti + 1) as nat, self.templates@.len());
            let s = first.slots() as int;
            let after = inputs.subrange(s, inputs.len() as int);
            if t == ti {
                if oj > oi {
                    self.lemma_gap_grows(oi, oj - 1);
                }
                assert(inputs.subrange(0, inputs.len() as int) =~= inputs);
            } else {
                lemma_template_slots_grow(self.templates@, (ti + 1) as nat, t as nat);
                self.lemma_walk_word(after, oi, ti + 1, oj, t);
                let used = (oj - oi) + template_slots(self.templates@, t as nat)
                    - template_slots(self.templates@, ti as nat);
                assert(after.subrange(used - s, after.len() as int) =~= inputs.subrange(
                    used,
                    inputs.len() as int,
                ));
            }
        }
    }

    /// The number of values taken before slot position `j` by what stands
    /// from slot position `oi` and compiled word `ti` on.
    pub open spec fn taken_before(&self, oi: int, ti: int, j: int) -> int {
        (j - oi) + template_slots(self.templates@, (self.offsets@[j] - j) as nat) - template_slots(
            self.templates@,
            ti as nat,
        )
    }

    /// Of the slot positions from `oi` on, exactly those before `fed` find
    /// a value among `count` values.
    pub open spec fn fed_until(&self, oi: int, ti: int, count: int, fed: int) -> bool {
        &&& oi <= fed <= self.offsets@.len()
        &&& fed > oi ==> self.taken_before(oi, ti, fed - 1) < count
        &&& fed < self.offsets@.len() ==> self.taken_before(oi, ti, fed) >= count
    }

    /// With no more values than are taken, the rest of the command gives
    /// one argument for each compiled word and one for each slot position
    /// that finds a value.
    pub proof fn lemma_walk_len(&self, inputs: Seq<Seq<u8>>, oi: int, ti: int, fed: int)
        requires
            self.wf(),
            self.in_step(oi, ti),
            inputs.len() <= self.need_from(oi, ti),
            self.fed_until(oi, ti, inputs.len() as int, fed),
        ensures
            self.emit(inputs, oi, ti).len() == (self.templates@.len() - ti) + (fed - oi),
        decreases self.offsets@.len() - oi, self.templates@.len() - ti,
    {
        let none = Seq::<Seq<u8>>::empty();
        lemma_template_slots_grow(self.templates@, ti as nat, self.templates@.len());
        if fed > oi {
            self.lemma_gap_grows(oi, fed - 1);
            lemma_template_slots_grow(
                self.templates@,
                ti as nat,
                (self.offsets@[fed - 1] - (fed - 1)) as nat,
            );
        }
        if oi < self.offsets@.len() && self.offsets@[oi] == oi + ti {
            if inputs.len() > 0 {
                self.lemma_walk_len(inputs.subrange(1, inputs.len() as int), oi + 1, ti, fed);
            } else {
                assert(inputs =~= none);
                self.lemma_emit_none(oi + 1, ti);
            }
        } else if ti < self.templates@.len() {
            let t = self.templates@[ti];
            let s = t.slots() as int;
            lemma_template_slots_grow(self.templates@, (ti + 1) as nat, self.templates@.len());
            if fed > oi {
                self.lemma_gap_grows(oi, fed - 1);
                lemma_template_slots_grow(
                    self.templates@,
                    (ti + 1) as nat,
                    (self.offsets@[fed - 1] - (fed - 1)) as nat,
                );
            }
            if inputs.len() >= s {
                self.lemma_walk_len(inputs.subrange(s, inputs.len() as int), oi, ti + 1, fed);
            } else {
                assert(inputs.subrange(inputs.len() as int, inputs.len() as int) =~= none);
                self.lemma_emit_none(oi, ti + 1);
            }
        } else {
            if oi < self.offsets@.len() {
                self.lemma_gap_grows(oi, oi);
            }
        }
    }

    /// A batch of no more values than the command has slots gives one
    /// argument for each compiled word and one for each slot position that
    /// finds a value; the slot positions that find none, which are the
    /// last ones, are left out.
    pub proof fn lemma_underfill_length(&self, inputs: Seq<Seq<u8>>, fed: int)
        requires
            self.wf(),
            inputs.len() <= self.slot_total(),
            self.fed_until(0, 0, inputs.len() as int, fed),
        ensures
            self.filled(inputs).len() == self.templates@.len() + fed,
    {
        self.lemma_walk_len(inputs, 0, 0, fed);
    }

    /// A compiled word of the rest of the command whose turn comes when no
    /// value is left is given as its base, behind the arguments of the
    /// compiled words and of the slot positions with a value before it.
    pub proof fn lemma_walk_dry(
        &self,
        inputs: Seq<Seq<u8>>,
        oi: int,
        ti: int,
        fed: int,
        oj: int,
        t: int,
    )
        requires
            self.wf(),
            self.in_step(oi, ti),
            inputs.len() <= self.need_from(oi, ti),
            self.fed_until(oi, ti, inputs.len() as int, fed),
            self.word_behind(oj, t),
            fed <= oj,
            ti <= t,
            (oj - oi) + template_slots(self.templates@, t as nat) - template_slots(
                self.templates@,
                ti as nat,
            ) >= inputs.len(),
        ensures
            (t - ti) + (fed - oi) < self.emit(inputs, oi, ti).len(),
            self.emit(inputs, oi, ti)[(t - ti) + (fed - oi)] == self.templates@[t].base_bytes(),
        decreases self.offsets@.len() - oi, self.templates@.len() - ti,
    {
        let none = Seq::<Seq<u8>>::empty();
        self.lemma_walk_len(inputs, oi, ti, fed);
        lemma_template_slots_grow(self.templates@, ti as nat, t as nat);
        if fed > oi {
            self.lemma_gap_grows(oi, fed - 1);
            lemma_template_slots_grow(
                self.templates@,
                ti as nat,
                (self.offsets@[fed - 1] - (fed - 1)) as nat,
            );
        }
        if oi < self.offsets@.len() && self.offsets@[oi] == oi + ti {
            if inputs.len() > 0 {
                self.lemma_walk_dry(
                    inputs.subrange(1, inputs.len() as int),
                    oi + 1,
                    ti,
                    fed,
                    oj,
                    t,
                );
            } else {
                assert(inputs =~= none);
                self.lemma_emit_none(oi + 1, ti);
            }
        } else {
            let first = self.templates@[ti];
            let s = first.slots() as int;
            lemma_template_slots_grow(self.templates@, (ti + 1) as nat, self.templates@.len());
            if fed > oi {
                lemma_template_slots_grow(
                    self.templates@,
                    (ti + 1) as nat,
                    (self.offsets@[fed - 1] - (fed - 1)) as nat,
                );
            }
            if t == ti {
                if oj > oi {
                    self.lemma_gap_grows(oi, oj - 1);
                }
                assert(inputs =~= none);
            } else {
                lemma_template_slots_grow(self.templates@, (ti + 1) as nat, t as nat);
                if inputs.len() >= s {
                    self.lemma_walk_dry(
                        inputs.subrange(s, inputs.len() as int),
                        oi,
                        ti + 1,
                        fed,
                        oj,
                        t,
                    );
                } else {
                    assert(inputs.subrange(inputs.len() as int, inputs.len() as int) =~= none);
                    self.lemma_emit_none(oi, ti + 1);
                }
            }
        }
    }

    /// In a batch of no more values than the command has slots, a compiled
    /// word whose turn comes when no value is left is given as its base,
    /// nothing put in; it follows the arguments of the compiled words and
    /// of the slot positions with a value before it.
    pub proof fn lemma_word_dry(&self, inputs: Seq<Seq<u8>>, fed: int, oj: int, t: int)
        requires
            self.wf(),
            inputs.len() <= self.slot_total(),
            self.fed_until(0, 0, inputs.len() as int, fed),
            self.word_behind(oj, t),
            fed <= oj,
            oj + template_slots(self.templates@, t as nat) >= inputs.len(),
        ensures
            t + fed < self.filled(inputs).len(),
            self.filled(inputs)[t + fed] == self.templates@[t].base_bytes(),
    {
        self.lemma_walk_dry(inputs, 0, 0, fed, oj, t);
    }

    /// The word at slot position `j` is replaced by the value that comes
    /// after those taken before it, one for each earlier slot position and
    /// one for each mark of an earlier compiled word, where the batch has
    /// that many values; the argument stands where the word stood.
    pub proof fn lemma_slot_value(&self, inputs: Seq<Seq<u8>>, j: int)
        requires
            self.wf(),
            0 <= j < self.offsets@.len(),
            j + template_slots(self.templates@, (self.offsets@[j] - j) as nat) < inputs.len(),
        ensures
            ({
                let which = j + template_slots(self.templates@, (self.offsets@[j] - j) as nat);
                &&& self.offsets@[j] - j >= 0
                &&& self.offsets@[j] < self.filled(inputs).len()
                &&& 0 <= which < inputs.len()
                &&& self.filled(inputs)[self.offsets@[j] as int] == inputs[which]
            }),
    {
        self.lemma_walk_slot(inputs, 0, 0, j);
    }

    /// The compiled word `t`, which stands behind `oj` slot positions,
    /// keeps its place and is filled with the values that come after those
    /// taken before it, where the batch has a value for each of those. With
    /// fewer values left than the word has marks, its later marks stay as
    /// they are in the base.
    pub proof fn lemma_word_value(&self, inputs: Seq<Seq<u8>>, oj: int, t: int)
        requires
            self.wf(),
            self.word_behind(oj, t),
            oj + template_slots(self.templates@, t as nat) <= inputs.len(),
        ensures
            ({
                let used = oj + template_slots(self.templates@, t as nat);
                &&& oj + t < self.filled(inputs).len()
                &&& 0 <= used <= inputs.len()
                &&& self.filled(inputs)[oj + t] == self.templates@[t].fill(
                    inputs.subrange(used, inputs.len() as int),
                )
            }),
    {
        self.lemma_walk_word(inputs, 0, 0, oj, t);
    }
}

/// From one word of the command to a later one, the number of slot
/// positions before it does not fall, rises by no more than the distance,
/// and rises where the earlier word is the pattern.
pub proof fn lemma_slots_below_grows(command: Seq<String>, pattern: Seq<char>, a: nat, b: nat)
    requires
        a <= b,
    ensures
        slots_below(command, pattern, a) <= slots_below(command, pattern, b),
        slots_below(command, pattern, b) - slots_below(command, pattern, a) <= b - a,
        a < b && command[a as int]@ == pattern ==> slots_below(command, pattern, a)
            < slots_below(command, pattern, b),
    decreases b,
{
    if a < b {
        lemma_slots_below_grows(command, pattern, a, (b - 1) as nat);
    }
}

/// The pattern occurs in itself once, at its start, and nothing of it is
/// left when that is removed.
pub proof fn lemma_marks_of_pattern(pat: Seq<u8>)
    requires
        pat.len() > 0,
    ensures
        marks(pat, pat) == seq![0int],
        strip(pat, pat) == Seq::<u8>::empty(),
{
    let rest = pat.subrange(pat.len() as int, pat.len() as int);
    assert(pat.subrange(0, pat.len() as int) =~= pat);
    assert(rest.len() == 0);
    assert(marks(rest, pat) =~= Seq::<int>::empty());
    assert(strip(rest, pat) =~= Seq::<u8>::empty());
    assert(seq![0int] + marks(rest, pat) =~= seq![0int]);
}

/// A word that is the pattern, filled from values of which there is one,
/// is the first of them.
pub proof fn lemma_pattern_filled(pat: Seq<u8>, values: Seq<Seq<u8>>)
    requires
        pat.len() > 0,
        values.len() > 0,
    ensures
        word_filled(pat, pat, values) == values[0],
{
    lemma_marks_of_pattern(pat);
    let none = Seq::<u8>::empty();
    let at = seq![0int];
    assert(splice(none, at, values, 0) == none);
    assert(inserted(values, 0) == 0);
    assert(splice(none, at, values, 1) == splice(none, at, values, 0).subrange(0, 0) + values[0]
        + splice(none, at, values, 0).subrange(0, 0));
    assert(none.subrange(0, 0) + values[0] + none.subrange(0, 0) =~= values[0]);
}

impl Invoker {
    /// The values that the first `i` words of the command take are those of
    /// the slot positions and of the marks of the compiled words among them.
    pub proof fn lemma_taken(&self, pattern: Seq<char>, command: Seq<String>, i: nat)
        requires
            pattern.len() > 0,
            self.lays_out(pattern, command),
            i <= command.len(),
        ensures
            slots_below(command, pattern, i) <= i,
            i - slots_below(command, pattern, i) <= self.templates@.len(),
            slots_below(command, pattern, i) <= self.offsets@.len(),
            occurrences(command, pattern, i) == slots_below(command, pattern, i) + template_slots(
                self.templates@,
                (i - slots_below(command, pattern, i)) as nat,
            ),
        decreases i,
    {
        lemma_bytes_nonempty(pattern);
        lemma_slots_below_grows(command, pattern, 0, i);
        lemma_slots_below_grows(command, pattern, i, command.len());
        if i > 0 {
            let p = (i - 1) as nat;
            self.lemma_taken(pattern, command, p);
            assert(placed(self.offsets@, self.templates@, pattern, command, p as int));
            if command[p as int]@ == pattern {
                lemma_marks_of_pattern(bytes(pattern));
            }
        }
    }

    /// The command has as many slots as the pattern occurs in its words.
    pub proof fn lemma_slot_total(&self, pattern: Seq<char>, command: Seq<String>)
        requires
            pattern.len() > 0,
            self.lays_out(pattern, command),
        ensures
            self.slot_total() == occurrences(command, pattern, command.len()),
    {
        self.lemma_taken(pattern, command, command.len());
    }

    /// A word of the command that is not the pattern stands, compiled,
    /// behind the slot positions that are before it in the command.
    pub proof fn lemma_word_place(&self, pattern: Seq<char>, command: Seq<String>, i: int)
        requires
            pattern.len() > 0,
            self.lays_out(pattern, command),
            0 <= i < command.len(),
            command[i]@ != pattern,
        ensures
            self.word_behind(
                slots_below(command, pattern, i as nat) as int,
                i - slots_below(command, pattern, i as nat),
            ),
    {
        let oj = slots_below(command, pattern, i as nat) as int;
        self.lemma_taken(pattern, command, i as nat);
        assert(placed(self.offsets@, self.templates@, pattern, command, i));
        if oj > 0 {
            let before = self.offsets@[oj - 1];
            assert(numbered(self.offsets@, pattern, command, oj - 1));
            if before >= i {
                lemma_slots_below_grows(command, pattern, i as nat, before as nat);
            }
        }
        if oj < self.offsets@.len() {
            let after = self.offsets@[oj];
            assert(numbered(self.offsets@, pattern, command, oj));
            if after < i {
                lemma_slots_below_grows(command, pattern, after as nat, i as nat);
            }
        }
    }

    /// In the argument vector built from a command, word `i` of the command
    /// stands at index `i` with its occurrences of the pattern replaced by
    /// the values that follow those taken by the words before it, one value
    /// for each occurrence in the order of the occurrences, where the batch
    /// has a value for every occurrence before word `i` and, if word `i` is
    /// the pattern, one for it. So with a value for every slot each value
    /// is used once, in the order of the values.
    pub proof fn lemma_filled_at(
        &self,
        pattern: Seq<char>,
        command: Seq<String>,
        inputs: Seq<Seq<u8>>,
        i: int,
    )
        requires
            self.wf(),
            pattern.len() > 0,
            self.lays_out(pattern, command),
            0 <= i < command.len(),
            occurrences(command, pattern, i as nat) + (if command[i]@ == pattern {
                1int
            } else {
                0int
            }) <= inputs.len(),
        ensures
            i < self.filled(inputs).len(),
            self.filled(inputs)[i] == word_filled(
                bytes(command[i]@),
                bytes(pattern),
                inputs.subrange(occurrences(command, pattern, i as nat) as int, inputs.len() as int),
            ),
    {
        let oj = slots_below(command, pattern, i as nat) as int;
        let used = occurrences(command, pattern, i as nat) as int;
        lemma_bytes_nonempty(pattern);
        self.lemma_taken(pattern, command, i as nat);
        assert(placed(self.offsets@, self.templates@, pattern, command, i));
        if command[i]@ == pattern {
            self.lemma_slot_value(inputs, oj);
            lemma_pattern_filled(bytes(pattern), inputs.subrange(used, inputs.len() as int));
        } else {
            self.lemma_word_place(pattern, command, i);
            self.lemma_word_value(inputs, oj, i - oj);
        }
    }

    /// The number of values taken before a slot position is the number of
    /// times the pattern occurs in the words before it.
    pub proof fn lemma_taken_before_slot(&self, pattern: Seq<char>, command: Seq<String>, j: int)
        requires
            pattern.len() > 0,
            self.lays_out(pattern, command),
            0 <= j < self.offsets@.len(),
        ensures
            self.taken_before(0, 0, j) == occurrences(command, pattern, self.offsets@[j] as nat),
    {
        assert(numbered(self.offsets@, pattern, command, j));
        self.lemma_taken(pattern, command, self.offsets@[j] as nat);
    }

    /// In a batch of no more values than the pattern occurs in the command,
    /// of which `fed` words that are the pattern find a value: a word that
    /// is not the pattern and comes when no value is left is given with
    /// every occurrence of the pattern replaced by nothing. It follows the
    /// words before it without those that are the pattern and found no
    /// value, which are left out. The argument vector is shorter than the
    /// command by the number of words that are left out.
    pub proof fn lemma_filled_dry(
        &self,
        pattern: Seq<char>,
        command: Seq<String>,
        inputs: Seq<Seq<u8>>,
        fed: int,
        i: int,
    )
        requires
            self.wf(),
            pattern.len() > 0,
            self.lays_out(pattern, command),
            inputs.len() <= occurrences(command, pattern, command.len()),
            self.fed_until(0, 0, inputs.len() as int, fed),
            0 <= i < command.len(),
            command[i]@ != pattern,
            fed <= slots_below(command, pattern, i as nat),
            occurrences(command, pattern, i as nat) >= inputs.len(),
        ensures
            self.filled(inputs).len() == command.len() - (slots_below(
                command,
                pattern,
                command.len(),
            ) - fed),
            0 <= i - slots_below(command, pattern, i as nat) + fed < self.filled(inputs).len(),
            self.filled(inputs)[i - slots_below(command, pattern, i as nat) + fed] == strip(
                bytes(command[i]@),
                bytes(pattern),
            ),
    {
        let oj = slots_below(command, pattern, i as nat) as int;
        self.lemma_slot_total(pattern, command);
        self.lemma_taken(pattern, command, i as nat);
        assert(placed(self.offsets@, self.templates@, pattern, command, i));
        self.lemma_word_place(pattern, command, i);
        self.lemma_underfill_length(inputs, fed);
        self.lemma_word_dry(inputs, fed, oj, i - oj);
    }
}

/// More words of the command hold no fewer occurrences of the pattern.
pub proof fn lemma_occurrences_grow(command: Seq<String>, pattern: Seq<char>, a: nat, b: nat)
    requires
        a <= b,
    ensures
        occurrences(command, pattern, a) <= occurrences(command, pattern, b),
    decreases b,
{
    if a < b {
        lemma_occurrences_grow(command, pattern, a, (b - 1) as nat);
    }
}

/// A word without a mark is left whole, whatever values there are.
pub proof fn lemma_no_mark_whole(word: Seq<u8>, pat: Seq<u8>, values: Seq<Seq<u8>>)
    requires
        pat.len() > 0,
        marks(word, pat).len() == 0,
    ensures
        strip(word, pat) == word,
        word_filled(word, pat, values) == word,
{
    assert forall|j: int| !matches_at(word, pat, j) by {
        if matches_at(word, pat, j) {
            lemma_occurrence_gives_mark(word, pat, j);
        }
    }
    lemma_strip_none(word, pat);
}

impl Invoker {
    /// A batch with exactly one value for each occurrence of the pattern
    /// in the command gives one argument for each word of the command. The
    /// argument for word `i` is that word with its occurrences of the
    /// pattern replaced, in their order, by the values that follow those
    /// used for the words before it: every value is used once, in order.
    pub proof fn lemma_exact_fill_words(
        &self,
        pattern: Seq<char>,
        command: Seq<String>,
        inputs: Seq<Seq<u8>>,
    )
        requires
            self.wf(),
            pattern.len() > 0,
            self.lays_out(pattern, command),
            inputs.len() == occurrences(command, pattern, command.len()),
        ensures
            self.filled(inputs).len() == command.len(),
            forall|i: int|
                0 <= i < command.len() ==> (#[trigger] self.filled(inputs)[i]) == word_filled(
                    bytes(command[i]@),
                    bytes(pattern),
                    inputs.subrange(
                        occurrences(command, pattern, i as nat) as int,
                        inputs.len() as int,
                    ),
                ),
    {
        lemma_bytes_nonempty(pattern);
        self.lemma_slot_total(pattern, command);
        self.lemma_exact_fill(inputs);
        assert forall|i: int| 0 <= i < command.len() implies (#[trigger] self.filled(inputs)[i])
            == word_filled(
            bytes(command[i]@),
            bytes(pattern),
            inputs.subrange(occurrences(command, pattern, i as nat) as int, inputs.len() as int),
        ) by {
            lemma_occurrences_grow(command, pattern, (i + 1) as nat, command.len());
            if command[i]@ == pattern {
                lemma_marks_of_pattern(bytes(pattern));
            }
            self.lemma_filled_at(pattern, command, inputs, i);
        }
    }

    /// Where no word of the command holds the pattern inside, so that the
    /// slots are the words that are the pattern, a batch of fewer values
    /// than slots gives the command with the first of those words replaced
    /// by the values in order and the others left out: the argument vector
    /// is shorter by the number of words left out, and every other word is
    /// given as it is, in order, also behind a word that was left out.
    #[verifier::rlimit(50)]
    pub proof fn lemma_underfill_plain(
        &self,
        pattern: Seq<char>,
        command: Seq<String>,
        inputs: Seq<Seq<u8>>,
    )
        requires
            self.wf(),
            pattern.len() > 0,
            self.lays_out(pattern, command),
            forall|i: int|
                0 <= i < command.len() ==> (#[trigger] command[i])@ == pattern || marks(
                    bytes(command[i]@),
                    bytes(pattern),
                ).len() == 0,
            inputs.len() <= slots_below(command, pattern, command.len()),
        ensures
            self.filled(inputs).len() == command.len() - (slots_below(
                command,
                pattern,
                command.len(),
            ) - inputs.len()),
            forall|i: int|
                #![trigger command[i]]
                0 <= i < command.len() ==> {
                    let oj = slots_below(command, pattern, i as nat) as int;
                    if command[i]@ == pattern {
                        oj < inputs.len() ==> self.filled(inputs)[i] == inputs[oj]
                    } else if oj <= inputs.len() {
                        self.filled(inputs)[i] == bytes(command[i]@)
                    } else {
                        self.filled(inputs)[i - oj + inputs.len()] == bytes(command[i]@)
                    }
                },
    {
        let pb = bytes(pattern);
        let n = command.len();
        let have = inputs.len() as int;
        lemma_bytes_nonempty(pattern);
        lemma_marks_of_pattern(pb);
        assert forall|i: nat| i <= n implies occurrences(command, pattern, i) == slots_below(
            command,
            pattern,
            i,
        ) by {
            lemma_plain_taken(command, pattern, i);
        }
        self.lemma_slot_total(pattern, command);
        if have > 0 {
            self.lemma_taken_before_slot(pattern, command, have - 1);
            assert(numbered(self.offsets@, pattern, command, have - 1));
        }
        if have < self.offsets@.len() {
            self.lemma_taken_before_slot(pattern, command, have);
            assert(numbered(self.offsets@, pattern, command, have));
        }
        assert(self.fed_until(0, 0, have, have));
        self.lemma_underfill_length(inputs, have);
        assert forall|i: int|
            #![trigger command[i]]
            0 <= i < command.len() implies {
            let oj = slots_below(command, pattern, i as nat) as int;
            if command[i]@ == pattern {
                oj < inputs.len() ==> self.filled(inputs)[i] == inputs[oj]
            } else if oj <= inputs.len() {
                self.filled(inputs)[i] == bytes(command[i]@)
            } else {
                self.filled(inputs)[i - oj + inputs.len()] == bytes(command[i]@)
            }
        } by {
            let oj = slots_below(command, pattern, i as nat) as int;
            assert(occurrences(command, pattern, i as nat) == oj);
            if command[i]@ == pattern {
                if oj < have {
                    self.lemma_filled_at(pattern, command, inputs, i);
                    lemma_pattern_filled(pb, inputs.subrange(oj, have));
                }
            } else if oj <= have {
                self.lemma_filled_at(pattern, command, inputs, i);
                lemma_no_mark_whole(bytes(command[i]@), pb, inputs.subrange(oj, have));
            } else {
                self.lemma_filled_dry(pattern, command, inputs, have, i);
                lemma_no_mark_whole(bytes(command[i]@), pb, inputs);
            }
        }
    }

    /// Where no word of the command is the pattern itself, a batch of fewer
    /// values than the pattern occurs gives one argument for each word of
    /// the command. Taking the occurrences word by word and from the left,
    /// the first are replaced by the values in order, each value used once,
    /// and the occurrences for which no value is left are replaced by
    /// nothing.
    pub proof fn lemma_underfill_inside(
        &self,
        pattern: Seq<char>,
        command: Seq<String>,
        inputs: Seq<Seq<u8>>,
    )
        requires
            self.wf(),
            pattern.len() > 0,
            self.lays_out(pattern, command),
            forall|i: int| 0 <= i < command.len() ==> (#[trigger] command[i])@ != pattern,
            inputs.len() <= occurrences(command, pattern, command.len()),
        ensures
            self.filled(inputs).len() == command.len(),
            forall|i: int|
                #![trigger command[i]]
                0 <= i < command.len() ==> {
                    let before = occurrences(command, pattern, i as nat) as int;
                    let from = if before <= inputs.len() {
                        before
                    } else {
                        inputs.len() as int
                    };
                    self.filled(inputs)[i] == word_filled(
                        bytes(command[i]@),
                        bytes(pattern),
                        inputs.subrange(from, inputs.len() as int),
                    )
                },
    {
        let pb = bytes(pattern);
        let have = inputs.len() as int;
        lemma_bytes_nonempty(pattern);
        assert forall|i: nat| i <= command.len() implies slots_below(command, pattern, i)
            == 0 by {
            lemma_none_below(command, pattern, i);
        }
        self.lemma_slot_total(pattern, command);
        assert(self.fed_until(0, 0, have, 0));
        self.lemma_underfill_length(inputs, 0);
        assert forall|i: int|
            #![trigger command[i]]
            0 <= i < command.len() implies {
            let before = occurrences(command, pattern, i as nat) as int;
            let from = if before <= inputs.len() {
                before
            } else {
                inputs.len() as int
            };
            self.filled(inputs)[i] == word_filled(
                bytes(command[i]@),
                bytes(pattern),
                inputs.subrange(from, inputs.len() as int),
            )
        } by {
            let before = occurrences(command, pattern, i as nat) as int;
            if before <= have {
                self.lemma_filled_at(pattern, command, inputs, i);
            } else {
                self.lemma_filled_dry(pattern, command, inputs, 0, i);
                assert(inputs.subrange(have, have).len() == 0);
            }
        }
    }
}

/// Where no word of the command holds the pattern inside, the pattern
/// occurs in its first words as often as they are the pattern.
pub proof fn lemma_plain_taken(command: Seq<String>, pattern: Seq<char>, i: nat)
    requires
        pattern.len() > 0,
        i <= command.len(),
        forall|i: int|
            0 <= i < command.len() ==> (#[trigger] command[i])@ == pattern || marks(
                bytes(command[i]@),
                bytes(pattern),
            ).len() == 0,
    ensures
        occurrences(command, pattern, i) == slots_below(command, pattern, i),
    decreases i,
{
    if i > 0 {
        lemma_bytes_nonempty(pattern);
        lemma_marks_of_pattern(bytes(pattern));
        lemma_plain_taken(command, pattern, (i - 1) as nat);
        assert(command[i - 1]@ == pattern || marks(bytes(command[i - 1]@), bytes(pattern)).len()
            == 0);
    }
}

/// Where no word of the command is the pattern, no slot position lies
/// before any word.
pub proof fn lemma_none_below(command: Seq<String>, pattern: Seq<char>, i: nat)
    requires
        i <= command.len(),
        forall|i: int| 0 <= i < command.len() ==> (#[trigger] command[i])@ != pattern,
    ensures
        slots_below(command, pattern, i) == 0,
    decreases i,
{
    if i > 0 {
        lemma_none_below(command, pattern, (i - 1) as nat);
    }
}

/// What is put into a base depends only on the values that are put in.
pub proof fn lemma_splice_prefix(
    base: Seq<u8>,
    at: Seq<int>,
    a: Seq<Seq<u8>>,
    b: Seq<Seq<u8>>,
    k: nat,
)
    requires
        k <= a.len(),
        k <= b.len(),
        forall|i: int| 0 <= i < k ==> a[i] == b[i],
    ensures
        inserted(a, k) == inserted(b, k),
        splice(base, at, a, k) == splice(base, at, b, k),
    decreases k,
{
    if k > 0 {
        lemma_splice_prefix(base, at, a, b, (k - 1) as nat);
    }
}

/// More compiled words take no fewer values.
pub proof fn lemma_template_slots_grow(templates: Seq<Template>, a: nat, b: nat)
    requires
        a <= b,
    ensures
        template_slots(templates, a) <= template_slots(templates, b),
    decreases b,
{
    if a < b {
        lemma_template_slots_grow(templates, a, (b - 1) as nat);
    }
}

} // verus!
