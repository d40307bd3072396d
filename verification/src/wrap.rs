//! Greedy line breaking driven by a width oracle.
//!
//! The text to break is turned into a sequence of units. A `LineBreaker`
//! walks them; for each word it proposes the line that would result from
//! adding the word (`pending`), and the caller answers whether that line is
//! too wide (`answer`), after measuring it with whatever it draws with.
use crate::page::strings_view;
use crate::text::{
    lemma_words_wf, lemma_split_lines_nonempty, lemma_words_are_single, lemma_words_concat, lemma_words_of_all_concat,
    lemma_words_of_lines, push_char, split_lines, words, words_of_all,
};
use vstd::prelude::*;

verus! {

/// One unit of text to break into lines.
pub enum WrapUnit {
    /// A piece that joins the current line, if it fits.
    Word(String),
    /// The end of a paragraph: the current line, if any, is finished.
    EndLine,
    /// A line of its own, emitted as it is.
    Line(String),
}

/// The mathematical value of a [`WrapUnit`].
pub enum Unit {
    Word(Seq<char>),
    EndLine,
    Line(Seq<char>),
}

impl View for WrapUnit {
    type V = Unit;

    open spec fn view(&self) -> Unit {
        match self {
            WrapUnit::Word(w) => Unit::Word(w@),
            WrapUnit::EndLine => Unit::EndLine,
            WrapUnit::Line(s) => Unit::Line(s@),
        }
    }
}

/// The views of a sequence of units.
pub open spec fn units_view(v: Seq<WrapUnit>) -> Seq<Unit> {
    v.map_values(|u: WrapUnit| u@)
}

/// The separator put between two pieces of a line.
pub open spec fn separator(spaced: bool) -> Seq<char> {
    if spaced {
        seq![' ']
    } else {
        seq![]
    }
}

/// The line that results from adding `w` to `line`.
pub open spec fn trial_of(line: Seq<char>, w: Seq<char>, spaced: bool) -> Seq<char> {
    if line.len() == 0 {
        w
    } else {
        line + separator(spaced) + w
    }
}

/// The lines that greedy breaking of `units` produces, starting with the
/// unfinished line `line`, when `wide` tells which lines are too wide.
pub open spec fn run(
    units: Seq<Unit>,
    line: Seq<char>,
    spaced: bool,
    wide: spec_fn(Seq<char>) -> bool,
) -> Seq<Seq<char>>
    decreases units.len(),
{
    if units.len() == 0 {
        if line.len() > 0 {
            seq![line]
        } else {
            seq![]
        }
    } else {
        match units[0] {
            Unit::Word(w) => {
                let t = trial_of(line, w, spaced);
                if wide(t) && line.len() > 0 {
                    seq![line] + run(units.drop_first(), w, spaced, wide)
                } else {
                    run(units.drop_first(), t, spaced, wide)
                }
            },
            Unit::EndLine => (if line.len() > 0 {
                seq![line]
            } else {
                Seq::<Seq<char>>::empty()
            }) + run(units.drop_first(), seq![], spaced, wide),
            Unit::Line(s) => seq![s] + run(units.drop_first(), line, spaced, wide),
        }
    }
}

/// `lines`, or the single line `t` when `lines` is empty and `fallback` is a
/// non-empty `t`.
pub open spec fn with_fallback(lines: Seq<Seq<char>>, fallback: Option<Seq<char>>) -> Seq<
    Seq<char>,
> {
    match fallback {
        Some(t) => if lines.len() == 0 && t.len() > 0 {
            seq![t]
        } else {
            lines
        },
        None => lines,
    }
}

/// The units of one paragraph of flowing text.
pub open spec fn paragraph_units(para: Seq<char>, wrap_words: bool) -> Seq<Unit> {
    if para.len() == 0 {
        seq![Unit::Line(seq![])]
    } else if !wrap_words {
        seq![Unit::Line(para)]
    } else {
        words(para).map_values(|w: Seq<char>| Unit::Word(w)).push(Unit::EndLine)
    }
}

/// The units of the paragraphs `paras`, in order.
pub open spec fn paragraphs_units(paras: Seq<Seq<char>>, wrap_words: bool) -> Seq<Unit>
    decreases paras.len(),
{
    if paras.len() == 0 {
        seq![]
    } else {
        paragraphs_units(paras.drop_last(), wrap_words) + paragraph_units(paras.last(), wrap_words)
    }
}

/// The units of flowing text: its paragraphs are its lines.
pub open spec fn flow_units(text: Seq<char>, wrap_words: bool) -> Seq<Unit> {
    paragraphs_units(split_lines(text), wrap_words)
}

/// The units of one line of preformatted text: each character is a piece.
pub open spec fn monospace_units(line: Seq<char>) -> Seq<Unit> {
    if line.len() == 0 {
        seq![Unit::Line(seq![])]
    } else {
        line.map_values(|c: char| Unit::Word(seq![c])).push(Unit::EndLine)
    }
}

/// The lines of flowing text, broken between words; a text that yields no
/// line at all is kept whole.
pub open spec fn wrap_flow(text: Seq<char>, wrap_words: bool, wide: spec_fn(Seq<char>) -> bool) -> Seq<
    Seq<char>,
> {
    with_fallback(run(flow_units(text, wrap_words), seq![], true, wide), Some(text))
}

/// The lines of one line of preformatted text, broken between characters.
pub open spec fn wrap_monospace(line: Seq<char>, wide: spec_fn(Seq<char>) -> bool) -> Seq<
    Seq<char>,
> {
    run(monospace_units(line), seq![], false, wide)
}

/// What stands for a missing title.
pub open spec fn no_title() -> Seq<char> {
    "(no title)"@
}

/// The lines of a page title: the placeholder for an empty title.
pub open spec fn wrap_title(text: Seq<char>, wide: spec_fn(Seq<char>) -> bool) -> Seq<Seq<char>> {
    if text.len() == 0 {
        seq![no_title()]
    } else {
        wrap_flow(text, true, wide)
    }
}

/// The state of a [`LineBreaker`] as mathematical values.
pub struct BreakerView {
    pub units: Seq<Unit>,
    pub spaced: bool,
    pub next: nat,
    pub line: Seq<char>,
    pub lines: Seq<Seq<char>>,
    pub fallback: Option<Seq<char>>,
}

/// A breaker at the start of `units`.
pub open spec fn start(units: Seq<Unit>, spaced: bool, fallback: Option<Seq<char>>) -> BreakerView {
    BreakerView { units, spaced, next: 0, line: seq![], lines: seq![], fallback }
}

/// The state after the units that need no answer (ends of paragraphs and
/// whole lines) from `st.next` on have been taken.
pub open spec fn settle(st: BreakerView) -> BreakerView
    decreases st.units.len() - st.next,
{
    if st.next >= st.units.len() {
        st
    } else {
        match st.units[st.next as int] {
            Unit::Word(_) => st,
            Unit::EndLine => settle(
                BreakerView {
                    next: st.next + 1,
                    line: seq![],
                    lines: if st.line.len() > 0 {
                        st.lines.push(st.line)
                    } else {
                        st.lines
                    },
                    ..st
                },
            ),
            Unit::Line(s) => settle(BreakerView { next: st.next + 1, lines: st.lines.push(s), ..st }),
        }
    }
}

/// The word the breaker waits on.
pub open spec fn pending_word(st: BreakerView) -> Seq<char> {
    st.units[st.next as int]->Word_0
}

/// The line the breaker asks about.
pub open spec fn pending_trial(st: BreakerView) -> Seq<char> {
    trial_of(st.line, pending_word(st), st.spaced)
}

/// The state after the answer `too_wide` about the pending line: a line that
/// is too wide, when the current line is not empty, ends the current line
/// and the word starts the next one; otherwise the word joins the line.
pub open spec fn feed(st: BreakerView, too_wide: bool) -> BreakerView {
    let w = pending_word(st);
    if too_wide && st.line.len() > 0 {
        settle(BreakerView { next: st.next + 1, lines: st.lines.push(st.line), line: w, ..st })
    } else {
        settle(BreakerView { next: st.next + 1, line: pending_trial(st), ..st })
    }
}

/// The lines a finished breaker hands out.
pub open spec fn finished(st: BreakerView) -> Seq<Seq<char>> {
    with_fallback(
        if st.line.len() > 0 {
            st.lines.push(st.line)
        } else {
            st.lines
        },
        st.fallback,
    )
}

/// The lines the breaker ends with when every answer it gets from now on is
/// what `wide` says.
pub open spec fn outcome(st: BreakerView, wide: spec_fn(Seq<char>) -> bool) -> Seq<Seq<char>> {
    with_fallback(st.lines + run(st.units.skip(st.next as int), st.line, st.spaced, wide), st.fallback)
}

/// A breaker of lines: see the module documentation.
pub struct LineBreaker {
    pub units: Vec<WrapUnit>,
    pub spaced: bool,
    pub next: usize,
    pub line: String,
    pub lines: Vec<String>,
    pub fallback: Option<String>,
}

impl View for LineBreaker {
    type V = BreakerView;

    open spec fn view(&self) -> BreakerView {
        BreakerView {
            units: units_view(self.units@),
            spaced: self.spaced,
            next: self.next as nat,
            line: self.line@,
            lines: strings_view(self.lines@),
            fallback: match self.fallback {
                Some(t) => Some(t@),
                None => None,
            },
        }
    }
}

impl LineBreaker {
    /// The breaker waits on a word, or has taken every unit.
    pub open spec fn wf(&self) -> bool {
        &&& self.next <= self.units.len()
        &&& self.next < self.units.len() ==> self.units@[self.next as int] is Word
    }

    /// Takes the units that need no answer.
    fn settle(&mut self)
        requires
            old(self).next <= old(self).units.len(),
        ensures
            final(self)@ == settle(old(self)@),
            final(self).wf(),
        decreases old(self).units.len() - old(self).next,
    {
        if self.next >= self.units.len() {
            return;
        }
        match &self.units[self.next] {
            WrapUnit::Word(_) => {},
            WrapUnit::EndLine => {
                let mut line = String::new();
                std::mem::swap(&mut line, &mut self.line);
                if !line.as_str().is_empty() {
                    proof {
                        crate::page::lemma_strings_view_push(self.lines@, line);
                    }
                    self.lines.push(line);
                }
                self.next = self.next + 1;
                self.settle();
            },
            WrapUnit::Line(s) => {
                let s2 = s.clone();
                proof {
                    crate::page::lemma_strings_view_push(self.lines@, s2);
                }
                self.lines.push(s2);
                self.next = self.next + 1;
                self.settle();
            },
        }
    }

    /// A breaker over `units`, with `fallback` as the single line when the
    /// units yield none.
    pub fn new(units: Vec<WrapUnit>, spaced: bool, fallback: Option<String>) -> (r: Self)
        ensures
            r.wf(),
            r@ == settle(start(units_view(units@), spaced, match fallback {
                Some(t) => Some(t@),
                None => None,
            })),
    {
        let mut b = LineBreaker { units, spaced, next: 0, line: String::new(), lines: Vec::new(), fallback };
        proof {
            assert(strings_view(b.lines@) =~= Seq::<Seq<char>>::empty());
        }
        b.settle();
        b
    }

    /// The line to measure next, if a word is pending.
    pub fn pending(&self) -> (r: Option<String>)
        requires
            self.wf(),
        ensures
            r is Some <==> self.next < self.units.len(),
            r matches Some(t) ==> t@ == pending_trial(self@),
    {
        if self.next >= self.units.len() {
            return None;
        }
        match &self.units[self.next] {
            WrapUnit::Word(w) => {
                if self.line.as_str().is_empty() {
                    Some(w.clone())
                } else {
                    let mut t = self.line.clone();
                    if self.spaced {
                        push_char(&mut t, ' ');
                    }
                    t.append(w.as_str());
                    proof {
                        assert(t@ =~= trial_of(self.line@, w@, self.spaced));
                    }
                    Some(t)
                }
            },
            _ => None,
        }
    }

    /// Takes the answer whether the pending line is too wide.
    pub fn answer(&mut self, too_wide: bool)
        requires
            old(self).wf(),
            old(self).next < old(self).units.len(),
        ensures
            final(self).wf(),
            final(self)@ == feed(old(self)@, too_wide),
    {
        let trial = match self.pending() {
            Some(t) => t,
            None => String::new(),
        };
        let w = match &self.units[self.next] {
            WrapUnit::Word(w) => w.clone(),
            _ => String::new(),
        };
        if too_wide && !self.line.as_str().is_empty() {
            let mut line = w;
            std::mem::swap(&mut line, &mut self.line);
            proof {
                crate::page::lemma_strings_view_push(self.lines@, line);
            }
            self.lines.push(line);
        } else {
            self.line = trial;
        }
        self.next = self.next + 1;
        self.settle();
    }

    /// The lines, once every unit is taken.
    pub fn finish(self) -> (r: Vec<String>)
        requires
            self.wf(),
            self.next == self.units.len(),
        ensures
            strings_view(r@) == finished(self@),
    {
        let LineBreaker { line, mut lines, fallback, .. } = self;
        if !line.as_str().is_empty() {
            proof {
                crate::page::lemma_strings_view_push(lines@, line);
            }
            lines.push(line);
        }
        if lines.len() == 0 {
            if let Some(t) = fallback {
                if !t.as_str().is_empty() {
                    let mut one: Vec<String> = Vec::new();
                    proof {
                        crate::page::lemma_strings_view_push(one@, t);
                    }
                    one.push(t);
                    proof {
                        assert(strings_view(lines@) =~= Seq::<Seq<char>>::empty());
                    }
                    return one;
                }
            }
        }
        lines
    }
}

/// The units of a page title.
pub open spec fn title_units(text: Seq<char>) -> Seq<Unit> {
    if text.len() == 0 {
        seq![Unit::Line(no_title())]
    } else {
        flow_units(text, true)
    }
}

/// The single line a title falls back to.
pub open spec fn title_fallback(text: Seq<char>) -> Option<Seq<char>> {
    if text.len() == 0 {
        None
    } else {
        Some(text)
    }
}

// ---------------------------------------------------------------------------
// Laws
// ---------------------------------------------------------------------------

/// Taking the units that need no answer does not change where the breaker
/// ends up.
pub proof fn lemma_settle_keeps_outcome(st: BreakerView, wide: spec_fn(Seq<char>) -> bool)
    requires
        st.next <= st.units.len(),
    ensures
        outcome(settle(st), wide) == outcome(st, wide),
    decreases st.units.len() - st.next,
{
    if st.next < st.units.len() {
        let n = st.next as int;
        let rest = st.units.skip(n);
        assert(rest[0] == st.units[n]);
        assert(rest.drop_first() == st.units.skip(n + 1));
        match st.units[n] {
            Unit::Word(_) => {},
            Unit::EndLine => {
                let st2 = BreakerView {
                    next: st.next + 1,
                    line: seq![],
                    lines: if st.line.len() > 0 {
                        st.lines.push(st.line)
                    } else {
                        st.lines
                    },
                    ..st
                };
                lemma_settle_keeps_outcome(st2, wide);
                let tail = run(st.units.skip(n + 1), seq![], st.spaced, wide);
                if st.line.len() > 0 {
                    assert(st.lines.push(st.line) + tail =~= st.lines + (seq![st.line] + tail));
                } else {
                    assert(st.lines + tail =~= st.lines + (Seq::<Seq<char>>::empty() + tail));
                }
            },
            Unit::Line(l) => {
                let st2 = BreakerView { next: st.next + 1, lines: st.lines.push(l), ..st };
                lemma_settle_keeps_outcome(st2, wide);
                let tail = run(st.units.skip(n + 1), st.line, st.spaced, wide);
                assert(st.lines.push(l) + tail =~= st.lines + (seq![l] + tail));
            },
        }
    }
}

/// Answering what `wide` says about the pending line does not change where
/// the breaker ends up: a breaker fed by `wide` ends with `outcome(st, wide)`.
pub proof fn lemma_answer_keeps_outcome(
    st: BreakerView,
    too_wide: bool,
    wide: spec_fn(Seq<char>) -> bool,
)
    requires
        st.next < st.units.len(),
        st.units[st.next as int] is Word,
        too_wide == wide(pending_trial(st)),
    ensures
        outcome(feed(st, too_wide), wide) == outcome(st, wide),
{
    let n = st.next as int;
    let rest = st.units.skip(n);
    assert(rest[0] == st.units[n]);
    assert(rest.drop_first() == st.units.skip(n + 1));
    let w = pending_word(st);
    if too_wide && st.line.len() > 0 {
        let st2 = BreakerView { next: st.next + 1, lines: st.lines.push(st.line), line: w, ..st };
        lemma_settle_keeps_outcome(st2, wide);
        let tail = run(st.units.skip(n + 1), w, st.spaced, wide);
        assert(st.lines.push(st.line) + tail =~= st.lines + (seq![st.line] + tail));
    } else {
        let st2 = BreakerView { next: st.next + 1, line: pending_trial(st), ..st };
        lemma_settle_keeps_outcome(st2, wide);
    }
}

/// A fresh breaker ends with the greedy breaking of all its units.
pub proof fn lemma_start_outcome(
    units: Seq<Unit>,
    spaced: bool,
    fallback: Option<Seq<char>>,
    wide: spec_fn(Seq<char>) -> bool,
)
    ensures
        outcome(settle(start(units, spaced, fallback)), wide) == with_fallback(
            run(units, seq![], spaced, wide),
            fallback,
        ),
{
    lemma_settle_keeps_outcome(start(units, spaced, fallback), wide);
    assert(units.skip(0) == units);
    assert(Seq::<Seq<char>>::empty() + run(units, seq![], spaced, wide) =~= run(
        units,
        seq![],
        spaced,
        wide,
    ));
}

/// A breaker that has taken every unit hands out its outcome.
pub proof fn lemma_finished_outcome(st: BreakerView, wide: spec_fn(Seq<char>) -> bool)
    requires
        st.next == st.units.len(),
    ensures
        finished(st) == outcome(st, wide),
{
    assert(st.units.skip(st.next as int) =~= Seq::<Unit>::empty());
    if st.line.len() > 0 {
        assert(st.lines + seq![st.line] =~= st.lines.push(st.line));
    } else {
        assert(st.lines + Seq::<Seq<char>>::empty() =~= st.lines);
    }
}

/// The title units end as the title's lines.
pub proof fn lemma_title_outcome(text: Seq<char>, wide: spec_fn(Seq<char>) -> bool)
    ensures
        with_fallback(run(title_units(text), seq![], true, wide), title_fallback(text)) == wrap_title(
            text,
            wide,
        ),
{
    if text.len() == 0 {
        let u = title_units(text);
        assert(u.drop_first() =~= Seq::<Unit>::empty());
        assert(run(u.drop_first(), seq![], true, wide) == Seq::<Seq<char>>::empty());
        assert(u[0] == Unit::Line(no_title()));
        assert(run(u, seq![], true, wide) == seq![no_title()] + run(u.drop_first(), seq![], true, wide));
        assert(seq![no_title()] + Seq::<Seq<char>>::empty() =~= seq![no_title()]);
    }
}

proof fn lemma_run_keeps_a_line(us: Seq<Unit>, line: Seq<char>, spaced: bool, wide: spec_fn(Seq<char>) -> bool)
    requires
        line.len() > 0,
    ensures
        run(us, line, spaced, wide).len() > 0,
    decreases us.len(),
{
    if us.len() > 0 {
        match us[0] {
            Unit::Word(w) => {
                let t = trial_of(line, w, spaced);
                if wide(t) && line.len() > 0 {
                } else {
                    assert(t.len() >= line.len());
                    lemma_run_keeps_a_line(us.drop_first(), t, spaced, wide);
                }
            },
            Unit::EndLine => {},
            Unit::Line(_) => {},
        }
    }
}

/// Flowing text breaks into at least one line, even when it is empty.
pub proof fn lemma_wrap_flow_has_a_line(text: Seq<char>, wrap_words: bool, wide: spec_fn(Seq<char>) -> bool)
    ensures
        wrap_flow(text, wrap_words, wide).len() >= 1,
{
    if text.len() == 0 {
        let us = flow_units(text, wrap_words);
        assert(split_lines(text) == seq![Seq::<char>::empty()]);
        assert(split_lines(text).drop_last() =~= Seq::<Seq<char>>::empty());
        assert(paragraphs_units(split_lines(text).drop_last(), wrap_words) == Seq::<Unit>::empty());
        assert(paragraph_units(split_lines(text).last(), wrap_words) == seq![Unit::Line(seq![])]);
        assert(us =~= seq![Unit::Line(seq![])]);
        assert(us[0] == Unit::Line(seq![]));
    }
}

/// The lines of preformatted text `ls`, each broken on its own, in order.
pub open spec fn wrap_pre_lines(ls: Seq<Seq<char>>, wide: spec_fn(Seq<char>) -> bool) -> Seq<Seq<char>>
    decreases ls.len(),
{
    if ls.len() == 0 {
        seq![]
    } else {
        wrap_pre_lines(ls.drop_last(), wide) + wrap_monospace(ls.last(), wide)
    }
}

/// The lines of a block of preformatted text: its own lines, each broken
/// between characters.
pub open spec fn wrap_pre(text: Seq<char>, wide: spec_fn(Seq<char>) -> bool) -> Seq<Seq<char>> {
    wrap_pre_lines(split_lines(text), wide)
}

/// Preformatted text breaks into at least one line, even when it is empty.
pub proof fn lemma_wrap_pre_has_a_line(text: Seq<char>, wide: spec_fn(Seq<char>) -> bool)
    ensures
        wrap_pre(text, wide).len() >= 1,
{
    let ls = split_lines(text);
    lemma_split_lines_nonempty(text);
    lemma_wrap_monospace_has_a_line(ls.last(), wide);
}

/// Without breaking between words, flowing text keeps its lines exactly as
/// they are, whatever the widths.
pub proof fn lemma_wrap_flow_unbroken(text: Seq<char>, wide: spec_fn(Seq<char>) -> bool)
    ensures
        wrap_flow(text, false, wide) == split_lines(text),
{
    let ps = split_lines(text);
    lemma_split_lines_nonempty(text);
    lemma_paragraphs_units_unbroken(ps);
    lemma_run_whole_lines(ps, true, wide);
}

proof fn lemma_paragraphs_units_unbroken(ps: Seq<Seq<char>>)
    ensures
        paragraphs_units(ps, false) == ps.map_values(|p: Seq<char>| Unit::Line(p)),
    decreases ps.len(),
{
    if ps.len() > 0 {
        lemma_paragraphs_units_unbroken(ps.drop_last());
        let p = ps.last();
        if p.len() == 0 {
            assert(p =~= Seq::<char>::empty());
        }
        assert(paragraph_units(p, false) == seq![Unit::Line(p)]);
        assert(ps.drop_last().map_values(|p: Seq<char>| Unit::Line(p)) + seq![Unit::Line(p)]
            =~= ps.map_values(|p: Seq<char>| Unit::Line(p)));
    }
}

proof fn lemma_run_whole_lines(ps: Seq<Seq<char>>, spaced: bool, wide: spec_fn(Seq<char>) -> bool)
    ensures
        run(ps.map_values(|p: Seq<char>| Unit::Line(p)), seq![], spaced, wide) == ps,
    decreases ps.len(),
{
    let us = ps.map_values(|p: Seq<char>| Unit::Line(p));
    if ps.len() > 0 {
        lemma_run_whole_lines(ps.drop_first(), spaced, wide);
        assert(us.drop_first() =~= ps.drop_first().map_values(|p: Seq<char>| Unit::Line(p)));
        assert(us[0] == Unit::Line(ps[0]));
        assert(seq![ps[0]] + ps.drop_first() =~= ps);
    } else {
        assert(ps =~= Seq::<Seq<char>>::empty());
    }
}

/// A line of preformatted text breaks into at least one line, even when it is
/// empty.
pub proof fn lemma_wrap_monospace_has_a_line(line: Seq<char>, wide: spec_fn(Seq<char>) -> bool)
    ensures
        wrap_monospace(line, wide).len() >= 1,
{
    let us = monospace_units(line);
    if line.len() == 0 {
        assert(us[0] == Unit::Line(seq![]));
    } else {
        assert(us[0] == Unit::Word(seq![line[0]]));
        assert(trial_of(seq![], seq![line[0]], false) == seq![line[0]]);
        lemma_run_keeps_a_line(us.drop_first(), seq![line[0]], false, wide);
    }
}

// ---------------------------------------------------------------------------
// Units
// ---------------------------------------------------------------------------

proof fn lemma_units_view_push(v: Seq<WrapUnit>, u: WrapUnit)
    ensures
        units_view(v.push(u)) == units_view(v).push(u@),
{
    assert(units_view(v.push(u)) =~= units_view(v).push(u@));
}

/// Appends the units of one paragraph to `out`.
fn push_paragraph_units(para: &String, wrap_words: bool, out: &mut Vec<WrapUnit>)
    ensures
        units_view(final(out)@) == units_view(old(out)@) + paragraph_units(para@, wrap_words),
{
    let ghost before = units_view(out@);
    if para.as_str().is_empty() {
        let u = WrapUnit::Line(String::new());
        proof {
            lemma_units_view_push(out@, u);
        }
        out.push(u);
        proof {
            assert(units_view(out@) =~= before + paragraph_units(para@, wrap_words));
        }
    } else if !wrap_words {
        let u = WrapUnit::Line(para.clone());
        proof {
            lemma_units_view_push(out@, u);
        }
        out.push(u);
        proof {
            assert(units_view(out@) =~= before + paragraph_units(para@, wrap_words));
        }
    } else {
        let ws = crate::text::split_words(para.as_str());
        let ghost wv = ws@.map_values(|w: String| w@);
        let ghost mapped = words(para@).map_values(|w: Seq<char>| Unit::Word(w));
        for i in 0..ws.len()
            invariant
                wv == ws@.map_values(|w: String| w@),
                wv == words(para@),
                mapped == words(para@).map_values(|w: Seq<char>| Unit::Word(w)),
                units_view(out@) == before + mapped.take(i as int),
        {
            let u = WrapUnit::Word(ws[i].clone());
            proof {
                lemma_units_view_push(out@, u);
                assert(wv[i as int] == ws@[i as int]@);
                assert(mapped.take(i + 1) =~= mapped.take(i as int).push(u@));
            }
            out.push(u);
        }
        proof {
            lemma_units_view_push(out@, WrapUnit::EndLine);
            assert(mapped.take(ws.len() as int) =~= mapped);
        }
        out.push(WrapUnit::EndLine);
        proof {
            assert(units_view(out@) =~= before + paragraph_units(para@, wrap_words));
        }
    }
}

/// The units of flowing text.
fn flow_units_of(text: &str, wrap_words: bool) -> (r: Vec<WrapUnit>)
    ensures
        units_view(r@) == flow_units(text@, wrap_words),
{
    let mut out: Vec<WrapUnit> = Vec::new();
    let mut cur = String::new();
    proof {
        assert(units_view(out@) =~= Seq::<Unit>::empty());
    }
    for c in it: text.chars()
        invariant
            it.seq() == text@,
            split_lines(text@.take(it.index() as int)).len() >= 1,
            cur@ == split_lines(text@.take(it.index() as int)).last(),
            units_view(out@) == paragraphs_units(
                split_lines(text@.take(it.index() as int)).drop_last(),
                wrap_words,
            ),
    {
        let ghost p = text@.take(it.index() as int);
        let ghost p2 = text@.take(it.index() + 1);
        let ghost l = split_lines(p);
        proof {
            assert(p2.drop_last() == p);
            assert(p2.last() == c);
        }
        if c == '\n' {
            push_paragraph_units(&cur, wrap_words, &mut out);
            cur = String::new();
            proof {
                assert(split_lines(p2).drop_last() == l);
                assert(l.drop_last().push(l.last()) =~= l);
            }
        } else {
            push_char(&mut cur, c);
            proof {
                assert(split_lines(p2).drop_last() =~= l.drop_last());
            }
        }
    }
    let ghost l = split_lines(text@);
    proof {
        assert(text@.take(text@.len() as int) == text@);
        assert(l.drop_last().push(l.last()) =~= l);
    }
    push_paragraph_units(&cur, wrap_words, &mut out);
    out
}

/// The units of one line of preformatted text.
fn monospace_units_of(line: &str) -> (r: Vec<WrapUnit>)
    ensures
        units_view(r@) == monospace_units(line@),
{
    let mut out: Vec<WrapUnit> = Vec::new();
    if line.is_empty() {
        let u = WrapUnit::Line(String::new());
        out.push(u);
        proof {
            assert(units_view(out@) =~= monospace_units(line@));
        }
        return out;
    }
    let ghost mapped = line@.map_values(|c: char| Unit::Word(seq![c]));
    for c in it: line.chars()
        invariant
            it.seq() == line@,
            mapped == line@.map_values(|c: char| Unit::Word(seq![c])),
            units_view(out@) == mapped.take(it.index() as int),
    {
        let mut w = String::new();
        push_char(&mut w, c);
        let u = WrapUnit::Word(w);
        proof {
            lemma_units_view_push(out@, u);
            assert(w@ =~= seq![c]);
            assert(mapped.take(it.index() + 1) =~= mapped.take(it.index() as int).push(u@));
        }
        out.push(u);
    }
    proof {
        lemma_units_view_push(out@, WrapUnit::EndLine);
        assert(mapped.take(line@.len() as int) =~= mapped);
    }
    out.push(WrapUnit::EndLine);
    proof {
        assert(units_view(out@) =~= monospace_units(line@));
    }
    out
}

impl LineBreaker {
    /// A breaker for flowing text (between words, when `wrap_words`).
    pub fn wrap_flow(text: &str, wrap_words: bool) -> (r: Self)
        ensures
            r.wf(),
            r@ == settle(start(flow_units(text@, wrap_words), true, Some(text@))),
    {
        let units = flow_units_of(text, wrap_words);
        LineBreaker::new(units, true, Some(text.to_owned()))
    }

    /// A breaker for one line of preformatted text (between characters).
    pub fn wrap_monospace_line(line: &str) -> (r: Self)
        ensures
            r.wf(),
            r@ == settle(start(monospace_units(line@), false, None)),
    {
        let units = monospace_units_of(line);
        LineBreaker::new(units, false, None)
    }

    /// A breaker for a page title; an empty title shows a placeholder.
    pub fn wrap_hard_break(text: &str) -> (r: Self)
        ensures
            r.wf(),
            r@ == settle(start(title_units(text@), true, title_fallback(text@))),
    {
        if text.is_empty() {
            let mut units: Vec<WrapUnit> = Vec::new();
            let u = WrapUnit::Line("(no title)".to_owned());
            units.push(u);
            proof {
                assert(units_view(units@) =~= title_units(text@));
            }
            LineBreaker::new(units, true, None)
        } else {
            LineBreaker::wrap_flow(text, true)
        }
    }
}

// ---------------------------------------------------------------------------
// Breaking keeps the text
// ---------------------------------------------------------------------------

/// The words that the units carry, in order.
pub open spec fn unit_words(us: Seq<Unit>) -> Seq<Seq<char>>
    decreases us.len(),
{
    if us.len() == 0 {
        seq![]
    } else {
        unit_words(us.drop_last()) + match us.last() {
            Unit::Word(w) => words(w),
            Unit::EndLine => Seq::<Seq<char>>::empty(),
            Unit::Line(l) => words(l),
        }
    }
}

/// The characters that the units carry, in order.
pub open spec fn unit_chars(us: Seq<Unit>) -> Seq<char>
    decreases us.len(),
{
    if us.len() == 0 {
        seq![]
    } else {
        unit_chars(us.drop_last()) + match us.last() {
            Unit::Word(w) => w,
            Unit::EndLine => Seq::<char>::empty(),
            Unit::Line(l) => l,
        }
    }
}

/// The pieces of `ls` concatenated.
pub open spec fn concat_all(ls: Seq<Seq<char>>) -> Seq<char>
    decreases ls.len(),
{
    if ls.len() == 0 {
        seq![]
    } else {
        concat_all(ls.drop_last()) + ls.last()
    }
}

/// Every word among `us` is one word of text.
pub open spec fn words_single(us: Seq<Unit>) -> bool {
    forall|i: int| 0 <= i < us.len() && (#[trigger] us[i]) is Word ==> words(us[i]->Word_0).len() == 1
}

/// Every whole line among `us` is empty.
pub open spec fn lines_empty(us: Seq<Unit>) -> bool {
    forall|i: int| 0 <= i < us.len() && (#[trigger] us[i]) is Line ==> us[i]->Line_0.len() == 0
}

proof fn lemma_unit_words_concat(a: Seq<Unit>, b: Seq<Unit>)
    ensures
        unit_words(a + b) == unit_words(a) + unit_words(b),
        unit_chars(a + b) == unit_chars(a) + unit_chars(b),
    decreases b.len(),
{
    if b.len() == 0 {
        assert(a + b =~= a);
        assert(unit_words(a) + Seq::<Seq<char>>::empty() =~= unit_words(a));
        assert(unit_chars(a) + Seq::<char>::empty() =~= unit_chars(a));
    } else {
        lemma_unit_words_concat(a, b.drop_last());
        assert((a + b).drop_last() =~= a + b.drop_last());
        assert((a + b).last() == b.last());
        let tw = match b.last() {
            Unit::Word(w) => words(w),
            Unit::EndLine => Seq::<Seq<char>>::empty(),
            Unit::Line(l) => words(l),
        };
        let tc = match b.last() {
            Unit::Word(w) => w,
            Unit::EndLine => Seq::<char>::empty(),
            Unit::Line(l) => l,
        };
        assert(unit_words(a) + unit_words(b.drop_last()) + tw =~= unit_words(a) + (unit_words(
            b.drop_last(),
        ) + tw));
        assert(unit_chars(a) + unit_chars(b.drop_last()) + tc =~= unit_chars(a) + (unit_chars(
            b.drop_last(),
        ) + tc));
    }
}

proof fn lemma_unit_single(u: Unit)
    ensures
        unit_words(seq![u]) == match u {
            Unit::Word(w) => words(w),
            Unit::EndLine => Seq::<Seq<char>>::empty(),
            Unit::Line(l) => words(l),
        },
        unit_chars(seq![u]) == match u {
            Unit::Word(w) => w,
            Unit::EndLine => Seq::<char>::empty(),
            Unit::Line(l) => l,
        },
{
    let one = seq![u];
    assert(one.drop_last() =~= Seq::<Unit>::empty());
    assert(one.last() == u);
    assert(unit_words(one.drop_last()) == Seq::<Seq<char>>::empty());
    assert(unit_chars(one.drop_last()) == Seq::<char>::empty());
    assert(Seq::<Seq<char>>::empty() + unit_words(one) =~= unit_words(one));
    match u {
        Unit::Word(w) => {
            assert(Seq::<Seq<char>>::empty() + words(w) =~= words(w));
            assert(Seq::<char>::empty() + w =~= w);
        },
        Unit::EndLine => {
            assert(Seq::<Seq<char>>::empty() + Seq::<Seq<char>>::empty() =~= Seq::<Seq<char>>::empty());
            assert(Seq::<char>::empty() + Seq::<char>::empty() =~= Seq::<char>::empty());
        },
        Unit::Line(l) => {
            assert(Seq::<Seq<char>>::empty() + words(l) =~= words(l));
            assert(Seq::<char>::empty() + l =~= l);
        },
    }
}

proof fn lemma_unit_head(us: Seq<Unit>)
    requires
        us.len() > 0,
    ensures
        unit_words(us) == unit_words(seq![us[0]]) + unit_words(us.drop_first()),
        unit_chars(us) == unit_chars(seq![us[0]]) + unit_chars(us.drop_first()),
{
    lemma_unit_words_concat(seq![us[0]], us.drop_first());
    assert(seq![us[0]] + us.drop_first() =~= us);
}

proof fn lemma_concat_all_concat(a: Seq<Seq<char>>, b: Seq<Seq<char>>)
    ensures
        concat_all(a + b) == concat_all(a) + concat_all(b),
    decreases b.len(),
{
    if b.len() == 0 {
        assert(a + b =~= a);
        assert(concat_all(a) + Seq::<char>::empty() =~= concat_all(a));
    } else {
        lemma_concat_all_concat(a, b.drop_last());
        assert((a + b).drop_last() =~= a + b.drop_last());
        assert((a + b).last() == b.last());
        assert(concat_all(a) + concat_all(b.drop_last()) + b.last() =~= concat_all(a) + (concat_all(
            b.drop_last(),
        ) + b.last()));
    }
}

proof fn lemma_single_line(l: Seq<char>)
    ensures
        words_of_all(seq![l]) == words(l),
        concat_all(seq![l]) == l,
{
    let one = seq![l];
    assert(one.drop_last() =~= Seq::<Seq<char>>::empty());
    assert(one.last() == l);
    assert(words_of_all(one.drop_last()) == Seq::<Seq<char>>::empty());
    assert(concat_all(one.drop_last()) == Seq::<char>::empty());
    assert(Seq::<Seq<char>>::empty() + words(l) =~= words(l));
    assert(Seq::<char>::empty() + l =~= l);
}

/// Greedy breaking between words keeps every word, in order.
proof fn lemma_run_keeps_words(us: Seq<Unit>, line: Seq<char>, wide: spec_fn(Seq<char>) -> bool)
    requires
        lines_empty(us),
    ensures
        words_of_all(run(us, line, true, wide)) == words(line) + unit_words(us),
    decreases us.len(),
{
    let r = run(us, line, true, wide);
    if us.len() == 0 {
        if line.len() > 0 {
            lemma_single_line(line);
        }
        assert(words(line) + Seq::<Seq<char>>::empty() =~= words(line));
        if line.len() == 0 {
            assert(words(line) == Seq::<Seq<char>>::empty());
        }
    } else {
        let rest = us.drop_first();
        assert(lines_empty(rest)) by {
            assert forall|i: int| 0 <= i < rest.len() && (#[trigger] rest[i]) is Line implies rest[i]->Line_0.len()
                == 0 by {
                assert(rest[i] == us[i + 1]);
            }
        }
        lemma_unit_head(us);
        lemma_unit_single(us[0]);
        match us[0] {
            Unit::Word(w) => {
                let t = trial_of(line, w, true);
                if wide(t) && line.len() > 0 {
                    lemma_run_keeps_words(rest, w, wide);
                    lemma_single_line(line);
                    lemma_words_of_all_concat(seq![line], run(rest, w, true, wide));
                    assert(words(line) + (words(w) + unit_words(rest)) =~= words(line) + (
                    Seq::<Seq<char>>::empty() + words(w) + unit_words(rest)));
                } else {
                    lemma_run_keeps_words(rest, t, wide);
                    if line.len() > 0 {
                        lemma_words_concat(line, ' ', w);
                        assert(t == line + seq![' '] + w);
                    } else {
                        assert(words(line) == Seq::<Seq<char>>::empty());
                    }
                    assert(words(t) + unit_words(rest) =~= words(line) + (
                    Seq::<Seq<char>>::empty() + words(w) + unit_words(rest)));
                }
            },
            Unit::EndLine => {
                lemma_run_keeps_words(rest, seq![], wide);
                assert(words(Seq::<char>::empty()) == Seq::<Seq<char>>::empty());
                let head = if line.len() > 0 {
                    seq![line]
                } else {
                    Seq::<Seq<char>>::empty()
                };
                lemma_words_of_all_concat(head, run(rest, seq![], true, wide));
                if line.len() > 0 {
                    lemma_single_line(line);
                } else {
                    assert(words(line) == Seq::<Seq<char>>::empty());
                }
                assert(words_of_all(head) + (Seq::<Seq<char>>::empty() + unit_words(rest)) =~= words(
                    line,
                ) + (Seq::<Seq<char>>::empty() + Seq::<Seq<char>>::empty() + unit_words(rest)));
            },
            Unit::Line(l) => {
                assert(us[0] is Line);
                assert(l.len() == 0);
                assert(words(l) == Seq::<Seq<char>>::empty());
                lemma_run_keeps_words(rest, line, wide);
                lemma_single_line(l);
                lemma_words_of_all_concat(seq![l], run(rest, line, true, wide));
                assert(Seq::<Seq<char>>::empty() + (words(line) + unit_words(rest)) =~= words(line) + (
                Seq::<Seq<char>>::empty() + Seq::<Seq<char>>::empty() + unit_words(rest)));
            },
        }
    }
}

/// Greedy breaking between characters keeps every character, in order.
proof fn lemma_run_keeps_chars(us: Seq<Unit>, line: Seq<char>, wide: spec_fn(Seq<char>) -> bool)
    requires
        lines_empty(us),
    ensures
        concat_all(run(us, line, false, wide)) == line + unit_chars(us),
    decreases us.len(),
{
    if us.len() == 0 {
        if line.len() > 0 {
            lemma_single_line(line);
        }
        assert(line + Seq::<char>::empty() =~= line);
    } else {
        let rest = us.drop_first();
        assert(lines_empty(rest)) by {
            assert forall|i: int| 0 <= i < rest.len() && (#[trigger] rest[i]) is Line implies rest[i]->Line_0.len()
                == 0 by {
                assert(rest[i] == us[i + 1]);
            }
        }
        lemma_unit_head(us);
        lemma_unit_single(us[0]);
        match us[0] {
            Unit::Word(w) => {
                let t = trial_of(line, w, false);
                if wide(t) && line.len() > 0 {
                    lemma_run_keeps_chars(rest, w, wide);
                    lemma_single_line(line);
                    lemma_concat_all_concat(seq![line], run(rest, w, false, wide));
                    assert(line + (w + unit_chars(rest)) =~= line + (Seq::<char>::empty() + w
                        + unit_chars(rest)));
                } else {
                    lemma_run_keeps_chars(rest, t, wide);
                    assert(t + unit_chars(rest) =~= line + (Seq::<char>::empty() + w + unit_chars(
                        rest,
                    )));
                }
            },
            Unit::EndLine => {
                lemma_run_keeps_chars(rest, seq![], wide);
                let head = if line.len() > 0 {
                    seq![line]
                } else {
                    Seq::<Seq<char>>::empty()
                };
                lemma_concat_all_concat(head, run(rest, seq![], false, wide));
                if line.len() > 0 {
                    lemma_single_line(line);
                }
                assert(concat_all(head) + (Seq::<char>::empty() + unit_chars(rest)) =~= line + (
                Seq::<char>::empty() + Seq::<char>::empty() + unit_chars(rest)));
            },
            Unit::Line(l) => {
                assert(us[0] is Line);
                assert(l.len() == 0);
                lemma_run_keeps_chars(rest, line, wide);
                lemma_single_line(l);
                lemma_concat_all_concat(seq![l], run(rest, line, false, wide));
                assert(l + (line + unit_chars(rest)) =~= line + (Seq::<char>::empty() + l
                    + unit_chars(rest)));
            },
        }
    }
}

proof fn lemma_words_of_all_single_words(ws: Seq<Seq<char>>)
    requires
        forall|i: int| 0 <= i < ws.len() ==> words(#[trigger] ws[i]) == seq![ws[i]],
    ensures
        words_of_all(ws) == ws,
        unit_words(ws.map_values(|w: Seq<char>| Unit::Word(w))) == ws,
    decreases ws.len(),
{
    if ws.len() > 0 {
        let p = ws.drop_last();
        assert forall|i: int| 0 <= i < p.len() implies words(#[trigger] p[i]) == seq![p[i]] by {
            assert(p[i] == ws[i]);
        }
        lemma_words_of_all_single_words(p);
        let m = ws.map_values(|w: Seq<char>| Unit::Word(w));
        assert(m.drop_last() =~= p.map_values(|w: Seq<char>| Unit::Word(w)));
        assert(m.last() == Unit::Word(ws.last()));
        assert(words(ws.last()) == seq![ws[ws.len() - 1]]);
        assert(p + seq![ws.last()] =~= ws);
    }
}

proof fn lemma_paragraph_units_words(p: Seq<char>)
    ensures
        unit_words(paragraph_units(p, true)) == words(p),
        lines_empty(paragraph_units(p, true)),
        words_single(paragraph_units(p, true)),
{
    let u = paragraph_units(p, true);
    if p.len() == 0 {
        assert(u.drop_last() =~= Seq::<Unit>::empty());
        assert(u.last() == Unit::Line(seq![]));
        assert(unit_words(u.drop_last()) == Seq::<Seq<char>>::empty());
        assert(words(p) == Seq::<Seq<char>>::empty());
        assert(Seq::<Seq<char>>::empty() + words(Seq::<char>::empty()) =~= Seq::<Seq<char>>::empty());
    } else {
        let ws = words(p);
        assert forall|i: int| 0 <= i < ws.len() implies words(#[trigger] ws[i]) == seq![ws[i]] by {
            lemma_words_are_single(p, i);
        }
        lemma_words_of_all_single_words(ws);
        let m = ws.map_values(|w: Seq<char>| Unit::Word(w));
        assert(u.drop_last() =~= m);
        assert(u.last() == Unit::EndLine);
        assert(unit_words(m) + Seq::<Seq<char>>::empty() =~= unit_words(m));
        assert forall|i: int| 0 <= i < u.len() && (#[trigger] u[i]) is Word implies words(
            u[i]->Word_0,
        ).len() == 1 by {
            assert(u[i] == m[i]);
            assert(words(ws[i]) == seq![ws[i]]);
        }
    }
}

proof fn lemma_paragraphs_units_words(ps: Seq<Seq<char>>)
    ensures
        unit_words(paragraphs_units(ps, true)) == words_of_all(ps),
        lines_empty(paragraphs_units(ps, true)),
        words_single(paragraphs_units(ps, true)),
    decreases ps.len(),
{
    if ps.len() > 0 {
        lemma_paragraphs_units_words(ps.drop_last());
        lemma_paragraph_units_words(ps.last());
        let a = paragraphs_units(ps.drop_last(), true);
        let b = paragraph_units(ps.last(), true);
        lemma_unit_words_concat(a, b);
        assert forall|i: int| 0 <= i < (a + b).len() && (#[trigger] (a + b)[i]) is Line implies (a
            + b)[i]->Line_0.len() == 0 by {
            if i < a.len() {
                assert((a + b)[i] == a[i]);
            } else {
                assert((a + b)[i] == b[i - a.len()]);
            }
        }
        assert forall|i: int| 0 <= i < (a + b).len() && (#[trigger] (a + b)[i]) is Word implies words(
            (a + b)[i]->Word_0,
        ).len() == 1 by {
            if i < a.len() {
                assert((a + b)[i] == a[i]);
            } else {
                assert((a + b)[i] == b[i - a.len()]);
            }
        }
    }
}

/// Breaking flowing text into lines between words neither loses, splits nor
/// reorders a word, whatever the widths: the words of the lines are the
/// words of the text.
pub proof fn lemma_wrap_flow_keeps_words(text: Seq<char>, wide: spec_fn(Seq<char>) -> bool)
    ensures
        words_of_all(wrap_flow(text, true, wide)) == words(text),
{
    let us = flow_units(text, true);
    lemma_paragraphs_units_words(split_lines(text));
    lemma_words_of_lines(text);
    lemma_run_keeps_words(us, seq![], wide);
    assert(words(Seq::<char>::empty()) == Seq::<Seq<char>>::empty());
    assert(Seq::<Seq<char>>::empty() + unit_words(us) =~= unit_words(us));
    let r = run(us, seq![], true, wide);
    if r.len() == 0 && text.len() > 0 {
        lemma_single_line(text);
    }
}

/// Breaking a line of preformatted text between characters keeps every
/// character, in order: the lines concatenated are the line.
pub proof fn lemma_wrap_monospace_keeps_text(line: Seq<char>, wide: spec_fn(Seq<char>) -> bool)
    ensures
        concat_all(wrap_monospace(line, wide)) == line,
{
    let us = monospace_units(line);
    if line.len() == 0 {
        assert(us.drop_last() =~= Seq::<Unit>::empty());
        assert(us.last() == Unit::Line(seq![]));
        assert(unit_chars(us.drop_last()) == Seq::<char>::empty());
        assert(unit_chars(us) =~= Seq::<char>::empty());
    } else {
        let m = line.map_values(|c: char| Unit::Word(seq![c]));
        lemma_unit_chars_of_chars(line);
        assert(us.drop_last() =~= m);
        assert(unit_chars(m) + Seq::<char>::empty() =~= unit_chars(m));
    }
    assert(lines_empty(us));
    lemma_run_keeps_chars(us, seq![], wide);
    assert(Seq::<char>::empty() + unit_chars(us) =~= unit_chars(us));
}

proof fn lemma_unit_chars_of_chars(line: Seq<char>)
    ensures
        unit_chars(line.map_values(|c: char| Unit::Word(seq![c]))) == line,
    decreases line.len(),
{
    if line.len() > 0 {
        let p = line.drop_last();
        lemma_unit_chars_of_chars(p);
        let m = line.map_values(|c: char| Unit::Word(seq![c]));
        assert(m.drop_last() =~= p.map_values(|c: char| Unit::Word(seq![c])));
        assert(m.last() == Unit::Word(seq![line.last()]));
        assert(p + seq![line.last()] =~= line);
    }
}

// ---------------------------------------------------------------------------
// Lines fit
// ---------------------------------------------------------------------------

/// `l` is the text of one of the words or whole lines among `us`.
pub open spec fn is_piece(l: Seq<char>, us: Seq<Unit>) -> bool {
    exists|i: int| 0 <= i < us.len() && (#[trigger] us[i] == Unit::Word(l) || us[i] == Unit::Line(l))
}

proof fn lemma_piece_grow(l: Seq<char>, a: Seq<Unit>, b: Seq<Unit>)
    requires
        is_piece(l, a),
    ensures
        is_piece(l, a + b),
{
    let i = choose|i: int| 0 <= i < a.len() && (#[trigger] a[i] == Unit::Word(l) || a[i] == Unit::Line(l));
    assert((a + b)[i] == a[i]);
}

proof fn lemma_piece_last(l: Seq<char>, a: Seq<Unit>, u: Unit)
    requires
        u == Unit::Word(l) || u == Unit::Line(l),
    ensures
        is_piece(l, a.push(u)),
{
    assert(a.push(u)[a.len() as int] == u);
}

proof fn lemma_run_fits_from(
    us: Seq<Unit>,
    line: Seq<char>,
    spaced: bool,
    wide: spec_fn(Seq<char>) -> bool,
    seen: Seq<Unit>,
)
    requires
        line.len() == 0 || !wide(line) || is_piece(line, seen),
    ensures
        forall|j: int|
            0 <= j < run(us, line, spaced, wide).len() ==> !wide(#[trigger] run(us, line, spaced, wide)[j])
                || is_piece(run(us, line, spaced, wide)[j], seen + us),
    decreases us.len(),
{
    let r = run(us, line, spaced, wide);
    if us.len() == 0 {
        assert(seen + us =~= seen);
        if line.len() > 0 {
            assert(r =~= seq![line]);
            if is_piece(line, seen) {
                lemma_piece_grow(line, seen, us);
            }
        }
    } else {
        let rest = us.drop_first();
        let seen2 = seen.push(us[0]);
        assert(seen2 + rest =~= seen + us);
        if is_piece(line, seen) {
            lemma_piece_grow(line, seen, us);
            lemma_piece_grow(line, seen, seq![us[0]]);
            assert(seen + seq![us[0]] =~= seen2);
            assert(is_piece(line, seen2));
        }
        match us[0] {
            Unit::Word(w) => {
                let t = trial_of(line, w, spaced);
                lemma_piece_last(w, seen, us[0]);
                if wide(t) && line.len() > 0 {
                    lemma_run_fits_from(rest, w, spaced, wide, seen2);
                    let r2 = run(rest, w, spaced, wide);
                    assert forall|j: int| 0 <= j < r.len() implies !wide(#[trigger] r[j]) || is_piece(
                        r[j],
                        seen + us,
                    ) by {
                        if j > 0 {
                            assert(r[j] == r2[j - 1]);
                        }
                    }
                } else {
                    lemma_run_fits_from(rest, t, spaced, wide, seen2);
                    assert(r == run(rest, t, spaced, wide));
                }
            },
            Unit::EndLine => {
                lemma_run_fits_from(rest, seq![], spaced, wide, seen2);
                let r2 = run(rest, seq![], spaced, wide);
                if line.len() > 0 {
                    assert forall|j: int| 0 <= j < r.len() implies !wide(#[trigger] r[j]) || is_piece(
                        r[j],
                        seen + us,
                    ) by {
                        if j > 0 {
                            assert(r[j] == r2[j - 1]);
                        }
                    }
                } else {
                    assert(r =~= r2);
                }
                assert(forall|j: int| 0 <= j < r.len() ==> !wide(#[trigger] r[j]) || is_piece(r[j], seen + us));
            },
            Unit::Line(l) => {
                lemma_piece_last(l, seen, us[0]);
                lemma_piece_grow(l, seen2, rest);
                lemma_run_fits_from(rest, line, spaced, wide, seen2);
                let r2 = run(rest, line, spaced, wide);
                assert forall|j: int| 0 <= j < r.len() implies !wide(#[trigger] r[j]) || is_piece(
                    r[j],
                    seen + us,
                ) by {
                    if j > 0 {
                        assert(r[j] == r2[j - 1]);
                    }
                }
            },
        }
    }
}

/// Greedy breaking keeps a line that is too wide only where nothing can be
/// taken off it: every line it produces fits, or is a single word or whole
/// line of the units.
pub proof fn lemma_lines_fit(us: Seq<Unit>, spaced: bool, wide: spec_fn(Seq<char>) -> bool)
    ensures
        forall|j: int|
            0 <= j < run(us, seq![], spaced, wide).len() ==> !wide(#[trigger] run(us, seq![], spaced, wide)[j])
                || is_piece(run(us, seq![], spaced, wide)[j], us),
{
    lemma_run_fits_from(us, seq![], spaced, wide, seq![]);
    assert(Seq::<Unit>::empty() + us =~= us);
}

/// Flowing text broken between words: a line of two or more words is never
/// too wide, whatever the widths.
pub proof fn lemma_wrap_flow_fits(text: Seq<char>, wide: spec_fn(Seq<char>) -> bool)
    ensures
        forall|j: int|
            0 <= j < wrap_flow(text, true, wide).len() && words(
                #[trigger] wrap_flow(text, true, wide)[j],
            ).len() >= 2 ==> !wide(wrap_flow(text, true, wide)[j]),
{
    let us = flow_units(text, true);
    lemma_paragraphs_units_words(split_lines(text));
    lemma_lines_fit(us, true, wide);
    let r = run(us, seq![], true, wide);
    let f = wrap_flow(text, true, wide);
    if r.len() == 0 && text.len() > 0 {
        lemma_words_of_lines(text);
        lemma_run_keeps_words(us, seq![], wide);
        assert(words(Seq::<char>::empty()) == Seq::<Seq<char>>::empty());
        assert(words(text) =~= Seq::<Seq<char>>::empty());
        assert(f == seq![text]);
    } else {
        assert(f == r);
        assert forall|j: int| 0 <= j < f.len() && words(#[trigger] f[j]).len() >= 2 implies !wide(
            f[j],
        ) by {
            if wide(r[j]) {
                assert(is_piece(r[j], us));
                let i = choose|i: int|
                    0 <= i < us.len() && (#[trigger] us[i] == Unit::Word(r[j]) || us[i] == Unit::Line(
                        r[j],
                    ));
                if us[i] is Line {
                    assert(r[j] =~= Seq::<char>::empty());
                    assert(words(r[j]) == Seq::<Seq<char>>::empty());
                }
            }
        }
    }
}

/// A line of preformatted text broken between characters: a line of two or
/// more characters is never too wide, whatever the widths.
pub proof fn lemma_wrap_monospace_fits(line: Seq<char>, wide: spec_fn(Seq<char>) -> bool)
    ensures
        forall|j: int|
            0 <= j < wrap_monospace(line, wide).len() && (#[trigger] wrap_monospace(line, wide)[j]).len()
                >= 2 ==> !wide(wrap_monospace(line, wide)[j]),
{
    let us = monospace_units(line);
    lemma_lines_fit(us, false, wide);
    let r = wrap_monospace(line, wide);
    assert forall|j: int| 0 <= j < r.len() && (#[trigger] r[j]).len() >= 2 implies !wide(r[j]) by {
        if wide(r[j]) {
            assert(is_piece(r[j], us));
            let i = choose|i: int|
                0 <= i < us.len() && (#[trigger] us[i] == Unit::Word(r[j]) || us[i] == Unit::Line(
                    r[j],
                ));
            if line.len() > 0 && i < line.len() {
                assert(us[i] == Unit::Word(seq![line[i]]));
            }
        }
    }
}

// ---------------------------------------------------------------------------
// Where lines break
// ---------------------------------------------------------------------------

/// Units as breaking makes them: every word has text, and no whole line
/// comes right after a word.
pub open spec fn units_wf(us: Seq<Unit>) -> bool {
    &&& forall|i: int| 0 <= i < us.len() && (#[trigger] us[i]) is Word ==> us[i]->Word_0.len() > 0
    &&& forall|i: int| 1 <= i < us.len() && (#[trigger] us[i]) is Line ==> !(us[i - 1] is Word)
}

/// What is left of well-formed units after some are taken is well formed.
pub proof fn lemma_units_wf_suffix(us: Seq<Unit>, k: int)
    requires
        units_wf(us),
        0 <= k <= us.len(),
    ensures
        units_wf(us.subrange(k, us.len() as int)),
{
    let v = us.subrange(k, us.len() as int);
    assert forall|i: int| 0 <= i < v.len() && (#[trigger] v[i]) is Word implies v[i]->Word_0.len() > 0 by {
        assert(v[i] == us[i + k]);
    }
    assert forall|i: int| 1 <= i < v.len() && (#[trigger] v[i]) is Line implies !(v[i - 1] is Word) by {
        assert(v[i] == us[i + k]);
        assert(v[i - 1] == us[i + k - 1]);
    }
}

proof fn lemma_first_line_grows(us: Seq<Unit>, t: Seq<char>, spaced: bool, wide: spec_fn(Seq<char>) -> bool)
    requires
        t.len() > 0,
        units_wf(us),
        us.len() == 0 || !(us[0] is Line),
    ensures
        run(us, t, spaced, wide).len() > 0,
        run(us, t, spaced, wide)[0].len() >= t.len(),
    decreases us.len(),
{
    if us.len() > 0 {
        let rest = us.drop_first();
        match us[0] {
            Unit::Word(w) => {
                let t2 = trial_of(t, w, spaced);
                if !(wide(t2) && t.len() > 0) {
                    lemma_units_wf_suffix(us, 1);
                    assert(rest == us.subrange(1, us.len() as int));
                    if rest.len() > 0 {
                        assert(rest[0] == us[1]);
                    }
                    lemma_first_line_grows(rest, t2, spaced, wide);
                } else {
                    assert(run(us, t, spaced, wide)[0] == t);
                }
            },
            Unit::EndLine => {
                assert(run(us, t, spaced, wide)[0] == t);
            },
            Unit::Line(_) => {},
        }
    }
}

/// Greedy breaking ends a line exactly where the next word does not fit:
/// when a word comes next, the current line is finished there if and only if
/// it is too wide with the word added.
pub proof fn lemma_break_exactly_when_wide(
    us: Seq<Unit>,
    line: Seq<char>,
    spaced: bool,
    wide: spec_fn(Seq<char>) -> bool,
)
    requires
        units_wf(us),
        us.len() > 0,
        us[0] is Word,
        line.len() > 0,
    ensures
        run(us, line, spaced, wide).len() > 0,
        run(us, line, spaced, wide)[0] == line <==> wide(trial_of(line, us[0]->Word_0, spaced)),
{
    let w = us[0]->Word_0;
    let t = trial_of(line, w, spaced);
    let rest = us.drop_first();
    if wide(t) {
        assert(run(us, line, spaced, wide)[0] == line);
    } else {
        lemma_units_wf_suffix(us, 1);
        assert(rest == us.subrange(1, us.len() as int));
        if rest.len() > 0 {
            assert(rest[0] == us[1]);
        }
        assert(t.len() > line.len());
        lemma_first_line_grows(rest, t, spaced, wide);
        assert(run(us, line, spaced, wide) == run(rest, t, spaced, wide));
    }
}

proof fn lemma_paragraphs_units_wf(ps: Seq<Seq<char>>, wrap_words: bool)
    ensures
        units_wf(paragraphs_units(ps, wrap_words)),
        paragraphs_units(ps, wrap_words).len() == 0 || !(paragraphs_units(ps, wrap_words).last() is Word),
    decreases ps.len(),
{
    if ps.len() > 0 {
        lemma_paragraphs_units_wf(ps.drop_last(), wrap_words);
        let a = paragraphs_units(ps.drop_last(), wrap_words);
        let p = ps.last();
        let b = paragraph_units(p, wrap_words);
        let c = a + b;
        lemma_words_wf(p);
        assert(units_wf(b) && !(b.last() is Word)) by {
            if p.len() > 0 && wrap_words {
                let m = words(p).map_values(|w: Seq<char>| Unit::Word(w));
                assert(b == m.push(Unit::EndLine));
                assert forall|i: int| 0 <= i < b.len() && (#[trigger] b[i]) is Word implies b[i]->Word_0.len() > 0 by {
                    assert(b[i] == Unit::Word(words(p)[i]));
                }
                assert forall|i: int| 1 <= i < b.len() && (#[trigger] b[i]) is Line implies !(b[i - 1] is Word) by {
                    if i < m.len() {
                        assert(b[i] == m[i]);
                    }
                }
            }
        }
        assert forall|i: int| 0 <= i < c.len() && (#[trigger] c[i]) is Word implies c[i]->Word_0.len() > 0 by {
            if i < a.len() {
                assert(c[i] == a[i]);
            } else {
                assert(c[i] == b[i - a.len()]);
            }
        }
        assert forall|i: int| 1 <= i < c.len() && (#[trigger] c[i]) is Line implies !(c[i - 1] is Word) by {
            if i < a.len() {
                assert(c[i] == a[i]);
                assert(c[i - 1] == a[i - 1]);
            } else if i == a.len() {
                assert(c[i - 1] == a.last());
            } else {
                assert(c[i] == b[i - a.len()]);
                assert(c[i - 1] == b[i - 1 - a.len()]);
            }
        }
        assert(c.last() == b.last());
    }
}

/// The units of flowing text and of preformatted lines are well formed.
pub proof fn lemma_units_are_wf(text: Seq<char>, wrap_words: bool, line: Seq<char>)
    ensures
        units_wf(flow_units(text, wrap_words)),
        units_wf(monospace_units(line)),
{
    lemma_paragraphs_units_wf(split_lines(text), wrap_words);
    let us = monospace_units(line);
    if line.len() > 0 {
        let m = line.map_values(|c: char| Unit::Word(seq![c]));
        assert(us == m.push(Unit::EndLine));
        assert forall|i: int| 0 <= i < us.len() && (#[trigger] us[i]) is Word implies us[i]->Word_0.len() > 0 by {
            assert(us[i] == Unit::Word(seq![line[i]]));
        }
        assert forall|i: int| 1 <= i < us.len() && (#[trigger] us[i]) is Line implies !(us[i - 1] is Word) by {
            if i < m.len() {
                assert(us[i] == m[i]);
            }
        }
    }
}

// ---------------------------------------------------------------------------
// No empty lines
// ---------------------------------------------------------------------------

/// None of `us` is a whole line.
pub open spec fn no_whole_lines(us: Seq<Unit>) -> bool {
    forall|i: int| 0 <= i < us.len() ==> !((#[trigger] us[i]) is Line)
}

proof fn lemma_run_nonempty_from(us: Seq<Unit>, line: Seq<char>, spaced: bool, wide: spec_fn(Seq<char>) -> bool)
    requires
        no_whole_lines(us),
    ensures
        forall|j: int|
            0 <= j < run(us, line, spaced, wide).len() ==> (#[trigger] run(us, line, spaced, wide)[j]).len() > 0,
    decreases us.len(),
{
    let r = run(us, line, spaced, wide);
    if us.len() > 0 {
        let rest = us.drop_first();
        assert forall|i: int| 0 <= i < rest.len() implies !((#[trigger] rest[i]) is Line) by {
            assert(rest[i] == us[i + 1]);
        }
        assert(!(us[0] is Line));
        match us[0] {
            Unit::Word(w) => {
                let t = trial_of(line, w, spaced);
                if wide(t) && line.len() > 0 {
                    lemma_run_nonempty_from(rest, w, spaced, wide);
                    let r2 = run(rest, w, spaced, wide);
                    assert forall|j: int| 0 <= j < r.len() implies (#[trigger] r[j]).len() > 0 by {
                        if j > 0 {
                            assert(r[j] == r2[j - 1]);
                        }
                    }
                } else {
                    lemma_run_nonempty_from(rest, t, spaced, wide);
                    assert(r == run(rest, t, spaced, wide));
                }
            },
            Unit::EndLine => {
                lemma_run_nonempty_from(rest, seq![], spaced, wide);
                let r2 = run(rest, seq![], spaced, wide);
                if line.len() > 0 {
                    assert forall|j: int| 0 <= j < r.len() implies (#[trigger] r[j]).len() > 0 by {
                        if j > 0 {
                            assert(r[j] == r2[j - 1]);
                        }
                    }
                } else {
                    assert(r =~= r2);
                }
                assert(forall|j: int| 0 <= j < r.len() ==> (#[trigger] r[j]).len() > 0);
            },
            Unit::Line(_) => {},
        }
    } else if line.len() > 0 {
        assert(r =~= seq![line]);
    }
}

proof fn lemma_paragraphs_units_no_lines(ps: Seq<Seq<char>>)
    requires
        forall|k: int| 0 <= k < ps.len() ==> words(#[trigger] ps[k]).len() > 0,
    ensures
        no_whole_lines(paragraphs_units(ps, true)),
    decreases ps.len(),
{
    if ps.len() > 0 {
        let q = ps.drop_last();
        assert forall|k: int| 0 <= k < q.len() implies words(#[trigger] q[k]).len() > 0 by {
            assert(q[k] == ps[k]);
        }
        lemma_paragraphs_units_no_lines(q);
        let p = ps.last();
        assert(words(p).len() > 0);
        if p.len() == 0 {
            assert(words(p) == Seq::<Seq<char>>::empty());
        }
        let a = paragraphs_units(q, true);
        let m = words(p).map_values(|w: Seq<char>| Unit::Word(w));
        let b = m.push(Unit::EndLine);
        assert(paragraph_units(p, true) == b);
        assert forall|i: int| 0 <= i < (a + b).len() implies !((#[trigger] (a + b)[i]) is Line) by {
            if i < a.len() {
                assert((a + b)[i] == a[i]);
            } else if i - a.len() < m.len() {
                assert((a + b)[i] == m[i - a.len()]);
            } else {
                assert((a + b)[i] == Unit::EndLine);
            }
        }
    }
}

/// Breaking never makes an empty line of its own: flowing text in which every
/// line has a word breaks into lines that are all non-empty, and so does a
/// line of preformatted text that is not empty.
pub proof fn lemma_no_empty_lines(text: Seq<char>, line: Seq<char>, wide: spec_fn(Seq<char>) -> bool)
    ensures
        (forall|k: int| 0 <= k < split_lines(text).len() ==> words(#[trigger] split_lines(text)[k]).len()
            > 0) ==> forall|j: int|
            0 <= j < wrap_flow(text, true, wide).len() ==> (#[trigger] wrap_flow(text, true, wide)[j]).len()
                > 0,
        line.len() > 0 ==> forall|j: int|
            0 <= j < wrap_monospace(line, wide).len() ==> (#[trigger] wrap_monospace(line, wide)[j]).len() > 0,
{
    if forall|k: int| 0 <= k < split_lines(text).len() ==> words(#[trigger] split_lines(text)[k]).len() > 0 {
        lemma_paragraphs_units_no_lines(split_lines(text));
        lemma_run_nonempty_from(flow_units(text, true), seq![], true, wide);
        let r = run(flow_units(text, true), seq![], true, wide);
        if r.len() == 0 && text.len() > 0 {
            assert(wrap_flow(text, true, wide) == seq![text]);
        }
    }
    if line.len() > 0 {
        let us = monospace_units(line);
        let m = line.map_values(|c: char| Unit::Word(seq![c]));
        assert(us == m.push(Unit::EndLine));
        assert forall|i: int| 0 <= i < us.len() implies !((#[trigger] us[i]) is Line) by {
            if i < m.len() {
                assert(us[i] == m[i]);
            }
        }
        lemma_run_nonempty_from(us, seq![], false, wide);
    }
}

} // verus!
