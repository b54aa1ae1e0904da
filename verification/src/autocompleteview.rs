use vstd::prelude::*;

verus! {

use vstd::string::StrSliceExecFns;
use crate::autocomplete::CompletionChoice;
use crate::strings::{push_char, str_eq};

/// The input events the completion popup reacts to. Pointer rows are given
/// relative to the top of the choice list.
#[derive(Clone, Copy, Debug)]
pub enum PopupEvent {
    Up,
    Down,
    PageUp,
    PageDown,
    Home,
    End,
    Accept,
    Cancel,
    Press(usize),
    Release(usize),
    Char(char),
}

/// What the host must do after the popup handled an event.
pub enum PopupAction {
    /// Nothing further; redraw.
    Consumed,
    /// The event was not for the popup.
    Ignored,
    /// Install this line in the editor and close the popup.
    Submit(String),
    /// Close the popup without touching the editor.
    Dismiss,
    /// Insert the character in the editor, query completion for the popup's
    /// updated input, and hand the choices to `refilter`.
    Requery(char),
}

/// The completion popup: the input line it was queried for, the current
/// choice set, and the focused row.
pub struct AutocompletePopup {
    pub input: String,
    pub choices: Vec<CompletionChoice>,
    pub focus: usize,
}

/// One step of cyclic upward movement.
pub open spec fn dec_wrap(focus: int, len: int) -> int {
    if focus > 0 {
        focus - 1
    } else {
        len - 1
    }
}

/// One step of cyclic downward movement.
pub open spec fn inc_wrap(focus: int, len: int) -> int {
    if focus + 1 < len {
        focus + 1
    } else {
        0
    }
}

/// The focus after `n` cyclic upward steps.
pub open spec fn focus_after_up(focus: int, n: nat, len: int) -> int
    decreases n,
{
    if n == 0 {
        focus
    } else {
        focus_after_up(dec_wrap(focus, len), (n - 1) as nat, len)
    }
}

/// The focus after `n` cyclic downward steps.
pub open spec fn focus_after_down(focus: int, n: nat, len: int) -> int
    decreases n,
{
    if n == 0 {
        focus
    } else {
        focus_after_down(inc_wrap(focus, len), (n - 1) as nat, len)
    }
}

/// The widest label's length in bytes, or zero for no choices.
pub open spec fn max_label_bytes(cs: Seq<CompletionChoice>) -> nat
    decreases cs.len(),
{
    if cs.len() == 0 {
        0
    } else {
        let rest = max_label_bytes(cs.drop_last());
        let l = vstd::utf8::encode_utf8(cs.last().label@).len();
        if l > rest {
            l
        } else {
            rest
        }
    }
}

impl AutocompletePopup {
    /// The popup is only ever open over a non-empty choice set, with the
    /// focus on one of the choices.
    pub open spec fn wf(&self) -> bool {
        self.choices@.len() > 0 && self.focus < self.choices@.len()
    }

    /// Opens the popup over a non-empty choice set, focused on the first
    /// choice.
    pub fn new(input: String, choices: Vec<CompletionChoice>) -> (p: Self)
        requires
            choices@.len() > 0,
        ensures
            p.wf(),
            p.input@ == input@,
            p.choices@ == choices@,
            p.focus == 0,
    {
        AutocompletePopup { input, choices, focus: 0 }
    }

    /// Moves the focus up `n` rows: cyclically when `cycle` is set, else
    /// stopping at the first row.
    pub fn scroll_up(&mut self, n: usize, cycle: bool)
        requires
            old(self).wf(),
        ensures
            final(self).wf(),
            final(self).input == old(self).input,
            final(self).choices == old(self).choices,
            cycle ==> final(self).focus == focus_after_up(
                old(self).focus as int,
                n as nat,
                old(self).choices@.len() as int,
            ),
            !cycle ==> final(self).focus == if old(self).focus >= n {
                old(self).focus - n
            } else {
                0
            },
    {
        let mut remaining = n;
        while remaining > 0
            invariant
                self.wf(),
                remaining <= n,
                self.input == old(self).input,
                self.choices == old(self).choices,
                cycle ==> self.focus == focus_after_up(
                    old(self).focus as int,
                    (n - remaining) as nat,
                    self.choices@.len() as int,
                ),
                !cycle ==> self.focus == if old(self).focus >= n - remaining {
                    old(self).focus - (n - remaining)
                } else {
                    0
                },
                !cycle && self.focus == 0 ==> old(self).focus <= n - remaining,
            decreases remaining,
        {
            if self.focus > 0 {
                self.focus = self.focus - 1;
            } else if cycle {
                self.focus = self.choices.len() - 1;
            } else {
                return ;
            }
            proof {
                if cycle {
                    lemma_focus_after_up_step(
                        old(self).focus as int,
                        (n - remaining) as nat,
                        self.choices@.len() as int,
                    );
                }
            }
            remaining = remaining - 1;
        }
    }

    /// Moves the focus down `n` rows: cyclically when `cycle` is set, else
    /// stopping at the last row.
    pub fn scroll_down(&mut self, n: usize, cycle: bool)
        requires
            old(self).wf(),
        ensures
            final(self).wf(),
            final(self).input == old(self).input,
            final(self).choices == old(self).choices,
            cycle ==> final(self).focus == focus_after_down(
                old(self).focus as int,
                n as nat,
                old(self).choices@.len() as int,
            ),
            !cycle ==> final(self).focus as int == if old(self).focus + n < old(
                self,
            ).choices@.len() {
                old(self).focus + n
            } else {
                old(self).choices@.len() - 1
            },
    {
        let mut remaining = n;
        let ghost len = self.choices@.len() as int;
        while remaining > 0
            invariant
                self.wf(),
                remaining <= n,
                self.input == old(self).input,
                self.choices == old(self).choices,
                len == self.choices@.len() as int,
                cycle ==> self.focus == focus_after_down(
                    old(self).focus as int,
                    (n - remaining) as nat,
                    len,
                ),
                !cycle ==> self.focus as int == if old(self).focus + (n - remaining) < len {
                    old(self).focus + (n - remaining)
                } else {
                    len - 1
                },
                !cycle && self.focus as int == len - 1 ==> old(self).focus + (n - remaining) >= len - 1,
            decreases remaining,
        {
            if self.focus < self.choices.len() - 1 {
                self.focus = self.focus + 1;
            } else if cycle {
                self.focus = 0;
            } else {
                return ;
            }
            proof {
                if cycle {
                    lemma_focus_after_down_step(old(self).focus as int, (n - remaining) as nat, len);
                }
            }
            remaining = remaining - 1;
        }
    }

    /// The full line the focused choice installs when accepted.
    pub fn submit(&self) -> (line: String)
        requires
            self.wf(),
        ensures
            line@ == self.choices@[self.focus as int].completion@,
    {
        self.choices[self.focus].completion.clone()
    }

    /// Appends one typed character to the popup's record of the input line.
    /// The host then re-queries completion for the new input and hands the
    /// result to `refilter`.
    pub fn push(&mut self, ch: char)
        requires
            old(self).wf(),
        ensures
            final(self).wf(),
            final(self).input@ == old(self).input@.push(ch),
            final(self).choices == old(self).choices,
            final(self).focus == old(self).focus,
    {
        push_char(&mut self.input, ch);
    }

    /// Installs a re-queried choice set. An empty set leaves the popup
    /// unchanged and reports that it must be dismissed. Otherwise the focus
    /// stays on the previously focused label when it is still present — on
    /// its first occurrence — and falls back to the first row when it is
    /// gone.
    pub fn refilter(&mut self, new_choices: Vec<CompletionChoice>) -> (kept: bool)
        requires
            old(self).wf(),
        ensures
            kept == (new_choices@.len() > 0),
            !kept ==> *final(self) == *old(self),
            kept ==> ({
                let old_label = old(self).choices@[old(self).focus as int].label@;
                &&& final(self).wf()
                &&& final(self).input == old(self).input
                &&& final(self).choices@ == new_choices@
                &&& if exists|j: int|
                    0 <= j < new_choices@.len() && (#[trigger] new_choices@[j]).label@
                        == old_label {
                    final(self).choices@[final(self).focus as int].label@ == old_label && forall|
                        k: int,
                    |
                        0 <= k < final(self).focus ==> (#[trigger] new_choices@[k]).label@
                            != old_label
                } else {
                    final(self).focus == 0
                }
            }),
    {
        if new_choices.len() == 0 {
            return false;
        }
        let ghost old_label = self.choices@[self.focus as int].label@;
        let mut new_focus: usize = 0;
        let mut found: bool = false;
        let mut j: usize = 0;
        while j < new_choices.len()
            invariant
                j <= new_choices@.len(),
                old_label == self.choices@[self.focus as int].label@,
                self.wf(),
                !found ==> new_focus == 0,
                !found ==> forall|k: int|
                    0 <= k < j ==> (#[trigger] new_choices@[k]).label@ != old_label,
                found ==> new_focus < new_choices@.len() && new_choices@[
                    new_focus as int
                ].label@ == old_label && (forall|k: int|
                    0 <= k < new_focus ==> (#[trigger] new_choices@[k]).label@ != old_label),
            decreases new_choices@.len() - j,
        {
            if !found && str_eq(
                new_choices[j].label.as_str(),
                self.choices[self.focus].label.as_str(),
            ) {
                new_focus = j;
                found = true;
            }
            j = j + 1;
        }
        self.choices = new_choices;
        self.focus = new_focus;
        true
    }

    /// Handles one event: navigation moves the focus, accept gestures yield
    /// the focused completion, cancel gestures ask for dismissal, and a
    /// typed character is recorded and sent back for re-querying.
    pub fn inner_on_event(&mut self, event: PopupEvent) -> (action: PopupAction)
        requires
            old(self).wf(),
        ensures
            final(self).wf(),
            final(self).input == old(self).input || (event matches PopupEvent::Char(c)
                && final(self).input@ == old(self).input@.push(c)),
            final(self).choices == old(self).choices,
            ({
                let len = old(self).choices@.len() as int;
                match event {
                    PopupEvent::Up => final(self).focus == focus_after_up(
                        old(self).focus as int,
                        1,
                        len,
                    ) && (action matches PopupAction::Consumed),
                    PopupEvent::Down => final(self).focus == focus_after_down(
                        old(self).focus as int,
                        1,
                        len,
                    ) && (action matches PopupAction::Consumed),
                    PopupEvent::PageUp => final(self).focus as int == (if old(self).focus >= 5 {
                        old(self).focus - 5
                    } else {
                        0
                    }) && (action matches PopupAction::Consumed),
                    PopupEvent::PageDown => final(self).focus as int == (if old(self).focus + 5
                        < len {
                        old(self).focus + 5
                    } else {
                        len - 1
                    }) && (action matches PopupAction::Consumed),
                    PopupEvent::Home => final(self).focus == 0 && (action
                        matches PopupAction::Consumed),
                    PopupEvent::End => final(self).focus as int == len - 1 && (action
                        matches PopupAction::Consumed),
                    PopupEvent::Accept => final(self).focus == old(self).focus && (action
                        matches PopupAction::Submit(line) && line@ == old(self).choices@[old(
                        self,
                    ).focus as int].completion@),
                    PopupEvent::Cancel => final(self).focus == old(self).focus && (action
                        matches PopupAction::Dismiss),
                    PopupEvent::Press(row) => (if (row as int) < len {
                        final(self).focus == row
                    } else {
                        final(self).focus == old(self).focus
                    }) && (action matches PopupAction::Consumed),
                    PopupEvent::Release(row) => final(self).focus == old(self).focus && (if row
                        == old(self).focus {
                        action matches PopupAction::Submit(line) && line@ == old(self).choices@[
                            old(self).focus as int
                        ].completion@
                    } else {
                        action matches PopupAction::Ignored
                    }),
                    PopupEvent::Char(c) => final(self).focus == old(self).focus && (action
                        matches PopupAction::Requery(c2) && c2 == c),
                }
            }),
    {
        match event {
            PopupEvent::Up => {
                self.scroll_up(1, true);
                PopupAction::Consumed
            },
            PopupEvent::PageUp => {
                self.scroll_up(5, false);
                PopupAction::Consumed
            },
            PopupEvent::Down => {
                self.scroll_down(1, true);
                PopupAction::Consumed
            },
            PopupEvent::PageDown => {
                self.scroll_down(5, false);
                PopupAction::Consumed
            },
            PopupEvent::Home => {
                self.focus = 0;
                PopupAction::Consumed
            },
            PopupEvent::End => {
                self.focus = self.choices.len() - 1;
                PopupAction::Consumed
            },
            PopupEvent::Accept => PopupAction::Submit(self.submit()),
            PopupEvent::Cancel => PopupAction::Dismiss,
            PopupEvent::Press(row) => {
                if row < self.choices.len() {
                    self.focus = row;
                }
                PopupAction::Consumed
            },
            PopupEvent::Release(row) => {
                if row == self.focus {
                    PopupAction::Submit(self.submit())
                } else {
                    PopupAction::Ignored
                }
            },
            PopupEvent::Char(c) => {
                self.push(c);
                PopupAction::Requery(c)
            },
        }
    }

    /// The size the popup asks its host for: every label plus two cells of
    /// padding wide, and one row per choice high.
    pub fn inner_required_size(&self) -> (size: (usize, usize))
        requires
            self.wf(),
            max_label_bytes(self.choices@) + 2 <= usize::MAX,
        ensures
            size.0 == 2 + max_label_bytes(self.choices@),
            size.1 == self.choices@.len(),
    {
        let mut m: usize = 0;
        let mut i: usize = 0;
        proof {
            assert(self.choices@.take(0) =~= Seq::<CompletionChoice>::empty());
        }
        while i < self.choices.len()
            invariant
                i <= self.choices@.len(),
                max_label_bytes(self.choices@) + 2 <= usize::MAX,
                m == max_label_bytes(self.choices@.take(i as int)),
            decreases self.choices@.len() - i,
        {
            proof {
                assert(self.choices@.take(i as int + 1).drop_last() =~= self.choices@.take(
                    i as int,
                ));
                assert(self.choices@.take(i as int + 1).last() == self.choices@[i as int]);
                lemma_max_label_bytes_take(self.choices@, i as int + 1);
                lemma_max_label_bytes_bound(self.choices@, i as int);
            }
            let l = self.choices[i].label.as_str().len();
            if l > m {
                m = l;
            }
            i = i + 1;
        }
        proof {
            assert(self.choices@.take(self.choices@.len() as int) =~= self.choices@);
        }
        (2 + m, self.choices.len())
    }
}

proof fn lemma_focus_after_up_step(f: int, k: nat, len: int)
    ensures
        focus_after_up(f, (k + 1) as nat, len) == dec_wrap(focus_after_up(f, k, len), len),
    decreases k,
{
    assert(focus_after_up(f, (k + 1) as nat, len) == focus_after_up(dec_wrap(f, len), k, len));
    if k > 0 {
        lemma_focus_after_up_step(dec_wrap(f, len), (k - 1) as nat, len);
        assert(focus_after_up(f, k, len) == focus_after_up(dec_wrap(f, len), (k - 1) as nat, len));
    }
}

proof fn lemma_focus_after_down_step(f: int, k: nat, len: int)
    ensures
        focus_after_down(f, (k + 1) as nat, len) == inc_wrap(focus_after_down(f, k, len), len),
    decreases k,
{
    assert(focus_after_down(f, (k + 1) as nat, len) == focus_after_down(inc_wrap(f, len), k, len));
    if k > 0 {
        lemma_focus_after_down_step(inc_wrap(f, len), (k - 1) as nat, len);
        assert(focus_after_down(f, k, len) == focus_after_down(
            inc_wrap(f, len),
            (k - 1) as nat,
            len,
        ));
    }
}

proof fn lemma_max_label_bytes_bound(cs: Seq<CompletionChoice>, i: int)
    requires
        0 <= i < cs.len(),
    ensures
        vstd::utf8::encode_utf8(cs[i].label@).len() <= max_label_bytes(cs),
    decreases cs.len(),
{
    if i == cs.len() - 1 {
        assert(cs.last() == cs[i]);
    } else {
        lemma_max_label_bytes_bound(cs.drop_last(), i);
        assert(cs.drop_last()[i] == cs[i]);
    }
}

proof fn lemma_max_label_bytes_take(cs: Seq<CompletionChoice>, i: int)
    requires
        0 < i <= cs.len(),
    ensures
        max_label_bytes(cs.take(i)) == ({
            let rest = max_label_bytes(cs.take(i - 1));
            let l = vstd::utf8::encode_utf8(cs[i - 1].label@).len();
            if l > rest {
                l
            } else {
                rest
            }
        }),
{
    assert(cs.take(i).drop_last() =~= cs.take(i - 1));
    assert(cs.take(i).last() == cs[i - 1]);
}

} // verus!
