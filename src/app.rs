use vstd::prelude::*;

use crate::menu::{
    any_selectable, auto_target, lemma_moved_selectable, lemma_reselect_selectable, moved,
    reselect, selectable, Entry, Menu, SearchDirection,
};
use crate::string::{delete_word, push_char, without_last_word};

verus! {

/// The behavioural switches of a picking session.
#[derive(Debug, Clone, Copy, PartialEq, Eq)]
pub struct Options {
    /// Moving the selection stops at either end instead of wrapping around.
    pub no_wrap: bool,
    /// Never confirm an entry without an explicit accept.
    pub no_auto_accept: bool,
    /// Accept typed characters that no entry matches.
    pub unrestricted_input: bool,
}

/// The selection must be a selectable entry, and absent only when none is.
pub open spec fn selection_fits(es: Seq<Entry>, input: Seq<char>, sel: Option<int>) -> bool {
    match sel {
        Some(k) => 0 <= k < es.len() && selectable(es[k], input),
        None => !any_selectable(es, input),
    }
}

/// An interactive picking session: the menu, the input typed so far, and, once
/// the session is over, its outcome (`Some(None)` when cancelled, `Some(Some(body))`
/// when an entry was accepted).
pub struct App {
    pub options: Options,
    pub menu: Menu,
    pub input: String,
    pub exit_value: Option<Option<String>>,
}

impl App {
    /// The menu is well formed and, while the session runs, its selection fits
    /// the input.
    pub open spec fn wf(&self) -> bool {
        &&& self.menu.wf()
        &&& (self.exit_value is None ==> selection_fits(
            self.menu.entries_view(),
            self.input@,
            self.menu.selection_view(),
        ))
    }

    /// The session has ended with the entry body `body`.
    pub open spec fn accepted(&self, body: Seq<char>) -> bool {
        &&& self.exit_value is Some
        &&& self.exit_value->0 is Some
        &&& self.exit_value->0->0@ == body
    }

    /// Starts a session over `lines` with empty input and the first entry selected.
    pub fn new(options: Options, lines: &[String]) -> (r: App)
        requires
            lines@.len() > 0,
        ensures
            r.wf(),
            r.options == options,
            r.input@ == Seq::<char>::empty(),
            r.exit_value is None,
            r.menu.entries_view().len() == lines@.len(),
            forall|i: int|
                0 <= i < lines@.len() ==> (#[trigger] r.menu.entries_view()[i]).body@
                    == lines@[i]@,
            r.menu.selection_view() == Some(0int),
    {
        let menu = Menu::from_lines(lines);
        let app = App { options, menu, input: String::new(), exit_value: None };
        proof {
            let es = app.menu.entries_view();
            assert(es[0].body@.subrange(0, 0) == Seq::<char>::empty());
            assert forall|i: int| 0 <= i < lines@.len() implies (#[trigger] es[i]).body@
                == lines@[i]@ by {
                assert(crate::menu::entry_for(crate::menu::texts(lines@), i, es[i]));
            }
        }
        app
    }

    /// Types `ch`. Refused when the session is over, or when no entry starts with
    /// the extended input and input is restricted. Otherwise the input grows by
    /// `ch`; then, unless auto-accept is off, the only selectable entry, if it is
    /// eligible, ends the session; else the selection is recomputed.
    pub fn input_type(&mut self, ch: char) -> (r: bool)
        requires
            old(self).wf(),
        ensures
            final(self).wf(),
            final(self).options == old(self).options,
            final(self).menu.entries_view() == old(self).menu.entries_view(),
            ({
                let es = old(self).menu.entries_view();
                let typed = old(self).input@.push(ch);
                if old(self).exit_value is Some || (!old(self).options.unrestricted_input
                    && !any_selectable(es, typed)) {
                    &&& !r
                    &&& *final(self) == *old(self)
                } else {
                    &&& r
                    &&& final(self).input@ == typed
                    &&& if !old(self).options.no_auto_accept && auto_target(es, typed) is Some {
                        &&& final(self).accepted(es[auto_target(es, typed)->0].body@)
                        &&& final(self).menu.selection_view() == old(self).menu.selection_view()
                    } else {
                        &&& final(self).exit_value is None
                        &&& final(self).menu.selection_view() == reselect(
                            es,
                            typed,
                            old(self).menu.selection_view(),
                        )
                    }
                }
            }),
    {
        if self.exit_value.is_some() {
            return false;
        }
        let mut new_input = self.input.clone();
        push_char(&mut new_input, ch);
        if !self.options.unrestricted_input && !self.menu.has_selectable(new_input.as_str()) {
            return false;
        }
        self.input = new_input;
        if !self.options.no_auto_accept && self.try_auto_accept() {
            return true;
        }
        self.menu.update_selection(self.input.as_str());
        proof {
            lemma_reselect_selectable(
                old(self).menu.entries_view(),
                self.input@,
                old(self).menu.selection_view(),
            );
        }
        true
    }

    /// Confirms the only entry selectable under the current input, if it is
    /// eligible, ending the session with its body. Does nothing once the session
    /// is over.
    pub fn try_auto_accept(&mut self) -> (r: bool)
        requires
            old(self).menu.wf(),
        ensures
            final(self).options == old(self).options,
            final(self).menu == old(self).menu,
            final(self).input == old(self).input,
            ({
                let es = old(self).menu.entries_view();
                if old(self).exit_value is None && auto_target(es, old(self).input@) is Some {
                    &&& r
                    &&& final(self).accepted(es[auto_target(es, old(self).input@)->0].body@)
                } else {
                    &&& !r
                    &&& final(self).exit_value == old(self).exit_value
                }
            }),
    {
        if self.exit_value.is_some() {
            return false;
        }
        match self.menu.find_acceptable(self.input.as_str()) {
            Some(entry) => {
                self.exit_value = Some(Some(entry.body.clone()));
                true
            },
            None => false,
        }
    }

    /// Deletes the last typed character and recomputes the selection. Refused
    /// when the input is empty or the session is over.
    pub fn input_delete_char(&mut self) -> (r: bool)
        requires
            old(self).wf(),
        ensures
            final(self).wf(),
            final(self).options == old(self).options,
            final(self).menu.entries_view() == old(self).menu.entries_view(),
            final(self).exit_value == old(self).exit_value,
            if old(self).exit_value is Some || old(self).input@.len() == 0 {
                &&& !r
                &&& *final(self) == *old(self)
            } else {
                &&& r
                &&& final(self).input@ == old(self).input@.drop_last()
                &&& final(self).menu.selection_view() == reselect(
                    old(self).menu.entries_view(),
                    old(self).input@.drop_last(),
                    old(self).menu.selection_view(),
                )
            },
    {
        if self.exit_value.is_some() {
            return false;
        }
        let len = self.input.as_str().unicode_len();
        if len == 0 {
            return false;
        }
        self.input = self.input.as_str().substring_char(0, len - 1).to_owned();
        self.menu.update_selection(self.input.as_str());
        proof {
            assert(self.input@ == old(self).input@.drop_last());
            lemma_reselect_selectable(
                old(self).menu.entries_view(),
                self.input@,
                old(self).menu.selection_view(),
            );
        }
        true
    }

    /// Deletes the last typed word and recomputes the selection. Refused when the
    /// input is empty or the session is over.
    pub fn input_delete_word(&mut self) -> (r: bool)
        requires
            old(self).wf(),
        ensures
            final(self).wf(),
            final(self).options == old(self).options,
            final(self).menu.entries_view() == old(self).menu.entries_view(),
            final(self).exit_value == old(self).exit_value,
            if old(self).exit_value is Some || old(self).input@.len() == 0 {
                &&& !r
                &&& *final(self) == *old(self)
            } else {
                &&& r
                &&& final(self).input@ == without_last_word(old(self).input@)
                &&& final(self).menu.selection_view() == reselect(
                    old(self).menu.entries_view(),
                    without_last_word(old(self).input@),
                    old(self).menu.selection_view(),
                )
            },
    {
        if self.exit_value.is_some() {
            return false;
        }
        if self.input.as_str().is_empty() {
            return false;
        }
        self.input = delete_word(self.input.as_str());
        self.menu.update_selection(self.input.as_str());
        proof {
            lemma_reselect_selectable(
                old(self).menu.entries_view(),
                self.input@,
                old(self).menu.selection_view(),
            );
        }
        true
    }

    /// Moves the selection one selectable entry in `direction`, wrapping around
    /// unless wrapping is off. Refused once the session is over.
    pub fn move_selection(&mut self, direction: SearchDirection) -> (r: bool)
        requires
            old(self).wf(),
        ensures
            final(self).wf(),
            final(self).options == old(self).options,
            final(self).input == old(self).input,
            final(self).exit_value == old(self).exit_value,
            final(self).menu.entries_view() == old(self).menu.entries_view(),
            if old(self).exit_value is Some {
                &&& !r
                &&& *final(self) == *old(self)
            } else {
                &&& final(self).menu.selection_view() == moved(
                    old(self).menu.entries_view(),
                    old(self).input@,
                    direction,
                    !old(self).options.no_wrap,
                    old(self).menu.selection_view(),
                )
                &&& r == (crate::menu::move_target(
                    old(self).menu.entries_view(),
                    old(self).input@,
                    direction,
                    !old(self).options.no_wrap,
                    old(self).menu.selection_view(),
                ) is Some)
            },
    {
        if self.exit_value.is_some() {
            return false;
        }
        let wrap = !self.options.no_wrap;
        let r = self.menu.move_selection(self.input.as_str(), direction, wrap);
        proof {
            if r {
                lemma_moved_selectable(
                    old(self).menu.entries_view(),
                    self.input@,
                    direction,
                    wrap,
                    old(self).menu.selection_view(),
                );
            }
        }
        r
    }

    /// Confirms the selected entry, ending the session with its body. Refused when
    /// nothing is selected or the session is over.
    pub fn try_manual_accept(&mut self) -> (r: bool)
        requires
            old(self).wf(),
        ensures
            final(self).wf(),
            final(self).options == old(self).options,
            final(self).menu == old(self).menu,
            final(self).input == old(self).input,
            if old(self).exit_value is None && old(self).menu.selection_view() is Some {
                &&& r
                &&& final(self).accepted(
                    old(self).menu.entries_view()[old(self).menu.selection_view()->0].body@,
                )
            } else {
                &&& !r
                &&& *final(self) == *old(self)
            },
    {
        if self.exit_value.is_some() {
            return false;
        }
        match self.menu.manual_accept() {
            Some(entry) => {
                self.exit_value = Some(Some(entry.body.clone()));
                true
            },
            None => false,
        }
    }

    /// Cancels the session. Does nothing once the session is over.
    pub fn cancel(&mut self)
        requires
            old(self).wf(),
        ensures
            final(self).wf(),
            final(self).options == old(self).options,
            final(self).menu == old(self).menu,
            final(self).input == old(self).input,
            old(self).exit_value is None ==> final(self).exit_value == Some(None::<String>),
            old(self).exit_value is Some ==> *final(self) == *old(self),
    {
        if self.exit_value.is_none() {
            self.exit_value = Some(None);
        }
    }
}

} // verus!
