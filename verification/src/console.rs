//! The textual command console's state.
//!
//! The console keeps the line being edited, the history of submitted
//! lines, and whether the input field should grab keyboard focus on the
//! next draw. Widget drawing is the host UI's business; it reports each
//! edit back here as the edited text plus whether enter was pressed.

use vstd::prelude::*;

verus! {

/// Command console state: the pending input line, the submitted
/// history, and the pending-refocus flag.
#[derive(Debug)]
pub struct Console {
    input: String,
    history: Vec<String>,
    refocus: bool,
}

impl Console {
    /// The line being edited.
    pub closed spec fn spec_input(&self) -> Seq<char> {
        self.input@
    }

    /// The submitted lines, oldest first.
    pub closed spec fn spec_history(&self) -> Seq<String> {
        self.history@
    }

    /// Whether the input field should grab keyboard focus.
    pub closed spec fn spec_refocus(&self) -> bool {
        self.refocus
    }

    /// An empty console that wants focus.
    pub fn new() -> (c: Self)
        ensures
            c.spec_input() == Seq::<char>::empty(),
            c.spec_history() == Seq::<String>::empty(),
            c.spec_refocus(),
    {
        Console { input: String::new(), history: Vec::new(), refocus: true }
    }

    /// Takes the edited input line back from the UI. On enter the line
    /// moves to the history, the input clears and the field asks for
    /// focus again; otherwise the line stays pending and the field
    /// yields focus.
    pub fn on_input(&mut self, text: String, entered: bool)
        ensures
            entered ==> final(self).spec_history() == old(self).spec_history().push(text)
                && final(self).spec_input() == Seq::<char>::empty() && final(self).spec_refocus(),
            !entered ==> final(self).spec_history() == old(self).spec_history()
                && final(self).spec_input() == text@ && !final(self).spec_refocus(),
    {
        if entered {
            self.history.push(text);
            self.input = String::new();
            self.refocus = true;
        } else {
            self.input = text;
            self.refocus = false;
        }
    }

    /// The submitted lines, oldest first.
    pub fn history(&self) -> (h: &Vec<String>)
        ensures
            h@ == self.spec_history(),
    {
        &self.history
    }

    /// The line being edited.
    pub fn input(&self) -> (s: &String)
        ensures
            s@ == self.spec_input(),
    {
        &self.input
    }

    /// Whether the input field should grab keyboard focus.
    pub fn refocus(&self) -> (r: bool)
        ensures
            r == self.spec_refocus(),
    {
        self.refocus
    }
}

} // verus!
