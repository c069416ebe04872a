//! A small log of error lines with a dismissable popup for the latest one.

use vstd::prelude::*;
use vstd::string::StringExecFns;

verus! {

/// Collected error lines; the last one is shown until dismissed.
#[derive(Debug)]
pub struct ErrorLog {
    pub lines: Vec<String>,
    pub dismissed: bool,
}

impl ErrorLog {
    /// Hide the popup until the next error arrives.
    pub fn dismiss(&mut self)
        ensures
            final(self).dismissed,
            final(self).lines == old(self).lines,
    {
        self.dismissed = true;
    }

    /// The popup text: the latest error with a dismissal hint appended, or
    /// nothing if there is no error or it was dismissed.
    pub fn error_popup(&self) -> (r: Option<String>)
        ensures
            match r {
                Some(s) => !self.dismissed && self.lines@.len() > 0 && s@ == self.lines@[self.lines@.len() - 1]@ + "\nPress 'd' to dismiss"@,
                None => self.dismissed || self.lines@.len() == 0,
            },
    {
        if self.dismissed {
            return None;
        }
        let n = self.lines.len();
        if n == 0 {
            return None;
        }
        let mut text = self.lines[n - 1].clone();
        text.append("\nPress 'd' to dismiss");
        Some(text)
    }

    /// A copy of every recorded line, oldest first.
    pub fn content(&self) -> (r: Vec<String>)
        ensures
            r@.len() == self.lines@.len(),
            forall|i: int| 0 <= i < r@.len() ==> (#[trigger] r@[i])@ == self.lines@[i]@,
    {
        let mut out: Vec<String> = Vec::new();
        let n = self.lines.len();
        let mut i: usize = 0;
        while i < n
            invariant
                n == self.lines@.len(),
                i <= n,
                out@.len() == i,
                forall|j: int| 0 <= j < i ==> (#[trigger] out@[j])@ == self.lines@[j]@,
            decreases n - i,
        {
            out.push(self.lines[i].clone());
            i = i + 1;
        }
        out
    }

    /// Record a new error and surface the popup again.
    pub fn push_error(&mut self, error_text: String)
        ensures
            final(self).lines@.len() == old(self).lines@.len() + 1,
            final(self).lines@.last() == error_text,
            forall|i: int|
                0 <= i < old(self).lines@.len() ==> final(self).lines@[i] == old(self).lines@[i],
            !final(self).dismissed,
    {
        self.lines.push(error_text);
        self.dismissed = false;
    }

    /// Replace the latest error (if any) with a new one and surface the
    /// popup again.
    pub fn replace_error(&mut self, error_text: String)
        ensures
            final(self).lines@.len() == if old(self).lines@.len() > 0 {
                old(self).lines@.len()
            } else {
                1nat
            },
            final(self).lines@.last() == error_text,
            !final(self).dismissed,
    {
        self.lines.pop();
        self.push_error(error_text);
    }

    /// The log starts empty with no popup showing.
    pub fn new() -> (r: ErrorLog)
        ensures
            r.lines@.len() == 0,
            r.dismissed,
    {
        ErrorLog { lines: Vec::new(), dismissed: true }
    }
}

impl Default for ErrorLog {
    fn default() -> (r: ErrorLog)
        ensures
            r.lines@.len() == 0,
            r.dismissed,
    {
        ErrorLog::new()
    }
}

} // verus!
