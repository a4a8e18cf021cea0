//! The texts put to the model, kept apart from the code so that they can be
//! reworded while the game runs: rewording is the actual development work in
//! a game like this.

use vstd::prelude::*;

use crate::text::{is_blank, joined, trimmed_text};

verus! {

/// Where the texts are read from, relative to the working directory.
pub const QUESTIONS_PATH: &'static str = "assets/questions.ron";

/// The fallback, compiled in. Used when the file is missing or will not read.
pub const DEFAULT_STEP: &'static str = "Which single step should this ant take now? Follow the ant queen's order whenever it applies.";

/// The question texts in force right now.
pub struct Questions {
    /// The one `choice` question put to every ant.
    pub step: String,
}

impl Questions {
    pub fn default() -> (q: Questions)
        ensures
            q.step@ == DEFAULT_STEP@,
    {
        Questions { step: String::from_str(DEFAULT_STEP) }
    }

    /// Texts that were read are only taken if there is a question in them.
    pub fn checked(self) -> (r: Result<Questions, String>)
        ensures
            trimmed_text(self.step@).len() == 0 <==> r is Err,
            r matches Ok(q) ==> q.step@ == self.step@,
            r matches Err(m) ==> m@ == QUESTIONS_PATH@ + ": the step question is empty"@,
    {
        if is_blank(self.step.as_str()) {
            return Err(joined(QUESTIONS_PATH, ": the step question is empty"));
        }
        Ok(self)
    }

    /// The file when it reads, the compiled-in text otherwise: the game never
    /// fails over this.
    pub fn or_default(read: Result<Questions, String>) -> (q: Questions)
        ensures
            read matches Ok(r) ==> q.step@ == r.step@,
            read is Err ==> q.step@ == DEFAULT_STEP@,
    {
        match read {
            Ok(q) => q,
            Err(_) => Questions::default(),
        }
    }
}

} // verus!
