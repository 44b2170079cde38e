//! A contest problem and the address of its page.

use vstd::prelude::*;

use crate::text::{chars_of, push_chars, string_of};

verus! {

/// A problem of a contest.
#[derive(Debug)]
pub struct Problem {
    pub id: String,
    pub contest_id: String,
    pub title: String,
}

impl Problem {
    /// The address of the problem's page:
    /// `https://atcoder.jp/contests/<contest_id>/tasks/<id>`.
    pub fn generate_problem_url(&self) -> (r: String)
        ensures
            r@ == "https://atcoder.jp/contests/"@ + self.contest_id@ + "/tasks/"@ + self.id@,
    {
        let mut out = chars_of("https://atcoder.jp/contests/");
        let contest = chars_of(self.contest_id.as_str());
        push_chars(&mut out, contest.as_slice());
        let tasks = chars_of("/tasks/");
        push_chars(&mut out, tasks.as_slice());
        let id = chars_of(self.id.as_str());
        push_chars(&mut out, id.as_slice());
        string_of(out.as_slice())
    }
}

} // verus!
