//! The orientation phase: a role for those who know the group's password.

use vstd::prelude::*;
use crate::config::OPhase;

verus! {

impl OPhase {
    /// Whether `password` is the password of the group.
    pub fn admits(&self, password: &str) -> (r: bool)
        ensures
            r == (password@ == self.password@),
    {
        let given = password.to_owned();
        given == self.password
    }
}

} // verus!
