//! The daemon lock: one daemon per lock path in a process, and the error
//! a second attempt gets.
//!
//! Opening and locking the file happen around this module.

use crate::text::{chars_eq, chars_of, string_of};
use vstd::prelude::*;

verus! {

#[verifier::external_type_specification]
#[verifier::external_body]
pub struct ExIoError(std::io::Error);

/// Why the lock could not be taken.
#[derive(Debug)]
pub enum LockError {
    AlreadyRunning,
    Io(std::io::Error),
}

/// `<std::io::Error as Display>::to_string`: the operating system's text
/// for the error. Nothing is stated of that text.
#[verifier::external_body]
fn io_error_text(error: &std::io::Error) -> String {
    error.to_string()
}

impl LockError {
    /// The error's text: `daemon is already running`, or the text of the
    /// I/O error.
    pub fn message(&self) -> (m: String)
        ensures
            self is AlreadyRunning ==> m@ == "daemon is already running"@,
    {
        match self {
            LockError::AlreadyRunning => String::from_str("daemon is already running"),
            LockError::Io(e) => io_error_text(e),
        }
    }
}

/// The lock paths this process holds.
pub struct HeldPaths {
    pub paths: Vec<String>,
}

pub open spec fn paths_view(v: Seq<String>) -> Seq<Seq<char>> {
    v.map_values(|s: String| s@)
}

impl HeldPaths {
    pub fn new() -> (h: HeldPaths)
        ensures
            h.paths@.len() == 0,
    {
        HeldPaths { paths: Vec::new() }
    }

    /// Whether the path is held.
    pub fn holds(&self, path: &str) -> (r: bool)
        ensures
            r == paths_view(self.paths@).contains(path@),
    {
        let target = chars_of(path);
        let ghost pv = paths_view(self.paths@);
        let mut i: usize = 0;
        while i < self.paths.len()
            invariant
                i <= self.paths@.len(),
                pv == paths_view(self.paths@),
                target@ == path@,
                forall|k: int| 0 <= k < i ==> pv[k] != path@,
            decreases self.paths.len() - i,
        {
            if chars_eq(&chars_of(self.paths[i].as_str()), &target) {
                assert(pv[i as int] == path@);
                return true;
            }
            i = i + 1;
        }
        false
    }

    /// Claims a path: refused when it is already held, else held from now.
    pub fn try_claim(&mut self, path: &str) -> (r: bool)
        ensures
            r == !paths_view(old(self).paths@).contains(path@),
            r ==> paths_view(final(self).paths@) == paths_view(old(self).paths@).push(path@),
            !r ==> final(self).paths@ == old(self).paths@,
    {
        if self.holds(path) {
            return false;
        }
        let ghost before = self.paths@;
        let p = string_of(&chars_of(path));
        self.paths.push(p);
        assert(paths_view(self.paths@) =~= paths_view(before).push(path@));
        true
    }

    /// Gives a path up.
    pub fn release(&mut self, path: &str)
        ensures
            paths_view(final(self).paths@) == without_path(paths_view(old(self).paths@), path@),
    {
        let target = chars_of(path);
        let ghost old_v = paths_view(self.paths@);
        let mut kept: Vec<String> = Vec::new();
        let mut i: usize = 0;
        assert(old_v.take(0) =~= Seq::<Seq<char>>::empty());
        while i < self.paths.len()
            invariant
                i <= self.paths@.len(),
                old_v == paths_view(self.paths@),
                target@ == path@,
                paths_view(kept@) == without_path(old_v.take(i as int), path@),
            decreases self.paths.len() - i,
        {
            assert(old_v.take(i + 1).drop_last() =~= old_v.take(i as int));
            assert(old_v.take(i + 1).last() == old_v[i as int]);
            let c = chars_of(self.paths[i].as_str());
            if !chars_eq(&c, &target) {
                let ghost k0 = kept@;
                let s = string_of(&c);
                kept.push(s);
                assert(paths_view(kept@) =~= paths_view(k0).push(s@));
            }
            i = i + 1;
        }
        assert(old_v.take(i as int) =~= old_v);
        self.paths = kept;
    }
}

/// The paths other than `p`, in order.
pub open spec fn without_path(v: Seq<Seq<char>>, p: Seq<char>) -> Seq<Seq<char>>
    decreases v.len(),
{
    if v.len() == 0 {
        Seq::empty()
    } else {
        let prev = without_path(v.drop_last(), p);
        if v.last() != p {
            prev.push(v.last())
        } else {
            prev
        }
    }
}

/// A released path is no longer held; every other path stays as it was.
pub proof fn lemma_release_keeps_others(v: Seq<Seq<char>>, p: Seq<char>, q: Seq<char>)
    ensures
        !without_path(v, p).contains(p),
        q != p ==> (without_path(v, p).contains(q) == v.contains(q)),
    decreases v.len(),
{
    if v.len() > 0 {
        let d = v.drop_last();
        lemma_release_keeps_others(d, p, q);
        let prev = without_path(d, p);
        let out = without_path(v, p);
        if out.contains(p) {
            let k = choose|k: int| 0 <= k < out.len() && out[k] == p;
            if k < prev.len() {
                assert(out[k] == prev[k]);
            }
        }
        if q != p {
            if out.contains(q) {
                let k = choose|k: int| 0 <= k < out.len() && out[k] == q;
                if k < prev.len() {
                    assert(out[k] == prev[k]);
                    let j = choose|j: int| 0 <= j < d.len() && d[j] == q;
                    assert(v[j] == d[j]);
                } else {
                    assert(v[v.len() - 1] == q);
                }
            }
            if v.contains(q) {
                let j = choose|j: int| 0 <= j < v.len() && v[j] == q;
                if j < d.len() {
                    assert(d[j] == v[j]);
                    let k = choose|k: int| 0 <= k < prev.len() && prev[k] == q;
                    assert(out[k] == prev[k]);
                } else {
                    assert(out[out.len() - 1] == q);
                }
            }
        }
    }
}

/// A claimed path cannot be claimed again until it is released, and can be
/// claimed again after.
pub proof fn lemma_claim_exclusive(held: Seq<Seq<char>>, p: Seq<char>)
    ensures
        held.push(p).contains(p),
        !without_path(held.push(p), p).contains(p),
{
    assert(held.push(p)[held.len() as int] == p);
    lemma_release_keeps_others(held.push(p), p, p);
}

} // verus!
