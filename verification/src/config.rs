//! Service definitions: what the supervisor runs and how it treats a
//! service when it exits.

use vstd::prelude::*;

verus! {

/// What happens when a (non-critical) service exits.
#[derive(PartialEq, Eq, Structural, Clone, Copy, Debug)]
pub enum RestartPolicy {
    /// Leave it stopped.
    Never,
    /// Start it again, whatever its exit status.
    Always,
    /// Start it again unless it exited with status 0.
    OnFailure,
}

/// One supervised service.
#[derive(Debug)]
pub struct ServiceDef {
    pub name: String,
    pub path: String,
    pub args: Vec<String>,
    /// A critical service's exit halts the system rather than restarting it.
    pub critical: bool,
    pub restart: RestartPolicy,
    /// Memory limit in bytes, if any.
    pub memory_limit: Option<u64>,
}

/// The text-level content of a `ServiceDef`.
pub struct ServiceDefView {
    pub name: Seq<char>,
    pub path: Seq<char>,
    pub args: Seq<Seq<char>>,
    pub critical: bool,
    pub restart: RestartPolicy,
    pub memory_limit: Option<u64>,
}

pub open spec fn strings_view(v: Seq<String>) -> Seq<Seq<char>> {
    v.map_values(|s: String| s@)
}

impl View for ServiceDef {
    type V = ServiceDefView;

    open spec fn view(&self) -> ServiceDefView {
        ServiceDefView {
            name: self.name@,
            path: self.path@,
            args: strings_view(self.args@),
            critical: self.critical,
            restart: self.restart,
            memory_limit: self.memory_limit,
        }
    }
}

/// A copy of a list of strings.
pub fn clone_strings(v: &Vec<String>) -> (r: Vec<String>)
    ensures
        strings_view(r@) == strings_view(v@),
{
    let mut r: Vec<String> = Vec::new();
    let mut i: usize = 0;
    while i < v.len()
        invariant
            0 <= i <= v@.len(),
            strings_view(r@) == strings_view(v@.take(i as int)),
        decreases v@.len() - i,
    {
        let s = v[i].clone();
        proof {
            assert(v@.take(i + 1) =~= v@.take(i as int).push(v@[i as int]));
            assert(strings_view(r@.push(s)) =~= strings_view(r@).push(s@));
            assert(strings_view(v@.take(i + 1)) =~= strings_view(v@.take(i as int)).push(
                v@[i as int]@,
            ));
        }
        r.push(s);
        i = i + 1;
    }
    assert(v@.take(v@.len() as int) =~= v@);
    r
}

/// Whether two lists of strings hold the same texts.
pub fn strings_equal(a: &Vec<String>, b: &Vec<String>) -> (r: bool)
    ensures
        r == (strings_view(a@) == strings_view(b@)),
{
    if a.len() != b.len() {
        assert(strings_view(a@).len() != strings_view(b@).len());
        return false;
    }
    let mut i: usize = 0;
    while i < a.len()
        invariant
            a@.len() == b@.len(),
            0 <= i <= a@.len(),
            forall|j: int| 0 <= j < i ==> (#[trigger] a@[j])@ == b@[j]@,
        decreases a@.len() - i,
    {
        if a[i] != b[i] {
            assert(strings_view(a@)[i as int] != strings_view(b@)[i as int]);
            return false;
        }
        i = i + 1;
    }
    assert(strings_view(a@) =~= strings_view(b@));
    true
}

impl Clone for ServiceDef {
    fn clone(&self) -> (r: Self)
        ensures
            r@ == self@,
    {
        ServiceDef {
            name: self.name.clone(),
            path: self.path.clone(),
            args: clone_strings(&self.args),
            critical: self.critical,
            restart: self.restart,
            memory_limit: self.memory_limit,
        }
    }
}

} // verus!
