//! The script record: a unique alias bound to a command body of one or more
//! shell lines, with an optional description, tags used for filtering, and an
//! optional reference marker for bodies sourced from elsewhere.

use vstd::prelude::*;

verus! {

/// One stored script. The alias identifies it within a store (case-sensitive,
/// non-empty); the command body holds one or more shell lines; the tags serve
/// filtering only, never uniqueness; the reference marker, when present,
/// records that the body is only a pointer to an externally owned script.
#[derive(Debug, PartialEq)]
pub struct Script {
    pub alias: String,
    pub description: Option<String>,
    pub command: String,
    pub tags: Vec<String>,
    pub reference: Option<String>,
}

/// The mathematical value of a script: every text field as its sequence of
/// characters.
pub ghost struct ScriptView {
    pub alias: Seq<char>,
    pub description: Option<Seq<char>>,
    pub command: Seq<char>,
    pub tags: Seq<Seq<char>>,
    pub reference: Option<Seq<char>>,
}

impl ScriptView {
    /// A valid script carries a non-empty alias.
    pub open spec fn wf(self) -> bool {
        self.alias.len() > 0
    }

    /// The script carries every tag of `ts`.
    pub open spec fn has_all_tags(self, ts: Seq<Seq<char>>) -> bool {
        forall|i: int| 0 <= i < ts.len() ==> self.tags.contains(ts[i])
    }
}

impl View for Script {
    type V = ScriptView;

    open spec fn view(&self) -> ScriptView {
        ScriptView {
            alias: self.alias@,
            description: self.description.deep_view(),
            command: self.command@,
            tags: self.tags.deep_view(),
            reference: self.reference.deep_view(),
        }
    }
}

impl DeepView for Script {
    type V = ScriptView;

    open spec fn deep_view(&self) -> ScriptView {
        self@
    }
}

/// Clones an optional text field, keeping its value.
fn clone_opt_string(o: &Option<String>) -> (r: Option<String>)
    ensures
        r.deep_view() == o.deep_view(),
{
    match o {
        Some(s) => Some(s.clone()),
        None => None,
    }
}

/// Clones a list of text fields, keeping every element.
fn clone_string_vec(v: &Vec<String>) -> (r: Vec<String>)
    ensures
        r.deep_view() == v.deep_view(),
{
    let mut out: Vec<String> = Vec::new();
    let mut i: usize = 0;
    while i < v.len()
        invariant
            i <= v.len(),
            out@.len() == i as int,
            forall|j: int| 0 <= j < i as int ==> out@[j]@ == v@[j]@,
        decreases v.len() - i,
    {
        out.push(v[i].clone());
        i = i + 1;
    }
    assert(out.deep_view() =~= v.deep_view());
    out
}

impl Clone for Script {
    /// A clone carries the same mathematical value.
    fn clone(&self) -> (r: Self)
        ensures
            r@ == self@,
    {
        let r = Script {
            alias: self.alias.clone(),
            description: clone_opt_string(&self.description),
            command: self.command.clone(),
            tags: clone_string_vec(&self.tags),
            reference: clone_opt_string(&self.reference),
        };
        r
    }
}

} // verus!
