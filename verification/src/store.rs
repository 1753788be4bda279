//! The script store: an insertion-ordered collection of scripts in which no
//! two entries share an alias, together with exact-match lookup, in-place
//! editing, removal, and tag filtering.

use vstd::prelude::*;

use crate::error::PierError;
use crate::script::{Script, ScriptView};

verus! {

/// Some entry of `s` carries the alias `a`.
pub open spec fn has_alias(s: Seq<ScriptView>, a: Seq<char>) -> bool {
    exists|i: int| 0 <= i < s.len() && s[i].alias == a
}

/// No two entries of `s` share an alias.
pub open spec fn aliases_unique(s: Seq<ScriptView>) -> bool {
    forall|i: int, j: int| 0 <= i < j < s.len() ==> s[i].alias != s[j].alias
}

/// Every entry of `s` is itself a valid script.
pub open spec fn all_wf(s: Seq<ScriptView>) -> bool {
    forall|i: int| 0 <= i < s.len() ==> (#[trigger] s[i]).wf()
}

/// The ordered subsequence of `s` whose entries carry every tag of `ts`.
pub open spec fn filter_by_tags(s: Seq<ScriptView>, ts: Seq<Seq<char>>) -> Seq<ScriptView>
    decreases s.len(),
{
    if s.len() == 0 {
        Seq::empty()
    } else if s.last().has_all_tags(ts) {
        filter_by_tags(s.drop_last(), ts).push(s.last())
    } else {
        filter_by_tags(s.drop_last(), ts)
    }
}

/// Filtering by no tags keeps the whole sequence: every entry trivially
/// carries all of an empty tag set.
pub proof fn lemma_filter_by_no_tags(s: Seq<ScriptView>)
    ensures
        filter_by_tags(s, Seq::empty()) == s,
    decreases s.len(),
{
    if s.len() == 0 {
        assert(filter_by_tags(s, Seq::empty()) =~= s);
    } else {
        lemma_filter_by_no_tags(s.drop_last());
        assert(filter_by_tags(s, Seq::empty()) =~= s);
    }
}

/// Tag filtering keeps exactly the right scripts: an entry stands in the
/// filtered sequence if and only if it stands in the store and carries every
/// requested tag.
pub proof fn lemma_filter_members(s: Seq<ScriptView>, ts: Seq<Seq<char>>, v: ScriptView)
    ensures
        filter_by_tags(s, ts).contains(v) <==> (s.contains(v) && v.has_all_tags(ts)),
    decreases s.len(),
{
    if s.len() == 0 {
    } else {
        let pre = s.drop_last();
        lemma_filter_members(pre, ts, v);
        let f = filter_by_tags(s, ts);
        let fp = filter_by_tags(pre, ts);
        if f.contains(v) {
            let i = choose|i: int| 0 <= i < f.len() && f[i] == v;
            if s.last().has_all_tags(ts) && i == f.len() - 1 {
                assert(s[s.len() - 1] == v);
                assert(s.contains(v));
            } else {
                assert(fp[i] == v);
                assert(fp.contains(v));
                let j = choose|j: int| 0 <= j < pre.len() && pre[j] == v;
                assert(s[j] == v);
                assert(s.contains(v));
            }
        }
        if s.contains(v) && v.has_all_tags(ts) {
            let i = choose|i: int| 0 <= i < s.len() && s[i] == v;
            if i == s.len() - 1 {
                assert(f[f.len() - 1] == v);
                assert(f.contains(v));
            } else {
                assert(pre[i] == v);
                assert(pre.contains(v));
                let j = choose|j: int| 0 <= j < fp.len() && fp[j] == v;
                assert(f[j] == v);
                assert(f.contains(v));
            }
        }
    }
}

/// Compares two pieces of text character by character.
pub fn str_eq(a: &str, b: &str) -> (r: bool)
    ensures
        r == (a@ == b@),
{
    let an = a.unicode_len();
    let bn = b.unicode_len();
    if an != bn {
        assert(a@ != b@);
        return false;
    }
    let mut i: usize = 0;
    while i < an
        invariant
            i <= an,
            an == a@.len(),
            an == b@.len(),
            forall|j: int| 0 <= j < i as int ==> a@[j] == b@[j],
        decreases an - i,
    {
        if a.get_char(i) != b.get_char(i) {
            return false;
        }
        i = i + 1;
    }
    assert(a@ =~= b@);
    true
}

/// The insertion-ordered store of scripts. Its invariant, `wf`, holds after
/// construction and across every operation: aliases are pairwise distinct and
/// every entry is itself valid (non-empty alias).
#[derive(Debug, PartialEq)]
pub struct Store {
    scripts: Vec<Script>,
}

impl View for Store {
    type V = Seq<ScriptView>;

    closed spec fn view(&self) -> Seq<ScriptView> {
        self.scripts.deep_view()
    }
}

impl Store {
    /// The store invariant: pairwise-distinct aliases, each non-empty.
    pub open spec fn wf(&self) -> bool {
        &&& aliases_unique(self@)
        &&& all_wf(self@)
    }

    /// An empty store: the explicit "no scripts yet" state.
    pub fn new() -> (r: Store)
        ensures
            r@ =~= Seq::<ScriptView>::empty(),
            r.wf(),
    {
        Store { scripts: Vec::new() }
    }

    /// The number of stored scripts.
    pub fn len(&self) -> (n: usize)
        ensures
            n == self@.len(),
    {
        self.scripts.len()
    }

    /// A borrowed view of the script at position `i`, in insertion order.
    pub fn at(&self, i: usize) -> (r: &Script)
        requires
            i < self@.len(),
        ensures
            r@ == self@[i as int],
    {
        &self.scripts[i]
    }

    /// The position of the entry carrying `alias`, if any.
    fn find_index(&self, alias: &str) -> (r: Option<usize>)
        ensures
            match r {
                Some(i) => i < self@.len() && self@[i as int].alias == alias@,
                None => !has_alias(self@, alias@),
            },
    {
        let n = self.scripts.len();
        let mut i: usize = 0;
        while i < n
            invariant
                i <= n,
                n == self@.len(),
                forall|j: int| 0 <= j < i as int ==> self@[j].alias != alias@,
            decreases n - i,
        {
            if str_eq(self.scripts[i].alias.as_str(), alias) {
                return Some(i);
            }
            i = i + 1;
        }
        None
    }

    /// Appends `script` unless its alias is already taken. On success the
    /// store grows by exactly that entry at the end; on `DuplicateAlias` the
    /// store is unchanged.
    pub fn add(&mut self, script: Script) -> (r: Result<(), PierError>)
        requires
            old(self).wf(),
            script@.wf(),
        ensures
            final(self).wf(),
            has_alias(old(self)@, script@.alias) ==> r == Err::<(), PierError>(
                PierError::DuplicateAlias,
            ) && final(self)@ == old(self)@,
            !has_alias(old(self)@, script@.alias) ==> r == Ok::<(), PierError>(())
                && final(self)@ == old(self)@.push(script@),
    {
        match self.find_index(script.alias.as_str()) {
            Some(i) => {
                assert(has_alias(self@, script@.alias));
                Err(PierError::DuplicateAlias)
            },
            None => {
                self.scripts.push(script);
                assert(self@ =~= old(self)@.push(script@));
                assert(aliases_unique(self@)) by {
                    assert(forall|i: int| 0 <= i < old(self)@.len()
                        ==> (#[trigger] old(self)@[i]).alias != script@.alias);
                }
                Ok(())
            },
        }
    }

    /// Exact-match lookup: the entry carrying `alias`, or `AliasNotFound`.
    pub fn get(&self, alias: &str) -> (r: Result<&Script, PierError>)
        ensures
            match r {
                Ok(s) => exists|i: int|
                    0 <= i < self@.len() && self@[i] == s@ && s@.alias == alias@,
                Err(e) => e == PierError::AliasNotFound && !has_alias(self@, alias@),
            },
    {
        match self.find_index(alias) {
            Some(i) => Ok(&self.scripts[i]),
            None => Err(PierError::AliasNotFound),
        }
    }

    /// Deletes the entry carrying `alias`, keeping the relative order of the
    /// rest; `AliasNotFound` leaves the store unchanged.
    pub fn remove(&mut self, alias: &str) -> (r: Result<(), PierError>)
        requires
            old(self).wf(),
        ensures
            final(self).wf(),
            has_alias(old(self)@, alias@) ==> r == Ok::<(), PierError>(()) && exists|i: int|
                0 <= i < old(self)@.len() && old(self)@[i].alias == alias@ && final(self)@
                    == old(self)@.remove(i),
            !has_alias(old(self)@, alias@) ==> r == Err::<(), PierError>(
                PierError::AliasNotFound,
            ) && final(self)@ == old(self)@,
    {
        match self.find_index(alias) {
            Some(i) => {
                self.scripts.remove(i);
                assert(final(self)@ =~= old(self)@.remove(i as int));
                proof {
                    let s0 = old(self)@;
                    let s1 = final(self)@;
                    assert(s1 =~= s0.subrange(0, i as int) + s0.subrange(
                        i as int + 1,
                        s0.len() as int,
                    ));
                    assert(forall|x: int| 0 <= x < s1.len() ==> s1[x] == s0[
                        if x < i as int { x } else { x + 1 }
                    ]);
                    assert(has_alias(s0, alias@));
                }
                Ok(())
            },
            None => Err(PierError::AliasNotFound),
        }
    }

    /// Replaces the command body of the entry carrying `alias`, keeping its
    /// position and every other field; `AliasNotFound` leaves the store
    /// unchanged.
    pub fn edit(&mut self, alias: &str, command: String) -> (r: Result<(), PierError>)
        requires
            old(self).wf(),
        ensures
            final(self).wf(),
            has_alias(old(self)@, alias@) ==> r == Ok::<(), PierError>(()) && exists|i: int|
                0 <= i < old(self)@.len() && old(self)@[i].alias == alias@ && final(self)@
                    == old(self)@.update(
                    i,
                    ScriptView { command: command@, ..old(self)@[i] },
                ),
            !has_alias(old(self)@, alias@) ==> r == Err::<(), PierError>(
                PierError::AliasNotFound,
            ) && final(self)@ == old(self)@,
    {
        match self.find_index(alias) {
            Some(i) => {
                let mut s = self.scripts.remove(i);
                s.command = command;
                self.scripts.insert(i, s);
                proof {
                    let s0 = old(self)@;
                    let s1 = final(self)@;
                    let tv = ScriptView { command: command@, ..s0[i as int] };
                    assert(s1 =~= s0.update(i as int, tv));
                    assert(forall|x: int| 0 <= x < s1.len() ==> s1[x].alias == s0[x].alias);
                    assert(has_alias(s0, alias@));
                }
                Ok(())
            },
            None => Err(PierError::AliasNotFound),
        }
    }

    /// The ordered subsequence of scripts carrying every requested tag; with
    /// no requested tags, the full sequence unchanged.
    pub fn filter(&self, tags: &Vec<String>) -> (r: Vec<Script>)
        ensures
            r.deep_view() == filter_by_tags(self@, tags.deep_view()),
            tags@.len() == 0 ==> r.deep_view() == self@,
    {
        let n = self.scripts.len();
        let mut out: Vec<Script> = Vec::new();
        let mut i: usize = 0;
        while i < n
            invariant
                i <= n,
                n == self@.len(),
                self@.len() == self.scripts@.len(),
                out.deep_view() == filter_by_tags(self@.subrange(0, i as int), tags.deep_view()),
            decreases n - i,
        {
            proof {
                assert(self@.subrange(0, i as int + 1).drop_last() =~= self@.subrange(
                    0,
                    i as int,
                ));
                assert(self@.subrange(0, i as int + 1).last() == self@[i as int]);
            }
            if script_has_all_tags(&self.scripts[i], tags) {
                out.push(self.scripts[i].clone());
                assert(out.deep_view() =~= filter_by_tags(
                    self@.subrange(0, i as int + 1),
                    tags.deep_view(),
                ));
            } else {
                assert(out.deep_view() =~= filter_by_tags(
                    self@.subrange(0, i as int + 1),
                    tags.deep_view(),
                ));
            }
            i = i + 1;
        }
        proof {
            assert(self@.subrange(0, n as int) =~= self@);
            if tags@.len() == 0 {
                assert(tags.deep_view() =~= Seq::<Seq<char>>::empty());
                lemma_filter_by_no_tags(self@);
            }
        }
        out
    }

    /// The aliases, in order, of the scripts carrying every requested tag.
    pub fn aliases(&self, tags: &Vec<String>) -> (r: Vec<String>)
        ensures
            r.deep_view() == filter_by_tags(self@, tags.deep_view()).map_values(
                |v: ScriptView| v.alias,
            ),
    {
        let picked = self.filter(tags);
        let mut out: Vec<String> = Vec::new();
        let mut i: usize = 0;
        while i < picked.len()
            invariant
                i <= picked@.len(),
                out@.len() == i as int,
                forall|j: int| 0 <= j < i as int ==> out@[j]@ == picked@[j]@.alias,
            decreases picked@.len() - i,
        {
            out.push(picked[i].alias.clone());
            i = i + 1;
        }
        proof {
            let pv = picked.deep_view();
            let f = |v: ScriptView| v.alias;
            assert forall|j: int| 0 <= j < pv.len() implies out.deep_view()[j] == pv.map_values(
                f,
            )[j] by {
                assert(out.deep_view()[j] == out@[j]@);
                assert(pv[j] == picked@[j]@);
                assert(pv.map_values(f)[j] == f(pv[j]));
            }
            assert(out.deep_view() =~= pv.map_values(f));
        }
        out
    }
}

impl Store {
    /// The persisted text of this store; the caller writes it out and only
    /// then is a mutation durable.
    pub fn save(&self) -> (r: String)
        ensures
            r@ == crate::codec::enc_store(self@),
            crate::codec::store_fits(self@),
    {
        crate::codec::encode_scripts(&self.scripts)
    }

    /// Reads a store back from persisted text. Succeeds exactly on the texts
    /// `save` can produce from a valid store: the encoding of a script
    /// sequence with pairwise-distinct, non-empty aliases. Everything else —
    /// malformed text, or a well-formed encoding whose aliases collide or are
    /// empty — is `LoadError`; an empty store is only the explicit encoding
    /// of zero scripts, never a fallback.
    pub fn load(text: &str) -> (r: Result<Store, PierError>)
        ensures
            match r {
                Ok(st) => st.wf() && text@ == crate::codec::enc_store(st@)
                    && crate::codec::store_fits(st@),
                Err(e) => e == PierError::LoadError && forall|ss: Seq<ScriptView>|
                    crate::codec::store_fits(ss) && aliases_unique(ss) && all_wf(ss) ==> text@
                        != #[trigger] crate::codec::enc_store(ss),
            },
    {
        let scripts = match crate::codec::decode_scripts(text) {
            Ok(v) => v,
            Err(e) => {
                return Err(e);
            },
        };
        let ghost decoded = scripts.deep_view();
        let mut st = Store::new();
        let mut i: usize = 0;
        while i < scripts.len()
            invariant
                i <= scripts@.len(),
                decoded == scripts.deep_view(),
                decoded.len() == scripts@.len(),
                text@ == crate::codec::enc_store(decoded),
                crate::codec::store_fits(decoded),
                st.wf(),
                st@ == decoded.subrange(0, i as int),
            decreases scripts@.len() - i,
        {
            let sc = scripts[i].clone();
            proof {
                assert(sc@ == decoded[i as int]);
            }
            if sc.alias.as_str().unicode_len() == 0 {
                proof {
                    assert forall|ss: Seq<ScriptView>|
                        crate::codec::store_fits(ss) && aliases_unique(ss) && all_wf(
                            ss,
                        ) implies text@ != #[trigger] crate::codec::enc_store(ss) by {
                        if text@ == crate::codec::enc_store(ss) {
                            crate::codec::lemma_enc_store_injective(ss, decoded);
                            assert(ss[i as int].wf());
                        }
                    }
                }
                return Err(PierError::LoadError);
            }
            let ghost st_before = st@;
            match st.add(sc) {
                Ok(()) => {
                    proof {
                        assert(st@ =~= decoded.subrange(0, i as int + 1));
                    }
                },
                Err(_) => {
                    proof {
                        assert(has_alias(st_before, decoded[i as int].alias));
                        assert forall|ss: Seq<ScriptView>|
                            crate::codec::store_fits(ss) && aliases_unique(ss) && all_wf(
                                ss,
                            ) implies text@ != #[trigger] crate::codec::enc_store(ss) by {
                            if text@ == crate::codec::enc_store(ss) {
                                crate::codec::lemma_enc_store_injective(ss, decoded);
                                let j = choose|j: int|
                                    0 <= j < st_before.len() && st_before[j].alias == decoded[
                                        i as int
                                    ].alias;
                                assert(st_before[j] == decoded[j]);
                                assert(ss[j].alias == ss[i as int].alias);
                            }
                        }
                    }
                    return Err(PierError::LoadError);
                },
            }
            i = i + 1;
        }
        proof {
            assert(st@ =~= decoded);
        }
        Ok(st)
    }
}

/// Alias uniqueness, restated as the store's standing invariant: however a
/// store was built — in particular after every successful `add` — no two of
/// its entries share an alias. (That a duplicate `add` is refused and leaves
/// the store unchanged is part of `add`'s own contract.)
pub proof fn lemma_alias_uniqueness(st: Store)
    requires
        st.wf(),
    ensures
        forall|i: int, j: int| 0 <= i < j < st@.len() ==> st@[i].alias != st@[j].alias,
{
}

/// Whether `s` carries every tag requested in `tags`.
pub fn script_has_all_tags(s: &Script, tags: &Vec<String>) -> (r: bool)
    ensures
        r == s@.has_all_tags(tags.deep_view()),
{
    let mut i: usize = 0;
    while i < tags.len()
        invariant
            i <= tags@.len(),
            forall|j: int| 0 <= j < i as int ==> s@.tags.contains(tags.deep_view()[j]),
        decreases tags@.len() - i,
    {
        if !string_list_contains(&s.tags, &tags[i]) {
            proof {
                let ts = tags.deep_view();
                assert(ts[i as int] == tags@[i as int]@);
                assert(!s@.tags.contains(ts[i as int]));
            }
            return false;
        }
        i = i + 1;
    }
    true
}

/// Whether some element of `v` equals the text `t`.
fn string_list_contains(v: &Vec<String>, t: &String) -> (r: bool)
    ensures
        r == v.deep_view().contains(t@),
{
    let mut i: usize = 0;
    while i < v.len()
        invariant
            i <= v@.len(),
            forall|j: int| 0 <= j < i as int ==> v.deep_view()[j] != t@,
        decreases v@.len() - i,
    {
        if str_eq(v[i].as_str(), t.as_str()) {
            assert(v.deep_view()[i as int] == t@);
            return true;
        }
        i = i + 1;
    }
    false
}

} // verus!
