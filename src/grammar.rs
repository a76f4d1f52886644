//! Per-language grammar provisioning decisions. The caller performs each
//! action (fetch, build, load) and reports how it went; the registry keeps
//! one state per language for the life of the process.
use vstd::prelude::*;

verus! {

broadcast use vstd::std_specs::vec::group_vec_axioms;

/// Why a grammar is unavailable.
#[derive(Clone, Copy, PartialEq, Eq, Structural, Debug)]
pub enum GrammarError {
    NotFound,
    FetchFailed,
    BuildFailed,
    LoadFailed,
}

/// Where a language's grammar stands.
#[derive(Clone, Copy, PartialEq, Eq, Structural, Debug)]
pub enum GrammarState {
    Fetching,
    Building,
    Loading,
    /// Loaded; the token identifies the parse capability.
    Ready(u64),
    Failed(GrammarError),
}

/// What the caller reports after performing an action.
#[derive(Clone, Copy, PartialEq, Eq, Structural, Debug)]
pub enum GrammarEvent {
    /// The source is in place; `artifact_fresh` tells whether a build
    /// artifact newer than the source already exists.
    Fetched { artifact_fresh: bool },
    Built,
    Loaded(u64),
    Failed(GrammarError),
}

/// What the caller is to do next for a language.
#[derive(Clone, Copy, PartialEq, Eq, Structural, Debug)]
pub enum GrammarAction {
    Fetch,
    Build,
    Load,
    /// Another request for this language is in flight: wait for it.
    Wait,
    Use(u64),
    Fail(GrammarError),
}

/// The action that a state calls for.
pub open spec fn action_for(s: GrammarState) -> GrammarAction {
    match s {
        GrammarState::Fetching => GrammarAction::Fetch,
        GrammarState::Building => GrammarAction::Build,
        GrammarState::Loading => GrammarAction::Load,
        GrammarState::Ready(h) => GrammarAction::Use(h),
        GrammarState::Failed(e) => GrammarAction::Fail(e),
    }
}

/// The state after an event; finished states do not move.
pub open spec fn next_state(s: GrammarState, e: GrammarEvent) -> GrammarState {
    match (s, e) {
        (GrammarState::Ready(h), _) => s,
        (GrammarState::Failed(_), _) => s,
        (_, GrammarEvent::Failed(err)) => GrammarState::Failed(err),
        (GrammarState::Fetching, GrammarEvent::Fetched { artifact_fresh }) => if artifact_fresh {
            GrammarState::Loading
        } else {
            GrammarState::Building
        },
        (GrammarState::Building, GrammarEvent::Built) => GrammarState::Loading,
        (GrammarState::Loading, GrammarEvent::Loaded(h)) => GrammarState::Ready(h),
        _ => s,
    }
}

/// The states of the languages requested so far.
pub struct GrammarRegistry {
    entries: Vec<(String, GrammarState)>,
}

pub open spec fn entry_views(es: Seq<(String, GrammarState)>) -> Seq<(Seq<char>, GrammarState)> {
    es.map_values(|e: (String, GrammarState)| (e.0@, e.1))
}

/// The state recorded for a language, if any.
pub open spec fn state_in(es: Seq<(Seq<char>, GrammarState)>, lang: Seq<char>) -> Option<GrammarState> {
    if exists|i: int| 0 <= i < es.len() && es[i].0 == lang {
        Some(es[choose|i: int| 0 <= i < es.len() && es[i].0 == lang].1)
    } else {
        None
    }
}

/// No language is recorded twice.
pub open spec fn langs_unique(es: Seq<(Seq<char>, GrammarState)>) -> bool {
    forall|i: int, j: int| 0 <= i < es.len() && 0 <= j < es.len() && i != j ==> es[i].0 != es[j].0
}

proof fn lemma_state_at(es: Seq<(Seq<char>, GrammarState)>, i: int)
    requires
        langs_unique(es),
        0 <= i < es.len(),
    ensures
        state_in(es, es[i].0) == Some(es[i].1),
{
    let lang = es[i].0;
    let c = choose|c: int| 0 <= c < es.len() && es[c].0 == lang;
    assert(c == i);
}

impl View for GrammarRegistry {
    type V = Seq<(Seq<char>, GrammarState)>;

    closed spec fn view(&self) -> Seq<(Seq<char>, GrammarState)> {
        entry_views(self.entries@)
    }
}

impl GrammarRegistry {
    pub open spec fn wf(&self) -> bool {
        langs_unique(self@)
    }

    /// The state recorded for a language.
    pub open spec fn state(&self, lang: Seq<char>) -> Option<GrammarState> {
        state_in(self@, lang)
    }

    /// A registry in which no language has been requested.
    pub fn new() -> (r: Self)
        ensures
            r.wf(),
            forall|l: Seq<char>| r.state(l) is None,
    {
        let r = GrammarRegistry { entries: Vec::new() };
        assert(r@ =~= Seq::<(Seq<char>, GrammarState)>::empty());
        r
    }

    fn position(&self, lang: &String) -> (r: Option<usize>)
        requires
            self.wf(),
        ensures
            match r {
                Some(i) => i < self@.len() && self@[i as int].0 == lang@,
                None => self.state(lang@) is None,
            },
    {
        let mut i: usize = 0;
        while i < self.entries.len()
            invariant
                i <= self.entries@.len(),
                forall|j: int| 0 <= j < i ==> self@[j].0 != lang@,
            decreases self.entries@.len() - i,
        {
            if self.entries[i].0 == *lang {
                return Some(i);
            }
            i = i + 1;
        }
        None
    }

    /// Asks for a language's grammar. A language seen for the first time
    /// starts fetching; a ready one is used as it is, with no further fetch
    /// or build; a failed one stays failed; one in flight is waited for.
    pub fn request(&mut self, lang: &String) -> (r: GrammarAction)
        requires
            old(self).wf(),
        ensures
            final(self).wf(),
            match old(self).state(lang@) {
                Some(GrammarState::Ready(h)) => r == GrammarAction::Use(h) && final(self)@ == old(self)@,
                Some(GrammarState::Failed(e)) => r == GrammarAction::Fail(e) && final(self)@ == old(self)@,
                Some(_) => r == GrammarAction::Wait && final(self)@ == old(self)@,
                None => r == GrammarAction::Fetch && final(self)@ == old(self)@.push((lang@, GrammarState::Fetching)),
            },
            forall|l: Seq<char>| l != lang@ ==> final(self).state(l) == old(self).state(l),
            final(self).state(lang@) == Some(match old(self).state(lang@) {
                Some(s) => s,
                None => GrammarState::Fetching,
            }),
    {
        match self.position(lang) {
            Some(i) => {
                proof {
                    lemma_state_at(self@, i as int);
                }
                match self.entries[i].1 {
                    GrammarState::Ready(h) => GrammarAction::Use(h),
                    GrammarState::Failed(e) => GrammarAction::Fail(e),
                    _ => GrammarAction::Wait,
                }
            },
            None => {
                let ghost before = self@;
                self.entries.push((lang.clone(), GrammarState::Fetching));
                assert(self@ =~= before.push((lang@, GrammarState::Fetching)));
                proof {
                    lemma_state_at(self@, before.len() as int);
                    assert forall|l: Seq<char>| l != lang@ implies self.state(l) == state_in(before, l) by {
                        if exists|i: int| 0 <= i < before.len() && before[i].0 == l {
                            let i = choose|i: int| 0 <= i < before.len() && before[i].0 == l;
                            lemma_state_at(before, i);
                            lemma_state_at(self@, i);
                        } else {
                            assert(!(exists|i: int| 0 <= i < self@.len() && self@[i].0 == l));
                        }
                    }
                }
                GrammarAction::Fetch
            },
        }
    }

    /// Records how an action went for a requested language and says what to
    /// do next. A ready or failed language does not move.
    pub fn report(&mut self, lang: &String, event: GrammarEvent) -> (r: Option<GrammarAction>)
        requires
            old(self).wf(),
        ensures
            final(self).wf(),
            match old(self).state(lang@) {
                Some(s) => r == Some(action_for(next_state(s, event))) && final(self).state(lang@)
                    == Some(next_state(s, event)),
                None => r is None && final(self)@ == old(self)@,
            },
            forall|l: Seq<char>| l != lang@ ==> final(self).state(l) == old(self).state(l),
    {
        match self.position(lang) {
            Some(i) => {
                proof {
                    lemma_state_at(self@, i as int);
                }
                let s = self.entries[i].1;
                let n = match (s, event) {
                    (GrammarState::Ready(_), _) => s,
                    (GrammarState::Failed(_), _) => s,
                    (_, GrammarEvent::Failed(err)) => GrammarState::Failed(err),
                    (GrammarState::Fetching, GrammarEvent::Fetched { artifact_fresh }) => if artifact_fresh {
                        GrammarState::Loading
                    } else {
                        GrammarState::Building
                    },
                    (GrammarState::Building, GrammarEvent::Built) => GrammarState::Loading,
                    (GrammarState::Loading, GrammarEvent::Loaded(h)) => GrammarState::Ready(h),
                    _ => s,
                };
                let ghost before = self@;
                let name = self.entries[i].0.clone();
                self.entries.set(i, (name, n));
                assert(self@ =~= before.update(i as int, (lang@, n)));
                proof {
                    lemma_state_at(self@, i as int);
                    assert forall|l: Seq<char>| l != lang@ implies self.state(l) == state_in(before, l) by {
                        if exists|j: int| 0 <= j < before.len() && before[j].0 == l {
                            let j = choose|j: int| 0 <= j < before.len() && before[j].0 == l;
                            lemma_state_at(before, j);
                            lemma_state_at(self@, j);
                        } else {
                            assert(!(exists|j: int| 0 <= j < self@.len() && self@[j].0 == l));
                        }
                    }
                }
                let act = match n {
                    GrammarState::Fetching => GrammarAction::Fetch,
                    GrammarState::Building => GrammarAction::Build,
                    GrammarState::Loading => GrammarAction::Load,
                    GrammarState::Ready(h) => GrammarAction::Use(h),
                    GrammarState::Failed(e) => GrammarAction::Fail(e),
                };
                Some(act)
            },
            None => None,
        }
    }
}

/// A ready grammar stays ready whatever is reported, and calls for using
/// its handle: asking again never fetches or builds.
pub proof fn lemma_ready_is_cached(h: u64, e: GrammarEvent)
    ensures
        next_state(GrammarState::Ready(h), e) == GrammarState::Ready(h),
        action_for(GrammarState::Ready(h)) == GrammarAction::Use(h),
{
}

} // verus!
