//! Resolving a script identifier that may have been merged away: follow the
//! alias chain until a stored script is found, stopping on a cycle.
//!
//! The lookups themselves are database reads made by the caller; the
//! resolver decides what to look up next and when to stop.

use vstd::prelude::*;

use crate::text::views;

verus! {

/// The state of one resolution: the identifier to try next and the
/// identifiers already tried.
pub struct AliasResolver {
    current: String,
    seen: Vec<String>,
}

/// What a resolution step concluded.
#[derive(Clone, Debug)]
pub enum Resolution {
    /// The identifier of a stored script.
    Found(String),
    /// Nothing is stored under the identifier or any alias it leads to.
    Missing,
    /// Follow the alias: look up the new current identifier.
    Continue,
}

impl AliasResolver {
    /// The identifier to try next.
    pub closed spec fn current_id(&self) -> Seq<char> {
        self.current@
    }

    /// The identifiers already tried.
    pub closed spec fn visited(&self) -> Set<Seq<char>> {
        views(self.seen@).to_set()
    }

    /// Starts resolving `script_id`.
    pub fn new(script_id: &str) -> (r: AliasResolver)
        ensures
            r.current_id() == script_id@,
            r.visited() == Set::<Seq<char>>::empty(),
    {
        let r = AliasResolver { current: String::from_str(script_id), seen: Vec::new() };
        assert(views(r.seen@).to_set() =~= Set::<Seq<char>>::empty());
        r
    }

    /// The identifier to look up now, marked as tried; `None` when it was
    /// tried before, which means the aliases form a cycle.
    pub fn next_lookup(&mut self) -> (r: Option<String>)
        ensures
            old(self).visited().contains(old(self).current_id()) ==> r is None,
            old(self).visited().contains(old(self).current_id()) ==> final(self).visited()
                == old(self).visited(),
            !old(self).visited().contains(old(self).current_id()) ==> (r matches Some(id)
                && id@ == old(self).current_id()),
            !old(self).visited().contains(old(self).current_id()) ==> final(self).visited()
                == old(self).visited().insert(old(self).current_id()),
            final(self).current_id() == old(self).current_id(),
    {
        let mut i: usize = 0;
        while i < self.seen.len()
            invariant
                i <= self.seen.len(),
                forall|k: int| 0 <= k < i ==> views(self.seen@)[k] != self.current@,
            decreases self.seen.len() - i,
        {
            if self.seen[i] == self.current {
                assert(views(self.seen@)[i as int] == self.current@);
                assert(views(self.seen@).contains(self.current@));
                return None;
            }
            i = i + 1;
        }
        assert(!views(self.seen@).contains(self.current@));
        let id = self.current.clone();
        let ghost before = self.seen@;
        self.seen.push(id.clone());
        assert(views(self.seen@) =~= views(before).push(id@));
        proof {
            views(before).lemma_push_to_set_commute(id@);
        }
        Some(id)
    }

    /// Takes the answers for the identifier just looked up: `direct` is the
    /// stored script with that identifier, `alias` the identifier it is an
    /// alias of (only read when `direct` is `None`).
    pub fn on_lookup(&mut self, direct: Option<String>, alias: Option<String>) -> (r: Resolution)
        ensures
            final(self).visited() == old(self).visited(),
            direct is Some ==> (r matches Resolution::Found(f) && f@ == direct->0@),
            direct is Some ==> final(self).current_id() == old(self).current_id(),
            direct is None && alias is Some ==> r matches Resolution::Continue,
            direct is None && alias is Some ==> final(self).current_id() == alias->0@,
            direct is None && alias is None ==> r matches Resolution::Missing,
            direct is None && alias is None ==> final(self).current_id() == old(self).current_id(),
    {
        match direct {
            Some(d) => Resolution::Found(d),
            None => match alias {
                Some(next) => {
                    self.current = next;
                    Resolution::Continue
                },
                None => Resolution::Missing,
            },
        }
    }
}

/// Where following aliases from `cur` ends, given the stored identifiers
/// and the alias table, with `visited` already tried and at most `fuel`
/// lookups left: the first stored identifier of the chain; nothing when the
/// chain leaves both tables, comes back to an identifier already tried, or
/// runs out of lookups.
pub open spec fn follow(
    stored: Set<Seq<char>>,
    aliases: Map<Seq<char>, Seq<char>>,
    cur: Seq<char>,
    visited: Set<Seq<char>>,
    fuel: nat,
) -> Option<Seq<char>>
    decreases fuel,
{
    if fuel == 0 || visited.contains(cur) {
        None
    } else if stored.contains(cur) {
        Some(cur)
    } else if aliases.dom().contains(cur) {
        follow(stored, aliases, aliases[cur], visited.insert(cur), (fuel - 1) as nat)
    } else {
        None
    }
}

/// What a resolution started at `id` ends in: the chain followed with one
/// more lookup than there are aliases.
pub open spec fn resolution(
    stored: Set<Seq<char>>,
    aliases: Map<Seq<char>, Seq<char>>,
    id: Seq<char>,
) -> Option<Seq<char>> {
    follow(stored, aliases, id, Set::empty(), aliases.dom().len() + 1)
}

/// A chain with enough lookups left ends the same with more: every lookup
/// that continues tries a new alias, so a chain, cycles included, ends
/// within one lookup more than the untried aliases.
pub proof fn lemma_follow_enough_fuel(
    stored: Set<Seq<char>>,
    aliases: Map<Seq<char>, Seq<char>>,
    cur: Seq<char>,
    visited: Set<Seq<char>>,
    fuel: nat,
    more: nat,
)
    requires
        aliases.dom().finite(),
        fuel > aliases.dom().difference(visited).len(),
        more >= fuel,
    ensures
        follow(stored, aliases, cur, visited, more) == follow(stored, aliases, cur, visited, fuel),
    decreases fuel,
{
    if !visited.contains(cur) && !stored.contains(cur) && aliases.dom().contains(cur) {
        let d = aliases.dom().difference(visited);
        assert(aliases.dom().difference(visited.insert(cur)) =~= d.remove(cur));
        assert(d.contains(cur));
        lemma_follow_enough_fuel(
            stored,
            aliases,
            aliases[cur],
            visited.insert(cur),
            (fuel - 1) as nat,
            (more - 1) as nat,
        );
    }
}

/// A stored identifier resolves to itself, and whatever a chain resolves
/// to is stored.
pub proof fn lemma_follow_ends_stored(
    stored: Set<Seq<char>>,
    aliases: Map<Seq<char>, Seq<char>>,
    cur: Seq<char>,
    visited: Set<Seq<char>>,
    fuel: nat,
)
    ensures
        fuel > 0 && !visited.contains(cur) && stored.contains(cur) ==> follow(
            stored,
            aliases,
            cur,
            visited,
            fuel,
        ) == Some(cur),
        follow(stored, aliases, cur, visited, fuel) matches Some(t) ==> stored.contains(t),
    decreases fuel,
{
    if fuel > 0 && !visited.contains(cur) && !stored.contains(cur) && aliases.dom().contains(cur) {
        lemma_follow_ends_stored(
            stored,
            aliases,
            aliases[cur],
            visited.insert(cur),
            (fuel - 1) as nat,
        );
    }
}

/// A resolution ends in a stored identifier or in nothing, and a stored
/// identifier resolves to itself.
pub proof fn lemma_resolution(
    stored: Set<Seq<char>>,
    aliases: Map<Seq<char>, Seq<char>>,
    id: Seq<char>,
)
    ensures
        stored.contains(id) ==> resolution(stored, aliases, id) == Some(id),
        resolution(stored, aliases, id) matches Some(t) ==> stored.contains(t),
{
    lemma_follow_ends_stored(stored, aliases, id, Set::empty(), aliases.dom().len() + 1);
}

/// One round of the resolver (`next_lookup`, then `on_lookup` with the
/// answers of the tables) keeps the end of the chain: a found identifier
/// is where the chain ends, a missing one means it ends in nothing, and a
/// resolver that continues has the same end one lookup later.  `fuel` is
/// the number of lookups the caller still allows.
pub proof fn lemma_resolver_round(
    stored: Set<Seq<char>>,
    aliases: Map<Seq<char>, Seq<char>>,
    before: AliasResolver,
    after: AliasResolver,
    looked_up: Option<Seq<char>>,
    outcome: Option<Resolution>,
    fuel: nat,
)
    requires
        fuel > 0,
        looked_up is None ==> after.current_id() == before.current_id() && after.visited()
            == before.visited(),
        looked_up matches Some(id) ==> id == before.current_id() && !before.visited().contains(id),
        looked_up is None <==> before.visited().contains(before.current_id()),
        looked_up is None ==> outcome is None,
        looked_up matches Some(id) ==> outcome is Some && match outcome->0 {
            Resolution::Found(f) => stored.contains(id) && f@ == id,
            Resolution::Missing => !stored.contains(id) && !aliases.dom().contains(id),
            Resolution::Continue => !stored.contains(id) && aliases.dom().contains(id)
                && after.current_id() == aliases[id] && after.visited() == before.visited().insert(
                id,
            ),
        },
    ensures
        looked_up is None ==> follow(
            stored,
            aliases,
            before.current_id(),
            before.visited(),
            fuel,
        ) is None,
        outcome matches Some(Resolution::Found(f)) ==> follow(
            stored,
            aliases,
            before.current_id(),
            before.visited(),
            fuel,
        ) == Some(f@),
        outcome matches Some(Resolution::Missing) ==> follow(
            stored,
            aliases,
            before.current_id(),
            before.visited(),
            fuel,
        ) is None,
        outcome matches Some(Resolution::Continue) ==> follow(
            stored,
            aliases,
            after.current_id(),
            after.visited(),
            (fuel - 1) as nat,
        ) == follow(stored, aliases, before.current_id(), before.visited(), fuel),
{
}

} // verus!
