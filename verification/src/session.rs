//! The jump session: the state machine that owns the live query and the
//! current jump map. Each query edit refreshes the map through the
//! matcher and the allocator; the session turns terminal when a query has
//! no matches, when the query is cleared after having had matches, when a
//! label key is pressed, or on an explicit quit.

use vstd::prelude::*;

use crate::actions::{JumpAction, jump_action_for, make_jump_action};
use crate::allocator::{allocate, allocate_spec, lemma_allocate_idempotent, lemma_allocate_stable};
use crate::jump_map::{JumpMap, dom_in_alphabet, has_label, injective, label_of};
use crate::keys::alphabet;
use crate::matcher::{Entry, distinct_ids, find_matching_ids, lemma_matched_ids_no_duplicates,
    matched_ids};

verus! {

/// Relies on String::push: appends exactly the one character.
#[verifier::external_body]
fn string_push(s: &mut String, c: char)
    ensures
        final(s)@ == old(s)@.push(c),
{
    s.push(c);
}

/// Relies on String::pop: removes and returns the last character, or
/// returns None and leaves the string alone when it is empty.
#[verifier::external_body]
fn string_pop(s: &mut String) -> (r: Option<char>)
    ensures
        old(s)@.len() == 0 ==> final(s)@ == old(s)@ && r is None,
        old(s)@.len() > 0 ==> final(s)@ == old(s)@.drop_last() && r == Some(old(s)@.last()),
{
    s.pop()
}

/// The jump map a refresh leaves behind: for a non-empty query, the empty
/// map when nothing matches, otherwise a fresh allocation over the
/// matching identifiers; an empty query leaves the map alone.
pub open spec fn refresh_map(m: Map<char, usize>, entries: Seq<Entry>, q: Seq<char>) -> Map<
    char,
    usize,
> {
    if q.len() > 0 {
        if matched_ids(entries, q).len() == 0 {
            Map::empty()
        } else {
            allocate_spec(m, matched_ids(entries, q))
        }
    } else {
        m
    }
}

/// Whether a refresh ends the session: a non-empty query with no matches,
/// or a query cleared while labels were still bound.
pub open spec fn refresh_quits(m: Map<char, usize>, entries: Seq<Entry>, q: Seq<char>) -> bool {
    if q.len() > 0 {
        matched_ids(entries, q).len() == 0
    } else {
        m.dom().len() > 0
    }
}

/// The stateful jump interaction: the live query, the jump map currently
/// in effect, the terminal flag and the construction-time jump mode.
pub struct Session {
    pub query: String,
    pub jump_map: JumpMap,
    pub terminal: bool,
    pub open_on_jump: bool,
}

impl Session {
    /// The session's jump map is sound: well formed, injective, and
    /// drawn from the alphabet.
    pub open spec fn inv(&self) -> bool {
        self.jump_map.wf() && injective(self.jump_map@) && dom_in_alphabet(self.jump_map@)
    }

    /// A fresh session that jumps and closes.
    pub fn new() -> (r: Session)
        ensures
            r.inv(),
            r.query@ == Seq::<char>::empty(),
            r.jump_map@ == Map::<char, usize>::empty(),
            !r.terminal,
            !r.open_on_jump,
    {
        Session {
            query: String::new(),
            jump_map: JumpMap::new(),
            terminal: false,
            open_on_jump: false,
        }
    }

    /// A fresh session that jumps and opens the entry.
    pub fn new_with_open() -> (r: Session)
        ensures
            r.inv(),
            r.query@ == Seq::<char>::empty(),
            r.jump_map@ == Map::<char, usize>::empty(),
            !r.terminal,
            r.open_on_jump,
    {
        Session {
            query: String::new(),
            jump_map: JumpMap::new(),
            terminal: false,
            open_on_jump: true,
        }
    }

    /// Recomputes the jump map for the current query over the given
    /// listing, and decides termination.
    pub fn refresh(&mut self, entries: &Vec<Entry>)
        requires
            old(self).inv(),
            distinct_ids(entries@),
        ensures
            final(self).inv(),
            final(self).query == old(self).query,
            final(self).open_on_jump == old(self).open_on_jump,
            final(self).jump_map@ == refresh_map(old(self).jump_map@, entries@, old(self).query@),
            final(self).terminal == (old(self).terminal || refresh_quits(
                old(self).jump_map@,
                entries@,
                old(self).query@,
            )),
            old(self).query@.len() > 0 && matched_ids(entries@, old(self).query@).len() == 0
                ==> final(self).terminal && final(self).jump_map@ == Map::<char, usize>::empty(),
            old(self).query@.len() == 0 && old(self).jump_map@.dom().len() > 0
                ==> final(self).terminal,
    {
        if !self.query.as_str().is_empty() {
            let ids = find_matching_ids(entries, self.query.as_str());
            if ids.len() == 0 {
                self.jump_map = JumpMap::new();
                self.terminal = true;
                return;
            }
            proof {
                lemma_matched_ids_no_duplicates(entries@, self.query@);
            }
            let new_map = allocate(&self.jump_map, &ids);
            self.jump_map = new_map;
        } else {
            if !self.jump_map.is_empty() {
                self.terminal = true;
                return;
            }
        }
    }

    /// Appends one character to the query and refreshes.
    pub fn on_push_char(&mut self, c: char, entries: &Vec<Entry>)
        requires
            old(self).inv(),
            distinct_ids(entries@),
        ensures
            final(self).inv(),
            final(self).query@ == old(self).query@.push(c),
            final(self).open_on_jump == old(self).open_on_jump,
            final(self).jump_map@ == refresh_map(
                old(self).jump_map@,
                entries@,
                old(self).query@.push(c),
            ),
            final(self).terminal == (old(self).terminal || refresh_quits(
                old(self).jump_map@,
                entries@,
                old(self).query@.push(c),
            )),
    {
        string_push(&mut self.query, c);
        self.refresh(entries);
    }

    /// Removes the last character of the query, a no-op on an empty
    /// query, and refreshes.
    pub fn on_drop_char(&mut self, entries: &Vec<Entry>)
        requires
            old(self).inv(),
            distinct_ids(entries@),
        ensures
            final(self).inv(),
            final(self).open_on_jump == old(self).open_on_jump,
            final(self).query@ == if old(self).query@.len() > 0 {
                old(self).query@.drop_last()
            } else {
                old(self).query@
            },
            final(self).jump_map@ == refresh_map(
                old(self).jump_map@,
                entries@,
                final(self).query@,
            ),
            final(self).terminal == (old(self).terminal || refresh_quits(
                old(self).jump_map@,
                entries@,
                final(self).query@,
            )),
    {
        string_pop(&mut self.query);
        self.refresh(entries);
    }

    /// Ends the session; the host tears highlighting down afterwards.
    pub fn on_quit(&mut self)
        requires
            old(self).inv(),
        ensures
            final(self).inv(),
            final(self).terminal,
            final(self).query == old(self).query,
            final(self).jump_map == old(self).jump_map,
            final(self).open_on_jump == old(self).open_on_jump,
    {
        self.terminal = true;
    }

    /// Whether the session has ended.
    pub fn is_terminal(&self) -> (r: bool)
        ensures
            r == self.terminal,
    {
        self.terminal
    }

    /// A copy of the live query.
    pub fn current_query(&self) -> (r: String)
        ensures
            r@ == self.query@,
    {
        self.query.clone()
    }

    /// The jump map currently in effect.
    pub fn current_jump_map(&self) -> (r: &JumpMap)
        ensures
            r == self.jump_map,
    {
        &self.jump_map
    }

    /// Handles the press of a label key while active: ends the session
    /// and emits the jump action of the bound entry. A key without a
    /// binding, or any key after termination, does nothing.
    pub fn on_label_key(&mut self, c: char) -> (r: Option<JumpAction>)
        requires
            old(self).inv(),
        ensures
            final(self).inv(),
            final(self).query == old(self).query,
            final(self).jump_map == old(self).jump_map,
            final(self).open_on_jump == old(self).open_on_jump,
            !old(self).terminal && old(self).jump_map@.dom().contains(c) ==> final(self).terminal
                && r == Some(
                jump_action_for(old(self).open_on_jump, old(self).jump_map@[c]),
            ),
            old(self).terminal || !old(self).jump_map@.dom().contains(c) ==> *final(self) == *old(
                self,
            ) && r is None,
    {
        if self.terminal {
            return None;
        }
        match self.jump_map.get(c) {
            Some(id) => {
                self.terminal = true;
                Some(make_jump_action(self.open_on_jump, id))
            },
            None => None,
        }
    }

    /// The label bindings to hand the host's input layer: one action per
    /// bound label, in the jump map's stored order.
    pub fn label_actions(&self) -> (r: Vec<(char, JumpAction)>)
        requires
            self.inv(),
        ensures
            r@.len() == self.jump_map@.dom().len(),
            forall|k: int|
                0 <= k < r@.len() ==> self.jump_map@.dom().contains(#[trigger] r@[k].0
                ) && r@[k].1 == jump_action_for(self.open_on_jump, self.jump_map@[r@[k].0]),
            forall|c: char|
                self.jump_map@.dom().contains(c) ==> exists|k: int|
                    0 <= k < r@.len() && r@[k].0 == c,
    {
        proof {
            self.jump_map.lemma_pairs();
        }
        let pairs = self.jump_map.pairs();
        let n = pairs.len();
        let mut r: Vec<(char, JumpAction)> = Vec::new();
        let mut k: usize = 0;
        while k < n
            invariant
                k <= n,
                n == pairs@.len(),
                pairs@ == self.jump_map.pairs_seq(),
                r@.len() == k,
                forall|j: int|
                    0 <= j < k ==> r@[j].0 == pairs@[j].0 && r@[j].1 == jump_action_for(
                        self.open_on_jump,
                        pairs@[j].1,
                    ),
            decreases n - k,
        {
            let p = pairs[k];
            r.push((p.0, make_jump_action(self.open_on_jump, p.1)));
            k += 1;
        }
        proof {
            self.jump_map.lemma_pairs();
            assert forall|c: char| self.jump_map@.dom().contains(c) implies exists|j: int|
                0 <= j < r@.len() && r@[j].0 == c by {
                let j = choose|j: int|
                    0 <= j < self.jump_map.pairs_seq().len() && self.jump_map.pairs_seq()[j].0
                        == c;
                assert(r@[j].0 == c);
            }
        }
        r
    }

    /// The popup caption: the jump mode, then the query after a colon
    /// when one has been typed.
    pub fn display_details(&self) -> (r: String)
        ensures
            r@ == display_details_spec(self.open_on_jump, self.query@),
    {
        let mut r = if self.open_on_jump {
            String::from_str("Open")
        } else {
            String::from_str("Jump")
        };
        if !self.query.as_str().is_empty() {
            r.append(": ");
            r.append(self.query.as_str());
        }
        proof {
            assert(r@ =~= display_details_spec(self.open_on_jump, self.query@));
        }
        r
    }
}

/// What the session's caption reads: "Open" or "Jump" for the mode, and
/// ": " with the query when the query is non-empty.
pub open spec fn display_details_spec(open_on_jump: bool, q: Seq<char>) -> Seq<char> {
    (if open_on_jump {
        "Open"@
    } else {
        "Jump"@
    }) + (if q.len() == 0 {
        Seq::<char>::empty()
    } else {
        ": "@ + q
    })
}

/// Refreshing twice with the same query and the same listing leaves the
/// same jump map and the same termination verdict as refreshing once.
pub proof fn lemma_refresh_idempotent(m: Map<char, usize>, entries: Seq<Entry>, q: Seq<char>)
    requires
        injective(m),
        dom_in_alphabet(m),
        distinct_ids(entries),
    ensures
        refresh_map(refresh_map(m, entries, q), entries, q) == refresh_map(m, entries, q),
        refresh_quits(refresh_map(m, entries, q), entries, q) == refresh_quits(m, entries, q),
{
    if q.len() > 0 {
        let ids = matched_ids(entries, q);
        if ids.len() > 0 {
            lemma_matched_ids_no_duplicates(entries, q);
            lemma_allocate_idempotent(m, ids);
        }
    }
}

/// Label stability across query edits: an entry that had a label and
/// still matches keeps that label, as long as the new match count does
/// not exceed the alphabet.
pub proof fn lemma_refresh_stable(
    m: Map<char, usize>,
    entries: Seq<Entry>,
    q: Seq<char>,
    id: usize,
)
    requires
        injective(m),
        distinct_ids(entries),
        q.len() > 0,
        matched_ids(entries, q).contains(id),
        matched_ids(entries, q).len() <= alphabet().len(),
        has_label(m, id),
    ensures
        refresh_map(m, entries, q).dom().contains(label_of(m, id)),
        refresh_map(m, entries, q)[label_of(m, id)] == id,
{
    let ids = matched_ids(entries, q);
    assert(ids.len() > 0);
    lemma_matched_ids_no_duplicates(entries, q);
    lemma_allocate_stable(m, ids, id);
}

} // verus!
