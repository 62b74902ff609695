//! The jump map: the binding from label characters to entry identifiers
//! currently in effect. It is stored as a short vector of pairs, at most
//! one per label character, and viewed as a finite map.

use vstd::prelude::*;

use crate::keys::alphabet;

verus! {

/// No two labels are bound to the same identifier.
pub open spec fn injective(m: Map<char, usize>) -> bool {
    forall|c1: char, c2: char|
        m.dom().contains(c1) && m.dom().contains(c2) && m[c1] == m[c2] ==> c1 == c2
}

/// Some label is bound to `id`.
pub open spec fn has_label(m: Map<char, usize>, id: usize) -> bool {
    exists|c: char| m.dom().contains(c) && m[c] == id
}

/// The label bound to `id`; meaningful when `has_label` holds, and unique
/// when the map is injective.
pub open spec fn label_of(m: Map<char, usize>, id: usize) -> char {
    choose|c: char| m.dom().contains(c) && m[c] == id
}

/// Every bound label comes from the alphabet.
pub open spec fn dom_in_alphabet(m: Map<char, usize>) -> bool {
    forall|c: char| m.dom().contains(c) ==> alphabet().contains(c)
}

/// The label characters of a pair sequence, in order.
pub open spec fn chars_of(s: Seq<(char, usize)>) -> Seq<char> {
    s.map_values(|p: (char, usize)| p.0)
}

/// The map that a pair sequence denotes; a later pair wins over an
/// earlier one with the same character.
pub open spec fn pairs_to_map(s: Seq<(char, usize)>) -> Map<char, usize>
    decreases s.len(),
{
    if s.len() == 0 {
        Map::empty()
    } else {
        pairs_to_map(s.drop_last()).insert(s.last().0, s.last().1)
    }
}

/// The domain of the denoted map holds exactly the pair characters.
pub proof fn lemma_pairs_to_map_dom(s: Seq<(char, usize)>)
    ensures
        forall|c: char|
            pairs_to_map(s).dom().contains(c) <==> exists|k: int| 0 <= k < s.len() && s[k].0 == c,
        pairs_to_map(s).dom().finite(),
    decreases s.len(),
{
    if s.len() > 0 {
        let d = s.drop_last();
        lemma_pairs_to_map_dom(d);
        assert forall|c: char| pairs_to_map(s).dom().contains(c) implies exists|k: int|
            0 <= k < s.len() && s[k].0 == c by {
            if c == s.last().0 {
                assert(s[s.len() - 1].0 == c);
            } else {
                let k = choose|k: int| 0 <= k < d.len() && d[k].0 == c;
                assert(s[k].0 == c);
            }
        }
        assert forall|c: char|
            exists|k: int| 0 <= k < s.len() && s[k].0 == c implies pairs_to_map(
            s,
        ).dom().contains(c) by {
            let k = choose|k: int| 0 <= k < s.len() && s[k].0 == c;
            if k < s.len() - 1 {
                assert(d[k].0 == c);
            }
        }
    }
}

/// With distinct characters, each pair is bound in the denoted map, and the
/// domain is as large as the sequence.
pub proof fn lemma_pairs_to_map_index(s: Seq<(char, usize)>)
    requires
        chars_of(s).no_duplicates(),
    ensures
        forall|k: int|
            0 <= k < s.len() ==> pairs_to_map(s).dom().contains(#[trigger] s[k].0)
                && pairs_to_map(s)[s[k].0] == s[k].1,
        pairs_to_map(s).dom().len() == s.len(),
    decreases s.len(),
{
    lemma_pairs_to_map_dom(s);
    if s.len() > 0 {
        let d = s.drop_last();
        assert(forall|k: int| 0 <= k < d.len() ==> d[k] == s[k]);
        assert(chars_of(d).no_duplicates()) by {
            assert(forall|k: int| 0 <= k < d.len() ==> chars_of(d)[k] == chars_of(s)[k]);
        }
        lemma_pairs_to_map_index(d);
        lemma_pairs_to_map_dom(d);
        assert forall|k: int| 0 <= k < s.len() implies pairs_to_map(s).dom().contains(
            #[trigger] s[k].0,
        ) && pairs_to_map(s)[s[k].0] == s[k].1 by {
            if k < s.len() - 1 {
                assert(chars_of(s)[k] != chars_of(s)[s.len() - 1]);
                assert(s[k].0 != s.last().0);
                assert(pairs_to_map(d)[d[k].0] == d[k].1);
            }
        }
        assert(!pairs_to_map(d).dom().contains(s.last().0)) by {
            if pairs_to_map(d).dom().contains(s.last().0) {
                let k = choose|k: int| 0 <= k < d.len() && d[k].0 == s.last().0;
                assert(chars_of(s)[k] == chars_of(s)[s.len() - 1]);
            }
        }
        assert(pairs_to_map(s).dom() =~= pairs_to_map(d).dom().insert(s.last().0));
        vstd::set::axiom_set_insert_len(pairs_to_map(d).dom(), s.last().0);
    } else {
        assert(pairs_to_map(s).dom() =~= Set::<char>::empty());
    }
}

/// The injective label map from characters to entry identifiers.
pub struct JumpMap {
    pairs: Vec<(char, usize)>,
}

impl View for JumpMap {
    type V = Map<char, usize>;

    closed spec fn view(&self) -> Map<char, usize> {
        pairs_to_map(self.pairs@)
    }
}

impl JumpMap {
    /// The stored pairs, in insertion order.
    pub closed spec fn pairs_seq(&self) -> Seq<(char, usize)> {
        self.pairs@
    }

    /// Structural soundness: no label character is stored twice.
    pub closed spec fn wf(&self) -> bool {
        chars_of(self.pairs@).no_duplicates()
    }

    /// How the stored pairs and the map view correspond.
    pub proof fn lemma_pairs(&self)
        requires
            self.wf(),
        ensures
            self.pairs_seq().len() == self@.dom().len(),
            forall|k: int|
                0 <= k < self.pairs_seq().len() ==> self@.dom().contains(
                    #[trigger] self.pairs_seq()[k].0,
                ) && self@[self.pairs_seq()[k].0] == self.pairs_seq()[k].1,
            forall|c: char|
                self@.dom().contains(c) ==> exists|k: int|
                    0 <= k < self.pairs_seq().len() && self.pairs_seq()[k].0 == c,
            self@.dom().finite(),
    {
        lemma_pairs_to_map_dom(self.pairs@);
        lemma_pairs_to_map_index(self.pairs@);
    }

    /// The empty map.
    pub fn new() -> (r: JumpMap)
        ensures
            r@ == Map::<char, usize>::empty(),
            r.wf(),
            r.pairs_seq() == Seq::<(char, usize)>::empty(),
    {
        JumpMap { pairs: Vec::new() }
    }

    /// How many labels are bound.
    pub fn len(&self) -> (n: usize)
        requires
            self.wf(),
        ensures
            n == self@.dom().len(),
            n == self.pairs_seq().len(),
    {
        proof {
            self.lemma_pairs();
        }
        self.pairs.len()
    }

    /// Whether no label is bound.
    pub fn is_empty(&self) -> (b: bool)
        requires
            self.wf(),
        ensures
            b == (self@.dom().len() == 0),
    {
        proof {
            self.lemma_pairs();
        }
        self.pairs.is_empty()
    }

    /// The identifier bound to label `c`, if any.
    pub fn get(&self, c: char) -> (r: Option<usize>)
        requires
            self.wf(),
        ensures
            match r {
                Some(id) => self@.dom().contains(c) && self@[c] == id,
                None => !self@.dom().contains(c),
            },
    {
        proof {
            self.lemma_pairs();
        }
        let n = self.pairs.len();
        let mut k: usize = 0;
        while k < n
            invariant
                k <= n,
                n == self.pairs_seq().len(),
                self.wf(),
                forall|j: int| 0 <= j < k ==> self.pairs_seq()[j].0 != c,
            decreases n - k,
        {
            if self.pairs[k].0 == c {
                proof {
                    self.lemma_pairs();
                }
                return Some(self.pairs[k].1);
            }
            k += 1;
        }
        proof {
            lemma_pairs_to_map_dom(self.pairs@);
        }
        None
    }

    /// The label bound to identifier `id`, if any. Asks for an injective
    /// map, so the label is unique when it exists.
    pub fn label_for_id(&self, id: usize) -> (r: Option<char>)
        requires
            self.wf(),
            injective(self@),
        ensures
            match r {
                Some(c) => self@.dom().contains(c) && self@[c] == id && c
                    == label_of(self@, id) && has_label(self@, id),
                None => !has_label(self@, id),
            },
    {
        proof {
            self.lemma_pairs();
        }
        let n = self.pairs.len();
        let mut k: usize = 0;
        while k < n
            invariant
                k <= n,
                n == self.pairs_seq().len(),
                self.wf(),
                injective(self@),
                forall|j: int| 0 <= j < k ==> self.pairs_seq()[j].1 != id,
            decreases n - k,
        {
            if self.pairs[k].1 == id {
                let c = self.pairs[k].0;
                proof {
                    self.lemma_pairs();
                    assert(self@.dom().contains(c) && self@[c] == id);
                    let c2 = label_of(self@, id);
                    assert(self@.dom().contains(c2) && self@[c2] == id);
                }
                return Some(c);
            }
            k += 1;
        }
        proof {
            self.lemma_pairs();
            assert(!has_label(self@, id)) by {
                if has_label(self@, id) {
                    let c = choose|c: char| self@.dom().contains(c) && self@[c] == id;
                    let j = choose|j: int|
                        0 <= j < self.pairs_seq().len() && self.pairs_seq()[j].0 == c;
                    assert(self@[self.pairs_seq()[j].0] == self.pairs_seq()[j].1);
                }
            }
        }
        None
    }

    /// A copy of the stored pairs, in order.
    pub fn pairs(&self) -> (r: Vec<(char, usize)>)
        ensures
            r@ == self.pairs_seq(),
    {
        let n = self.pairs.len();
        let mut r: Vec<(char, usize)> = Vec::new();
        let mut k: usize = 0;
        while k < n
            invariant
                k <= n,
                n == self.pairs_seq().len(),
                r@ == self.pairs_seq().take(k as int),
            decreases n - k,
        {
            r.push(self.pairs[k]);
            proof {
                assert(r@ =~= self.pairs_seq().take(k + 1));
            }
            k += 1;
        }
        proof {
            assert(self.pairs_seq().take(n as int) =~= self.pairs_seq());
        }
        r
    }

    /// Binds `c` to `id`, replacing what `c` was bound to before.
    pub(crate) fn insert(&mut self, c: char, id: usize)
        requires
            old(self).wf(),
        ensures
            final(self).wf(),
            final(self)@ == old(self)@.insert(c, id),
    {
        let n = self.pairs.len();
        let mut k: usize = 0;
        while k < n
            invariant
                k <= n,
                n == self.pairs_seq().len(),
                self.wf(),
                self == old(self),
                forall|j: int| 0 <= j < k ==> self.pairs_seq()[j].0 != c,
            decreases n - k,
        {
            if self.pairs[k].0 == c {
                let ghost s = self.pairs@;
                self.pairs.remove(k);
                self.pairs.insert(k, (c, id));
                proof {
                    assert(self.pairs@ =~= s.update(k as int, (c, id)));
                    assert(chars_of(s.update(k as int, (c, id))) =~= chars_of(s));
                    lemma_pairs_to_map_update(s, k as int, id);
                }
                return;
            }
            k += 1;
        }
        let ghost s = self.pairs@;
        self.pairs.push((c, id));
        proof {
            assert(self.pairs@.drop_last() =~= s);
            assert(self.pairs@.last() == (c, id));
            assert(chars_of(self.pairs@) =~= chars_of(s).push(c));
            assert(chars_of(self.pairs@).no_duplicates()) by {
                let cs = chars_of(s);
                let cs2 = chars_of(self.pairs@);
                assert(!cs.contains(c)) by {
                    if cs.contains(c) {
                        let j = choose|j: int| 0 <= j < cs.len() && cs[j] == c;
                        assert(s[j].0 == c);
                    }
                }
                assert(forall|j: int| 0 <= j < cs.len() ==> cs2[j] == cs[j]);
                assert(forall|j: int| 0 <= j < cs.len() ==> cs.contains(cs[j]));
            }
        }
    }
}

/// Rebinding the pair at `k` to a new identifier denotes a plain map
/// insertion on its character.
pub proof fn lemma_pairs_to_map_update(s: Seq<(char, usize)>, k: int, id: usize)
    requires
        chars_of(s).no_duplicates(),
        0 <= k < s.len(),
    ensures
        pairs_to_map(s.update(k, (s[k].0, id))) == pairs_to_map(s).insert(s[k].0, id),
    decreases s.len(),
{
    let c = s[k].0;
    let u = s.update(k, (c, id));
    if k == s.len() - 1 {
        assert(u.drop_last() =~= s.drop_last());
        assert(u.last() == (c, id));
        assert(pairs_to_map(u) == pairs_to_map(s.drop_last()).insert(c, id));
        assert(pairs_to_map(s.drop_last()).insert(s.last().0, s.last().1).insert(c, id)
            =~= pairs_to_map(s.drop_last()).insert(c, id));
    } else {
        let d = s.drop_last();
        assert(forall|j: int| 0 <= j < d.len() ==> d[j] == s[j]);
        assert(chars_of(d).no_duplicates()) by {
            assert(forall|j: int| 0 <= j < d.len() ==> chars_of(d)[j] == chars_of(s)[j]);
        }
        lemma_pairs_to_map_update(d, k, id);
        assert(u.drop_last() =~= d.update(k, (c, id)));
        assert(u.last() == s.last());
        assert(pairs_to_map(u) == pairs_to_map(d).insert(c, id).insert(s.last().0, s.last().1));
        assert(c != s.last().0) by {
            assert(chars_of(s)[k] == c && chars_of(s)[s.len() - 1] == s.last().0);
        }
        assert(pairs_to_map(d).insert(c, id).insert(s.last().0, s.last().1) =~= pairs_to_map(
            d,
        ).insert(s.last().0, s.last().1).insert(c, id));
    }
}

} // verus!
