//! The label allocator: given the previous label map and the ordered
//! identifiers of the entries that match now, binds each matching
//! identifier a label from the alphabet. An identifier that already had a
//! label keeps that exact label; a new identifier takes the last character
//! of the remaining pool. When there are more matches than labels, no
//! labels are bound at all.

use vstd::prelude::*;

use crate::jump_map::{JumpMap, dom_in_alphabet, has_label, injective, label_of};
use crate::keys::{alphabet, lemma_alphabet_no_duplicates, lemma_remove_char_contains,
    lemma_remove_char_no_duplicates, pop_char, remove_char, jump_keys};

verus! {

/// One allocation pass over `ids`, from left to right: a reused label is
/// taken out of the pool wherever it stands, a fresh label is the last
/// character of the pool. A later binding of the same label wins.
pub open spec fn alloc_rec(
    prev: Map<char, usize>,
    ids: Seq<usize>,
    pool: Seq<char>,
    acc: Map<char, usize>,
) -> Map<char, usize>
    decreases ids.len(),
{
    if ids.len() == 0 {
        acc
    } else {
        let id = ids[0];
        if has_label(prev, id) {
            let c = label_of(prev, id);
            alloc_rec(prev, ids.drop_first(), remove_char(pool, c), acc.insert(c, id))
        } else {
            alloc_rec(prev, ids.drop_first(), pool.drop_last(), acc.insert(pool.last(), id))
        }
    }
}

/// The full allocation: an empty map when the matches outnumber the
/// alphabet, otherwise one pass starting from the full alphabet.
pub open spec fn allocate_spec(prev: Map<char, usize>, ids: Seq<usize>) -> Map<char, usize> {
    if ids.len() > alphabet().len() {
        Map::empty()
    } else {
        alloc_rec(prev, ids, alphabet(), Map::empty())
    }
}

/// One allocation pass keeps the map injective, keeps every label inside
/// the alphabet, and binds no identifier that was neither bound before the
/// pass nor among `ids`.
pub proof fn lemma_alloc_rec_invariants(
    prev: Map<char, usize>,
    ids: Seq<usize>,
    pool: Seq<char>,
    acc: Map<char, usize>,
)
    requires
        injective(prev),
        ids.no_duplicates(),
        pool.no_duplicates(),
        ids.len() <= pool.len(),
        forall|c: char| pool.contains(c) ==> alphabet().contains(c),
        injective(acc),
        dom_in_alphabet(acc),
        forall|k: int| 0 <= k < ids.len() ==> !has_label(acc, #[trigger] ids[k]),
        dom_in_alphabet(prev),
    ensures
        injective(alloc_rec(prev, ids, pool, acc)),
        dom_in_alphabet(alloc_rec(prev, ids, pool, acc)),
        forall|x: usize|
            has_label(alloc_rec(prev, ids, pool, acc), x) ==> has_label(acc, x) || ids.contains(x),
    decreases ids.len(),
{
    if ids.len() > 0 {
        let id = ids[0];
        let ids2 = ids.drop_first();
        assert(ids.contains(id));
        assert(ids2.no_duplicates()) by {
            assert(forall|k: int| 0 <= k < ids2.len() ==> ids2[k] == ids[k + 1]);
        }
        assert(!has_label(acc, id));
        let c = if has_label(prev, id) {
            label_of(prev, id)
        } else {
            pool.last()
        };
        if has_label(prev, id) {
            assert(prev.dom().contains(c) && prev[c] == id);
        } else {
            assert(pool.contains(c)) by {
                assert(pool[pool.len() - 1] == c);
            }
        }
        assert(alphabet().contains(c));
        let acc2 = acc.insert(c, id);
        let pool2 = if has_label(prev, id) {
            remove_char(pool, c)
        } else {
            pool.drop_last()
        };
        assert(injective(acc2)) by {
            assert forall|c1: char, c2: char|
                acc2.dom().contains(c1) && acc2.dom().contains(c2) && acc2[c1] == acc2[c2]
                implies c1 == c2 by {
                if c1 != c && c2 != c {
                    assert(acc[c1] == acc[c2]);
                } else if c1 == c && c2 != c {
                    assert(acc.dom().contains(c2) && acc[c2] == id);
                } else if c2 == c && c1 != c {
                    assert(acc.dom().contains(c1) && acc[c1] == id);
                }
            }
        }
        assert(dom_in_alphabet(acc2));
        assert(forall|x: usize| has_label(acc2, x) && x != id ==> has_label(acc, x)) by {
            assert forall|x: usize| has_label(acc2, x) && x != id implies has_label(acc, x) by {
                let c3 = choose|c3: char| acc2.dom().contains(c3) && acc2[c3] == x;
                assert(c3 != c);
                assert(acc.dom().contains(c3) && acc[c3] == x);
            }
        }
        assert(forall|k: int| 0 <= k < ids2.len() ==> !has_label(acc2, #[trigger] ids2[k])) by {
            assert forall|k: int| 0 <= k < ids2.len() implies !has_label(acc2, #[trigger] ids2[k])
            by {
                assert(ids2[k] == ids[k + 1]);
                assert(ids[k + 1] != ids[0]);
                assert(!has_label(acc, ids[k + 1]));
            }
        }
        if has_label(prev, id) {
            lemma_remove_char_no_duplicates(pool, c);
            lemma_remove_char_contains(pool, c);
            assert(pool2.no_duplicates() && pool2.len() >= pool.len() - 1);
            assert forall|cc: char| pool2.contains(cc) implies alphabet().contains(cc) by {
                assert(pool.contains(cc));
            }
        } else {
            assert(forall|k: int| 0 <= k < pool2.len() ==> pool2[k] == pool[k]);
            assert(pool2.no_duplicates() && pool2.len() >= pool.len() - 1);
            assert forall|cc: char| pool2.contains(cc) implies alphabet().contains(cc) by {
                let k = choose|k: int| 0 <= k < pool2.len() && pool2[k] == cc;
                assert(pool[k] == cc);
                assert(pool.contains(cc));
            }
        }
        lemma_alloc_rec_invariants(prev, ids2, pool2, acc2);
        assert forall|x: usize| has_label(alloc_rec(prev, ids, pool, acc), x) implies has_label(
            acc,
            x,
        ) || ids.contains(x) by {
            if has_label(acc2, x) || ids2.contains(x) {
                if ids2.contains(x) {
                    let k = choose|k: int| 0 <= k < ids2.len() && ids2[k] == x;
                    assert(ids[k + 1] == x);
                } else if x != id {
                    assert(has_label(acc, x));
                }
            }
        }
    }
}

/// A binding whose label is out of the pool and never reused by a
/// remaining identifier survives the rest of the pass untouched.
proof fn lemma_alloc_rec_preserves(
    prev: Map<char, usize>,
    ids: Seq<usize>,
    pool: Seq<char>,
    acc: Map<char, usize>,
    c: char,
)
    requires
        pool.no_duplicates(),
        ids.len() <= pool.len(),
        injective(prev),
        acc.dom().contains(c),
        !pool.contains(c),
        forall|k: int|
            0 <= k < ids.len() ==> !(has_label(prev, #[trigger] ids[k]) && label_of(prev, ids[k])
                == c),
    ensures
        alloc_rec(prev, ids, pool, acc).dom().contains(c),
        alloc_rec(prev, ids, pool, acc)[c] == acc[c],
    decreases ids.len(),
{
    if ids.len() > 0 {
        let id = ids[0];
        let ids2 = ids.drop_first();
        assert(forall|k: int| 0 <= k < ids2.len() ==> ids2[k] == ids[k + 1]);
        if has_label(prev, id) {
            let c0 = label_of(prev, id);
            assert(c0 != c);
            lemma_remove_char_no_duplicates(pool, c0);
            lemma_remove_char_contains(pool, c0);
            lemma_alloc_rec_preserves(prev, ids2, remove_char(pool, c0), acc.insert(c0, id), c);
        } else {
            let c0 = pool.last();
            assert(pool.contains(c0)) by {
                assert(pool[pool.len() - 1] == c0);
            }
            assert(c0 != c);
            let pool2 = pool.drop_last();
            assert(forall|k: int| 0 <= k < pool2.len() ==> pool2[k] == pool[k]);
            assert(!pool2.contains(c)) by {
                if pool2.contains(c) {
                    let k = choose|k: int| 0 <= k < pool2.len() && pool2[k] == c;
                    assert(pool[k] == c);
                }
            }
            lemma_alloc_rec_preserves(prev, ids2, pool2, acc.insert(c0, id), c);
        }
    }
}

/// A matching identifier that had a label before the pass keeps that exact
/// label through the pass.
proof fn lemma_alloc_rec_stable(
    prev: Map<char, usize>,
    ids: Seq<usize>,
    pool: Seq<char>,
    acc: Map<char, usize>,
    id: usize,
)
    requires
        pool.no_duplicates(),
        ids.no_duplicates(),
        ids.len() <= pool.len(),
        injective(prev),
        ids.contains(id),
        has_label(prev, id),
    ensures
        alloc_rec(prev, ids, pool, acc).dom().contains(label_of(prev, id)),
        alloc_rec(prev, ids, pool, acc)[label_of(prev, id)] == id,
    decreases ids.len(),
{
    let c = label_of(prev, id);
    assert(prev.dom().contains(c) && prev[c] == id);
    let id0 = ids[0];
    let ids2 = ids.drop_first();
    assert(forall|k: int| 0 <= k < ids2.len() ==> ids2[k] == ids[k + 1]);
    assert(ids2.no_duplicates());
    if id0 == id {
        let acc2 = acc.insert(c, id);
        let pool2 = remove_char(pool, c);
        lemma_remove_char_no_duplicates(pool, c);
        lemma_remove_char_contains(pool, c);
        assert(!pool2.contains(c));
        assert(forall|k: int|
            0 <= k < ids2.len() ==> !(has_label(prev, #[trigger] ids2[k]) && label_of(
                prev,
                ids2[k],
            ) == c)) by {
            assert forall|k: int|
                0 <= k < ids2.len() && has_label(prev, #[trigger] ids2[k]) implies label_of(
                prev,
                ids2[k],
            ) != c by {
                let x = ids2[k];
                let cx = label_of(prev, x);
                assert(prev.dom().contains(cx) && prev[cx] == x);
                assert(x != id);
            }
        }
        lemma_alloc_rec_preserves(prev, ids2, pool2, acc2, c);
    } else {
        assert(ids2.contains(id)) by {
            let k = choose|k: int| 0 <= k < ids.len() && ids[k] == id;
            assert(ids2[k - 1] == id);
        }
        if has_label(prev, id0) {
            let c0 = label_of(prev, id0);
            lemma_remove_char_no_duplicates(pool, c0);
            lemma_alloc_rec_stable(prev, ids2, remove_char(pool, c0), acc.insert(c0, id0), id);
        } else {
            let pool2 = pool.drop_last();
            assert(forall|k: int| 0 <= k < pool2.len() ==> pool2[k] == pool[k]);
            lemma_alloc_rec_stable(prev, ids2, pool2, acc.insert(pool.last(), id0), id);
        }
    }
}

/// Label stability: an identifier that matches again keeps the label it
/// had, as long as the match count does not exceed the alphabet.
pub proof fn lemma_allocate_stable(prev: Map<char, usize>, ids: Seq<usize>, id: usize)
    requires
        injective(prev),
        ids.no_duplicates(),
        ids.len() <= alphabet().len(),
        ids.contains(id),
        has_label(prev, id),
    ensures
        allocate_spec(prev, ids).dom().contains(label_of(prev, id)),
        allocate_spec(prev, ids)[label_of(prev, id)] == id,
{
    lemma_alphabet_no_duplicates();
    lemma_alloc_rec_stable(prev, ids, alphabet(), Map::<char, usize>::empty(), id);
}

/// An identifier that is neither bound already nor among the remaining
/// identifiers never becomes bound.
proof fn lemma_alloc_rec_values(
    prev: Map<char, usize>,
    ids: Seq<usize>,
    pool: Seq<char>,
    acc: Map<char, usize>,
    id: usize,
)
    requires
        !has_label(acc, id),
        !ids.contains(id),
    ensures
        !has_label(alloc_rec(prev, ids, pool, acc), id),
    decreases ids.len(),
{
    if ids.len() > 0 {
        let id0 = ids[0];
        let ids2 = ids.drop_first();
        assert(id0 != id) by {
            assert(ids[0] == id0);
        }
        assert(!ids2.contains(id)) by {
            if ids2.contains(id) {
                let k = choose|k: int| 0 <= k < ids2.len() && ids2[k] == id;
                assert(ids[k + 1] == id);
            }
        }
        let c0 = if has_label(prev, id0) {
            label_of(prev, id0)
        } else {
            pool.last()
        };
        let acc2 = acc.insert(c0, id0);
        assert(!has_label(acc2, id)) by {
            if has_label(acc2, id) {
                let c = choose|c: char| acc2.dom().contains(c) && acc2[c] == id;
                assert(c != c0);
                assert(acc.dom().contains(c) && acc[c] == id);
            }
        }
        if has_label(prev, id0) {
            lemma_alloc_rec_values(prev, ids2, remove_char(pool, c0), acc2, id);
        } else {
            lemma_alloc_rec_values(prev, ids2, pool.drop_last(), acc2, id);
        }
    }
}

/// When some remaining identifier reuses the label `c`, the identifier
/// bound to `c` before loses its only label and ends the pass unbound.
proof fn lemma_alloc_rec_overwritten(
    prev: Map<char, usize>,
    ids: Seq<usize>,
    pool: Seq<char>,
    acc: Map<char, usize>,
    c: char,
    id: usize,
)
    requires
        pool.no_duplicates(),
        ids.no_duplicates(),
        ids.len() <= pool.len(),
        injective(prev),
        injective(acc),
        acc.dom().contains(c),
        acc[c] == id,
        !pool.contains(c),
        !ids.contains(id),
        forall|k: int| 0 <= k < ids.len() ==> !has_label(acc, #[trigger] ids[k]),
        exists|k: int|
            0 <= k < ids.len() && has_label(prev, #[trigger] ids[k]) && label_of(prev, ids[k])
                == c,
    ensures
        !has_label(alloc_rec(prev, ids, pool, acc), id),
    decreases ids.len(),
{
    let id0 = ids[0];
    let ids2 = ids.drop_first();
    assert(forall|k: int| 0 <= k < ids2.len() ==> ids2[k] == ids[k + 1]);
    assert(ids2.no_duplicates());
    assert(id0 != id) by {
        assert(ids[0] == id0);
    }
    assert(!ids2.contains(id)) by {
        if ids2.contains(id) {
            let k = choose|k: int| 0 <= k < ids2.len() && ids2[k] == id;
            assert(ids[k + 1] == id);
        }
    }
    assert(!has_label(acc, id0));
    let c0 = if has_label(prev, id0) {
        label_of(prev, id0)
    } else {
        pool.last()
    };
    let acc2 = acc.insert(c0, id0);
    let pool2 = if has_label(prev, id0) {
        remove_char(pool, c0)
    } else {
        pool.drop_last()
    };
    assert(injective(acc2)) by {
        assert forall|c1: char, c2: char|
            acc2.dom().contains(c1) && acc2.dom().contains(c2) && acc2[c1] == acc2[c2] implies c1
            == c2 by {
            if c1 != c0 && c2 != c0 {
                assert(acc[c1] == acc[c2]);
            } else if c1 == c0 && c2 != c0 {
                assert(acc.dom().contains(c2) && acc[c2] == id0);
            } else if c2 == c0 && c1 != c0 {
                assert(acc.dom().contains(c1) && acc[c1] == id0);
            }
        }
    }
    assert(forall|k: int| 0 <= k < ids2.len() ==> !has_label(acc2, #[trigger] ids2[k])) by {
        assert forall|k: int| 0 <= k < ids2.len() implies !has_label(acc2, #[trigger] ids2[k]) by {
            assert(ids2[k] == ids[k + 1]);
            assert(ids[k + 1] != id0);
            assert(!has_label(acc, ids[k + 1]));
            if has_label(acc2, ids2[k]) {
                let cw = choose|cw: char| acc2.dom().contains(cw) && acc2[cw] == ids2[k];
                assert(cw != c0);
                assert(acc.dom().contains(cw) && acc[cw] == ids2[k]);
            }
        }
    }
    if has_label(prev, id0) {
        lemma_remove_char_no_duplicates(pool, c0);
        lemma_remove_char_contains(pool, c0);
        if c0 == c {
            assert(acc2[c] == id0);
            assert(!has_label(acc2, id)) by {
                if has_label(acc2, id) {
                    let cw = choose|cw: char| acc2.dom().contains(cw) && acc2[cw] == id;
                    assert(cw != c);
                    assert(acc.dom().contains(cw) && acc[cw] == id);
                    assert(cw == c);
                }
            }
            lemma_alloc_rec_values(prev, ids2, pool2, acc2, id);
        } else {
            assert(acc2.dom().contains(c) && acc2[c] == id);
            assert(exists|k: int|
                0 <= k < ids2.len() && has_label(prev, #[trigger] ids2[k]) && label_of(
                    prev,
                    ids2[k],
                ) == c) by {
                let k = choose|k: int|
                    0 <= k < ids.len() && has_label(prev, #[trigger] ids[k]) && label_of(
                        prev,
                        ids[k],
                    ) == c;
                assert(k != 0);
                assert(ids2[k - 1] == ids[k]);
            }
            lemma_alloc_rec_overwritten(prev, ids2, pool2, acc2, c, id);
        }
    } else {
        assert(pool.contains(c0)) by {
            assert(pool[pool.len() - 1] == c0);
        }
        assert(c0 != c);
        assert(forall|k: int| 0 <= k < pool2.len() ==> pool2[k] == pool[k]);
        assert(!pool2.contains(c)) by {
            if pool2.contains(c) {
                let k = choose|k: int| 0 <= k < pool2.len() && pool2[k] == c;
                assert(pool[k] == c);
            }
        }
        assert(exists|k: int|
            0 <= k < ids2.len() && has_label(prev, #[trigger] ids2[k]) && label_of(prev, ids2[k])
                == c) by {
            let k = choose|k: int|
                0 <= k < ids.len() && has_label(prev, #[trigger] ids[k]) && label_of(prev, ids[k])
                    == c;
            assert(k != 0);
            assert(ids2[k - 1] == ids[k]);
        }
        lemma_alloc_rec_overwritten(prev, ids2, pool2, acc2, c, id);
    }
}

/// Running the pass again, with the map the pass produced as the previous
/// map, reproduces that map exactly.
proof fn lemma_alloc_rec_replay(
    prev: Map<char, usize>,
    ids: Seq<usize>,
    pool: Seq<char>,
    acc: Map<char, usize>,
)
    requires
        pool.no_duplicates(),
        ids.no_duplicates(),
        ids.len() <= pool.len(),
        injective(prev),
        dom_in_alphabet(prev),
        forall|c: char| pool.contains(c) ==> alphabet().contains(c),
        injective(acc),
        dom_in_alphabet(acc),
        forall|k: int| 0 <= k < ids.len() ==> !has_label(acc, #[trigger] ids[k]),
    ensures
        alloc_rec(alloc_rec(prev, ids, pool, acc), ids, pool, acc) == alloc_rec(
            prev,
            ids,
            pool,
            acc,
        ),
    decreases ids.len(),
{
    let m = alloc_rec(prev, ids, pool, acc);
    if ids.len() > 0 {
        lemma_alloc_rec_invariants(prev, ids, pool, acc);
        let id = ids[0];
        let ids2 = ids.drop_first();
        assert(forall|k: int| 0 <= k < ids2.len() ==> ids2[k] == ids[k + 1]);
        assert(ids2.no_duplicates());
        assert(ids.contains(id));
        assert(!has_label(acc, id));
        if has_label(prev, id) {
            let c = label_of(prev, id);
            assert(prev.dom().contains(c) && prev[c] == id);
            let acc2 = acc.insert(c, id);
            let pool2 = remove_char(pool, c);
            lemma_remove_char_no_duplicates(pool, c);
            lemma_remove_char_contains(pool, c);
            lemma_replay_step(prev, ids, pool, acc, c, id);
            assert(forall|k: int|
                0 <= k < ids2.len() ==> !(has_label(prev, #[trigger] ids2[k]) && label_of(
                    prev,
                    ids2[k],
                ) == c)) by {
                assert forall|k: int|
                    0 <= k < ids2.len() && has_label(prev, #[trigger] ids2[k]) implies label_of(
                    prev,
                    ids2[k],
                ) != c by {
                    let cx = label_of(prev, ids2[k]);
                    assert(prev.dom().contains(cx) && prev[cx] == ids2[k]);
                    assert(ids2[k] != id);
                }
            }
            lemma_alloc_rec_preserves(prev, ids2, pool2, acc2, c);
            assert(m.dom().contains(c) && m[c] == id);
            assert(has_label(m, id)) by {
                assert(m.dom().contains(c) && m[c] == id);
            }
            assert(label_of(m, id) == c) by {
                let cw = label_of(m, id);
                assert(m.dom().contains(cw) && m[cw] == id);
            }
            assert forall|cc: char| pool2.contains(cc) implies alphabet().contains(cc) by {
                assert(pool.contains(cc));
            }
            lemma_alloc_rec_replay(prev, ids2, pool2, acc2);
        } else {
            let c = pool.last();
            assert(pool.contains(c)) by {
                assert(pool[pool.len() - 1] == c);
            }
            assert(alphabet().contains(c));
            let acc2 = acc.insert(c, id);
            let pool2 = pool.drop_last();
            assert(forall|k: int| 0 <= k < pool2.len() ==> pool2[k] == pool[k]);
            assert(!pool2.contains(c)) by {
                if pool2.contains(c) {
                    let k = choose|k: int| 0 <= k < pool2.len() && pool2[k] == c;
                    assert(pool[k] == pool[pool.len() - 1]);
                }
            }
            assert forall|cc: char| pool2.contains(cc) implies alphabet().contains(cc) by {
                let k = choose|k: int| 0 <= k < pool2.len() && pool2[k] == cc;
                assert(pool[k] == cc);
                assert(pool.contains(cc));
            }
            lemma_replay_step(prev, ids, pool, acc, c, id);
            if exists|k: int|
                0 <= k < ids2.len() && has_label(prev, #[trigger] ids2[k]) && label_of(
                    prev,
                    ids2[k],
                ) == c {
                lemma_alloc_rec_overwritten(prev, ids2, pool2, acc2, c, id);
                assert(!has_label(m, id));
                lemma_alloc_rec_replay(prev, ids2, pool2, acc2);
            } else {
                lemma_alloc_rec_preserves(prev, ids2, pool2, acc2, c);
                assert(m.dom().contains(c) && m[c] == id);
                assert(has_label(m, id)) by {
                    assert(m.dom().contains(c) && m[c] == id);
                }
                assert(label_of(m, id) == c) by {
                    let cw = label_of(m, id);
                    assert(m.dom().contains(cw) && m[cw] == id);
                }
                crate::keys::lemma_remove_char_last(pool, c);
                lemma_alloc_rec_replay(prev, ids2, pool2, acc2);
            }
        }
    }
}

/// The shared bookkeeping of one replay step: the state after binding
/// `c` to `id` satisfies the pass preconditions again.
proof fn lemma_replay_step(
    prev: Map<char, usize>,
    ids: Seq<usize>,
    pool: Seq<char>,
    acc: Map<char, usize>,
    c: char,
    id: usize,
)
    requires
        ids.no_duplicates(),
        ids.len() > 0,
        id == ids[0],
        injective(acc),
        dom_in_alphabet(acc),
        alphabet().contains(c),
        forall|k: int| 0 <= k < ids.len() ==> !has_label(acc, #[trigger] ids[k]),
    ensures
        injective(acc.insert(c, id)),
        dom_in_alphabet(acc.insert(c, id)),
        forall|k: int|
            0 <= k < ids.drop_first().len() ==> !has_label(
                acc.insert(c, id),
                #[trigger] ids.drop_first()[k],
            ),
{
    let acc2 = acc.insert(c, id);
    let ids2 = ids.drop_first();
    assert(!has_label(acc, id));
    assert(injective(acc2)) by {
        assert forall|c1: char, c2: char|
            acc2.dom().contains(c1) && acc2.dom().contains(c2) && acc2[c1] == acc2[c2] implies c1
            == c2 by {
            if c1 != c && c2 != c {
                assert(acc[c1] == acc[c2]);
            } else if c1 == c && c2 != c {
                assert(acc.dom().contains(c2) && acc[c2] == id);
            } else if c2 == c && c1 != c {
                assert(acc.dom().contains(c1) && acc[c1] == id);
            }
        }
    }
    assert forall|k: int| 0 <= k < ids2.len() implies !has_label(acc2, #[trigger] ids2[k]) by {
        assert(ids2[k] == ids[k + 1]);
        assert(ids[k + 1] != ids[0]);
        assert(!has_label(acc, ids[k + 1]));
        if has_label(acc2, ids2[k]) {
            let cw = choose|cw: char| acc2.dom().contains(cw) && acc2[cw] == ids2[k];
            assert(cw != c);
            assert(acc.dom().contains(cw) && acc[cw] == ids2[k]);
        }
    }
}

/// Idempotence: allocating again from the produced map, with the same
/// matching identifiers, yields the same map.
pub proof fn lemma_allocate_idempotent(prev: Map<char, usize>, ids: Seq<usize>)
    requires
        injective(prev),
        dom_in_alphabet(prev),
        ids.no_duplicates(),
    ensures
        allocate_spec(allocate_spec(prev, ids), ids) == allocate_spec(prev, ids),
{
    lemma_alphabet_no_duplicates();
    if ids.len() <= alphabet().len() {
        lemma_alloc_rec_replay(prev, ids, alphabet(), Map::<char, usize>::empty());
    }
}

/// Computes the new jump map for the given matching identifiers.
pub fn allocate(previous: &JumpMap, matched: &Vec<usize>) -> (r: JumpMap)
    requires
        previous.wf(),
        injective(previous@),
        dom_in_alphabet(previous@),
        matched@.no_duplicates(),
    ensures
        r@ == allocate_spec(previous@, matched@),
        r.wf(),
        injective(r@),
        dom_in_alphabet(r@),
        matched@.len() > alphabet().len() ==> r@ == Map::<char, usize>::empty(),
        forall|x: usize| has_label(r@, x) ==> matched@.contains(x),
{
    proof {
        lemma_alphabet_no_duplicates();
    }
    let mut pool: Vec<char> = jump_keys();
    if matched.len() > pool.len() {
        return JumpMap::new();
    }
    let mut r = JumpMap::new();
    let n = matched.len();
    proof {
        assert(matched@.skip(0) =~= matched@);
    }
    let mut i: usize = 0;
    while i < n
        invariant
            i <= n,
            n == matched@.len(),
            n <= alphabet().len(),
            matched@.no_duplicates(),
            previous.wf(),
            injective(previous@),
            r.wf(),
            pool@.no_duplicates(),
            pool@.len() >= alphabet().len() - i,
            alloc_rec(previous@, matched@.skip(i as int), pool@, r@) == alloc_rec(
                previous@,
                matched@,
                alphabet(),
                Map::<char, usize>::empty(),
            ),
        decreases n - i,
    {
        let ghost ids_i = matched@.skip(i as int);
        let ghost pool0 = pool@;
        let ghost r0 = r@;
        proof {
            assert(ids_i.len() == n - i > 0);
            assert(ids_i[0] == matched@[i as int]);
            assert(ids_i.drop_first() =~= matched@.skip(i + 1));
        }
        let id = matched[i];
        match previous.label_for_id(id) {
            Some(c) => {
                let c2 = pop_char(&mut pool, Some(c));
                r.insert(c2, id);
                proof {
                    lemma_remove_char_no_duplicates(pool0, c);
                    assert(alloc_rec(previous@, ids_i, pool0, r0) == alloc_rec(
                        previous@,
                        ids_i.drop_first(),
                        remove_char(pool0, c),
                        r0.insert(c, id),
                    ));
                }
            },
            None => {
                let c = pop_char(&mut pool, None);
                r.insert(c, id);
                proof {
                    assert(pool@.no_duplicates()) by {
                        assert(forall|k: int| 0 <= k < pool@.len() ==> pool@[k] == pool0[k]);
                    }
                    assert(alloc_rec(previous@, ids_i, pool0, r0) == alloc_rec(
                        previous@,
                        ids_i.drop_first(),
                        pool0.drop_last(),
                        r0.insert(pool0.last(), id),
                    ));
                }
            },
        }
        i += 1;
    }
    proof {
        assert(matched@.skip(n as int) =~= Seq::<usize>::empty());
        lemma_alloc_rec_invariants(
            previous@,
            matched@,
            alphabet(),
            Map::<char, usize>::empty(),
        );
        assert forall|x: usize| has_label(r@, x) implies matched@.contains(x) by {
            assert(!has_label(Map::<char, usize>::empty(), x));
        }
    }
    r
}

} // verus!
