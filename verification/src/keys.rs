//! The fixed pool of label characters and the operation that takes a
//! character out of a pool.

use vstd::prelude::*;

verus! {

/// The label alphabet: the lower-case letters in keyboard order, minus the
/// one letter reserved for the host's own bindings.
pub const JUMP_KEYS: [char; 25] = ['q', 'w', 'e', 'r', 't', 'u', 'i', 'o', 'p', 'a', 's', 'd',
    'f', 'g', 'h', 'j', 'k', 'l', 'z', 'x', 'c', 'v', 'b', 'n', 'm'];

/// The label alphabet as a sequence of characters.
pub open spec fn alphabet() -> Seq<char> {
    JUMP_KEYS@
}

/// No letter occurs twice in the alphabet.
pub proof fn lemma_alphabet_no_duplicates()
    ensures
        alphabet().no_duplicates(),
        alphabet().len() == 25,
{
    assert(alphabet().no_duplicates());
}

/// The full alphabet as a vector, the initial pool of one allocation round.
pub fn jump_keys() -> (r: Vec<char>)
    ensures
        r@ == alphabet(),
{
    let mut r: Vec<char> = Vec::new();
    let mut i: usize = 0;
    while i < 25
        invariant
            i <= 25,
            r@ == alphabet().take(i as int),
        decreases 25 - i,
    {
        r.push(JUMP_KEYS[i]);
        i += 1;
        proof {
            assert(r@ =~= alphabet().take(i as int));
        }
    }
    proof {
        assert(alphabet().take(25) =~= alphabet());
    }
    r
}

/// The sequence `s` with every occurrence of `c` removed, order kept.
pub open spec fn remove_char(s: Seq<char>, c: char) -> Seq<char>
    decreases s.len(),
{
    if s.len() == 0 {
        Seq::empty()
    } else if s.last() == c {
        remove_char(s.drop_last(), c)
    } else {
        remove_char(s.drop_last(), c).push(s.last())
    }
}

/// Removal keeps exactly the elements other than `c`.
pub proof fn lemma_remove_char_contains(s: Seq<char>, c: char)
    ensures
        forall|x: char| remove_char(s, c).contains(x) <==> s.contains(x) && x != c,
    decreases s.len(),
{
    if s.len() > 0 {
        lemma_remove_char_contains(s.drop_last(), c);
        assert forall|x: char| s.contains(x) && x != c implies remove_char(s, c).contains(x) by {
            let i = choose|i: int| 0 <= i < s.len() && s[i] == x;
            if i < s.len() - 1 {
                assert(s.drop_last()[i] == x);
                assert(s.drop_last().contains(x));
                let j = choose|j: int|
                    0 <= j < remove_char(s.drop_last(), c).len() && remove_char(
                        s.drop_last(),
                        c,
                    )[j] == x;
                if s.last() != c {
                    assert(remove_char(s, c)[j] == x);
                }
            } else {
                assert(x == s.last());
                assert(s.last() != c);
                let r = remove_char(s, c);
                assert(r[r.len() - 1] == x);
            }
        }
        assert forall|x: char| remove_char(s, c).contains(x) implies s.contains(x) && x != c by {
            if remove_char(s.drop_last(), c).contains(x) {
                assert(s.drop_last().contains(x));
                let i = choose|i: int| 0 <= i < s.drop_last().len() && s.drop_last()[i] == x;
                assert(s[i] == x);
            } else {
                assert(s.last() != c && x == s.last());
                assert(s[s.len() - 1] == x);
            }
        }
    }
}

/// Removal of an absent character changes nothing.
pub proof fn lemma_remove_char_absent(s: Seq<char>, c: char)
    requires
        !s.contains(c),
    ensures
        remove_char(s, c) == s,
    decreases s.len(),
{
    if s.len() > 0 {
        assert(forall|i: int| 0 <= i < s.drop_last().len() ==> s.drop_last()[i] == s[i]);
        assert(!s.drop_last().contains(c));
        assert(s.last() != c) by {
            assert(s[s.len() - 1] == s.last());
        }
        lemma_remove_char_absent(s.drop_last(), c);
        assert(remove_char(s, c) =~= s);
    } else {
        assert(remove_char(s, c) =~= s);
    }
}

/// Removal keeps a duplicate-free sequence duplicate-free.
pub proof fn lemma_remove_char_no_duplicates(s: Seq<char>, c: char)
    requires
        s.no_duplicates(),
    ensures
        remove_char(s, c).no_duplicates(),
        remove_char(s, c).len() >= s.len() - 1,
        s.contains(c) ==> remove_char(s, c).len() == s.len() - 1,
        !s.contains(c) ==> remove_char(s, c).len() == s.len(),
    decreases s.len(),
{
    if s.len() > 0 {
        let d = s.drop_last();
        assert(d.no_duplicates());
        lemma_remove_char_no_duplicates(d, c);
        lemma_remove_char_contains(d, c);
        assert(forall|i: int| 0 <= i < d.len() ==> d[i] == s[i]);
        if s.last() == c {
            assert(!d.contains(c)) by {
                if d.contains(c) {
                    let i = choose|i: int| 0 <= i < d.len() && d[i] == c;
                    assert(s[i] == c && s[s.len() - 1] == c);
                }
            }
            assert(remove_char(d, c) == d) by {
                lemma_remove_char_absent(d, c);
            }
        } else {
            let r = remove_char(d, c).push(s.last());
            assert(!remove_char(d, c).contains(s.last())) by {
                if d.contains(s.last()) {
                    let i = choose|i: int| 0 <= i < d.len() && d[i] == s.last();
                    assert(s[i] == s[s.len() - 1]);
                }
            }
            assert(r.no_duplicates()) by {
                let q = remove_char(d, c);
                assert(forall|i: int| 0 <= i < q.len() ==> r[i] == q[i]);
                assert(r[r.len() - 1] == s.last());
                assert(forall|i: int, j: int| 0 <= i < j < r.len() ==> r[i] != r[j]) by {
                    assert(forall|i: int| 0 <= i < q.len() ==> q.contains(q[i]));
                }
            }
            if s.contains(c) {
                assert(d.contains(c)) by {
                    let i = choose|i: int| 0 <= i < s.len() && s[i] == c;
                    assert(i < s.len() - 1);
                    assert(d[i] == c);
                }
            } else {
                assert(!d.contains(c)) by {
                    if d.contains(c) {
                        let i = choose|i: int| 0 <= i < d.len() && d[i] == c;
                        assert(s[i] == c);
                    }
                }
            }
        }
    }
}

/// On a duplicate-free sequence ending in `c`, removing `c` is dropping the
/// last element.
pub proof fn lemma_remove_char_last(s: Seq<char>, c: char)
    requires
        s.no_duplicates(),
        s.len() > 0,
        s.last() == c,
    ensures
        remove_char(s, c) == s.drop_last(),
{
    let d = s.drop_last();
    assert(forall|i: int| 0 <= i < d.len() ==> d[i] == s[i]);
    assert(!d.contains(c)) by {
        if d.contains(c) {
            let i = choose|i: int| 0 <= i < d.len() && d[i] == c;
            assert(s[i] == c && s[s.len() - 1] == c);
        }
    }
    lemma_remove_char_absent(d, c);
}

/// Takes a character out of `key_list`. With `Some(c)` the character `c`
/// itself is removed, wherever it stands (a no-op when absent); with `None`
/// the last character of the list is taken.
pub fn pop_char(key_list: &mut Vec<char>, ch: Option<char>) -> (r: char)
    requires
        ch is Some || old(key_list)@.len() > 0,
    ensures
        match ch {
            Some(c) => r == c && final(key_list)@ == remove_char(old(key_list)@, c),
            None => r == old(key_list)@.last() && final(key_list)@ == old(key_list)@.drop_last(),
        },
{
    match ch {
        Some(c) => {
            let ghost s = key_list@;
            let mut out: Vec<char> = Vec::new();
            let n = key_list.len();
            let mut i: usize = 0;
            while i < n
                invariant
                    i <= n,
                    n == s.len(),
                    key_list@ == s,
                    out@ == remove_char(s.take(i as int), c),
                decreases n - i,
            {
                proof {
                    assert(s.take(i + 1).drop_last() =~= s.take(i as int));
                    assert(s.take(i + 1).last() == s[i as int]);
                }
                if key_list[i] != c {
                    out.push(key_list[i]);
                }
                i += 1;
            }
            proof {
                assert(s.take(n as int) =~= s);
            }
            *key_list = out;
            c
        },
        None => key_list.pop().unwrap(),
    }
}

} // verus!
