//! The order of keys: byte by byte, a proper prefix before what it
//! begins.

use vstd::prelude::*;

verus! {

/// Whether `a` stands before `b` in lexicographic order of their bytes.
pub open spec fn lex_less(a: Seq<u8>, b: Seq<u8>) -> bool
    decreases a.len(),
{
    if b.len() == 0 {
        false
    } else if a.len() == 0 {
        true
    } else if a[0] != b[0] {
        a[0] < b[0]
    } else {
        lex_less(a.drop_first(), b.drop_first())
    }
}

/// Whether each key stands before all that follow it.
pub open spec fn is_ascending(keys: Seq<Vec<u8>>) -> bool {
    forall|i: int, j: int| 0 <= i < j < keys.len() ==> lex_less(#[trigger] keys[i]@, #[trigger] keys[j]@)
}

/// Whether `key` is among `keys`.
pub open spec fn holds(keys: Seq<Vec<u8>>, key: Seq<u8>) -> bool {
    exists|i: int| 0 <= i < keys.len() && #[trigger] keys[i]@ == key
}

/// What stands before a key stands before all that the key stands before.
pub proof fn lemma_lex_less_transitive(a: Seq<u8>, b: Seq<u8>, c: Seq<u8>)
    requires
        lex_less(a, b),
        lex_less(b, c),
    ensures
        lex_less(a, c),
    decreases a.len(),
{
    if a.len() > 0 && a[0] == b[0] && b[0] == c[0] {
        lemma_lex_less_transitive(a.drop_first(), b.drop_first(), c.drop_first());
    }
}

/// Of two different keys one stands before the other.
pub proof fn lemma_lex_less_total(a: Seq<u8>, b: Seq<u8>)
    ensures
        lex_less(a, b) || a == b || lex_less(b, a),
    decreases a.len(),
{
    if a.len() == 0 || b.len() == 0 {
        if a.len() == 0 && b.len() == 0 {
            assert(a =~= b);
        }
    } else if a[0] == b[0] {
        lemma_lex_less_total(a.drop_first(), b.drop_first());
        if a.drop_first() == b.drop_first() {
            assert(a =~= seq![a[0]] + a.drop_first());
            assert(b =~= seq![b[0]] + b.drop_first());
        }
    }
}

/// Whether `a` stands before `b`.
pub fn is_less(a: &[u8], b: &[u8]) -> (less: bool)
    ensures
        less == lex_less(a@, b@),
{
    let mut i: usize = 0;
    assert(a@.skip(0) =~= a@ && b@.skip(0) =~= b@);
    while i < a.len() && i < b.len()
        invariant
            i <= a@.len(),
            i <= b@.len(),
            lex_less(a@, b@) == lex_less(a@.skip(i as int), b@.skip(i as int)),
        decreases a@.len() - i,
    {
        assert(a@.skip(i as int).drop_first() =~= a@.skip(i + 1));
        assert(b@.skip(i as int).drop_first() =~= b@.skip(i + 1));
        if a[i] != b[i] {
            return a[i] < b[i];
        }
        i += 1;
    }
    i < b.len()
}

/// Puts `key` into ascending `keys` at its place.
pub fn insert_ascending(keys: &mut Vec<Vec<u8>>, key: Vec<u8>)
    requires
        is_ascending(old(keys)@),
        !holds(old(keys)@, key@),
    ensures
        is_ascending(final(keys)@),
        exists|at: int| 0 <= at <= old(keys)@.len() && final(keys)@ == #[trigger] old(keys)@.insert(at, key),
{
    let mut at: usize = 0;
    while at < keys.len() && is_less(keys[at].as_slice(), key.as_slice())
        invariant
            at <= keys@.len(),
            keys@ == old(keys)@,
            forall|i: int| 0 <= i < at ==> lex_less(#[trigger] keys@[i]@, key@),
        decreases keys@.len() - at,
    {
        at += 1;
    }
    proof {
        let before = keys@;
        let after = before.insert(at as int, key);
        assert forall|i: int, j: int| 0 <= i < j < after.len() implies lex_less(
            #[trigger] after[i]@,
            #[trigger] after[j]@,
        ) by {
            if j < at {
                assert(after[i] == before[i] && after[j] == before[j]);
            } else if j == at {
                assert(after[i] == before[i]);
            } else {
                assert(after[j] == before[j - 1]);
                assert(at < before.len());
                assert(before[at as int]@ != key@);
                lemma_lex_less_total(before[at as int]@, key@);
                if j - 1 > at {
                    lemma_lex_less_transitive(key@, before[at as int]@, before[j - 1]@);
                }
                if i < at {
                    assert(after[i] == before[i]);
                    lemma_lex_less_transitive(before[i]@, key@, before[j - 1]@);
                } else if i > at {
                    assert(after[i] == before[i - 1]);
                }
            }
        }
    }
    keys.insert(at, key);
}

/// The keys after an insertion are the keys before it and the new one.
pub proof fn lemma_holds_insert(keys: Seq<Vec<u8>>, at: int, key: Vec<u8>, other: Seq<u8>)
    requires
        0 <= at <= keys.len(),
    ensures
        holds(keys.insert(at, key), other) <==> holds(keys, other) || other == key@,
{
    let after = keys.insert(at, key);
    if holds(keys, other) {
        let i = choose|i: int| 0 <= i < keys.len() && #[trigger] keys[i]@ == other;
        if i < at {
            assert(after[i]@ == other);
        } else {
            assert(after[i + 1]@ == other);
        }
    }
    if other == key@ {
        assert(after[at]@ == other);
    }
    if holds(after, other) {
        let i = choose|i: int| 0 <= i < after.len() && #[trigger] after[i]@ == other;
        if i < at {
            assert(keys[i]@ == other);
        } else if i > at {
            assert(keys[i - 1]@ == other);
        }
    }
}

} // verus!
