//! Total orders on key views.
//!
//! The tree is generic over its key type. A key type must give its views a
//! total order (`TotalOrder::le`) together with an executable three-way
//! comparison that decides that order. Orders are stated over views
//! (`View::V`) rather than over the keys themselves so that types whose
//! spec-level equality is opaque, such as `String`, can still serve as keys.

use vstd::prelude::*;

verus! {

/// Result of a three-way key comparison.
pub enum KeyOrdering {
    Less,
    Equal,
    Greater,
}

/// A key type the tree can order.
///
/// `le` must be a total order on the key views, and `compare_with` must
/// decide it on executable keys.
pub trait TotalOrder: View + Sized {
    /// The order on key views: `le(a, b)` says `a` comes no later than `b`.
    spec fn le(a: Self::V, b: Self::V) -> bool;

    /// Any two views are ordered one way or the other.
    proof fn lemma_total(a: Self::V, b: Self::V)
        ensures
            Self::le(a, b) || Self::le(b, a),
    ;

    /// The order is transitive.
    proof fn lemma_transitive(a: Self::V, b: Self::V, c: Self::V)
        requires
            Self::le(a, b),
            Self::le(b, c),
        ensures
            Self::le(a, c),
    ;

    /// Views ordered both ways are equal.
    proof fn lemma_antisymmetric(a: Self::V, b: Self::V)
        requires
            Self::le(a, b),
            Self::le(b, a),
        ensures
            a == b,
    ;

    /// Three-way comparison deciding the order on the views.
    fn compare_with(&self, other: &Self) -> (c: KeyOrdering)
        ensures
            match c {
                KeyOrdering::Less => Self::le(self@, other@) && self@ != other@,
                KeyOrdering::Equal => self@ == other@,
                KeyOrdering::Greater => Self::le(other@, self@) && self@ != other@,
            },
    ;
}

/// The strict order induced by `TotalOrder::le`.
pub open spec fn lt<K: TotalOrder>(a: K::V, b: K::V) -> bool {
    K::le(a, b) && a != b
}

/// The strict order is transitive.
pub proof fn lemma_lt_transitive<K: TotalOrder>(a: K::V, b: K::V, c: K::V)
    requires
        lt::<K>(a, b),
        lt::<K>(b, c),
    ensures
        lt::<K>(a, c),
{
    K::lemma_transitive(a, b, c);
    if a == c {
        K::lemma_antisymmetric(a, b);
    }
}

impl TotalOrder for usize {
    open spec fn le(a: usize, b: usize) -> bool {
        a <= b
    }

    proof fn lemma_total(a: usize, b: usize) {
    }

    proof fn lemma_transitive(a: usize, b: usize, c: usize) {
    }

    proof fn lemma_antisymmetric(a: usize, b: usize) {
    }

    fn compare_with(&self, other: &Self) -> (c: KeyOrdering) {
        if *self < *other {
            KeyOrdering::Less
        } else if *self == *other {
            KeyOrdering::Equal
        } else {
            KeyOrdering::Greater
        }
    }
}

impl TotalOrder for u64 {
    open spec fn le(a: u64, b: u64) -> bool {
        a <= b
    }

    proof fn lemma_total(a: u64, b: u64) {
    }

    proof fn lemma_transitive(a: u64, b: u64, c: u64) {
    }

    proof fn lemma_antisymmetric(a: u64, b: u64) {
    }

    fn compare_with(&self, other: &Self) -> (c: KeyOrdering) {
        if *self < *other {
            KeyOrdering::Less
        } else if *self == *other {
            KeyOrdering::Equal
        } else {
            KeyOrdering::Greater
        }
    }
}

/// Lexicographic order on character sequences: the order `String` keys use.
pub open spec fn lex_le(a: Seq<char>, b: Seq<char>) -> bool
    decreases a.len(),
{
    if a.len() == 0 {
        true
    } else if b.len() == 0 {
        false
    } else if a[0] == b[0] {
        lex_le(a.drop_first(), b.drop_first())
    } else {
        (a[0] as u32) < (b[0] as u32)
    }
}

/// Any two character sequences are lexicographically comparable.
pub proof fn lemma_lex_le_total(a: Seq<char>, b: Seq<char>)
    ensures
        lex_le(a, b) || lex_le(b, a),
    decreases a.len(),
{
    if a.len() != 0 && b.len() != 0 {
        if a[0] == b[0] {
            lemma_lex_le_total(a.drop_first(), b.drop_first());
        } else {
            vstd::utf8::char_u32_cast(a[0], a[0] as u32);
            vstd::utf8::char_u32_cast(b[0], b[0] as u32);
        }
    }
}

/// Lexicographic order is transitive.
pub proof fn lemma_lex_le_transitive(a: Seq<char>, b: Seq<char>, c: Seq<char>)
    requires
        lex_le(a, b),
        lex_le(b, c),
    ensures
        lex_le(a, c),
    decreases a.len(),
{
    if a.len() != 0 {
        assert(b.len() != 0);
        assert(c.len() != 0);
        if a[0] == b[0] && b[0] == c[0] {
            lemma_lex_le_transitive(a.drop_first(), b.drop_first(), c.drop_first());
        } else {
            vstd::utf8::char_u32_cast(a[0], a[0] as u32);
            vstd::utf8::char_u32_cast(b[0], b[0] as u32);
            vstd::utf8::char_u32_cast(c[0], c[0] as u32);
        }
    }
}

/// Character sequences ordered both ways are equal.
pub proof fn lemma_lex_le_antisymmetric(a: Seq<char>, b: Seq<char>)
    requires
        lex_le(a, b),
        lex_le(b, a),
    ensures
        a == b,
    decreases a.len(),
{
    if a.len() == 0 {
        assert(b.len() == 0);
        assert(a =~= b);
    } else {
        assert(b.len() != 0);
        if a[0] == b[0] {
            lemma_lex_le_antisymmetric(a.drop_first(), b.drop_first());
            assert forall|j: int| 0 <= j < a.len() implies a[j] == b[j] by {
                if j > 0 {
                    assert(a.drop_first()[j - 1] == b.drop_first()[j - 1]);
                }
            }
            assert(a =~= b);
        } else {
            vstd::utf8::char_u32_cast(a[0], a[0] as u32);
            vstd::utf8::char_u32_cast(b[0], b[0] as u32);
        }
    }
}

/// Compares two string slices character by character from position `i`.
fn lex_compare_from(a: &str, b: &str, i: usize) -> (c: KeyOrdering)
    requires
        i <= a@.len(),
        i <= b@.len(),
    ensures
        match c {
            KeyOrdering::Less => lex_le(a@.skip(i as int), b@.skip(i as int)) && a@.skip(i as int)
                != b@.skip(i as int),
            KeyOrdering::Equal => a@.skip(i as int) == b@.skip(i as int),
            KeyOrdering::Greater => lex_le(b@.skip(i as int), a@.skip(i as int)) && a@.skip(
                i as int,
            ) != b@.skip(i as int),
        },
    decreases a@.len() - i,
{
    let na = a.unicode_len();
    let nb = b.unicode_len();
    let ghost sa = a@.skip(i as int);
    let ghost sb = b@.skip(i as int);
    if i == na {
        if i == nb {
            proof {
                assert(sa =~= sb);
            }
            KeyOrdering::Equal
        } else {
            proof {
                assert(sa.len() == 0);
                assert(sb.len() > 0);
            }
            KeyOrdering::Less
        }
    } else if i == nb {
        proof {
            assert(sb.len() == 0);
            assert(sa.len() > 0);
        }
        KeyOrdering::Greater
    } else {
        let ca = a.get_char(i);
        let cb = b.get_char(i);
        if ca == cb {
            let c = lex_compare_from(a, b, i + 1);
            proof {
                let ta = a@.skip(i as int + 1);
                let tb = b@.skip(i as int + 1);
                assert(sa[0] == ca && sb[0] == cb);
                assert(sa.drop_first() =~= ta);
                assert(sb.drop_first() =~= tb);
                if ta == tb {
                    assert forall|j: int| 0 <= j < sa.len() implies sa[j] == sb[j] by {
                        if j > 0 {
                            assert(sa.drop_first()[j - 1] == sb.drop_first()[j - 1]);
                        }
                    }
                    assert(sa =~= sb);
                }
                if sa == sb {
                    assert(ta == tb);
                }
            }
            c
        } else {
            proof {
                vstd::utf8::char_u32_cast(ca, ca as u32);
                vstd::utf8::char_u32_cast(cb, cb as u32);
                assert(sa[0] == ca && sb[0] == cb);
                assert(sa != sb);
            }
            if (ca as u32) < (cb as u32) {
                KeyOrdering::Less
            } else {
                KeyOrdering::Greater
            }
        }
    }
}

impl TotalOrder for String {
    open spec fn le(a: Seq<char>, b: Seq<char>) -> bool {
        lex_le(a, b)
    }

    proof fn lemma_total(a: Seq<char>, b: Seq<char>) {
        lemma_lex_le_total(a, b);
    }

    proof fn lemma_transitive(a: Seq<char>, b: Seq<char>, c: Seq<char>) {
        lemma_lex_le_transitive(a, b, c);
    }

    proof fn lemma_antisymmetric(a: Seq<char>, b: Seq<char>) {
        lemma_lex_le_antisymmetric(a, b);
    }

    fn compare_with(&self, other: &Self) -> (c: KeyOrdering) {
        let c = lex_compare_from(self.as_str(), other.as_str(), 0);
        proof {
            assert(self@.skip(0) =~= self@);
            assert(other@.skip(0) =~= other@);
        }
        c
    }
}

} // verus!
