use vstd::prelude::*;
use vstd::string::StrSliceExecFns;

verus! {

/// Lexicographic order on character sequences, by code point.
pub open spec fn chars_le(a: Seq<char>, b: Seq<char>) -> bool
    decreases a.len(),
{
    if a.len() == 0 {
        true
    } else if b.len() == 0 {
        false
    } else if a.first() as u32 == b.first() as u32 {
        chars_le(a.drop_first(), b.drop_first())
    } else {
        (a.first() as u32) < (b.first() as u32)
    }
}

/// The lexicographic order relates every pair of character sequences.
pub proof fn lemma_chars_le_total(a: Seq<char>, b: Seq<char>)
    ensures
        chars_le(a, b) || chars_le(b, a),
    decreases a.len(),
{
    if a.len() > 0 && b.len() > 0 && a.first() as u32 == b.first() as u32 {
        lemma_chars_le_total(a.drop_first(), b.drop_first());
    }
}

/// Two characters with the same code point are the same character.
proof fn lemma_char_eq(c: char, d: char)
    requires
        c as u32 == d as u32,
    ensures
        c == d,
{
}

/// Two character sequences below each other are equal.
pub proof fn lemma_chars_le_antisymmetric(a: Seq<char>, b: Seq<char>)
    requires
        chars_le(a, b),
        chars_le(b, a),
    ensures
        a == b,
    decreases a.len(),
{
    if a.len() == 0 {
        assert(b.len() == 0);
        assert(a =~= b);
    } else {
        assert(b.len() > 0);
        let c = a.first();
        let d = b.first();
        assert(c as u32 == d as u32);
        lemma_char_eq(c, d);
        assert(c == d);
        lemma_chars_le_antisymmetric(a.drop_first(), b.drop_first());
        assert forall|i: int| 0 <= i < a.len() implies a[i] == b[i] by {
            if i > 0 {
                assert(a.drop_first()[i - 1] == b.drop_first()[i - 1]);
            }
        }
        assert(a =~= b);
    }
}

/// The lexicographic order is transitive.
pub proof fn lemma_chars_le_transitive(a: Seq<char>, b: Seq<char>, c: Seq<char>)
    requires
        chars_le(a, b),
        chars_le(b, c),
    ensures
        chars_le(a, c),
    decreases a.len(),
{
    if a.len() > 0 {
        assert(b.len() > 0);
        assert(c.len() > 0);
        if a.first() as u32 == b.first() as u32 && b.first() as u32 == c.first() as u32 {
            lemma_chars_le_transitive(a.drop_first(), b.drop_first(), c.drop_first());
        }
    }
}

/// Lexicographic order on (line, destination) pairs: by line, then by
/// destination.
pub open spec fn pair_le(a: (Seq<char>, Seq<char>), b: (Seq<char>, Seq<char>)) -> bool {
    if a.0 == b.0 {
        chars_le(a.1, b.1)
    } else {
        chars_le(a.0, b.0)
    }
}

/// The pair order relates every two pairs.
pub proof fn lemma_pair_le_total(a: (Seq<char>, Seq<char>), b: (Seq<char>, Seq<char>))
    ensures
        pair_le(a, b) || pair_le(b, a),
{
    if a.0 == b.0 {
        lemma_chars_le_total(a.1, b.1);
    } else {
        lemma_chars_le_total(a.0, b.0);
    }
}

/// Two pairs below each other are equal.
pub proof fn lemma_pair_le_antisymmetric(a: (Seq<char>, Seq<char>), b: (Seq<char>, Seq<char>))
    requires
        pair_le(a, b),
        pair_le(b, a),
    ensures
        a == b,
{
    if a.0 == b.0 {
        lemma_chars_le_antisymmetric(a.1, b.1);
    } else {
        lemma_chars_le_antisymmetric(a.0, b.0);
    }
}

/// The pair order is transitive.
pub proof fn lemma_pair_le_transitive(
    a: (Seq<char>, Seq<char>),
    b: (Seq<char>, Seq<char>),
    c: (Seq<char>, Seq<char>),
)
    requires
        pair_le(a, b),
        pair_le(b, c),
    ensures
        pair_le(a, c),
{
    if a.0 == b.0 && b.0 == c.0 {
        lemma_chars_le_transitive(a.1, b.1, c.1);
    } else if a.0 == b.0 {
    } else if b.0 == c.0 {
    } else {
        lemma_chars_le_transitive(a.0, b.0, c.0);
        if a.0 == c.0 {
            lemma_chars_le_antisymmetric(a.0, b.0);
        }
    }
}

/// Whether `a` comes at or before `b` on the board: by arrival timestamp
/// string, with a missing timestamp ordering after every known one.
pub open spec fn time_le(a: Option<Seq<char>>, b: Option<Seq<char>>) -> bool {
    match (a, b) {
        (Option::Some(x), Option::Some(y)) => chars_le(x, y),
        (Option::Some(_), Option::None) => true,
        (Option::None, Option::Some(_)) => false,
        (Option::None, Option::None) => true,
    }
}

/// The timestamp order relates every two optional timestamps.
pub proof fn lemma_time_le_total(a: Option<Seq<char>>, b: Option<Seq<char>>)
    ensures
        time_le(a, b) || time_le(b, a),
{
    if a is Some && b is Some {
        lemma_chars_le_total(a->0, b->0);
    }
}

/// The timestamp order is transitive.
pub proof fn lemma_time_le_transitive(
    a: Option<Seq<char>>,
    b: Option<Seq<char>>,
    c: Option<Seq<char>>,
)
    requires
        time_le(a, b),
        time_le(b, c),
    ensures
        time_le(a, c),
{
    if a is Some && b is Some && c is Some {
        lemma_chars_le_transitive(a->0, b->0, c->0);
    }
}

/// Compares two strings in the lexicographic order on their characters.
pub fn str_le(a: &str, b: &str) -> (r: bool)
    ensures
        r == chars_le(a@, b@),
{
    let alen = a.unicode_len();
    let blen = b.unicode_len();
    let mut i: usize = 0;
    proof {
        assert(a@.skip(0) =~= a@);
        assert(b@.skip(0) =~= b@);
    }
    loop
        invariant
            i <= alen,
            i <= blen,
            alen == a@.len(),
            blen == b@.len(),
            chars_le(a@, b@) == chars_le(a@.skip(i as int), b@.skip(i as int)),
        decreases alen - i,
    {
        if i == alen {
            return true;
        }
        if i == blen {
            assert(a@.skip(i as int).len() > 0);
            return false;
        }
        let ca = a.get_char(i);
        let cb = b.get_char(i);
        proof {
            assert(a@.skip(i as int).first() == a@[i as int]);
            assert(b@.skip(i as int).first() == b@[i as int]);
        }
        if ca as u32 == cb as u32 {
            proof {
                assert(a@.skip(i as int).drop_first() =~= a@.skip(i + 1 as int));
                assert(b@.skip(i as int).drop_first() =~= b@.skip(i + 1 as int));
            }
            i += 1;
        } else {
            return (ca as u32) < (cb as u32);
        }
    }
}

/// Compares two (line, destination) keys in the pair order.
pub fn key_le(l1: &String, d1: &String, l2: &String, d2: &String) -> (r: bool)
    ensures
        r == pair_le((l1@, d1@), (l2@, d2@)),
{
    if *l1 == *l2 {
        str_le(d1.as_str(), d2.as_str())
    } else {
        str_le(l1.as_str(), l2.as_str())
    }
}

/// Compares two optional arrival timestamps in the board order: known
/// timestamps lexicographically, a missing one after every known one.
pub fn arrival_le(a: &Option<String>, b: &Option<String>) -> (r: bool)
    ensures
        r == time_le(a.deep_view(), b.deep_view()),
{
    match (a, b) {
        (Some(x), Some(y)) => str_le(x.as_str(), y.as_str()),
        (Some(_), None) => true,
        (None, Some(_)) => false,
        (None, None) => true,
    }
}

} // verus!
