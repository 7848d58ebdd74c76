//! Unicode case folding: each character is lowered independently, and a
//! string is lowered by concatenating the lowerings of its characters.

use vstd::prelude::*;

verus! {

/// The Unicode lowercase mapping of one character, which may be more than
/// one character long. Its value is fixed by the standard library.
pub uninterp spec fn lower_char_of(c: char) -> Seq<char>;

/// Relies on char::to_lowercase: yields the lowercase mapping of the
/// character, one or more characters, a function of the character alone.
#[verifier::external_body]
fn lower_char(c: char) -> (r: Vec<char>)
    ensures
        r@ == lower_char_of(c),
        r@.len() >= 1,
{
    c.to_lowercase().collect()
}

/// The lowercase form of a character sequence: the concatenation of the
/// lowercase mappings of its characters.
pub open spec fn lower_of(s: Seq<char>) -> Seq<char>
    decreases s.len(),
{
    if s.len() == 0 {
        Seq::empty()
    } else {
        lower_char_of(s[0]) + lower_of(s.drop_first())
    }
}

/// Lowering distributes over concatenation.
pub proof fn lemma_lower_of_concat(a: Seq<char>, b: Seq<char>)
    ensures
        lower_of(a + b) == lower_of(a) + lower_of(b),
    decreases a.len(),
{
    if a.len() == 0 {
        assert(a + b =~= b);
        assert(lower_of(a) + lower_of(b) =~= lower_of(b));
    } else {
        assert((a + b).len() > 0);
        assert((a + b)[0] == a[0]);
        assert((a + b).drop_first() =~= a.drop_first() + b);
        lemma_lower_of_concat(a.drop_first(), b);
        assert(lower_char_of(a[0]) + (lower_of(a.drop_first()) + lower_of(b))
            =~= (lower_char_of(a[0]) + lower_of(a.drop_first())) + lower_of(b));
    }
}

/// Lowering a one-character sequence gives that character's mapping.
pub proof fn lemma_lower_of_single(c: char)
    ensures
        lower_of(seq![c]) == lower_char_of(c),
{
    assert(seq![c].drop_first() =~= Seq::<char>::empty());
    assert(lower_of(Seq::<char>::empty()) == Seq::<char>::empty());
    assert(seq![c][0] == c);
    assert(lower_of(seq![c]) == lower_char_of(c) + lower_of(seq![c].drop_first()));
    assert(lower_char_of(c) + Seq::<char>::empty() =~= lower_char_of(c));
}

/// The lowercase form of `s`, one character's mapping after another.
pub fn to_lower(s: &str) -> (r: Vec<char>)
    ensures
        r@ == lower_of(s@),
{
    let n = s.unicode_len();
    let mut r: Vec<char> = Vec::new();
    let mut i: usize = 0;
    proof {
        assert(s@.subrange(0, 0) =~= Seq::<char>::empty());
    }
    while i < n
        invariant
            n == s@.len(),
            i <= n,
            r@ == lower_of(s@.subrange(0, i as int)),
        decreases n - i,
    {
        let c = s.get_char(i);
        let mut piece = lower_char(c);
        r.append(&mut piece);
        i = i + 1;
        proof {
            let pre = s@.subrange(0, i - 1 as int);
            assert(s@.subrange(0, i as int) =~= pre + seq![c]);
            lemma_lower_of_concat(pre, seq![c]);
            lemma_lower_of_single(c);
        }
    }
    proof {
        assert(s@.subrange(0, n as int) =~= s@);
    }
    r
}

/// If `needle` occurs in `hay`, its lowercase form occurs in the lowercase
/// form of `hay`: lowering is character-by-character, so a lowered
/// occurrence sits where the original one was lowered in place.
pub proof fn lemma_contains_lower(hay: Seq<char>, needle: Seq<char>)
    requires
        crate::text::contains_seq(hay, needle),
    ensures
        crate::text::contains_seq(lower_of(hay), lower_of(needle)),
{
    let i = choose|i: int| crate::text::contains_at(hay, needle, i);
    let pre = hay.subrange(0, i);
    let post = hay.subrange(i + needle.len() as int, hay.len() as int);
    assert(hay =~= (pre + needle) + post);
    lemma_lower_of_concat(pre + needle, post);
    lemma_lower_of_concat(pre, needle);
    let j = lower_of(pre).len() as int;
    assert(lower_of(hay).subrange(j, j + lower_of(needle).len() as int) =~= lower_of(needle));
    assert(crate::text::contains_at(lower_of(hay), lower_of(needle), j));
}

} // verus!
