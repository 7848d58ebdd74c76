//! Character-level model of text: splitting into lines, splitting into
//! newline-terminated chunks, and literal substring containment.

use vstd::prelude::*;

verus! {

/// Index of the first newline in `s`, or `s.len()` if there is none.
pub open spec fn first_nl(s: Seq<char>) -> nat
    decreases s.len(),
{
    if s.len() == 0 {
        0
    } else if s[0] == '\n' {
        0
    } else {
        1 + first_nl(s.drop_first())
    }
}

/// `first_nl` points at the first newline: nothing before it is a newline,
/// and it is a newline unless it is the end of the sequence.
pub proof fn lemma_first_nl(s: Seq<char>)
    ensures
        first_nl(s) <= s.len(),
        forall|k: int| 0 <= k < first_nl(s) ==> s[k] != '\n',
        first_nl(s) < s.len() ==> s[first_nl(s) as int] == '\n',
    decreases s.len(),
{
    if s.len() == 0 {
    } else if s[0] == '\n' {
    } else {
        lemma_first_nl(s.drop_first());
        assert forall|k: int| 0 <= k < first_nl(s) implies s[k] != '\n' by {
            if k > 0 {
                assert(s.drop_first()[k - 1] == s[k]);
            }
        }
        if first_nl(s) < s.len() {
            assert(s.drop_first()[first_nl(s.drop_first()) as int]
                == s[first_nl(s) as int]);
        }
    }
}

/// A position that is preceded by no newline and holds one (or is the end)
/// is exactly `first_nl`.
pub proof fn lemma_first_nl_is(s: Seq<char>, m: int)
    requires
        0 <= m <= s.len(),
        forall|k: int| 0 <= k < m ==> s[k] != '\n',
        m < s.len() ==> s[m] == '\n',
    ensures
        first_nl(s) == m,
    decreases s.len(),
{
    if s.len() == 0 {
    } else if s[0] == '\n' {
        assert(m == 0);
    } else {
        assert(m >= 1);
        assert forall|k: int| 0 <= k < m - 1 implies s.drop_first()[k] != '\n' by {
            assert(s.drop_first()[k] == s[k + 1]);
        }
        if m - 1 < s.drop_first().len() {
            assert(s.drop_first()[m - 1] == s[m]);
        }
        lemma_first_nl_is(s.drop_first(), m - 1);
    }
}

/// Drop one trailing carriage return, as standard line splitting does for
/// lines that end in `\r\n`.
pub open spec fn strip_cr(l: Seq<char>) -> Seq<char> {
    if l.len() > 0 && l[l.len() - 1] == '\r' {
        l.drop_last()
    } else {
        l
    }
}

/// The lines of `s`: split at `\n`, terminators removed, one `\r` dropped
/// before each `\n`, and no empty line after a final terminator.
pub open spec fn lines_of(s: Seq<char>) -> Seq<Seq<char>>
    decreases s.len(),
{
    if s.len() == 0 {
        Seq::empty()
    } else {
        let i = first_nl(s) as int;
        if i >= s.len() {
            seq![s]
        } else {
            seq![strip_cr(s.subrange(0, i))] + lines_of(s.subrange(i + 1, s.len() as int))
        }
    }
}

/// The chunks of `s` as an incremental line read yields them: each chunk
/// keeps its trailing `\n`; only the last can lack one. Empty input has no
/// chunks.
pub open spec fn chunks_of(s: Seq<char>) -> Seq<Seq<char>>
    decreases s.len(),
{
    if s.len() == 0 {
        Seq::empty()
    } else {
        let i = first_nl(s) as int;
        if i >= s.len() {
            seq![s]
        } else {
            seq![s.subrange(0, i + 1)] + chunks_of(s.subrange(i + 1, s.len() as int))
        }
    }
}

/// Filtering the empty sequence leaves it empty.
pub proof fn lemma_filter_empty<A>(pred: spec_fn(A) -> bool)
    ensures
        Seq::<A>::empty().filter(pred) == Seq::<A>::empty(),
{
    reveal(Seq::filter);
}

/// Filtering after a push keeps the pushed element exactly when it
/// satisfies the predicate.
pub proof fn lemma_filter_push<A>(s: Seq<A>, pred: spec_fn(A) -> bool, x: A)
    ensures
        s.push(x).filter(pred) == if pred(x) {
            s.filter(pred).push(x)
        } else {
            s.filter(pred)
        },
{
    reveal(Seq::filter);
    assert(s.push(x).drop_last() =~= s);
    assert(s.push(x).last() == x);
}

/// Every element a filter keeps comes from the filtered sequence.
pub proof fn lemma_filter_elements_in<A>(s: Seq<A>, pred: spec_fn(A) -> bool)
    ensures
        forall|i: int|
            0 <= i < s.filter(pred).len() ==> s.contains(#[trigger] s.filter(pred)[i]),
    decreases s.len(),
{
    reveal(Seq::filter);
    if s.len() == 0 {
    } else {
        lemma_filter_elements_in(s.drop_last(), pred);
        assert forall|i: int|
            0 <= i < s.filter(pred).len() implies s.contains(#[trigger] s.filter(pred)[i]) by {
            let d = s.drop_last().filter(pred);
            if i < d.len() {
                assert(s.filter(pred)[i] == d[i]);
                assert(s.drop_last().contains(d[i]));
                let j = choose|j: int|
                    0 <= j < s.drop_last().len() && s.drop_last()[j] == d[i];
                assert(s[j] == s.drop_last()[j]);
            } else {
                assert(s.filter(pred)[i] == s.last());
                assert(s[s.len() - 1] == s.last());
            }
        }
    }
}

/// A predicate that implies another keeps no more elements than it.
pub proof fn lemma_filter_implies_count<A>(s: Seq<A>, p: spec_fn(A) -> bool, q: spec_fn(A) -> bool)
    requires
        forall|i: int| 0 <= i < s.len() && p(s[i]) ==> q(s[i]),
    ensures
        s.filter(p).len() <= s.filter(q).len(),
    decreases s.len(),
{
    reveal(Seq::filter);
    if s.len() == 0 {
    } else {
        assert forall|i: int|
            0 <= i < s.drop_last().len() && p(s.drop_last()[i]) implies q(s.drop_last()[i]) by {
            assert(s.drop_last()[i] == s[i]);
        }
        lemma_filter_implies_count(s.drop_last(), p, q);
        assert(s.last() == s[s.len() - 1]);
    }
}

/// `needle` occurs in `hay` starting at position `i`.
pub open spec fn contains_at(hay: Seq<char>, needle: Seq<char>, i: int) -> bool {
    &&& 0 <= i
    &&& i + needle.len() <= hay.len()
    &&& hay.subrange(i, i + needle.len() as int) == needle
}

/// Literal substring containment.
pub open spec fn contains_seq(hay: Seq<char>, needle: Seq<char>) -> bool {
    exists|i: int| contains_at(hay, needle, i)
}

/// The characters of `s`, as a vector.
pub fn chars_vec(s: &str) -> (r: Vec<char>)
    ensures
        r@ == s@,
{
    let n = s.unicode_len();
    let mut r: Vec<char> = Vec::new();
    let mut i: usize = 0;
    while i < n
        invariant
            n == s@.len(),
            i <= n,
            r@ == s@.subrange(0, i as int),
        decreases n - i,
    {
        let c = s.get_char(i);
        r.push(c);
        i = i + 1;
        proof {
            assert(s@.subrange(0, i as int)
                =~= s@.subrange(0, i - 1 as int).push(s@[i - 1 as int]));
        }
    }
    proof {
        assert(s@.subrange(0, n as int) =~= s@);
    }
    r
}

/// Position of the first newline at or after `from`, or the length of `s`
/// if there is none.
fn scan_to_nl(s: &str, from: usize) -> (j: usize)
    requires
        from <= s@.len(),
    ensures
        from <= j <= s@.len(),
        forall|k: int| from <= k < j ==> s@[k] != '\n',
        j < s@.len() ==> s@[j as int] == '\n',
        first_nl(s@.subrange(from as int, s@.len() as int)) == j - from,
{
    let n = s.unicode_len();
    let mut j: usize = from;
    while j < n && s.get_char(j) != '\n'
        invariant
            n == s@.len(),
            from <= j <= n,
            forall|k: int| from <= k < j ==> s@[k] != '\n',
        decreases n - j,
    {
        j = j + 1;
    }
    proof {
        let suffix = s@.subrange(from as int, s@.len() as int);
        assert forall|k: int| 0 <= k < j - from implies suffix[k] != '\n' by {
            assert(suffix[k] == s@[from + k]);
        }
        if j < n {
            assert(suffix[j - from] == s@[j as int]);
        }
        lemma_first_nl_is(suffix, j - from);
    }
    j
}

/// The lines of `content`, as slices of it, split as `lines_of` describes.
pub fn split_lines<'a>(content: &'a str) -> (r: Vec<&'a str>)
    ensures
        r@.map_values(|l: &'a str| l@) == lines_of(content@),
{
    let n = content.unicode_len();
    let mut r: Vec<&'a str> = Vec::new();
    let mut p: usize = 0;
    proof {
        assert(content@.subrange(0, n as int) =~= content@);
        assert(r@.map_values(|l: &'a str| l@) =~= Seq::<Seq<char>>::empty());
        assert(Seq::<Seq<char>>::empty() + lines_of(content@) =~= lines_of(content@));
    }
    while p < n
        invariant
            n == content@.len(),
            p <= n,
            lines_of(content@) == r@.map_values(|l: &'a str| l@) + lines_of(
                content@.subrange(p as int, n as int),
            ),
        decreases n - p,
    {
        let ghost suffix = content@.subrange(p as int, n as int);
        let ghost r0 = r@;
        let ghost f = |l: &'a str| l@;
        let j = scan_to_nl(content, p);
        if j == n {
            let line = content.substring_char(p, n);
            r.push(line);
            proof {
                assert(line@ =~= suffix);
                assert(lines_of(suffix) == seq![suffix]);
                assert(r@.map_values(f) =~= r0.map_values(f).push(suffix));
                assert(r0.map_values(f).push(suffix) =~= r0.map_values(f) + seq![suffix]);
                assert(content@.subrange(n as int, n as int) =~= Seq::<char>::empty());
                assert(lines_of(content@.subrange(n as int, n as int))
                    == Seq::<Seq<char>>::empty());
                assert(r@.map_values(f) + Seq::<Seq<char>>::empty() =~= r@.map_values(f));
            }
            p = n;
        } else {
            let end = if j > p && content.get_char(j - 1) == '\r' {
                j - 1
            } else {
                j
            };
            let line = content.substring_char(p, end);
            r.push(line);
            proof {
                let i = j - p;
                assert(suffix.subrange(0, i as int) =~= content@.subrange(p as int, j as int));
                if j > p && content@[j - 1] == '\r' {
                    assert(strip_cr(suffix.subrange(0, i as int))
                        =~= content@.subrange(p as int, j - 1));
                } else {
                    assert(strip_cr(suffix.subrange(0, i as int))
                        =~= content@.subrange(p as int, j as int));
                }
                assert(line@ == strip_cr(suffix.subrange(0, i as int)));
                assert(suffix.subrange(i + 1, suffix.len() as int)
                    =~= content@.subrange(j + 1, n as int));
                assert(lines_of(suffix) == seq![line@] + lines_of(
                    content@.subrange(j + 1, n as int),
                ));
                assert(r@.map_values(f) =~= r0.map_values(f).push(line@));
                assert(r0.map_values(f).push(line@) =~= r0.map_values(f) + seq![line@]);
                assert((r0.map_values(f) + seq![line@]) + lines_of(
                    content@.subrange(j + 1, n as int),
                ) =~= r0.map_values(f) + (seq![line@] + lines_of(
                    content@.subrange(j + 1, n as int),
                )));
            }
            p = j + 1;
        }
    }
    proof {
        assert(content@.subrange(p as int, n as int) =~= Seq::<char>::empty());
        assert(lines_of(content@.subrange(p as int, n as int)) == Seq::<Seq<char>>::empty());
        assert(r@.map_values(|l: &'a str| l@) + Seq::<Seq<char>>::empty()
            =~= r@.map_values(|l: &'a str| l@));
    }
    r
}

/// The chunks of `content`, as slices of it, split as `chunks_of` describes:
/// what a line-at-a-time read of the same text would yield, terminators kept.
pub fn split_chunks<'a>(content: &'a str) -> (r: Vec<&'a str>)
    ensures
        r@.map_values(|l: &'a str| l@) == chunks_of(content@),
{
    let n = content.unicode_len();
    let mut r: Vec<&'a str> = Vec::new();
    let mut p: usize = 0;
    proof {
        assert(content@.subrange(0, n as int) =~= content@);
        assert(r@.map_values(|l: &'a str| l@) =~= Seq::<Seq<char>>::empty());
        assert(Seq::<Seq<char>>::empty() + chunks_of(content@) =~= chunks_of(content@));
    }
    while p < n
        invariant
            n == content@.len(),
            p <= n,
            chunks_of(content@) == r@.map_values(|l: &'a str| l@) + chunks_of(
                content@.subrange(p as int, n as int),
            ),
        decreases n - p,
    {
        let ghost suffix = content@.subrange(p as int, n as int);
        let ghost r0 = r@;
        let ghost f = |l: &'a str| l@;
        let j = scan_to_nl(content, p);
        if j == n {
            let chunk = content.substring_char(p, n);
            r.push(chunk);
            proof {
                assert(chunk@ =~= suffix);
                assert(chunks_of(suffix) == seq![suffix]);
                assert(r@.map_values(f) =~= r0.map_values(f).push(suffix));
                assert(r0.map_values(f).push(suffix) =~= r0.map_values(f) + seq![suffix]);
                assert(content@.subrange(n as int, n as int) =~= Seq::<char>::empty());
                assert(chunks_of(content@.subrange(n as int, n as int))
                    == Seq::<Seq<char>>::empty());
                assert(r@.map_values(f) + Seq::<Seq<char>>::empty() =~= r@.map_values(f));
            }
            p = n;
        } else {
            let chunk = content.substring_char(p, j + 1);
            r.push(chunk);
            proof {
                let i = j - p;
                assert(chunk@ =~= suffix.subrange(0, i + 1));
                assert(suffix.subrange(i + 1, suffix.len() as int)
                    =~= content@.subrange(j + 1, n as int));
                assert(chunks_of(suffix) == seq![chunk@] + chunks_of(
                    content@.subrange(j + 1, n as int),
                ));
                assert(r@.map_values(f) =~= r0.map_values(f).push(chunk@));
                assert(r0.map_values(f).push(chunk@) =~= r0.map_values(f) + seq![chunk@]);
                assert((r0.map_values(f) + seq![chunk@]) + chunks_of(
                    content@.subrange(j + 1, n as int),
                ) =~= r0.map_values(f) + (seq![chunk@] + chunks_of(
                    content@.subrange(j + 1, n as int),
                )));
            }
            p = j + 1;
        }
    }
    proof {
        assert(content@.subrange(p as int, n as int) =~= Seq::<char>::empty());
        assert(chunks_of(content@.subrange(p as int, n as int)) == Seq::<Seq<char>>::empty());
        assert(r@.map_values(|l: &'a str| l@) + Seq::<Seq<char>>::empty()
            =~= r@.map_values(|l: &'a str| l@));
    }
    r
}

/// Whether `needle` occurs in `hay` as a contiguous run of characters.
pub fn contains_chars(hay: &Vec<char>, needle: &Vec<char>) -> (r: bool)
    ensures
        r == contains_seq(hay@, needle@),
{
    let hn = hay.len();
    let nn = needle.len();
    if nn > hn {
        proof {
            assert forall|i: int| !contains_at(hay@, needle@, i) by {}
        }
        return false;
    }
    if nn == 0 {
        proof {
            assert(hay@.subrange(0, 0) =~= needle@);
            assert(contains_at(hay@, needle@, 0));
        }
        return true;
    }
    let bound = hn - nn;
    let mut i: usize = 0;
    while i <= bound
        invariant
            hn == hay@.len(),
            nn == needle@.len(),
            1 <= nn <= hn,
            bound == hn - nn,
            i <= bound + 1,
            forall|k: int| 0 <= k < i ==> !contains_at(hay@, needle@, k),
        decreases bound + 1 - i,
    {
        let mut j: usize = 0;
        let mut mismatch = false;
        while j < nn
            invariant
                hn == hay@.len(),
                nn == needle@.len(),
                i + nn <= hn,
                j <= nn,
                !mismatch ==> forall|t: int| 0 <= t < j ==> hay@[i + t] == needle@[t],
                mismatch ==> !contains_at(hay@, needle@, i as int),
            decreases nn - j,
        {
            if hay[i + j] != needle[j] {
                proof {
                    if contains_at(hay@, needle@, i as int) {
                        assert(hay@.subrange(i as int, i + nn as int)[j as int]
                            == needle@[j as int]);
                    }
                }
                mismatch = true;
                j = nn;
            } else {
                j = j + 1;
            }
        }
        if !mismatch {
            proof {
                assert(hay@.subrange(i as int, i + nn as int) =~= needle@);
                assert(contains_at(hay@, needle@, i as int));
            }
            return true;
        }
        i = i + 1;
    }
    proof {
        assert forall|k: int| !contains_at(hay@, needle@, k) by {
            if 0 <= k < i {
            } else if k > bound {
                assert(k + needle@.len() > hay@.len());
            }
        }
    }
    false
}

} // verus!
