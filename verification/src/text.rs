//! Character-level utilities shared by the header parser: whitespace
//! trimming, searching for a separator, splitting into pieces or lines,
//! and joining lines back into one body string.

use vstd::prelude::*;
use vstd::string::StrSliceExecFns;

verus! {

/// The ASCII whitespace characters recognized when trimming.
pub open spec fn is_space(c: char) -> bool {
    c == ' ' || c == '\t' || c == '\r' || c == '\n'
}

/// Executable test for [`is_space`].
#[verifier::when_used_as_spec(is_space)]
pub fn is_space_char(c: char) -> (r: bool)
    ensures
        r == is_space(c),
{
    c == ' ' || c == '\t' || c == '\r' || c == '\n'
}

/// `s` with leading whitespace removed.
pub open spec fn trim_start_spec(s: Seq<char>) -> Seq<char>
    decreases s.len(),
{
    if s.len() > 0 && is_space(s[0]) {
        trim_start_spec(s.drop_first())
    } else {
        s
    }
}

/// `s` with trailing whitespace removed.
pub open spec fn trim_end_spec(s: Seq<char>) -> Seq<char>
    decreases s.len(),
{
    if s.len() > 0 && is_space(s[s.len() - 1]) {
        trim_end_spec(s.drop_last())
    } else {
        s
    }
}

/// `s` with surrounding whitespace removed.
pub open spec fn trim_spec(s: Seq<char>) -> Seq<char> {
    trim_end_spec(trim_start_spec(s))
}

/// The least index of `c` in `s`, or `s.len()` when `c` does not occur.
pub open spec fn find_ch(s: Seq<char>, c: char) -> nat
    decreases s.len(),
{
    if s.len() == 0 {
        0
    } else if s[0] == c {
        0
    } else {
        1 + find_ch(s.drop_first(), c)
    }
}

/// Characterization of [`find_ch`]: it is the least index holding `c`.
pub proof fn lemma_find_ch(s: Seq<char>, c: char)
    ensures
        find_ch(s, c) <= s.len(),
        forall|j: int| 0 <= j < find_ch(s, c) ==> s[j] != c,
        find_ch(s, c) < s.len() ==> s[find_ch(s, c) as int] == c,
    decreases s.len(),
{
    if s.len() > 0 && s[0] != c {
        lemma_find_ch(s.drop_first(), c);
        assert(forall|j: int| 0 <= j < find_ch(s.drop_first(), c) ==> s.drop_first()[j] != c);
        assert(forall|j: int| 1 <= j < find_ch(s, c) ==> s[j] == s.drop_first()[j - 1]);
    }
}

/// Whether `c` occurs in `s`.
pub open spec fn contains_ch(s: Seq<char>, c: char) -> bool {
    find_ch(s, c) < s.len()
}

/// Whether two string slices hold the same characters.
pub fn str_eq(a: &str, b: &str) -> (r: bool)
    ensures
        r == (a@ == b@),
{
    let na = a.unicode_len();
    let nb = b.unicode_len();
    if na != nb {
        assert(a@ != b@);
        return false;
    }
    let mut i: usize = 0;
    while i < na
        invariant
            i <= na,
            na == a@.len(),
            na == b@.len(),
            forall|j: int| 0 <= j < i ==> a@[j] == b@[j],
        decreases na - i,
    {
        if a.get_char(i) != b.get_char(i) {
            assert(a@ != b@);
            return false;
        }
        i += 1;
    }
    proof {
        assert(a@ =~= b@);
    }
    true
}

/// The least index of `c` in `s`, or the length of `s` when absent.
pub fn find_char(s: &str, c: char) -> (r: usize)
    ensures
        r as nat == find_ch(s@, c),
{
    let n = s.unicode_len();
    let mut i: usize = 0;
    while i < n
        invariant
            i <= n,
            n == s@.len(),
            forall|j: int| 0 <= j < i ==> s@[j] != c,
        decreases n - i,
    {
        if s.get_char(i) == c {
            proof {
                lemma_find_ch(s@, c);
            }
            return i;
        }
        i += 1;
    }
    proof {
        lemma_find_ch(s@, c);
    }
    n
}

/// `s` with surrounding whitespace removed, as a fresh string.
pub fn trim(s: &str) -> (r: String)
    ensures
        r@ == trim_spec(s@),
{
    let n = s.unicode_len();
    proof {
        assert(s@.subrange(0, n as int) =~= s@);
    }
    let mut a: usize = 0;
    while a < n && is_space_char(s.get_char(a))
        invariant
            a <= n,
            n == s@.len(),
            trim_start_spec(s@) == trim_start_spec(s@.subrange(a as int, n as int)),
        decreases n - a,
    {
        proof {
            let t = s@.subrange(a as int, n as int);
            assert(t.drop_first() =~= s@.subrange(a as int + 1, n as int));
        }
        a += 1;
    }
    proof {
        let t = s@.subrange(a as int, n as int);
        if a < n {
            assert(!is_space(t[0]));
        }
        assert(trim_start_spec(s@) == t);
    }
    let mut b: usize = n;
    while b > a && is_space_char(s.get_char(b - 1))
        invariant
            a <= b <= n,
            n == s@.len(),
            trim_start_spec(s@) == s@.subrange(a as int, n as int),
            trim_end_spec(s@.subrange(a as int, n as int)) == trim_end_spec(
                s@.subrange(a as int, b as int),
            ),
        decreases b,
    {
        proof {
            let t = s@.subrange(a as int, b as int);
            assert(t.len() > 0 && is_space(t[t.len() - 1]));
            assert(t.drop_last() =~= s@.subrange(a as int, b as int - 1));
        }
        b -= 1;
    }
    proof {
        let t = s@.subrange(a as int, b as int);
        if b > a {
            assert(!is_space(t[t.len() - 1]));
        }
        assert(trim_spec(s@) == t);
    }
    let piece = s.substring_char(a, b);
    piece.to_owned()
}

/// [`find_ch`] is pinned down by its characterization: an index whose
/// prefix is free of `c`, and which either holds `c` or is the length.
pub proof fn lemma_find_ch_is(s: Seq<char>, c: char, i: int)
    requires
        0 <= i <= s.len(),
        forall|j: int| 0 <= j < i ==> s[j] != c,
        i < s.len() ==> s[i] == c,
    ensures
        find_ch(s, c) == i,
{
    lemma_find_ch(s, c);
}

/// The pieces of `s` between occurrences of the separator `c`, in order.
/// A string without `c` yields one piece (possibly empty).
pub open spec fn split_ch(s: Seq<char>, c: char) -> Seq<Seq<char>>
    decreases s.len(),
{
    let i = find_ch(s, c);
    if i >= s.len() {
        seq![s]
    } else {
        seq![s.subrange(0, i as int)] + split_ch(s.subrange(i as int + 1, s.len() as int), c)
    }
}

/// Split `s` at every occurrence of `c`, keeping empty pieces.
pub fn split_by_char(s: &str, c: char) -> (r: Vec<String>)
    ensures
        r.deep_view() == split_ch(s@, c),
{
    let n = s.unicode_len();
    let mut r: Vec<String> = Vec::new();
    let mut start: usize = 0;
    let mut i: usize = 0;
    proof {
        assert(r.deep_view() =~= Seq::<Seq<char>>::empty());
        assert(s@.subrange(0, n as int) =~= s@);
    }
    while i < n
        invariant
            start <= i <= n,
            n == s@.len(),
            forall|j: int| start <= j < i ==> s@[j] != c,
            split_ch(s@, c) == r.deep_view() + split_ch(s@.subrange(start as int, n as int), c),
        decreases n - i,
    {
        if s.get_char(i) == c {
            let piece = s.substring_char(start, i).to_owned();
            let ghost prev = r.deep_view();
            let ghost sub = s@.subrange(start as int, n as int);
            r.push(piece);
            proof {
                lemma_find_ch_is(sub, c, i - start);
                assert(sub.subrange(0, i - start) =~= s@.subrange(start as int, i as int));
                assert(sub.subrange(i - start + 1, sub.len() as int) =~= s@.subrange(
                    i as int + 1,
                    n as int,
                ));
                assert(r.deep_view() =~= prev.push(piece@));
                assert(prev + split_ch(sub, c) =~= r.deep_view() + split_ch(
                    s@.subrange(i as int + 1, n as int),
                    c,
                ));
            }
            start = i + 1;
        }
        i += 1;
    }
    let piece = s.substring_char(start, n).to_owned();
    let ghost prev = r.deep_view();
    let ghost sub = s@.subrange(start as int, n as int);
    r.push(piece);
    proof {
        lemma_find_ch_is(sub, c, n - start);
        assert(r.deep_view() =~= prev.push(piece@));
        assert(prev + split_ch(sub, c) =~= r.deep_view());
    }
    r
}

/// `s` with one trailing carriage return removed, if it has one.
pub open spec fn strip_cr(s: Seq<char>) -> Seq<char> {
    if s.len() > 0 && s[s.len() - 1] == '\r' {
        s.drop_last()
    } else {
        s
    }
}

/// The lines of `s`: pieces between `'\n'` characters, each with a
/// trailing `'\r'` removed, and without a final empty piece when `s`
/// ends in a newline.
pub open spec fn lines_spec(s: Seq<char>) -> Seq<Seq<char>> {
    if s.len() == 0 {
        Seq::empty()
    } else {
        let core = if s[s.len() - 1] == '\n' {
            s.drop_last()
        } else {
            s
        };
        split_ch(core, '\n').map_values(|t: Seq<char>| strip_cr(t))
    }
}

/// Split a content file into its lines, per [`lines_spec`].
pub fn split_lines(s: &str) -> (r: Vec<String>)
    ensures
        r.deep_view() == lines_spec(s@),
{
    let n = s.unicode_len();
    if n == 0 {
        let r: Vec<String> = Vec::new();
        proof {
            assert(r.deep_view() =~= Seq::<Seq<char>>::empty());
        }
        return r;
    }
    let core: &str = if s.get_char(n - 1) == '\n' {
        let t = s.substring_char(0, n - 1);
        proof {
            assert(t@ =~= s@.drop_last());
        }
        t
    } else {
        s
    };
    let pieces = split_by_char(core, '\n');
    let ghost pv = pieces.deep_view();
    let mut r: Vec<String> = Vec::new();
    let mut k: usize = 0;
    proof {
        assert(r.deep_view() =~= Seq::new(0, |j: int| strip_cr(pv[j])));
    }
    while k < pieces.len()
        invariant
            k <= pieces@.len(),
            pv == pieces.deep_view(),
            pv.len() == pieces@.len(),
            r.deep_view() == Seq::new(k as nat, |j: int| strip_cr(pv[j])),
        decreases pieces@.len() - k,
    {
        let p: &String = &pieces[k];
        let pl = p.as_str().unicode_len();
        let piece: String = if pl > 0 && p.as_str().get_char(pl - 1) == '\r' {
            let t = p.as_str().substring_char(0, pl - 1).to_owned();
            proof {
                assert(t@ =~= strip_cr(pv[k as int]));
            }
            t
        } else {
            let t = p.clone();
            proof {
                assert(t@ =~= strip_cr(pv[k as int]));
            }
            t
        };
        let ghost prev = r.deep_view();
        r.push(piece);
        proof {
            assert(r.deep_view() =~= prev.push(piece@));
            assert(r.deep_view() =~= Seq::new((k + 1) as nat, |j: int| strip_cr(pv[j])));
        }
        k += 1;
    }
    proof {
        assert(pv.map_values(|t: Seq<char>| strip_cr(t)) =~= Seq::new(
            pv.len(),
            |j: int| strip_cr(pv[j]),
        ));
    }
    r
}

/// The lines joined with single `'\n'` separators.
pub open spec fn join_nl(ls: Seq<Seq<char>>) -> Seq<char>
    decreases ls.len(),
{
    if ls.len() == 0 {
        Seq::empty()
    } else if ls.len() == 1 {
        ls[0]
    } else {
        join_nl(ls.drop_last()) + seq!['\n'] + ls.last()
    }
}

/// Relies on `String::push`: appends exactly one character.
#[verifier::external_body]
pub(crate) fn push_char(s: &mut String, c: char)
    ensures
        final(s)@ == old(s)@.push(c),
{
    s.push(c);
}

/// Join `lines[start..]` with `'\n'` separators.
pub fn join_lines(lines: &Vec<String>, start: usize) -> (r: String)
    requires
        start <= lines@.len(),
    ensures
        r@ == join_nl(lines.deep_view().subrange(start as int, lines@.len() as int)),
{
    let ghost lv = lines.deep_view();
    let mut r = String::new();
    let mut k: usize = start;
    proof {
        assert(r@ =~= join_nl(lv.subrange(start as int, start as int)));
    }
    while k < lines.len()
        invariant
            start <= k <= lines@.len(),
            lv == lines.deep_view(),
            lv.len() == lines@.len(),
            r@ == join_nl(lv.subrange(start as int, k as int)),
        decreases lines@.len() - k,
    {
        if k > start {
            push_char(&mut r, '\n');
        }
        r.append(lines[k].as_str());
        proof {
            let upto = lv.subrange(start as int, k as int + 1);
            assert(upto.drop_last() =~= lv.subrange(start as int, k as int));
            assert(upto.last() == lv[k as int]);
            if k == start {
                assert(r@ =~= upto[0]);
            } else {
                assert(r@ =~= join_nl(upto.drop_last()) + seq!['\n'] + upto.last());
            }
        }
        k += 1;
    }
    r
}

} // verus!
