//! Character-level text operations used by every renderer in the crate.
//!
//! Strings are handled as sequences of `char`; each executable helper is
//! proved against the spec function that says what it computes.

use vstd::prelude::*;

verus! {

broadcast use vstd::string::group_string_axioms;

/// `String::push`: appends one character.
#[verifier::external_body]
fn string_push(s: &mut String, c: char)
    ensures
        final(s)@ == old(s)@.push(c),
{
    s.push(c);
}

// ---------------------------------------------------------------------------
// Conversions between `str` and `Vec<char>`
// ---------------------------------------------------------------------------

/// The characters of `s`, in order.
pub fn chars_of(s: &str) -> (v: Vec<char>)
    ensures
        v@ == s@,
{
    let mut v: Vec<char> = Vec::new();
    for c in it: s.chars()
        invariant
            v@ == it.seq().take(it.index()),
    {
        v.push(c);
    }
    v
}

/// A `String` holding exactly the characters `v`.
pub fn string_of(v: &Vec<char>) -> (s: String)
    ensures
        s@ == v@,
{
    let mut s = String::new();
    let mut i: usize = 0;
    while i < v.len()
        invariant
            i <= v.len(),
            s@ == v@.take(i as int),
        decreases v.len() - i,
    {
        string_push(&mut s, v[i]);
        assert(v@.take(i as int).push(v@[i as int]) =~= v@.take(i + 1));
        i = i + 1;
    }
    assert(v@.take(v.len() as int) =~= v@);
    s
}


/// Appends every character of `src` to `out`.
pub fn push_all(out: &mut Vec<char>, src: &Vec<char>)
    ensures
        final(out)@ == old(out)@ + src@,
{
    let mut i: usize = 0;
    while i < src.len()
        invariant
            i <= src.len(),
            out@ == old(out)@ + src@.take(i as int),
        decreases src.len() - i,
    {
        out.push(src[i]);
        assert(old(out)@ + src@.take(i + 1) =~= old(out)@ + src@.take(i as int) + seq![src@[i as int]]);
        i = i + 1;
    }
    assert(src@.take(src.len() as int) =~= src@);
}

// ---------------------------------------------------------------------------
// Prefixes, search and replacement
// ---------------------------------------------------------------------------

/// `p` is a prefix of `s`.
pub open spec fn is_prefix(p: Seq<char>, s: Seq<char>) -> bool {
    p.len() <= s.len() && s.subrange(0, p.len() as int) == p
}

/// Index of the first occurrence of `p` in `s`, as `str::find` reports it
/// (counted in characters).
pub open spec fn find(s: Seq<char>, p: Seq<char>) -> Option<int>
    decreases s.len(),
{
    if is_prefix(p, s) {
        Some(0)
    } else if s.len() == 0 {
        None
    } else {
        match find(s.drop_first(), p) {
            Some(i) => Some(i + 1),
            None => None,
        }
    }
}

/// Every non-overlapping occurrence of the non-empty pattern `pat` in `s`,
/// scanned left to right, replaced by `rep` (what `str::replace` does).
pub open spec fn replace_all(s: Seq<char>, pat: Seq<char>, rep: Seq<char>) -> Seq<char>
    decreases s.len(),
{
    if s.len() == 0 {
        s
    } else if pat.len() > 0 && is_prefix(pat, s) {
        rep + replace_all(s.skip(pat.len() as int), pat, rep)
    } else {
        seq![s[0]] + replace_all(s.drop_first(), pat, rep)
    }
}

/// Whether `p` occurs in `s` starting at index `i`.
pub fn occurs_at(s: &Vec<char>, i: usize, p: &Vec<char>) -> (r: bool)
    requires
        i <= s.len(),
    ensures
        r == is_prefix(p@, s@.skip(i as int)),
{
    if p.len() > s.len() - i {
        return false;
    }
    let mut k: usize = 0;
    while k < p.len()
        invariant
            k <= p.len(),
            p.len() <= s.len() - i,
            forall|j: int| 0 <= j < k ==> s@[i + j] == p@[j],
        decreases p.len() - k,
    {
        if s[i + k] != p[k] {
            assert(s@.skip(i as int).subrange(0, p.len() as int)[k as int] != p@[k as int]);
            return false;
        }
        k = k + 1;
    }
    assert(s@.skip(i as int).subrange(0, p.len() as int) =~= p@);
    true
}

/// First index at or after `from` where `p` occurs in `s`.
pub fn find_from(s: &Vec<char>, from: usize, p: &Vec<char>) -> (r: Option<usize>)
    requires
        from <= s.len(),
    ensures
        r matches Some(i) ==> from + find(s@.skip(from as int), p@).unwrap() == i,
        r is Some <==> find(s@.skip(from as int), p@) is Some,
    decreases s.len() - from,
{
    if occurs_at(s, from, p) {
        Some(from)
    } else if from == s.len() {
        None
    } else {
        assert(s@.skip(from as int).drop_first() =~= s@.skip(from + 1));
        find_from(s, from + 1, p)
    }
}

/// `str::find`: index of the first occurrence of `p` in `s`.
pub fn find_first(s: &Vec<char>, p: &Vec<char>) -> (r: Option<usize>)
    ensures
        r matches Some(i) ==> find(s@, p@) == Some(i as int),
        r is None <==> find(s@, p@) is None,
{
    assert(s@.skip(0) =~= s@);
    find_from(s, 0, p)
}

/// A found index lies where the whole pattern fits.
pub proof fn lemma_find_bounds(s: Seq<char>, p: Seq<char>)
    ensures
        find(s, p) matches Some(i) ==> 0 <= i && i + p.len() <= s.len() && s.subrange(i, i + p.len()) == p,
    decreases s.len(),
{
    if !is_prefix(p, s) && s.len() > 0 {
        lemma_find_bounds(s.drop_first(), p);
        if let Some(i) = find(s.drop_first(), p) {
            assert(s.subrange(i + 1, i + 1 + p.len()) =~= s.drop_first().subrange(i, i + p.len()));
        }
    }
}

/// `p` occurs somewhere in `s`.
pub open spec fn occurs_in(p: Seq<char>, s: Seq<char>) -> bool {
    exists|i: int| 0 <= i && i + p.len() <= s.len() && #[trigger] s.subrange(i, i + p.len()) == p
}

/// Every text occurs in itself.
pub proof fn lemma_occurs_in_self(p: Seq<char>)
    ensures
        occurs_in(p, p),
{
    assert(p.subrange(0, 0 + p.len() as int) =~= p);
}

/// The pieces of `ps`, one after the other.
pub open spec fn concat(ps: Seq<Seq<char>>) -> Seq<char>
    decreases ps.len(),
{
    if ps.len() == 0 {
        Seq::empty()
    } else {
        ps[0] + concat(ps.drop_first())
    }
}

/// `concat` taken apart at the piece `k`.
pub proof fn lemma_concat_skip(ps: Seq<Seq<char>>, k: int)
    requires
        0 <= k < ps.len(),
    ensures
        concat(ps.skip(k)) == ps[k] + concat(ps.skip(k + 1)),
{
    assert(ps.skip(k).drop_first() =~= ps.skip(k + 1));
    assert(ps.skip(k)[0] == ps[k]);
}

/// No occurrence of `pat` can start in `p`, whatever follows it: every
/// character of `p` that could open `pat` is followed, inside `p`, by one
/// that cannot come second in it.
pub open spec fn no_start_of(pat: Seq<char>, p: Seq<char>) -> bool {
    forall|i: int| 0 <= i < p.len() && #[trigger] p[i] == pat[0] ==> i + 1 < p.len() && p[i + 1] != pat[1]
}

/// The piece `k` of `ps` holds no occurrence of `pat`, not even one running
/// on into the next piece.
pub open spec fn piece_kept(ps: Seq<Seq<char>>, k: int, pat: Seq<char>) -> bool {
    ||| no_start_of(pat, ps[k])
    ||| (!occurs_in(pat, ps[k]) && k + 1 < ps.len() && ps[k + 1].len() > 0 && !pat.contains(ps[k + 1][0]))
}

/// Replacement passes over a front part in which no occurrence starts.
pub proof fn lemma_replace_free_prefix(a: Seq<char>, b: Seq<char>, pat: Seq<char>, rep: Seq<char>)
    requires
        pat.len() > 0,
        forall|i: int| 0 <= i < a.len() ==> !is_prefix(pat, #[trigger] (a + b).skip(i)),
    ensures
        replace_all(a + b, pat, rep) == a + replace_all(b, pat, rep),
    decreases a.len(),
{
    if a.len() == 0 {
        assert(a + b =~= b);
    } else {
        let s = a + b;
        assert(s.skip(0) =~= s);
        let a2 = a.drop_first();
        assert(s.drop_first() =~= a2 + b);
        assert forall|i: int| 0 <= i < a2.len() implies !is_prefix(pat, #[trigger] (a2 + b).skip(i)) by {
            assert((a2 + b).skip(i) =~= s.skip(i + 1));
        }
        lemma_replace_free_prefix(a2, b, pat, rep);
        assert(replace_all(s, pat, rep) == seq![s[0]] + replace_all(s.drop_first(), pat, rep));
        assert(seq![s[0]] + (a2 + replace_all(b, pat, rep)) =~= a + replace_all(b, pat, rep));
    }
}

/// Replacing `pat` in pieces each of which is `pat` itself or holds no
/// occurrence of it replaces exactly the pieces that are `pat`: the result
/// is the pieces `qs`, which are `rep` where `ps` has `pat` and the same
/// piece elsewhere.
pub proof fn lemma_replace_pieces(ps: Seq<Seq<char>>, qs: Seq<Seq<char>>, pat: Seq<char>, rep: Seq<char>)
    requires
        pat.len() >= 2,
        qs.len() == ps.len(),
        forall|k: int| 0 <= k < ps.len() ==> #[trigger] ps[k] == pat || piece_kept(ps, k, pat),
        forall|k: int| 0 <= k < ps.len() ==> (#[trigger] qs[k]) == (if ps[k] == pat { rep } else { ps[k] }),
    ensures
        replace_all(concat(ps), pat, rep) == concat(qs),
    decreases ps.len(),
{
    if ps.len() > 0 {
        let p = ps[0];
        let rest = ps.drop_first();
        let qrest = qs.drop_first();
        let x = concat(rest);
        assert forall|k: int| 0 <= k < rest.len() implies #[trigger] rest[k] == pat || piece_kept(rest, k, pat) by {
            assert(rest[k] == ps[k + 1]);
            assert(ps[k + 1] == pat || piece_kept(ps, k + 1, pat));
            if k + 1 < rest.len() {
                assert(rest[k + 1] == ps[k + 2]);
            }
        }
        assert forall|k: int| 0 <= k < rest.len() implies (#[trigger] qrest[k]) == (if rest[k] == pat { rep } else { rest[k] }) by {
            assert(qrest[k] == qs[k + 1]);
            assert(rest[k] == ps[k + 1]);
        }
        lemma_replace_pieces(rest, qrest, pat, rep);
        let s = p + x;
        assert(concat(ps) == s);
        assert(concat(qs) == qs[0] + concat(qrest));
        assert(qs[0] == if p == pat { rep } else { p });
        if p == pat {
            assert(s.subrange(0, pat.len() as int) =~= pat);
            assert(s.skip(pat.len() as int) =~= x);
            assert(replace_all(s, pat, rep) == rep + replace_all(x, pat, rep));
        } else {
            assert(piece_kept(ps, 0, pat));
            assert forall|i: int| 0 <= i < p.len() implies !is_prefix(pat, #[trigger] (p + x).skip(i)) by {
                if is_prefix(pat, s.skip(i)) {
                    assert(s.skip(i)[0] == pat[0]);
                    assert(s[i] == p[i]);
                    if no_start_of(pat, p) {
                        assert(s.skip(i)[1] == pat[1]);
                        assert(s[i + 1] == p[i + 1]);
                    } else if i + pat.len() <= p.len() {
                        assert(p.subrange(i, i + pat.len()) =~= s.skip(i).subrange(0, pat.len() as int));
                    } else {
                        let j = p.len() - i;
                        assert(x == ps[1] + concat(rest.drop_first()));
                        assert(s[p.len() as int] == ps[1][0]);
                        assert(s.skip(i)[j] == pat[j]);
                        assert(pat.contains(ps[1][0]));
                    }
                }
            }
            lemma_replace_free_prefix(p, x, pat, rep);
        }
    }
}

/// `str::replace` with a non-empty pattern.
pub fn replace(s: &Vec<char>, pat: &Vec<char>, rep: &Vec<char>) -> (r: Vec<char>)
    requires
        pat.len() > 0,
    ensures
        r@ == replace_all(s@, pat@, rep@),
{
    let mut out: Vec<char> = Vec::new();
    let mut i: usize = 0;
    assert(s@.skip(0) =~= s@);
    while i < s.len()
        invariant
            i <= s.len(),
            pat.len() > 0,
            replace_all(s@, pat@, rep@) == out@ + replace_all(s@.skip(i as int), pat@, rep@),
        decreases s.len() - i,
    {
        let ghost rest = s@.skip(i as int);
        if occurs_at(s, i, pat) {
            push_all(&mut out, rep);
            assert(rest.skip(pat.len() as int) =~= s@.skip(i + pat.len()));
            i = i + pat.len();
        } else {
            out.push(s[i]);
            assert(rest.drop_first() =~= s@.skip(i + 1));
            assert(seq![rest[0]] =~= seq![s@[i as int]]);
            i = i + 1;
        }
    }
    assert(s@.skip(i as int).len() == 0);
    assert(out@ + replace_all(s@.skip(i as int), pat@, rep@) =~= out@);
    out
}


/// `s` with every character `c` replaced by `f(c)`.
pub open spec fn flat_map_chars(s: Seq<char>, f: spec_fn(char) -> Seq<char>) -> Seq<char>
    decreases s.len(),
{
    if s.len() == 0 {
        Seq::empty()
    } else {
        flat_map_chars(s.drop_last(), f) + f(s.last())
    }
}

/// Whether `a` and `b` hold the same characters.
pub fn chars_eq(a: &Vec<char>, b: &Vec<char>) -> (r: bool)
    ensures
        r == (a@ == b@),
{
    if a.len() != b.len() {
        return false;
    }
    let mut i: usize = 0;
    while i < a.len()
        invariant
            a.len() == b.len(),
            i <= a.len(),
            forall|j: int| 0 <= j < i ==> a@[j] == b@[j],
        decreases a.len() - i,
    {
        if a[i] != b[i] {
            return false;
        }
        i = i + 1;
    }
    assert(a@ =~= b@);
    true
}

/// Whether `a` and `b` hold the same characters.
pub fn str_eq(a: &str, b: &str) -> (r: bool)
    ensures
        r == (a@ == b@),
{
    chars_eq(&chars_of(a), &chars_of(b))
}

/// The pieces of `s` between occurrences of `c` (what `str::split(c)` yields).
pub open spec fn split_char(s: Seq<char>, c: char) -> Seq<Seq<char>>
    decreases s.len(),
{
    match find(s, seq![c]) {
        Some(i) if 0 <= i < s.len() => seq![s.take(i)] + split_char(s.skip(i + 1), c),
        _ => seq![s],
    }
}

/// `parts` joined with `sep` between consecutive parts (what `join` gives).
pub open spec fn join(parts: Seq<Seq<char>>, sep: Seq<char>) -> Seq<char>
    decreases parts.len(),
{
    if parts.len() == 0 {
        Seq::empty()
    } else if parts.len() == 1 {
        parts[0]
    } else {
        join(parts.drop_last(), sep) + sep + parts.last()
    }
}

/// The views of a vector of character vectors.
pub open spec fn views(v: Seq<Vec<char>>) -> Seq<Seq<char>> {
    v.map_values(|x: Vec<char>| x@)
}

proof fn lemma_find_char(t: Seq<char>, c: char, k: int)
    requires
        0 <= k <= t.len(),
        forall|j: int| 0 <= j < k ==> t[j] != c,
        k == t.len() || t[k] == c,
    ensures
        find(t, seq![c]) == (if k < t.len() { Some(k) } else { None::<int> }),
    decreases t.len(),
{
    if k > 0 {
        assert(!is_prefix(seq![c], t)) by {
            if is_prefix(seq![c], t) {
                assert(t.subrange(0, 1)[0] == c);
            }
        }
        lemma_find_char(t.drop_first(), c, k - 1);
    } else if t.len() > 0 {
        assert(t.subrange(0, 1) =~= seq![c]);
    }
}

/// `find` of a single character reports its first occurrence, and `None`
/// only where it does not occur.
pub(crate) proof fn lemma_find_char_first(t: Seq<char>, c: char)
    ensures
        find(t, seq![c]) matches Some(i) ==> 0 <= i < t.len() && t[i] == c && forall|j: int|
            0 <= j < i ==> t[j] != c,
        find(t, seq![c]) is None ==> forall|j: int| 0 <= j < t.len() ==> t[j] != c,
    decreases t.len(),
{
    if is_prefix(seq![c], t) {
        assert(t[0] == t.subrange(0, 1)[0]);
    } else if t.len() > 0 {
        assert(t[0] != c) by {
            if t[0] == c {
                assert(t.subrange(0, 1) =~= seq![c]);
            }
        }
        lemma_find_char_first(t.drop_first(), c);
        assert forall|j: int| 0 < j < t.len() implies t[j] == t.drop_first()[j - 1] by {}
    }
}

/// The pieces that `split_char` cuts hold no separator, and only characters
/// of the text.
pub(crate) proof fn lemma_split_chars(s: Seq<char>, c: char, p: spec_fn(char) -> bool)
    requires
        forall|k: int| 0 <= k < s.len() ==> p(#[trigger] s[k]),
    ensures
        forall|i: int, j: int|
            0 <= i < split_char(s, c).len() && 0 <= j < split_char(s, c)[i].len() ==> p(
                #[trigger] split_char(s, c)[i][j],
            ) && split_char(s, c)[i][j] != c,
    decreases s.len(),
{
    lemma_find_char_first(s, c);
    match find(s, seq![c]) {
        Some(i) if 0 <= i < s.len() => {
            let rest = s.skip(i + 1);
            lemma_split_chars(rest, c, p);
            let r = split_char(s, c);
            assert(r == seq![s.take(i)] + split_char(rest, c));
            assert forall|a: int, j: int| 0 <= a < r.len() && 0 <= j < r[a].len() implies p(
                #[trigger] r[a][j],
            ) && r[a][j] != c by {
                if a > 0 {
                    assert(r[a] == split_char(rest, c)[a - 1]);
                } else {
                    assert(r[a][j] == s[j]);
                }
            }
        },
        _ => {
            assert(split_char(s, c) == seq![s]);
        },
    }
}

/// `join` seen from the front: the first part, the separator, and the rest
/// joined.
pub(crate) proof fn lemma_join_front(parts: Seq<Seq<char>>, sep: Seq<char>)
    requires
        parts.len() >= 2,
    ensures
        join(parts, sep) == parts[0] + sep + join(parts.drop_first(), sep),
    decreases parts.len(),
{
    if parts.len() > 2 {
        let dl = parts.drop_last();
        let df = parts.drop_first();
        lemma_join_front(dl, sep);
        assert(dl.drop_first() =~= df.drop_last());
        assert(df.last() == parts.last());
        assert(dl[0] == parts[0]);
        assert(join(df, sep) == join(df.drop_last(), sep) + sep + df.last());
        assert(join(parts, sep) == join(dl, sep) + sep + parts.last());
        assert(join(parts, sep) =~= parts[0] + sep + join(df, sep));
    } else {
        let dl = parts.drop_last();
        let df = parts.drop_first();
        assert(dl.len() == 1);
        assert(df.len() == 1);
        assert(join(dl, sep) == parts[0]);
        assert(join(df, sep) == parts[1]);
    }
}

/// Splitting, at `c`, a text that continues into parts joined with `c`
/// followed by `s2` gives the parts back, each but the first behind `s2`,
/// as long as `c` occurs in none of them.
pub(crate) proof fn lemma_split_join(pre: Seq<char>, parts: Seq<Seq<char>>, s2: Seq<char>, c: char)
    requires
        parts.len() > 0,
        forall|j: int| 0 <= j < pre.len() ==> pre[j] != c,
        forall|j: int| 0 <= j < s2.len() ==> s2[j] != c,
        forall|i: int, j: int| 0 <= i < parts.len() && 0 <= j < parts[i].len() ==> #[trigger] parts[i][j] != c,
    ensures
        split_char(pre + join(parts, seq![c] + s2), c).len() == parts.len(),
        split_char(pre + join(parts, seq![c] + s2), c)[0] == pre + parts[0],
        forall|i: int|
            0 < i < parts.len() ==> #[trigger] split_char(pre + join(parts, seq![c] + s2), c)[i] == s2
                + parts[i],
    decreases parts.len(),
{
    let sep = seq![c] + s2;
    let whole = pre + join(parts, sep);
    let first = pre + parts[0];
    assert forall|j: int| 0 <= j < first.len() implies first[j] != c by {
        if j >= pre.len() {
            assert(first[j] == parts[0][j - pre.len()]);
        }
    }
    if parts.len() == 1 {
        assert(whole == first);
        lemma_find_char(first, c, first.len() as int);
    } else {
        lemma_join_front(parts, sep);
        let tail = s2 + join(parts.drop_first(), sep);
        assert(whole =~= first + seq![c] + tail);
        lemma_find_char(whole, c, first.len() as int);
        assert(whole.take(first.len() as int) =~= first);
        assert(whole.skip(first.len() as int + 1) =~= tail);
        let rest = parts.drop_first();
        assert forall|i: int, j: int| 0 <= i < rest.len() && 0 <= j < rest[i].len() implies #[trigger] rest[i][j]
            != c by {
            assert(rest[i] == parts[i + 1]);
        }
        lemma_split_join(s2, rest, s2, c);
        assert forall|i: int| 0 < i < parts.len() implies #[trigger] split_char(whole, c)[i] == s2 + parts[i] by {
            assert(split_char(whole, c)[i] == split_char(tail, c)[i - 1]);
            assert(rest[i - 1] == parts[i]);
        }
    }
}

/// Every character of a join comes from a part or from the separator.
pub(crate) proof fn lemma_join_chars(parts: Seq<Seq<char>>, sep: Seq<char>, p: spec_fn(char) -> bool)
    requires
        forall|j: int| 0 <= j < sep.len() ==> p(#[trigger] sep[j]),
        forall|i: int, j: int| 0 <= i < parts.len() && 0 <= j < parts[i].len() ==> p(#[trigger] parts[i][j]),
    ensures
        forall|k: int| 0 <= k < join(parts, sep).len() ==> p(#[trigger] join(parts, sep)[k]),
    decreases parts.len(),
{
    if parts.len() == 1 {
        assert forall|k: int| 0 <= k < join(parts, sep).len() implies p(#[trigger] join(parts, sep)[k]) by {
            assert(join(parts, sep)[k] == parts[0][k]);
        }
    } else if parts.len() > 1 {
        let init = parts.drop_last();
        assert forall|i: int, j: int| 0 <= i < init.len() && 0 <= j < init[i].len() implies p(#[trigger] init[i][j]) by {
            assert(init[i] == parts[i]);
        }
        lemma_join_chars(init, sep, p);
        let a = join(init, sep);
        let l = parts.last();
        assert forall|k: int| 0 <= k < join(parts, sep).len() implies p(#[trigger] join(parts, sep)[k]) by {
            let whole = join(parts, sep);
            assert(whole == a + sep + l);
            if k < a.len() {
                assert(whole[k] == a[k]);
            } else if k < a.len() + sep.len() {
                assert(whole[k] == sep[k - a.len()]);
            } else {
                assert(whole[k] == l[k - a.len() - sep.len()]);
                assert(l == parts[parts.len() - 1]);
            }
        }
    }
}

/// `str::split(c)` collected into pieces.
pub fn split_exec(s: &Vec<char>, c: char) -> (r: Vec<Vec<char>>)
    ensures
        views(r@) == split_char(s@, c),
{
    let mut parts: Vec<Vec<char>> = Vec::new();
    let mut start: usize = 0;
    let mut i: usize = 0;
    assert(s@.skip(0) =~= s@);
    while i < s.len()
        invariant
            start <= i <= s.len(),
            forall|j: int| start <= j < i ==> s@[j] != c,
            split_char(s@, c) == views(parts@) + split_char(s@.skip(start as int), c),
        decreases s.len() - i,
    {
        if s[i] == c {
            let piece = slice(s, start, i);
            proof {
                let t = s@.skip(start as int);
                lemma_find_char(t, c, i - start);
                assert(t.take(i - start) =~= piece@);
                assert(t.skip(i - start + 1) =~= s@.skip(i + 1));
                assert(views(parts@.push(piece)) =~= views(parts@) + seq![piece@]);
            }
            parts.push(piece);
            start = i + 1;
        }
        i = i + 1;
    }
    let piece = slice(s, start, s.len());
    proof {
        let t = s@.skip(start as int);
        lemma_find_char(t, c, t.len() as int);
        assert(t =~= piece@);
        assert(views(parts@.push(piece)) =~= views(parts@) + seq![piece@]);
    }
    parts.push(piece);
    parts
}

/// `parts.join(sep)`.
pub fn join_exec(parts: &Vec<Vec<char>>, sep: &Vec<char>) -> (r: Vec<char>)
    ensures
        r@ == join(views(parts@), sep@),
{
    let mut out: Vec<char> = Vec::new();
    let mut i: usize = 0;
    while i < parts.len()
        invariant
            i <= parts.len(),
            out@ == join(views(parts@).take(i as int), sep@),
        decreases parts.len() - i,
    {
        let ghost before = out@;
        if i > 0 {
            push_all(&mut out, sep);
        }
        push_all(&mut out, &parts[i]);
        proof {
            let t = views(parts@).take(i + 1);
            assert(t.drop_last() =~= views(parts@).take(i as int));
            if i == 0 {
                assert(t.len() == 1);
                assert(out@ =~= t[0]);
            } else {
                assert(out@ =~= before + sep@ + t.last());
            }
        }
        i = i + 1;
    }
    assert(views(parts@).take(parts.len() as int) =~= views(parts@));
    out
}

// ---------------------------------------------------------------------------
// Case and whitespace
// ---------------------------------------------------------------------------

/// `char::to_ascii_lowercase`.
pub open spec fn lower_char(c: char) -> char {
    if 'A' <= c && c <= 'Z' {
        ((c as u32) + 32) as char
    } else {
        c
    }
}

/// `str::to_ascii_lowercase`: ASCII letters lowered, everything else kept.
pub open spec fn ascii_lower(s: Seq<char>) -> Seq<char> {
    s.map_values(|c: char| lower_char(c))
}

/// `char::to_ascii_lowercase`.
pub fn lower_char_exec(c: char) -> (r: char)
    ensures
        r == lower_char(c),
{
    if 'A' <= c && c <= 'Z' {
        let b: u8 = (c as u8) + 32;
        b as char
    } else {
        c
    }
}

/// `str::to_ascii_lowercase`.
pub fn to_ascii_lower(s: &Vec<char>) -> (r: Vec<char>)
    ensures
        r@ == ascii_lower(s@),
{
    let mut r: Vec<char> = Vec::new();
    let mut i: usize = 0;
    while i < s.len()
        invariant
            i <= s.len(),
            r@ == ascii_lower(s@.take(i as int)),
        decreases s.len() - i,
    {
        r.push(lower_char_exec(s[i]));
        assert(ascii_lower(s@.take(i + 1)) =~= ascii_lower(s@.take(i as int)).push(lower_char(s@[i as int])));
        i = i + 1;
    }
    assert(s@.take(s.len() as int) =~= s@);
    r
}

/// `char::is_whitespace`: the Unicode `White_Space` property.
pub open spec fn is_whitespace(c: char) -> bool {
    ||| '\u{9}' <= c && c <= '\u{d}'
    ||| c == ' '
    ||| c == '\u{85}'
    ||| c == '\u{a0}'
    ||| c == '\u{1680}'
    ||| '\u{2000}' <= c && c <= '\u{200a}'
    ||| c == '\u{2028}'
    ||| c == '\u{2029}'
    ||| c == '\u{202f}'
    ||| c == '\u{205f}'
    ||| c == '\u{3000}'
}

/// `char::is_whitespace`.
pub fn is_whitespace_exec(c: char) -> (r: bool)
    ensures
        r == is_whitespace(c),
{
    ('\u{9}' <= c && c <= '\u{d}') || c == ' ' || c == '\u{85}' || c == '\u{a0}' || c == '\u{1680}'
        || ('\u{2000}' <= c && c <= '\u{200a}') || c == '\u{2028}' || c == '\u{2029}'
        || c == '\u{202f}' || c == '\u{205f}' || c == '\u{3000}'
}

/// Number of leading characters of `s` that satisfy `p`.
pub open spec fn leading_count(s: Seq<char>, p: spec_fn(char) -> bool) -> nat
    decreases s.len(),
{
    if s.len() > 0 && p(s[0]) {
        1 + leading_count(s.drop_first(), p)
    } else {
        0
    }
}

/// Number of trailing characters of `s` that satisfy `p`.
pub open spec fn trailing_count(s: Seq<char>, p: spec_fn(char) -> bool) -> nat
    decreases s.len(),
{
    if s.len() > 0 && p(s.last()) {
        1 + trailing_count(s.drop_last(), p)
    } else {
        0
    }
}

/// `str::trim_start`.
pub open spec fn trim_start(s: Seq<char>) -> Seq<char> {
    s.skip(leading_count(s, |c: char| is_whitespace(c)) as int)
}

/// `str::trim_end`.
pub open spec fn trim_end(s: Seq<char>) -> Seq<char> {
    s.take(s.len() - trailing_count(s, |c: char| is_whitespace(c)))
}

/// `str::trim`.
pub open spec fn trim(s: Seq<char>) -> Seq<char> {
    trim_end(trim_start(s))
}

/// The predicate "is the character `c`".
pub open spec fn equals_char(c: char) -> spec_fn(char) -> bool {
    |x: char| x == c
}

/// `str::trim_start_matches(c)` for a single character.
pub open spec fn trim_start_char(s: Seq<char>, c: char) -> Seq<char> {
    s.skip(leading_count(s, equals_char(c)) as int)
}

/// `str::trim_end_matches(c)` for a single character.
pub open spec fn trim_end_char(s: Seq<char>, c: char) -> Seq<char> {
    s.take(s.len() - trailing_count(s, equals_char(c)))
}

proof fn lemma_leading_count(s: Seq<char>, p: spec_fn(char) -> bool, i: int)
    requires
        0 <= i <= s.len(),
        forall|j: int| 0 <= j < i ==> p(s[j]),
        i == s.len() || !p(s[i]),
    ensures
        leading_count(s, p) == i,
    decreases s.len(),
{
    if i > 0 {
        lemma_leading_count(s.drop_first(), p, i - 1);
    }
}

proof fn lemma_trailing_count(s: Seq<char>, p: spec_fn(char) -> bool, i: int)
    requires
        0 <= i <= s.len(),
        forall|j: int| i <= j < s.len() ==> p(s[j]),
        i == 0 || !p(s[i - 1]),
    ensures
        trailing_count(s, p) == s.len() - i,
    decreases s.len(),
{
    if i < s.len() {
        lemma_trailing_count(s.drop_last(), p, i);
    }
}

/// What the leading count says of the characters it counts and of the one
/// after them.
pub(crate) proof fn lemma_leading_count_bounds(s: Seq<char>, p: spec_fn(char) -> bool)
    ensures
        leading_count(s, p) <= s.len(),
        forall|j: int| 0 <= j < leading_count(s, p) ==> p(#[trigger] s[j]),
        leading_count(s, p) == s.len() || !p(s[leading_count(s, p) as int]),
    decreases s.len(),
{
    if s.len() > 0 && p(s[0]) {
        lemma_leading_count_bounds(s.drop_first(), p);
        assert forall|j: int| 0 <= j < leading_count(s, p) implies p(#[trigger] s[j]) by {
            if j > 0 {
                assert(s[j] == s.drop_first()[j - 1]);
            }
        }
    }
}

/// What the trailing count says of the characters it counts and of the one
/// before them.
pub(crate) proof fn lemma_trailing_count_bounds(s: Seq<char>, p: spec_fn(char) -> bool)
    ensures
        trailing_count(s, p) <= s.len(),
        forall|j: int| s.len() - trailing_count(s, p) <= j < s.len() ==> p(#[trigger] s[j]),
        trailing_count(s, p) == s.len() || !p(s[s.len() - trailing_count(s, p) - 1]),
    decreases s.len(),
{
    if s.len() > 0 && p(s.last()) {
        lemma_trailing_count_bounds(s.drop_last(), p);
        assert forall|j: int| s.len() - trailing_count(s, p) <= j < s.len() implies p(#[trigger] s[j]) by {
            if j < s.len() - 1 {
                assert(s[j] == s.drop_last()[j]);
            }
        }
    }
}

/// A text that neither starts nor ends with whitespace is its own trim.
pub(crate) proof fn lemma_trim_of_trimmed(s: Seq<char>)
    requires
        s.len() > 0 ==> !is_whitespace(s[0]) && !is_whitespace(s.last()),
    ensures
        trim(s) == s,
{
    let ws = |c: char| is_whitespace(c);
    assert(leading_count(s, ws) == 0);
    assert(s.skip(0) =~= s);
    assert(trailing_count(s, ws) == 0);
    assert(s.take(s.len() as int) =~= s);
}

/// The trim of a text neither starts nor ends with whitespace.
pub(crate) proof fn lemma_trim_is_trimmed(s: Seq<char>)
    ensures
        trim(s).len() > 0 ==> !is_whitespace(trim(s)[0]) && !is_whitespace(trim(s).last()),
        trim(trim(s)) == trim(s),
{
    let ws = |c: char| is_whitespace(c);
    lemma_leading_count_bounds(s, ws);
    let u = trim_start(s);
    lemma_trailing_count_bounds(u, ws);
    let t = trim(s);
    if t.len() > 0 {
        assert(t[0] == u[0]);
        assert(u[0] == s[leading_count(s, ws) as int]);
        assert(t.last() == u[u.len() - trailing_count(u, ws) - 1]);
    }
    lemma_trim_of_trimmed(t);
}

/// A space in front changes nothing of a trim.
pub(crate) proof fn lemma_trim_space_prefix(k: Seq<char>)
    ensures
        trim(seq![' '] + k) == trim(k),
{
    let ws = |c: char| is_whitespace(c);
    let s = seq![' '] + k;
    assert(s.drop_first() =~= k);
    assert(leading_count(s, ws) == 1 + leading_count(k, ws));
    lemma_leading_count_bounds(k, ws);
    assert(s.skip(leading_count(s, ws) as int) =~= k.skip(leading_count(k, ws) as int));
}

/// The trim of `x` is a stretch of `x`: its characters are characters of `x`.
pub(crate) proof fn lemma_trim_chars(x: Seq<char>, p: spec_fn(char) -> bool)
    requires
        forall|k: int| 0 <= k < x.len() ==> p(#[trigger] x[k]),
    ensures
        forall|j: int| 0 <= j < trim(x).len() ==> p(#[trigger] trim(x)[j]),
{
    let ws = |c: char| is_whitespace(c);
    lemma_leading_count_bounds(x, ws);
    let u = trim_start(x);
    lemma_trailing_count_bounds(u, ws);
    assert forall|j: int| 0 <= j < trim(x).len() implies p(#[trigger] trim(x)[j]) by {
        assert(trim(x)[j] == u[j]);
        assert(u[j] == x[leading_count(x, ws) + j]);
    }
}

/// Characters of `s` from index `lo` (inclusive) to `hi` (exclusive).
pub fn slice(s: &Vec<char>, lo: usize, hi: usize) -> (r: Vec<char>)
    requires
        lo <= hi <= s.len(),
    ensures
        r@ == s@.subrange(lo as int, hi as int),
{
    let mut r: Vec<char> = Vec::new();
    let mut i: usize = lo;
    while i < hi
        invariant
            lo <= i <= hi <= s.len(),
            r@ == s@.subrange(lo as int, i as int),
        decreases hi - i,
    {
        r.push(s[i]);
        assert(s@.subrange(lo as int, i + 1) =~= s@.subrange(lo as int, i as int).push(s@[i as int]));
        i = i + 1;
    }
    r
}

/// `str::trim`.
pub fn trim_exec(s: &Vec<char>) -> (r: Vec<char>)
    ensures
        r@ == trim(s@),
{
    let mut lo: usize = 0;
    while lo < s.len() && is_whitespace_exec(s[lo])
        invariant
            lo <= s.len(),
            forall|j: int| 0 <= j < lo ==> is_whitespace(s@[j]),
        decreases s.len() - lo,
    {
        lo = lo + 1;
    }
    proof {
        lemma_leading_count(s@, |c: char| is_whitespace(c), lo as int);
    }
    let mut hi: usize = s.len();
    while hi > lo && is_whitespace_exec(s[hi - 1])
        invariant
            lo <= hi <= s.len(),
            forall|j: int| hi <= j < s.len() ==> is_whitespace(s@[j]),
        decreases hi,
    {
        hi = hi - 1;
    }
    let ghost t = s@.skip(lo as int);
    proof {
        lemma_trailing_count(t, |c: char| is_whitespace(c), hi - lo);
        assert(t.take(hi - lo) =~= s@.subrange(lo as int, hi as int));
    }
    slice(s, lo, hi)
}

/// `str::trim_start`.
pub fn trim_start_exec(s: &Vec<char>) -> (r: Vec<char>)
    ensures
        r@ == trim_start(s@),
{
    let mut lo: usize = 0;
    while lo < s.len() && is_whitespace_exec(s[lo])
        invariant
            lo <= s.len(),
            forall|j: int| 0 <= j < lo ==> is_whitespace(s@[j]),
        decreases s.len() - lo,
    {
        lo = lo + 1;
    }
    proof {
        lemma_leading_count(s@, |c: char| is_whitespace(c), lo as int);
        assert(s@.skip(lo as int) =~= s@.subrange(lo as int, s.len() as int));
    }
    slice(s, lo, s.len())
}

/// `str::trim_start_matches(c)` for a single character.
pub fn trim_start_char_exec(s: &Vec<char>, c: char) -> (r: Vec<char>)
    ensures
        r@ == trim_start_char(s@, c),
{
    let mut lo: usize = 0;
    while lo < s.len() && s[lo] == c
        invariant
            lo <= s.len(),
            forall|j: int| 0 <= j < lo ==> s@[j] == c,
        decreases s.len() - lo,
    {
        lo = lo + 1;
    }
    proof {
        lemma_leading_count(s@, equals_char(c), lo as int);
        assert(s@.skip(lo as int) =~= s@.subrange(lo as int, s.len() as int));
    }
    slice(s, lo, s.len())
}

/// `str::trim_end_matches(c)` for a single character.
pub fn trim_end_char_exec(s: &Vec<char>, c: char) -> (r: Vec<char>)
    ensures
        r@ == trim_end_char(s@, c),
{
    let mut hi: usize = s.len();
    while hi > 0 && s[hi - 1] == c
        invariant
            hi <= s.len(),
            forall|j: int| hi <= j < s.len() ==> s@[j] == c,
        decreases hi,
    {
        hi = hi - 1;
    }
    proof {
        lemma_trailing_count(s@, equals_char(c), hi as int);
        assert(s@.take(hi as int) =~= s@.subrange(0, hi as int));
    }
    slice(s, 0, hi)
}

// ---------------------------------------------------------------------------
// Decimal rendering of integers
// ---------------------------------------------------------------------------

/// The ASCII digit for `d < 10`.
pub open spec fn digit(d: nat) -> char {
    ((d + 48) as u32) as char
}

/// Decimal digits of `n`, most significant first, without leading zeros
/// (what `to_string` gives for an unsigned integer).
pub open spec fn decimal(n: nat) -> Seq<char>
    decreases n,
{
    if n < 10 {
        seq![digit(n)]
    } else {
        decimal(n / 10).push(digit(n % 10))
    }
}

/// What `to_string` gives for a signed integer.
pub open spec fn signed_decimal(n: int) -> Seq<char> {
    if n < 0 {
        seq!['-'] + decimal((-n) as nat)
    } else {
        decimal(n as nat)
    }
}

/// `u64::to_string`, as characters.
pub fn u64_decimal(n: u64) -> (r: Vec<char>)
    ensures
        r@ == decimal(n as nat),
    decreases n,
{
    let d: u8 = (n % 10) as u8;
    let c = (d + 48) as char;
    if n < 10 {
        let mut r: Vec<char> = Vec::new();
        r.push(c);
        assert(r@ =~= seq![digit(n as nat)]);
        r
    } else {
        let mut r = u64_decimal(n / 10);
        r.push(c);
        r
    }
}

/// `i64::to_string`, as characters.
pub fn i64_decimal(n: i64) -> (r: Vec<char>)
    ensures
        r@ == signed_decimal(n as int),
{
    if n < 0 {
        let m: i128 = -(n as i128);
        let digits = u64_decimal(m as u64);
        let mut r: Vec<char> = Vec::new();
        r.push('-');
        let mut digits = digits;
        r.append(&mut digits);
        r
    } else {
        u64_decimal(n as u64)
    }
}

} // verus!
