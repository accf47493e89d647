//! The stylesheet injected into the overlay: the shared overlay rules plus
//! one block of rules per configured user, emitted in the order in which the
//! overlay renders the users.

use vstd::prelude::*;

use crate::config::{keys_distinct, lists_exactly, pair_views, AvatarOverride, AvatarView, UserMap};
use crate::text::{
    chars_of, flat_map_chars, i64_decimal, push_all, replace, replace_all, signed_decimal, string_of,
};
use crate::web::{OVERLAY_CSS, USER_CSS_TEMPLATE};

verus! {

// ---------------------------------------------------------------------------
// The order in which user rules are emitted
// ---------------------------------------------------------------------------

/// Lexicographic order on character sequences (by code point). On UTF-8
/// strings this is the order of `String`'s `Ord`, which compares bytes.
pub open spec fn chars_lt(a: Seq<char>, b: Seq<char>) -> bool
    decreases a.len(),
{
    if b.len() == 0 {
        false
    } else if a.len() == 0 {
        true
    } else if a[0] != b[0] {
        a[0] < b[0]
    } else {
        chars_lt(a.drop_first(), b.drop_first())
    }
}

/// Users are ordered by `(order, user ID)`.
pub open spec fn entry_lt(a: (Seq<char>, AvatarView), b: (Seq<char>, AvatarView)) -> bool {
    a.1.order < b.1.order || (a.1.order == b.1.order && chars_lt(a.0, b.0))
}

/// `s` is strictly increasing by `(order, user ID)`.
pub open spec fn ordered(s: Seq<(Seq<char>, AvatarView)>) -> bool {
    forall|i: int, j: int| 0 <= i < j < s.len() ==> entry_lt(#[trigger] s[i], #[trigger] s[j])
}

/// The pairs of `m` listed by increasing `(order, user ID)`; there is exactly
/// one such listing (see `lemma_ordered_listing_unique`).
pub open spec fn sorted_users(m: Map<Seq<char>, AvatarView>) -> Seq<(Seq<char>, AvatarView)> {
    choose|s: Seq<(Seq<char>, AvatarView)>| ordered(s) && lists_exactly(s, m)
}

proof fn lemma_chars_lt_irreflexive(a: Seq<char>)
    ensures
        !chars_lt(a, a),
    decreases a.len(),
{
    if a.len() > 0 {
        lemma_chars_lt_irreflexive(a.drop_first());
    }
}

proof fn lemma_chars_lt_transitive(a: Seq<char>, b: Seq<char>, c: Seq<char>)
    requires
        chars_lt(a, b),
        chars_lt(b, c),
    ensures
        chars_lt(a, c),
    decreases a.len(),
{
    if a.len() > 0 && b.len() > 0 && c.len() > 0 && a[0] == b[0] && b[0] == c[0] {
        lemma_chars_lt_transitive(a.drop_first(), b.drop_first(), c.drop_first());
    }
}

proof fn lemma_chars_lt_total(a: Seq<char>, b: Seq<char>)
    requires
        a != b,
    ensures
        chars_lt(a, b) || chars_lt(b, a),
    decreases a.len(),
{
    if a.len() > 0 && b.len() > 0 && a[0] == b[0] {
        if a.drop_first() == b.drop_first() {
            assert(a =~= seq![a[0]] + a.drop_first());
            assert(b =~= seq![b[0]] + b.drop_first());
        }
        lemma_chars_lt_total(a.drop_first(), b.drop_first());
    } else if a.len() == 0 && b.len() == 0 {
        assert(a =~= b);
    }
}

proof fn lemma_entry_lt_irreflexive(a: (Seq<char>, AvatarView))
    ensures
        !entry_lt(a, a),
{
    lemma_chars_lt_irreflexive(a.0);
}

proof fn lemma_entry_lt_transitive(
    a: (Seq<char>, AvatarView),
    b: (Seq<char>, AvatarView),
    c: (Seq<char>, AvatarView),
)
    requires
        entry_lt(a, b),
        entry_lt(b, c),
    ensures
        entry_lt(a, c),
{
    if a.1.order == b.1.order && b.1.order == c.1.order {
        lemma_chars_lt_transitive(a.0, b.0, c.0);
    }
}

proof fn lemma_entry_lt_total(a: (Seq<char>, AvatarView), b: (Seq<char>, AvatarView))
    requires
        a.0 != b.0,
    ensures
        entry_lt(a, b) || entry_lt(b, a),
{
    lemma_chars_lt_total(a.0, b.0);
}

/// Two increasing listings of the same map are the same sequence.
pub proof fn lemma_ordered_listing_unique(
    s: Seq<(Seq<char>, AvatarView)>,
    t: Seq<(Seq<char>, AvatarView)>,
    m: Map<Seq<char>, AvatarView>,
)
    requires
        ordered(s),
        ordered(t),
        lists_exactly(s, m),
        lists_exactly(t, m),
    ensures
        s == t,
    decreases s.len(),
{
    if s.len() == 0 || t.len() == 0 {
        if t.len() > 0 {
            assert(m.contains_key(t[0].0));
        }
        if s.len() > 0 {
            assert(m.contains_key(s[0].0));
        }
        assert(s =~= t);
    } else {
        assert(m.contains_key(t[0].0));
        let i = choose|i: int| 0 <= i < s.len() && #[trigger] s[i].0 == t[0].0;
        assert(m.contains_key(s[0].0));
        let j = choose|j: int| 0 <= j < t.len() && #[trigger] t[j].0 == s[0].0;
        assert(s[i] == t[0]);
        assert(t[j] == s[0]);
        if i > 0 {
            assert(entry_lt(s[0], s[i]));
            if j > 0 {
                assert(entry_lt(t[0], t[j]));
                lemma_entry_lt_transitive(t[0], t[j], t[0]);
            }
            lemma_entry_lt_irreflexive(t[0]);
        }
        assert(s[0] == t[0]);
        let k0 = s[0].0;
        let m2 = m.remove(k0);
        let s2 = s.drop_first();
        let t2 = t.drop_first();
        assert forall|a: int| 0 <= a < s2.len() implies m2.contains_key(#[trigger] s2[a].0) && m2[s2[a].0] == s2[a].1 by {
            assert(s2[a] == s[a + 1]);
            assert(entry_lt(s[0], s[a + 1]));
            if s[a + 1].0 == k0 {
                assert(s[a + 1] == s[0]);
                lemma_entry_lt_irreflexive(s[0]);
            }
        }
        assert forall|k: Seq<char>| m2.contains_key(k) implies exists|a: int| 0 <= a < s2.len() && #[trigger] s2[a].0 == k by {
            let a = choose|a: int| 0 <= a < s.len() && #[trigger] s[a].0 == k;
            assert(a != 0);
            assert(s2[a - 1].0 == k);
        }
        assert forall|a: int| 0 <= a < t2.len() implies m2.contains_key(#[trigger] t2[a].0) && m2[t2[a].0] == t2[a].1 by {
            assert(t2[a] == t[a + 1]);
            assert(entry_lt(t[0], t[a + 1]));
            if t[a + 1].0 == k0 {
                assert(t[a + 1] == t[0]);
                lemma_entry_lt_irreflexive(t[0]);
            }
        }
        assert forall|k: Seq<char>| m2.contains_key(k) implies exists|a: int| 0 <= a < t2.len() && #[trigger] t2[a].0 == k by {
            let a = choose|a: int| 0 <= a < t.len() && #[trigger] t[a].0 == k;
            assert(a != 0);
            assert(t2[a - 1].0 == k);
        }
        assert(ordered(s2)) by {
            assert forall|a: int, b: int| 0 <= a < b < s2.len() implies entry_lt(#[trigger] s2[a], #[trigger] s2[b]) by {
                assert(entry_lt(s[a + 1], s[b + 1]));
            }
        }
        assert(ordered(t2)) by {
            assert forall|a: int, b: int| 0 <= a < b < t2.len() implies entry_lt(#[trigger] t2[a], #[trigger] t2[b]) by {
                assert(entry_lt(t[a + 1], t[b + 1]));
            }
        }
        lemma_ordered_listing_unique(s2, t2, m2);
        assert(s =~= seq![s[0]] + s2);
        assert(t =~= seq![t[0]] + t2);
    }
}

/// An increasing listing of `m` is the one `sorted_users` names.
proof fn lemma_sorted_users(s: Seq<(Seq<char>, AvatarView)>, m: Map<Seq<char>, AvatarView>)
    requires
        ordered(s),
        lists_exactly(s, m),
    ensures
        sorted_users(m) == s,
{
    let t = sorted_users(m);
    assert(ordered(t) && lists_exactly(t, m));
    lemma_ordered_listing_unique(s, t, m);
}

/// Index of the first element of `s` that comes after `x`.
pub open spec fn first_after(s: Seq<(Seq<char>, AvatarView)>, x: (Seq<char>, AvatarView)) -> int
    decreases s.len(),
{
    if s.len() == 0 {
        0
    } else if entry_lt(x, s[0]) {
        0
    } else {
        1 + first_after(s.drop_first(), x)
    }
}

proof fn lemma_first_after(s: Seq<(Seq<char>, AvatarView)>, x: (Seq<char>, AvatarView))
    ensures
        0 <= first_after(s, x) <= s.len(),
        forall|i: int| 0 <= i < first_after(s, x) ==> !entry_lt(x, #[trigger] s[i]),
        first_after(s, x) < s.len() ==> entry_lt(x, s[first_after(s, x)]),
    decreases s.len(),
{
    if s.len() > 0 && !entry_lt(x, s[0]) {
        lemma_first_after(s.drop_first(), x);
        assert forall|i: int| 0 <= i < first_after(s, x) implies !entry_lt(x, #[trigger] s[i]) by {
            if i > 0 {
                assert(s[i] == s.drop_first()[i - 1]);
            }
        }
    }
}

/// Every finite user map has its increasing listing: each configured user
/// gets exactly one block of rules, and the blocks run by increasing
/// `(order, user ID)` — lower `order` values render first, and equal
/// `order` values fall back to the user ID.
pub proof fn law_users_listed_by_order(m: Map<Seq<char>, AvatarView>)
    requires
        m.dom().finite(),
    ensures
        ordered(sorted_users(m)),
        lists_exactly(sorted_users(m), m),
    decreases m.dom().len(),
{
    if m.dom().len() == 0 {
        let s = Seq::<(Seq<char>, AvatarView)>::empty();
        assert forall|k: Seq<char>| m.contains_key(k) implies exists|i: int| 0 <= i < s.len() && #[trigger] s[i].0 == k by {
            assert(m.dom().contains(k));
        }
        lemma_sorted_users(s, m);
    } else {
        let k = m.dom().choose();
        let x = (k, m[k]);
        let m2 = m.remove(k);
        law_users_listed_by_order(m2);
        let s2 = sorted_users(m2);
        lemma_first_after(s2, x);
        let p = first_after(s2, x);
        let s = s2.take(p) + seq![x] + s2.skip(p);
        assert(s.len() == s2.len() + 1);
        assert forall|i: int| 0 <= i < s.len() implies #[trigger] s[i] == (if i < p { s2[i] } else if i == p { x } else { s2[i - 1] }) by {}
        assert forall|i: int| 0 <= i < s2.len() implies s2[i].0 != k by {
            assert(m2.contains_key(s2[i].0));
        }
        assert forall|i: int, j: int| 0 <= i < j < s.len() implies entry_lt(#[trigger] s[i], #[trigger] s[j]) by {
            if j < p {
                assert(entry_lt(s2[i], s2[j]));
            } else if j == p {
                assert(!entry_lt(x, s2[i]));
                lemma_entry_lt_total(s2[i], x);
            } else if i < p {
                assert(!entry_lt(x, s2[i]));
                lemma_entry_lt_total(s2[i], x);
                assert(entry_lt(x, s2[p]));
                if j - 1 > p {
                    assert(entry_lt(s2[p], s2[j - 1]));
                    lemma_entry_lt_transitive(x, s2[p], s2[j - 1]);
                }
                lemma_entry_lt_transitive(s2[i], x, s2[j - 1]);
            } else if i == p {
                assert(entry_lt(x, s2[p]));
                if j - 1 > p {
                    assert(entry_lt(s2[p], s2[j - 1]));
                    lemma_entry_lt_transitive(x, s2[p], s2[j - 1]);
                }
            } else {
                assert(entry_lt(s2[i - 1], s2[j - 1]));
            }
        }
        assert forall|i: int| 0 <= i < s.len() implies m.contains_key(#[trigger] s[i].0) && m[s[i].0] == s[i].1 by {
            if i < p {
                assert(m2.contains_key(s2[i].0));
            } else if i > p {
                assert(m2.contains_key(s2[i - 1].0));
            }
        }
        assert forall|key: Seq<char>| m.contains_key(key) implies exists|i: int| 0 <= i < s.len() && #[trigger] s[i].0 == key by {
            if key == k {
                assert(s[p].0 == key);
            } else {
                assert(m2.contains_key(key));
                let j = choose|j: int| 0 <= j < s2.len() && #[trigger] s2[j].0 == key;
                if j < p {
                    assert(s[j].0 == key);
                } else {
                    assert(s[j + 1].0 == key);
                }
            }
        }
        lemma_sorted_users(s, m);
    }
}

/// `(order, user ID)` comparison of two stored users.
fn entry_less(a: &(String, AvatarOverride), b: &(String, AvatarOverride)) -> (r: bool)
    ensures
        r == entry_lt((a.0@, a.1@), (b.0@, b.1@)),
{
    if a.1.order != b.1.order {
        return a.1.order < b.1.order;
    }
    let x = chars_of(a.0.as_str());
    let y = chars_of(b.0.as_str());
    let mut i: usize = 0;
    assert(x@.skip(0) =~= x@ && y@.skip(0) =~= y@);
    while i < x.len() && i < y.len()
        invariant
            x@ == a.0@,
            y@ == b.0@,
            a.1.order == b.1.order,
            i <= x.len(),
            i <= y.len(),
            chars_lt(x@, y@) == chars_lt(x@.skip(i as int), y@.skip(i as int)),
        decreases x.len() - i,
    {
        if x[i] != y[i] {
            assert(x@.skip(i as int)[0] == x@[i as int] && y@.skip(i as int)[0] == y@[i as int]);
            return x[i] < y[i];
        }
        assert(x@.skip(i as int).drop_first() =~= x@.skip(i + 1));
        assert(y@.skip(i as int).drop_first() =~= y@.skip(i + 1));
        i = i + 1;
    }
    i == x.len() && i < y.len()
}

/// Position `j` occurs in `idx`.
pub open spec fn holds_position(idx: Seq<usize>, j: int) -> bool {
    exists|k: int| 0 <= k < idx.len() && idx[k] == j
}

/// Positions of `entries` listed by increasing `(order, user ID)`.
fn sorted_positions(entries: &Vec<(String, AvatarOverride)>) -> (idx: Vec<usize>)
    requires
        keys_distinct(pair_views(entries@)),
    ensures
        idx.len() == entries.len(),
        forall|k: int| 0 <= k < idx.len() ==> #[trigger] idx@[k] < entries.len(),
        forall|j: int| 0 <= j < entries.len() ==> #[trigger] holds_position(idx@, j),
        ordered(Seq::new(idx.len() as nat, |k: int| pair_views(entries@)[idx@[k] as int])),
{
    let ghost ev = pair_views(entries@);
    let mut idx: Vec<usize> = Vec::new();
    let mut i: usize = 0;
    while i < entries.len()
        invariant
            ev == pair_views(entries@),
            keys_distinct(ev),
            i <= entries.len(),
            idx.len() == i,
            forall|k: int| 0 <= k < idx.len() ==> #[trigger] idx@[k] < i,
            forall|j: int| 0 <= j < i ==> #[trigger] holds_position(idx@, j),
            forall|a: int, b: int| 0 <= a < b < idx.len() ==> entry_lt(ev[idx@[a] as int], ev[idx@[b] as int]),
        decreases entries.len() - i,
    {
        let mut p: usize = 0;
        while p < idx.len() && !entry_less(&entries[i], &entries[idx[p]])
            invariant
                ev == pair_views(entries@),
                keys_distinct(ev),
                i < entries.len(),
                idx.len() == i,
                p <= idx.len(),
                forall|k: int| 0 <= k < idx.len() ==> #[trigger] idx@[k] < i,
                forall|k: int| 0 <= k < p ==> entry_lt(ev[idx@[k] as int], ev[i as int]),
            decreases idx.len() - p,
        {
            proof {
                let q = idx@[p as int] as int;
                assert(ev[q].0 != ev[i as int].0);
                lemma_entry_lt_total(ev[q], ev[i as int]);
            }
            p = p + 1;
        }
        let ghost before = idx@;
        idx.insert(p, i);
        proof {
            assert forall|k: int| 0 <= k < idx.len() implies #[trigger] idx@[k] < i + 1 by {
                if k < p {
                    assert(idx@[k] == before[k]);
                } else if k > p {
                    assert(idx@[k] == before[k - 1]);
                }
            }
            assert forall|j: int| 0 <= j < i + 1 implies #[trigger] holds_position(idx@, j) by {
                if j == i {
                    assert(idx@[p as int] == j);
                } else {
                    assert(holds_position(before, j));
                    let k = choose|k: int| 0 <= k < before.len() && #[trigger] before[k] == j;
                    if k < p {
                        assert(idx@[k] == j);
                    } else {
                        assert(idx@[k + 1] == j);
                    }
                }
            }
            assert forall|a: int, b: int| 0 <= a < b < idx.len() implies entry_lt(ev[idx@[a] as int], ev[idx@[b] as int]) by {
                let xa = if a < p { a } else { a - 1 };
                let xb = if b < p { b } else { b - 1 };
                if a == p as int {
                    // the new element precedes every later one
                    assert(idx@[b] == before[xb]);
                    if p < before.len() {
                        assert(entry_lt(ev[i as int], ev[before[p as int] as int]));
                        if xb > p {
                            assert(entry_lt(ev[before[p as int] as int], ev[before[xb] as int]));
                            lemma_entry_lt_transitive(ev[i as int], ev[before[p as int] as int], ev[before[xb] as int]);
                        }
                    }
                } else if b == p as int {
                    assert(idx@[a] == before[a]);
                } else {
                    assert(idx@[a] == before[xa]);
                    assert(idx@[b] == before[xb]);
                }
            }
        }
        i = i + 1;
    }
    proof {
        let s = Seq::new(idx.len() as nat, |k: int| ev[idx@[k] as int]);
        assert forall|a: int, b: int| 0 <= a < b < s.len() implies entry_lt(#[trigger] s[a], #[trigger] s[b]) by {
            assert(entry_lt(ev[idx@[a] as int], ev[idx@[b] as int]));
        }
    }
    idx
}

// ---------------------------------------------------------------------------
// The rules themselves
// ---------------------------------------------------------------------------

/// Escaping of one character of a URL placed in `url("...")`.
pub open spec fn css_url_char(c: char) -> Seq<char> {
    if c == '\\' {
        seq!['\\', '\\']
    } else if c == '"' {
        seq!['\\', '"']
    } else {
        seq![c]
    }
}

/// `char::is_control`: general category `Cc`.
pub open spec fn is_control(c: char) -> bool {
    c <= '\u{1f}' || ('\u{7f}' <= c && c <= '\u{9f}')
}

/// Escaping of one character of a user ID placed in an attribute selector.
pub open spec fn css_ident_char(c: char) -> Seq<char> {
    if c == '"' || c == '\\' {
        seq!['\\', c]
    } else if is_control(c) {
        Seq::empty()
    } else {
        seq![c]
    }
}

/// Minimal escaping for URLs embedded in `url("...")`.
pub open spec fn escape_css_url_spec(s: Seq<char>) -> Seq<char> {
    flat_map_chars(s, |c: char| css_url_char(c))
}

/// Escaping of characters that could break attribute selectors.
pub open spec fn escape_css_ident_spec(s: Seq<char>) -> Seq<char> {
    flat_map_chars(s, |c: char| css_ident_char(c))
}

/// The rules for one user: the user template with its four placeholders filled in.
pub open spec fn user_rule(e: (Seq<char>, AvatarView)) -> Seq<char> {
    replace_all(
        replace_all(
            replace_all(
                replace_all(USER_CSS_TEMPLATE@, "{{USER_ID}}"@, escape_css_ident_spec(e.0)),
                "{{IDLE_URL}}"@,
                escape_css_url_spec(e.1.idle_url),
            ),
            "{{SPEAKING_URL}}"@,
            escape_css_url_spec(e.1.speaking_url),
        ),
        "{{ORDER}}"@,
        signed_decimal(e.1.order as int),
    )
}

/// The rules of every user of `s`, in the order of `s`.
pub open spec fn user_rules(s: Seq<(Seq<char>, AvatarView)>) -> Seq<char>
    decreases s.len(),
{
    if s.len() == 0 {
        Seq::empty()
    } else {
        user_rules(s.drop_last()) + user_rule(s.last())
    }
}

/// The full injected stylesheet for `users`: the overlay rules, then the
/// rules of each user by increasing `(order, user ID)`.
pub open spec fn overlay_css(users: Map<Seq<char>, AvatarView>) -> Seq<char> {
    OVERLAY_CSS@ + user_rules(sorted_users(users))
}

/// Minimal escaping for URLs embedded in `url("...")`.
pub fn escape_css_url(s: &str) -> (r: String)
    ensures
        r@ == escape_css_url_spec(s@),
{
    let v = chars_of(s);
    let mut out: Vec<char> = Vec::new();
    let mut i: usize = 0;
    while i < v.len()
        invariant
            i <= v.len(),
            out@ == escape_css_url_spec(v@.take(i as int)),
        decreases v.len() - i,
    {
        let c = v[i];
        if c == '\\' {
            out.push('\\');
            out.push('\\');
        } else if c == '"' {
            out.push('\\');
            out.push('"');
        } else {
            out.push(c);
        }
        proof {
            let t = v@.take(i + 1);
            assert(t.drop_last() =~= v@.take(i as int));
            assert(out@ =~= escape_css_url_spec(v@.take(i as int)) + css_url_char(c));
        }
        i = i + 1;
    }
    assert(v@.take(v.len() as int) =~= v@);
    string_of(&out)
}

/// Escape characters that could break attribute selectors.
pub fn escape_css_ident(s: &str) -> (r: String)
    ensures
        r@ == escape_css_ident_spec(s@),
{
    let v = chars_of(s);
    let mut out: Vec<char> = Vec::new();
    let mut i: usize = 0;
    while i < v.len()
        invariant
            i <= v.len(),
            out@ == escape_css_ident_spec(v@.take(i as int)),
        decreases v.len() - i,
    {
        let c = v[i];
        if c == '"' || c == '\\' {
            out.push('\\');
            out.push(c);
        } else if c <= '\u{1f}' || ('\u{7f}' <= c && c <= '\u{9f}') {
        } else {
            out.push(c);
        }
        proof {
            let t = v@.take(i + 1);
            assert(t.drop_last() =~= v@.take(i as int));
            assert(out@ =~= escape_css_ident_spec(v@.take(i as int)) + css_ident_char(c));
        }
        i = i + 1;
    }
    assert(v@.take(v.len() as int) =~= v@);
    string_of(&out)
}

/// The rules for one user.
fn render_user_rule(user_id: &String, avatar: &AvatarOverride) -> (r: Vec<char>)
    ensures
        r@ == user_rule((user_id@, avatar@)),
{
    let template = chars_of(USER_CSS_TEMPLATE);
    let id_key = chars_of("{{USER_ID}}");
    let idle_key = chars_of("{{IDLE_URL}}");
    let speaking_key = chars_of("{{SPEAKING_URL}}");
    let order_key = chars_of("{{ORDER}}");
    proof {
        reveal_strlit("{{USER_ID}}");
        reveal_strlit("{{IDLE_URL}}");
        reveal_strlit("{{SPEAKING_URL}}");
        reveal_strlit("{{ORDER}}");
    }
    let id = chars_of(escape_css_ident(user_id.as_str()).as_str());
    let idle = chars_of(escape_css_url(avatar.idle_url.as_str()).as_str());
    let speaking = chars_of(escape_css_url(avatar.speaking_url.as_str()).as_str());
    let order = i64_decimal(avatar.order);
    let step1 = replace(&template, &id_key, &id);
    let step2 = replace(&step1, &idle_key, &idle);
    let step3 = replace(&step2, &speaking_key, &speaking);
    replace(&step3, &order_key, &order)
}

/// Build the full injected stylesheet for transparent canvas + per-user avatars.
///
/// User rules are emitted by increasing `(order, user ID)`, so the stylesheet
/// is the same for the same users whatever order they were stored in.
pub fn generate_overlay_css(users: &UserMap) -> (css: String)
    ensures
        css@ == overlay_css(users@),
{
    let entries = users.listing();
    let ghost ev = pair_views(entries@);
    let idx = sorted_positions(entries);
    let ghost sorted = Seq::new(idx.len() as nat, |k: int| ev[idx@[k] as int]);
    proof {
        assert forall|k: int| 0 <= k < sorted.len() implies users@.contains_key(#[trigger] sorted[k].0)
            && users@[sorted[k].0] == sorted[k].1 by {
            let q = idx@[k] as int;
            assert(sorted[k] == ev[q]);
        }
        assert forall|key: Seq<char>| users@.contains_key(key) implies exists|k: int|
            0 <= k < sorted.len() && #[trigger] sorted[k].0 == key by {
            let j = choose|j: int| 0 <= j < ev.len() && #[trigger] ev[j].0 == key;
            assert(holds_position(idx@, j));
            let k = choose|k: int| 0 <= k < idx.len() && #[trigger] idx@[k] == j;
            assert(sorted[k].0 == key);
        }
        lemma_sorted_users(sorted, users@);
    }
    let mut css = chars_of(OVERLAY_CSS);
    let mut k: usize = 0;
    while k < idx.len()
        invariant
            ev == pair_views(entries@),
            k <= idx.len(),
            idx.len() == entries.len(),
            sorted == Seq::new(idx.len() as nat, |k: int| ev[idx@[k] as int]),
            forall|k: int| 0 <= k < idx.len() ==> #[trigger] idx@[k] < entries.len(),
            css@ == OVERLAY_CSS@ + user_rules(sorted.take(k as int)),
        decreases idx.len() - k,
    {
        let e = &entries[idx[k]];
        let rule = render_user_rule(&e.0, &e.1);
        push_all(&mut css, &rule);
        proof {
            assert(sorted.take(k + 1).drop_last() =~= sorted.take(k as int));
            assert(sorted.take(k + 1).last() == ev[idx@[k as int] as int]);
            assert(css@ =~= OVERLAY_CSS@ + user_rules(sorted.take(k + 1)));
        }
        k = k + 1;
    }
    assert(sorted.take(idx.len() as int) =~= sorted);
    string_of(&css)
}


} // verus!

