//! What the user template of the stylesheet is filled with: each value
//! lands in its own slot.

use vstd::prelude::*;

use crate::config::AvatarView;
use crate::css::{escape_css_ident_spec, escape_css_url_spec, user_rule};
use crate::text::{
    concat, lemma_concat_skip, lemma_occurs_in_self, lemma_replace_pieces, no_start_of, occurs_in, piece_kept,
    replace_all, signed_decimal,
};
use crate::web::USER_CSS_TEMPLATE;

verus! {

// ---------------------------------------------------------------------------
// What the user template is filled with
// ---------------------------------------------------------------------------

/// The user template cut at its placeholders, with `id`, `order`, `idle` and
/// `speaking` standing where the placeholders stand.
spec fn rule_pieces(id: Seq<char>, order: Seq<char>, idle: Seq<char>, speaking: Seq<char>) -> Seq<Seq<char>> {
    Seq::new(17, |k: int| if k % 2 == 0 { rule_literal(k / 2) } else { rule_slot(k, id, order, idle, speaking) })
}

/// The literal stretch `j` of the user template (0 to 8).
spec fn rule_literal(j: int) -> Seq<char> {
    if j == 0 {
        "\n/* User "@
    } else if j == 1 {
        " */\nli[data-userid=\""@
    } else if j == 2 {
        "\"] {\n  order: "@
    } else if j == 3 {
        " !important;\n}\nli[data-userid=\""@
    } else if j == 4 {
        "\"] > img.voice_avatar {\n  content: url(\""@
    } else if j == 5 {
        "\") !important;\n  width: 128px !important;\n  height: 128px !important;\n}\nli[data-userid=\""@
    } else if j == 6 {
        "\"].wrapper_speaking > img.voice_avatar,\nli[data-userid=\""@
    } else if j == 7 {
        "\"] > img.voice_avatar[class*=\"avatarSpeaking\"] {\n  content: url(\""@
    } else {
        "\") !important;\n  animation: speak-bounce 0.6s ease-in-out infinite !important;\n}\n"@
    }
}

/// What stands in the slot at piece `k`: the user ID, except the order,
/// idle URL and speaking URL slots.
spec fn rule_slot(k: int, id: Seq<char>, order: Seq<char>, idle: Seq<char>, speaking: Seq<char>) -> Seq<char> {
    if k == 5 {
        order
    } else if k == 9 {
        idle
    } else if k == 15 {
        speaking
    } else {
        id
    }
}

/// `pat` does not occur in `q` when the character `j` places into an
/// occurrence never matches.
proof fn lemma_not_occurs_by_char(pat: Seq<char>, q: Seq<char>, j: int)
    requires
        0 <= j < pat.len(),
        forall|i: int| 0 <= i && i + pat.len() <= q.len() ==> #[trigger] q[i + j] != pat[j],
    ensures
        !occurs_in(pat, q),
{
    if occurs_in(pat, q) {
        let i = choose|i: int| 0 <= i && i + pat.len() <= q.len() && #[trigger] q.subrange(i, i + pat.len()) == pat;
        assert(q.subrange(i, i + pat.len())[j] == q[i + j]);
    }
}

/// The literal text of the user template holds no start of a placeholder,
/// and each stretch after a slot opens with a quote or a space.
#[verifier::rlimit(40)]
proof fn lemma_rule_literals(pat: Seq<char>)
    requires
        pat.len() >= 2,
        pat[0] == '{',
        pat[1] == '{',
    ensures
        forall|j: int| 0 <= j < 9 ==> no_start_of(pat, #[trigger] rule_literal(j)),
        forall|j: int|
            0 < j < 9 ==> #[trigger] rule_literal(j).len() > 0 && (rule_literal(j)[0] == '"' || rule_literal(j)[0] == ' '),
{
    reveal_strlit("\n/* User ");
    reveal_strlit(" */\nli[data-userid=\"");
    reveal_strlit("\"] {\n  order: ");
    reveal_strlit(" !important;\n}\nli[data-userid=\"");
    reveal_strlit("\"] > img.voice_avatar {\n  content: url(\"");
    reveal_strlit("\") !important;\n  width: 128px !important;\n  height: 128px !important;\n}\nli[data-userid=\"");
    reveal_strlit("\"].wrapper_speaking > img.voice_avatar,\nli[data-userid=\"");
    reveal_strlit("\"] > img.voice_avatar[class*=\"avatarSpeaking\"] {\n  content: url(\"");
    reveal_strlit("\") !important;\n  animation: speak-bounce 0.6s ease-in-out infinite !important;\n}\n");
    assert forall|j: int| 0 <= j < 9 implies no_start_of(pat, #[trigger] rule_literal(j)) by {
        assert(j == 0 || j == 1 || j == 2 || j == 3 || j == 4 || j == 5 || j == 6 || j == 7 || j == 8);
    }
    assert forall|j: int| 0 < j < 9 implies #[trigger] rule_literal(j).len() > 0 && (rule_literal(j)[0] == '"'
        || rule_literal(j)[0] == ' ') by {
        assert(j == 1 || j == 2 || j == 3 || j == 4 || j == 5 || j == 6 || j == 7 || j == 8);
    }
}

/// Every slot and stretch of the template holds `pat` itself or no
/// occurrence of it.
proof fn lemma_rule_pieces_kept(i: Seq<char>, o: Seq<char>, d: Seq<char>, s: Seq<char>, pat: Seq<char>)
    requires
        pat.len() >= 2,
        pat[0] == '{',
        pat[1] == '{',
        !pat.contains('"'),
        !pat.contains(' '),
        i == pat || !occurs_in(pat, i),
        o == pat || !occurs_in(pat, o),
        d == pat || !occurs_in(pat, d),
        s == pat || !occurs_in(pat, s),
    ensures
        forall|k: int|
            0 <= k < rule_pieces(i, o, d, s).len() ==> #[trigger] rule_pieces(i, o, d, s)[k] == pat
                || piece_kept(rule_pieces(i, o, d, s), k, pat),
{
    let ps = rule_pieces(i, o, d, s);
    lemma_rule_literals(pat);
    assert forall|k: int| 0 <= k < ps.len() implies #[trigger] ps[k] == pat || piece_kept(ps, k, pat) by {
        if k % 2 == 0 {
            assert(no_start_of(pat, rule_literal(k / 2)));
        } else {
            let c = ps[k + 1][0];
            assert(ps[k + 1] == rule_literal((k + 1) / 2));
            assert(c == '"' || c == ' ');
            assert(!pat.contains(c));
            if ps[k] != pat {
                assert(ps[k] == rule_slot(k, i, o, d, s));
                assert(!occurs_in(pat, ps[k]));
            }
        }
    }
}

/// Filling `pat` with `rep` changes only the slots that hold `pat`.
proof fn lemma_rule_pieces_filled(
    i: Seq<char>,
    o: Seq<char>,
    d: Seq<char>,
    s: Seq<char>,
    pat: Seq<char>,
    rep: Seq<char>,
    ps: Seq<Seq<char>>,
    qs: Seq<Seq<char>>,
)
    requires
        pat.len() >= 2,
        pat[0] == '{',
        pat[1] == '{',
        ps == rule_pieces(i, o, d, s),
        qs == rule_pieces(
            if i == pat { rep } else { i },
            if o == pat { rep } else { o },
            if d == pat { rep } else { d },
            if s == pat { rep } else { s },
        ),
    ensures
        qs.len() == ps.len(),
        forall|k: int| 0 <= k < ps.len() ==> (#[trigger] qs[k]) == (if ps[k] == pat { rep } else { ps[k] }),
{
    lemma_rule_literals(pat);
    assert(!no_start_of(pat, pat));
    assert forall|k: int| 0 <= k < ps.len() implies (#[trigger] qs[k]) == (if ps[k] == pat { rep } else { ps[k] }) by {
        if k % 2 == 0 {
            assert(no_start_of(pat, rule_literal(k / 2)));
            assert(ps[k] != pat);
        }
    }
}

/// One placeholder of the user template filled: where a slot holds `pat`
/// it now holds `rep`, and every other slot, in which `pat` does not occur,
/// is kept.
proof fn lemma_rule_step(
    i: Seq<char>,
    o: Seq<char>,
    d: Seq<char>,
    s: Seq<char>,
    pat: Seq<char>,
    rep: Seq<char>,
)
    requires
        pat.len() >= 2,
        pat[0] == '{',
        pat[1] == '{',
        !pat.contains('"'),
        !pat.contains(' '),
        i == pat || !occurs_in(pat, i),
        o == pat || !occurs_in(pat, o),
        d == pat || !occurs_in(pat, d),
        s == pat || !occurs_in(pat, s),
    ensures
        replace_all(concat(rule_pieces(i, o, d, s)), pat, rep) == concat(
            rule_pieces(
                if i == pat { rep } else { i },
                if o == pat { rep } else { o },
                if d == pat { rep } else { d },
                if s == pat { rep } else { s },
            ),
        ),
{
    let ps = rule_pieces(i, o, d, s);
    let qs = rule_pieces(
        if i == pat { rep } else { i },
        if o == pat { rep } else { o },
        if d == pat { rep } else { d },
        if s == pat { rep } else { s },
    );
    lemma_rule_pieces_kept(i, o, d, s, pat);
    lemma_rule_pieces_filled(i, o, d, s, pat, rep, ps, qs);
    lemma_replace_pieces(ps, qs, pat, rep);
}

/// The user template is its literal text with the four placeholders in
/// their slots.
#[verifier::rlimit(60)]
proof fn lemma_rule_template()
    ensures
        USER_CSS_TEMPLATE@ == concat(rule_pieces("{{USER_ID}}"@, "{{ORDER}}"@, "{{IDLE_URL}}"@, "{{SPEAKING_URL}}"@)),
{
    let uid = "{{USER_ID}}"@;
    let ord = "{{ORDER}}"@;
    let idle = "{{IDLE_URL}}"@;
    let spk = "{{SPEAKING_URL}}"@;
    reveal_strlit("{{USER_ID}}");
    reveal_strlit("{{ORDER}}");
    reveal_strlit("{{IDLE_URL}}");
    reveal_strlit("{{SPEAKING_URL}}");
        reveal_strlit(r#"
/* User {{USER_ID}} */
li[data-userid="{{USER_ID}}"] {
  order: {{ORDER}} !important;
}
li[data-userid="{{USER_ID}}"] > img.voice_avatar {
  content: url("{{IDLE_URL}}") !important;
  width: 128px !important;
  height: 128px !important;
}
li[data-userid="{{USER_ID}}"].wrapper_speaking > img.voice_avatar,
li[data-userid="{{USER_ID}}"] > img.voice_avatar[class*="avatarSpeaking"] {
  content: url("{{SPEAKING_URL}}") !important;
  animation: speak-bounce 0.6s ease-in-out infinite !important;
}
"#);
    reveal_strlit("\n/* User ");
    reveal_strlit(" */\nli[data-userid=\"");
    reveal_strlit("\"] {\n  order: ");
    reveal_strlit(" !important;\n}\nli[data-userid=\"");
    reveal_strlit("\"] > img.voice_avatar {\n  content: url(\"");
    reveal_strlit("\") !important;\n  width: 128px !important;\n  height: 128px !important;\n}\nli[data-userid=\"");
    reveal_strlit("\"].wrapper_speaking > img.voice_avatar,\nli[data-userid=\"");
    reveal_strlit("\"] > img.voice_avatar[class*=\"avatarSpeaking\"] {\n  content: url(\"");
    reveal_strlit("\") !important;\n  animation: speak-bounce 0.6s ease-in-out infinite !important;\n}\n");
    reveal_with_fuel(concat, 18);
    assert(USER_CSS_TEMPLATE@ =~= concat(rule_pieces(uid, ord, idle, spk)));
}

/// The template's pieces one after the other, written out.
proof fn lemma_rule_text(i: Seq<char>, o: Seq<char>, d: Seq<char>, s: Seq<char>)
    ensures
        concat(rule_pieces(i, o, d, s)) == "\n/* User "@ + (i + (" */\nli[data-userid=\""@ + (i + ("\"] {\n  order: "@ + (o + (" !important;\n}\nli[data-userid=\""@ + (i + ("\"] > img.voice_avatar {\n  content: url(\""@ + (d + ("\") !important;\n  width: 128px !important;\n  height: 128px !important;\n}\nli[data-userid=\""@ + (i + ("\"].wrapper_speaking > img.voice_avatar,\nli[data-userid=\""@ + (i + ("\"] > img.voice_avatar[class*=\"avatarSpeaking\"] {\n  content: url(\""@ + (s + ("\") !important;\n  animation: speak-bounce 0.6s ease-in-out infinite !important;\n}\n"@)))))))))))))))),
{
    let ps = rule_pieces(i, o, d, s);
    assert(ps.skip(0) =~= ps);
    lemma_concat_skip(ps, 0);
    lemma_concat_skip(ps, 1);
    lemma_concat_skip(ps, 2);
    lemma_concat_skip(ps, 3);
    lemma_concat_skip(ps, 4);
    lemma_concat_skip(ps, 5);
    lemma_concat_skip(ps, 6);
    lemma_concat_skip(ps, 7);
    lemma_concat_skip(ps, 8);
    lemma_concat_skip(ps, 9);
    lemma_concat_skip(ps, 10);
    lemma_concat_skip(ps, 11);
    lemma_concat_skip(ps, 12);
    lemma_concat_skip(ps, 13);
    lemma_concat_skip(ps, 14);
    lemma_concat_skip(ps, 15);
    lemma_concat_skip(ps, 16);
    assert(ps.skip(17).len() == 0);
    assert(concat(ps.skip(17)) == Seq::<char>::empty());
    assert(ps[16] + concat(ps.skip(17)) =~= ps[16]);
}

/// The rules of one user carry each value in its own place: the user ID in
/// every selector, the order in the `order` rule, the escaped idle URL in
/// the rule for the silent avatar and the escaped speaking URL in the rule
/// for the speaking one. This holds whenever no value holds the text of a
/// placeholder filled after it (the template is filled user ID, idle URL,
/// speaking URL, order, in that order).
pub proof fn law_user_rule_fills_each_slot(id: Seq<char>, a: AvatarView)
    requires
        !occurs_in("{{IDLE_URL}}"@, escape_css_ident_spec(id)),
        !occurs_in("{{SPEAKING_URL}}"@, escape_css_ident_spec(id)),
        !occurs_in("{{ORDER}}"@, escape_css_ident_spec(id)),
        !occurs_in("{{SPEAKING_URL}}"@, escape_css_url_spec(a.idle_url)),
        !occurs_in("{{ORDER}}"@, escape_css_url_spec(a.idle_url)),
        !occurs_in("{{ORDER}}"@, escape_css_url_spec(a.speaking_url)),
    ensures
        ({
            let i = escape_css_ident_spec(id);
            let o = signed_decimal(a.order as int);
            let d = escape_css_url_spec(a.idle_url);
            let s = escape_css_url_spec(a.speaking_url);
            user_rule((id, a)) == "\n/* User "@ + (i + (" */\nli[data-userid=\""@ + (i + ("\"] {\n  order: "@ + (o + (" !important;\n}\nli[data-userid=\""@ + (i + ("\"] > img.voice_avatar {\n  content: url(\""@ + (d + ("\") !important;\n  width: 128px !important;\n  height: 128px !important;\n}\nli[data-userid=\""@ + (i + ("\"].wrapper_speaking > img.voice_avatar,\nli[data-userid=\""@ + (i + ("\"] > img.voice_avatar[class*=\"avatarSpeaking\"] {\n  content: url(\""@ + (s + ("\") !important;\n  animation: speak-bounce 0.6s ease-in-out infinite !important;\n}\n"@))))))))))))))))
        }),
{
    reveal_strlit("{{USER_ID}}");
    reveal_strlit("{{ORDER}}");
    reveal_strlit("{{IDLE_URL}}");
    reveal_strlit("{{SPEAKING_URL}}");
    let i = escape_css_ident_spec(id);
    let o = signed_decimal(a.order as int);
    let d = escape_css_url_spec(a.idle_url);
    let s = escape_css_url_spec(a.speaking_url);
    let uid = "{{USER_ID}}"@;
    let ord = "{{ORDER}}"@;
    let idle = "{{IDLE_URL}}"@;
    let spk = "{{SPEAKING_URL}}"@;
    lemma_rule_template();
    assert(uid.subrange(0, 11) =~= uid);
    assert(idle.subrange(0, 12) =~= idle);
    assert(spk.subrange(0, 16) =~= spk);
    lemma_not_occurs_by_char(uid, idle, 2);
    lemma_not_occurs_by_char(uid, spk, 2);
    lemma_not_occurs_by_char(idle, spk, 2);
    lemma_not_occurs_by_char(ord, idle, 2);
    lemma_not_occurs_by_char(ord, spk, 2);
    assert(!occurs_in(uid, ord));
    assert(!occurs_in(idle, ord));
    assert(!occurs_in(spk, ord));
    assert(!occurs_in(spk, idle));
    lemma_occurs_in_self(idle);
    lemma_occurs_in_self(spk);
    lemma_occurs_in_self(ord);
    lemma_rule_step(uid, ord, idle, spk, uid, i);
    lemma_rule_step(i, ord, idle, spk, idle, d);
    lemma_rule_step(i, ord, d, spk, spk, s);
    lemma_rule_step(i, ord, d, s, ord, o);
    lemma_rule_text(i, o, d, s);
}

} // verus!
