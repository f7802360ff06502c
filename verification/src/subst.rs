//! The substitution routine: parse the variables document, then replace
//! every key of the table in the source text by its value, escaped for
//! HTML when the mode asks for it.

use vstd::prelude::*;
use crate::text::{
    replace_all, replace_chars, str_chars, chars_string, occurs, split_on, join_with,
    char_disjoint, lemma_absent_token_keeps_text, lemma_replace_joins_runs,
    lemma_replace_distributes_over_join,
};
use crate::vars::{VarsError, vars_table, decode_vars};

verus! {

/// The HTML escaping of one character: `&`, `<` and `>` become entity
/// references, every other character stands unchanged.
pub open spec fn escape_char(c: char) -> Seq<char> {
    if c == '&' {
        seq!['&', 'a', 'm', 'p', ';']
    } else if c == '<' {
        seq!['&', 'l', 't', ';']
    } else if c == '>' {
        seq!['&', 'g', 't', ';']
    } else {
        seq![c]
    }
}

/// The HTML escaping of a text, character by character.
pub open spec fn escape_html(s: Seq<char>) -> Seq<char>
    decreases s.len(),
{
    if s.len() == 0 {
        Seq::empty()
    } else {
        escape_char(s[0]) + escape_html(s.drop_first())
    }
}

/// Whether an encoding-mode string selects HTML escaping. Any mode
/// other than `html` inserts values verbatim.
pub open spec fn html_mode(mode: Seq<char>) -> bool {
    mode == "html"@
}

/// The value inserted for a pair's value text under a mode.
pub open spec fn inserted_value(value: Seq<char>, html: bool) -> Seq<char> {
    if html {
        escape_html(value)
    } else {
        value
    }
}

/// Substitutes the pairs into `s` one after the other, in the order the
/// table lists them: each key's occurrences are replaced by its value,
/// escaped when `html` holds.
pub open spec fn subst_pairs(s: Seq<char>, pairs: Seq<(Seq<char>, Seq<char>)>, html: bool) -> Seq<
    char,
>
    decreases pairs.len(),
{
    if pairs.len() == 0 {
        s
    } else {
        subst_pairs(
            replace_all(s, pairs[0].0, inserted_value(pairs[0].1, html)),
            pairs.drop_first(),
            html,
        )
    }
}

/// What `replace_tokens` returns: the source with every key of the
/// decoded table substituted, or the reason the variables document was
/// rejected.
pub open spec fn spec_replace_tokens(
    source: Seq<char>,
    vars: Seq<char>,
    encode_as: Seq<char>,
) -> Result<Seq<char>, VarsError> {
    match vars_table(vars) {
        Ok(pairs) => Ok(subst_pairs(source, pairs, html_mode(encode_as))),
        Err(e) => Err(e),
    }
}

/// Relies on `html_escape::encode_text`: it rewrites `&` to `&amp;`,
/// `<` to `&lt;` and `>` to `&gt;`, and keeps every other character.
#[verifier::external_body]
fn escape_text(s: &str) -> (r: String)
    ensures
        r@ == escape_html(s@),
{
    html_escape::encode_text(s).into_owned()
}

/// Whether the encoding-mode string is exactly `html`.
fn is_html(encode_as: &str) -> (r: bool)
    ensures
        r == html_mode(encode_as@),
{
    let cs = str_chars(encode_as);
    proof {
        reveal_strlit("html");
    }
    let r = cs.len() == 4 && cs[0] == 'h' && cs[1] == 't' && cs[2] == 'm' && cs[3] == 'l';
    proof {
        if r {
            assert(cs@ =~= "html"@);
        }
    }
    r
}

/// Substitutes a table of key/value pairs into `source`, one pair
/// after the other in the order given: each key's occurrences are
/// replaced by its value, HTML-escaped first when `html` holds.
pub fn substitute(source: &str, pairs: &Vec<(String, String)>, html: bool) -> (r: String)
    ensures
        r@ == subst_pairs(source@, pairs@.map_values(|p: (String, String)| (p.0@, p.1@)), html),
{
    let ghost gpairs = pairs@.map_values(|p: (String, String)| (p.0@, p.1@));
    let mut cur: Vec<char> = str_chars(source);
    proof {
        assert(gpairs.skip(0) =~= gpairs);
    }
    let mut i: usize = 0;
    while i < pairs.len()
        invariant
            i <= pairs@.len(),
            gpairs == pairs@.map_values(|p: (String, String)| (p.0@, p.1@)),
            subst_pairs(cur@, gpairs.skip(i as int), html) == subst_pairs(source@, gpairs, html),
        decreases pairs@.len() - i,
    {
        let key = str_chars(pairs[i].0.as_str());
        let val = if html {
            let escaped = escape_text(pairs[i].1.as_str());
            str_chars(escaped.as_str())
        } else {
            str_chars(pairs[i].1.as_str())
        };
        proof {
            assert(gpairs[i as int] == (pairs@[i as int].0@, pairs@[i as int].1@));
            assert(gpairs.skip(i as int)[0] == gpairs[i as int]);
            assert(gpairs.skip(i as int).drop_first() =~= gpairs.skip(i + 1));
        }
        cur = replace_chars(&cur, &key, &val);
        i += 1;
    }
    proof {
        assert(gpairs.skip(pairs@.len() as int) =~= Seq::<(Seq<char>, Seq<char>)>::empty());
    }
    chars_string(&cur)
}

/// Finds every key of the JSON-encoded variables table in `source` and
/// replaces its occurrences with the associated value; with mode `html`
/// the value is HTML-escaped first, with any other mode it is inserted
/// verbatim. Keys are processed in the order the decoded table yields
/// them. Fails, without touching the source, when the document is not
/// JSON, lacks a `vars` field, or maps a key to anything but a string.
pub fn replace_tokens(source: &str, vars: &str, encode_as: &str) -> (r: Result<String, VarsError>)
    ensures
        match (r, spec_replace_tokens(source@, vars@, encode_as@)) {
            (Ok(out), Ok(text)) => out@ == text,
            (Err(e), Err(f)) => e == f,
            _ => false,
        },
{
    let pairs = match decode_vars(vars) {
        Ok(p) => p,
        Err(e) => return Err(e),
    };
    let html = is_html(encode_as);
    Ok(substitute(source, &pairs, html))
}

/// A whole table of keys that do not occur in the text is a no-op: the
/// substitution returns the text unchanged, in either mode.
pub proof fn lemma_absent_keys_keep_text(s: Seq<char>, pairs: Seq<(Seq<char>, Seq<char>)>, html: bool)
    requires
        forall|i: int|
            0 <= i < pairs.len() ==> (#[trigger] pairs[i].0).len() > 0 && !occurs(pairs[i].0, s),
    ensures
        subst_pairs(s, pairs, html) == s,
    decreases pairs.len(),
{
    if pairs.len() == 0 {
    } else {
        lemma_absent_token_keeps_text(s, pairs[0].0, inserted_value(pairs[0].1, html));
        assert(forall|i: int|
            0 <= i < pairs.drop_first().len() ==> pairs.drop_first()[i] == pairs[i + 1]);
        lemma_absent_keys_keep_text(s, pairs.drop_first(), html);
    }
}

/// Two fully disjoint pairs substitute independently: when the second
/// key shares no character with the first pair's inserted value, the
/// result is the first key's untouched runs, each with the second key
/// replaced inside it, rejoined with the first value. Together with the
/// laws on `split_on` this shows the keys acting on the source side by
/// side, neither disturbing the other's material.
pub proof fn lemma_disjoint_pairs_substitute_independently(
    s: Seq<char>,
    k1: Seq<char>,
    v1: Seq<char>,
    k2: Seq<char>,
    v2: Seq<char>,
)
    requires
        k1.len() > 0,
        k2.len() > 0,
        v1.len() > 0,
        char_disjoint(v1, k2),
    ensures
        subst_pairs(s, seq![(k1, v1), (k2, v2)], false) == join_with(
            split_on(s, k1).map_values(|p: Seq<char>| replace_all(p, k2, v2)),
            v1,
        ),
{
    let pairs = seq![(k1, v1), (k2, v2)];
    assert(pairs.drop_first() =~= seq![(k2, v2)]);
    assert(seq![(k2, v2)].drop_first() =~= Seq::<(Seq<char>, Seq<char>)>::empty());
    let t1 = replace_all(s, k1, v1);
    let t2 = replace_all(t1, k2, v2);
    assert(pairs[0] == (k1, v1));
    assert(subst_pairs(s, pairs, false) == subst_pairs(t1, pairs.drop_first(), false));
    assert(seq![(k2, v2)][0] == (k2, v2));
    assert(subst_pairs(t1, seq![(k2, v2)], false) == subst_pairs(
        t2,
        seq![(k2, v2)].drop_first(),
        false,
    ));
    assert(subst_pairs(t2, Seq::<(Seq<char>, Seq<char>)>::empty(), false) == t2);
    assert(subst_pairs(s, pairs, false) == t2);
    lemma_replace_joins_runs(s, k1, v1);
    lemma_replace_distributes_over_join(split_on(s, k1), v1, k2, v2);
}

/// With mode `html` the substitution behaves exactly as the verbatim
/// mode does on a table whose values were HTML-escaped first: escaping
/// the inserted values is all the mode changes.
pub proof fn lemma_html_mode_escapes_values(s: Seq<char>, pairs: Seq<(Seq<char>, Seq<char>)>)
    ensures
        subst_pairs(s, pairs, true) == subst_pairs(
            s,
            pairs.map_values(|p: (Seq<char>, Seq<char>)| (p.0, escape_html(p.1))),
            false,
        ),
    decreases pairs.len(),
{
    let mapped = pairs.map_values(|p: (Seq<char>, Seq<char>)| (p.0, escape_html(p.1)));
    if pairs.len() == 0 {
    } else {
        assert(mapped[0] == (pairs[0].0, escape_html(pairs[0].1)));
        assert(mapped.drop_first() =~= pairs.drop_first().map_values(
            |p: (Seq<char>, Seq<char>)| (p.0, escape_html(p.1)),
        ));
        lemma_html_mode_escapes_values(
            replace_all(s, pairs[0].0, escape_html(pairs[0].1)),
            pairs.drop_first(),
        );
    }
}

/// The law above lifted to the whole routine: when the variables
/// document decodes, running with mode `html` returns what the verbatim
/// mode returns on the table with escaped values.
pub proof fn lemma_replace_tokens_html_as_txt(source: Seq<char>, vars: Seq<char>)
    requires
        vars_table(vars) is Ok,
    ensures
        spec_replace_tokens(source, vars, "html"@) == Ok::<_, VarsError>(
            subst_pairs(
                source,
                (vars_table(vars)->Ok_0).map_values(
                    |p: (Seq<char>, Seq<char>)| (p.0, escape_html(p.1)),
                ),
                false,
            ),
        ),
{
    lemma_html_mode_escapes_values(source, vars_table(vars)->Ok_0);
}

} // verus!
