//! Literal substring replacement over character sequences: the
//! specification of the scan, a verified implementation, and the laws
//! that characterise what the scan replaces and what it leaves alone.

use vstd::prelude::*;

verus! {

/// `needle` occurs somewhere in `hay` as a contiguous run.
pub open spec fn occurs(needle: Seq<char>, hay: Seq<char>) -> bool {
    exists|i: int|
        0 <= i && i + needle.len() <= hay.len() && #[trigger] hay.subrange(i, i + needle.len())
            == needle
}

/// The left-to-right, non-overlapping replacement of every literal
/// occurrence of `from` in `s` by `to`: the scan walks `s` from the
/// front; wherever `from` matches it emits `to` and resumes after the
/// match, otherwise it emits the character under the cursor. An empty
/// `from` matches at every character boundary, the two ends included.
pub open spec fn replace_all(s: Seq<char>, from: Seq<char>, to: Seq<char>) -> Seq<char>
    decreases s.len(),
{
    if from.len() == 0 {
        if s.len() == 0 {
            to
        } else {
            to + seq![s[0]] + replace_all(s.drop_first(), from, to)
        }
    } else if s.len() < from.len() {
        s
    } else if s.subrange(0, from.len() as int) == from {
        to + replace_all(s.skip(from.len() as int), from, to)
    } else {
        seq![s[0]] + replace_all(s.drop_first(), from, to)
    }
}

/// Collects the characters of a string slice.
pub(crate) fn str_chars(s: &str) -> (r: Vec<char>)
    ensures
        r@ == s@,
{
    let mut r: Vec<char> = Vec::new();
    for c in it: s.chars()
        invariant
            r@ == it.seq().take(it.index() as int),
            it.seq() == s@,
    {
        r.push(c);
    }
    proof {
        assert(r@ =~= s@);
    }
    r
}

/// Relies on `String`'s `FromIterator` impl in std: collecting an
/// iterator of characters builds the string of exactly those
/// characters, in order.
#[verifier::external_body]
pub(crate) fn chars_string(cs: &Vec<char>) -> (r: String)
    ensures
        r@ == cs@,
{
    cs.iter().collect()
}

/// Appends every character of `xs` to `out`, in order.
fn push_all(out: &mut Vec<char>, xs: &Vec<char>)
    ensures
        final(out)@ == old(out)@ + xs@,
{
    let mut j: usize = 0;
    while j < xs.len()
        invariant
            j <= xs.len(),
            out@ == old(out)@ + xs@.take(j as int),
        decreases xs.len() - j,
    {
        out.push(xs[j]);
        j += 1;
        proof {
            assert(old(out)@ + xs@.take(j as int) =~= (old(out)@ + xs@.take(j - 1)).push(
                xs@[j - 1],
            ));
        }
    }
    proof {
        assert(xs@.take(xs@.len() as int) =~= xs@);
    }
}

/// Whether `from` matches the characters of `s` starting at `i`.
fn token_matches_at(s: &Vec<char>, from: &Vec<char>, i: usize) -> (r: bool)
    requires
        i <= s@.len(),
    ensures
        r == (i + from@.len() <= s@.len() && s@.subrange(i as int, i + from@.len()) == from@),
{
    if from.len() > s.len() - i {
        return false;
    }
    let mut j: usize = 0;
    while j < from.len()
        invariant
            j <= from@.len(),
            i + from@.len() <= s@.len(),
            s@.len() <= usize::MAX,
            forall|k: int| 0 <= k < j ==> s@[i + k] == from@[k],
        decreases from.len() - j,
    {
        if s[i + j] != from[j] {
            proof {
                assert(s@.subrange(i as int, i + from@.len())[j as int] == s@[i + j]);
            }
            return false;
        }
        j += 1;
    }
    proof {
        assert(s@.subrange(i as int, i + from@.len()) =~= from@);
    }
    true
}

/// Unfolds the scan at a position where `from` matches.
proof fn lemma_replace_step_match(s: Seq<char>, from: Seq<char>, to: Seq<char>, i: int)
    requires
        from.len() > 0,
        0 <= i,
        i + from.len() <= s.len(),
        s.subrange(i, i + from.len()) == from,
    ensures
        replace_all(s.skip(i), from, to) == to + replace_all(s.skip(i + from.len()), from, to),
{
    let t = s.skip(i);
    assert(t.subrange(0, from.len() as int) =~= s.subrange(i, i + from.len()));
    assert(t.skip(from.len() as int) =~= s.skip(i + from.len()));
}

/// Unfolds the scan at a position where `from` does not match.
proof fn lemma_replace_step_char(s: Seq<char>, from: Seq<char>, to: Seq<char>, i: int)
    requires
        from.len() > 0,
        0 <= i < s.len(),
        !(i + from.len() <= s.len() && s.subrange(i, i + from.len()) == from),
    ensures
        replace_all(s.skip(i), from, to) == seq![s[i]] + replace_all(s.skip(i + 1), from, to),
{
    let t = s.skip(i);
    assert(t.drop_first() =~= s.skip(i + 1));
    if t.len() >= from.len() {
        assert(t.subrange(0, from.len() as int) =~= s.subrange(i, i + from.len()));
        assert(t =~= seq![s[i]] + t.drop_first());
    } else {
        assert(replace_all(t.drop_first(), from, to) == t.drop_first());
        assert(t =~= seq![s[i]] + t.drop_first());
    }
}

/// Unfolds the scan of an empty token at a character boundary.
proof fn lemma_replace_step_empty(s: Seq<char>, to: Seq<char>, i: int)
    requires
        0 <= i < s.len(),
    ensures
        replace_all(s.skip(i), Seq::<char>::empty(), to) == to + seq![s[i]] + replace_all(
            s.skip(i + 1),
            Seq::<char>::empty(),
            to,
        ),
{
    let t = s.skip(i);
    assert(t.drop_first() =~= s.skip(i + 1));
    assert(t[0] == s[i]);
}

/// Replaces, left to right and without overlap, every occurrence of
/// `from` in `s` by `to`.
pub(crate) fn replace_chars(s: &Vec<char>, from: &Vec<char>, to: &Vec<char>) -> (out: Vec<char>)
    ensures
        out@ == replace_all(s@, from@, to@),
{
    let mut out: Vec<char> = Vec::new();
    let mut i: usize = 0;
    proof {
        assert(s@.skip(0) =~= s@);
    }
    while i < s.len()
        invariant
            i <= s@.len(),
            out@ + replace_all(s@.skip(i as int), from@, to@) == replace_all(s@, from@, to@),
        decreases s@.len() - i,
    {
        if from.len() > 0 && token_matches_at(s, from, i) {
            proof {
                lemma_replace_step_match(s@, from@, to@, i as int);
            }
            push_all(&mut out, to);
            i += from.len();
        } else if from.len() == 0 {
            proof {
                lemma_replace_step_empty(s@, to@, i as int);
                assert(from@ =~= Seq::<char>::empty());
            }
            push_all(&mut out, to);
            out.push(s[i]);
            i += 1;
        } else {
            proof {
                lemma_replace_step_char(s@, from@, to@, i as int);
            }
            out.push(s[i]);
            i += 1;
        }
    }
    proof {
        assert(s@.skip(s@.len() as int) =~= Seq::<char>::empty());
    }
    if from.len() == 0 {
        push_all(&mut out, to);
    }
    out
}

/// Replaces, left to right and without overlap, every literal
/// occurrence of `from` in `source` by `to`, and returns the result as
/// a new string.
pub fn replace_literal(source: &str, from: &str, to: &str) -> (r: String)
    ensures
        r@ == replace_all(source@, from@, to@),
{
    let s = str_chars(source);
    let f = str_chars(from);
    let t = str_chars(to);
    let out = replace_chars(&s, &f, &t);
    chars_string(&out)
}

/// The greedy left-to-right split of `s` on the token `from`: the runs
/// of characters that the scan of `replace_all` leaves untouched, in
/// order, one run between every two consumed matches and one at each
/// end. A token never recognised (or empty) leaves the whole text as
/// the single run.
pub open spec fn split_on(s: Seq<char>, from: Seq<char>) -> Seq<Seq<char>>
    decreases s.len(),
{
    if from.len() == 0 {
        seq![s]
    } else if s.len() < from.len() {
        seq![s]
    } else if s.subrange(0, from.len() as int) == from {
        seq![Seq::<char>::empty()] + split_on(s.skip(from.len() as int), from)
    } else {
        let rest = split_on(s.drop_first(), from);
        rest.update(0, seq![s[0]] + rest[0])
    }
}

/// The runs interleaved with a separator: run, separator, run, and so
/// on, ending with the last run.
pub open spec fn join_with(parts: Seq<Seq<char>>, sep: Seq<char>) -> Seq<char>
    decreases parts.len(),
{
    if parts.len() == 0 {
        Seq::empty()
    } else if parts.len() == 1 {
        parts[0]
    } else {
        parts[0] + sep + join_with(parts.drop_first(), sep)
    }
}

proof fn lemma_split_on_len(s: Seq<char>, from: Seq<char>)
    ensures
        split_on(s, from).len() >= 1,
    decreases s.len(),
{
    if from.len() == 0 || s.len() < from.len() {
    } else if s.subrange(0, from.len() as int) == from {
        lemma_split_on_len(s.skip(from.len() as int), from);
    } else {
        lemma_split_on_len(s.drop_first(), from);
    }
}

proof fn lemma_split_on_first_is_prefix(s: Seq<char>, from: Seq<char>)
    requires
        from.len() > 0,
    ensures
        split_on(s, from)[0].len() <= s.len(),
        split_on(s, from)[0] == s.subrange(0, split_on(s, from)[0].len() as int),
    decreases s.len(),
{
    if s.len() < from.len() {
        assert(s.subrange(0, s.len() as int) =~= s);
    } else if s.subrange(0, from.len() as int) == from {
        assert(s.subrange(0, 0) =~= Seq::<char>::empty());
    } else {
        lemma_split_on_first_is_prefix(s.drop_first(), from);
        lemma_split_on_len(s.drop_first(), from);
        let rest = split_on(s.drop_first(), from);
        assert(seq![s[0]] + rest[0] =~= s.subrange(0, rest[0].len() as int + 1));
    }
}

/// Rejoining the untouched runs with the token itself rebuilds the
/// source exactly: the scan moves no character that is not part of a
/// consumed match.
pub proof fn lemma_split_rejoins_text(s: Seq<char>, from: Seq<char>)
    requires
        from.len() > 0,
    ensures
        join_with(split_on(s, from), from) == s,
    decreases s.len(),
{
    if s.len() < from.len() {
    } else if s.subrange(0, from.len() as int) == from {
        lemma_split_rejoins_text(s.skip(from.len() as int), from);
        lemma_split_on_len(s.skip(from.len() as int), from);
        let parts = split_on(s, from);
        assert(parts.drop_first() =~= split_on(s.skip(from.len() as int), from));
        assert(Seq::<char>::empty() + from + s.skip(from.len() as int) =~= s);
    } else {
        lemma_split_rejoins_text(s.drop_first(), from);
        lemma_split_on_len(s.drop_first(), from);
        let rest = split_on(s.drop_first(), from);
        let parts = split_on(s, from);
        if rest.len() == 1 {
            assert(parts.len() == 1);
            assert(seq![s[0]] + rest[0] =~= s);
        } else {
            assert(parts.drop_first() =~= rest.drop_first());
            assert((seq![s[0]] + rest[0]) + from + join_with(rest.drop_first(), from) =~= seq![
                s[0],
            ] + (rest[0] + from + join_with(rest.drop_first(), from)));
            assert(seq![s[0]] + s.drop_first() =~= s);
        }
    }
}

/// The replacement is exactly the untouched runs rejoined with the new
/// value: every consumed match of the token, and nothing else, turns
/// into one copy of `to`.
pub proof fn lemma_replace_joins_runs(s: Seq<char>, from: Seq<char>, to: Seq<char>)
    requires
        from.len() > 0,
    ensures
        replace_all(s, from, to) == join_with(split_on(s, from), to),
    decreases s.len(),
{
    if s.len() < from.len() {
    } else if s.subrange(0, from.len() as int) == from {
        lemma_replace_joins_runs(s.skip(from.len() as int), from, to);
        lemma_split_on_len(s.skip(from.len() as int), from);
        let parts = split_on(s, from);
        assert(parts.drop_first() =~= split_on(s.skip(from.len() as int), from));
        assert(Seq::<char>::empty() + to + replace_all(s.skip(from.len() as int), from, to) =~= to
            + replace_all(s.skip(from.len() as int), from, to));
    } else {
        lemma_replace_joins_runs(s.drop_first(), from, to);
        lemma_split_on_len(s.drop_first(), from);
        let rest = split_on(s.drop_first(), from);
        let parts = split_on(s, from);
        if rest.len() == 1 {
            assert(parts.len() == 1);
        } else {
            assert(parts.drop_first() =~= rest.drop_first());
            assert((seq![s[0]] + rest[0]) + to + join_with(rest.drop_first(), to) =~= seq![s[0]]
                + (rest[0] + to + join_with(rest.drop_first(), to)));
        }
    }
}

/// No untouched run holds an occurrence of the token: the scan
/// replaces every occurrence it can reach, leaving none behind between
/// the matches it consumed.
pub proof fn lemma_runs_hold_no_token(s: Seq<char>, from: Seq<char>)
    requires
        from.len() > 0,
    ensures
        forall|i: int|
            0 <= i < split_on(s, from).len() ==> !occurs(from, #[trigger] split_on(s, from)[i]),
    decreases s.len(),
{
    let parts = split_on(s, from);
    if s.len() < from.len() {
        assert(!occurs(from, s));
    } else if s.subrange(0, from.len() as int) == from {
        lemma_runs_hold_no_token(s.skip(from.len() as int), from);
        let sub = split_on(s.skip(from.len() as int), from);
        assert(!occurs(from, Seq::<char>::empty()));
        assert forall|i: int| 0 <= i < parts.len() implies !occurs(from, #[trigger] parts[i]) by {
            if i >= 1 {
                assert(parts[i] == sub[i - 1]);
            }
        }
    } else {
        lemma_runs_hold_no_token(s.drop_first(), from);
        lemma_split_on_len(s.drop_first(), from);
        lemma_split_on_first_is_prefix(s.drop_first(), from);
        let rest = split_on(s.drop_first(), from);
        let head = seq![s[0]] + rest[0];
        assert(!occurs(from, head)) by {
            if occurs(from, head) {
                let j = choose|j: int|
                    0 <= j && j + from.len() <= head.len() && #[trigger] head.subrange(
                        j,
                        j + from.len(),
                    ) == from;
                if j == 0 {
                    assert(head.subrange(0, from.len() as int) =~= s.subrange(
                        0,
                        from.len() as int,
                    ));
                } else {
                    assert(head.subrange(j, j + from.len()) =~= rest[0].subrange(
                        j - 1,
                        j - 1 + from.len(),
                    ));
                    assert(occurs(from, rest[0]));
                }
            }
        }
        assert forall|i: int| 0 <= i < parts.len() implies !occurs(from, #[trigger] parts[i]) by {
            if i >= 1 {
                assert(parts[i] == rest[i]);
            }
        }
    }
}

/// A token that does not occur in the text is a no-op: the replacement
/// leaves the text unchanged.
pub proof fn lemma_absent_token_keeps_text(s: Seq<char>, from: Seq<char>, to: Seq<char>)
    requires
        from.len() > 0,
        !occurs(from, s),
    ensures
        replace_all(s, from, to) == s,
    decreases s.len(),
{
    if s.len() < from.len() {
    } else if s.subrange(0, from.len() as int) == from {
        assert(s.subrange(0, 0 + from.len() as int) == from);
        assert(occurs(from, s));
    } else {
        assert(!occurs(from, s.drop_first())) by {
            if occurs(from, s.drop_first()) {
                let j = choose|j: int|
                    0 <= j && j + from.len() <= s.drop_first().len()
                        && #[trigger] s.drop_first().subrange(j, j + from.len()) == from;
                assert(s.subrange(j + 1, j + 1 + from.len()) =~= s.drop_first().subrange(
                    j,
                    j + from.len(),
                ));
            }
        }
        lemma_absent_token_keeps_text(s.drop_first(), from, to);
        assert(seq![s[0]] + s.drop_first() =~= s);
    }
}

/// The scan consumes a match if and only if the token occurs in the
/// text at all: a text with an occurrence never goes through unchanged,
/// and one without is split into a single untouched run.
pub proof fn lemma_scan_finds_token(s: Seq<char>, from: Seq<char>)
    requires
        from.len() > 0,
    ensures
        occurs(from, s) <==> split_on(s, from).len() >= 2,
    decreases s.len(),
{
    lemma_split_on_len(s, from);
    if s.len() < from.len() {
        assert(!occurs(from, s));
    } else if s.subrange(0, from.len() as int) == from {
        lemma_split_on_len(s.skip(from.len() as int), from);
        assert(s.subrange(0, 0 + from.len() as int) == from);
        assert(occurs(from, s));
    } else {
        lemma_scan_finds_token(s.drop_first(), from);
        lemma_split_on_len(s.drop_first(), from);
        assert(occurs(from, s) <==> occurs(from, s.drop_first())) by {
            if occurs(from, s.drop_first()) {
                let j = choose|j: int|
                    0 <= j && j + from.len() <= s.drop_first().len()
                        && #[trigger] s.drop_first().subrange(j, j + from.len()) == from;
                assert(s.subrange(j + 1, j + 1 + from.len()) =~= s.drop_first().subrange(
                    j,
                    j + from.len(),
                ));
            }
            if occurs(from, s) {
                let j = choose|j: int|
                    0 <= j && j + from.len() <= s.len() && #[trigger] s.subrange(j, j + from.len())
                        == from;
                assert(j != 0);
                assert(s.drop_first().subrange(j - 1, j - 1 + from.len()) =~= s.subrange(
                    j,
                    j + from.len(),
                ));
            }
        }
    }
}

/// No character of `a` appears anywhere in `b`.
pub open spec fn char_disjoint(a: Seq<char>, b: Seq<char>) -> bool {
    forall|i: int, j: int|
        0 <= i < a.len() && 0 <= j < b.len() ==> #[trigger] a[i] != #[trigger] b[j]
}

proof fn lemma_replace_skips_disjoint_prefix(
    sep: Seq<char>,
    y: Seq<char>,
    k: Seq<char>,
    v: Seq<char>,
)
    requires
        k.len() > 0,
        char_disjoint(sep, k),
    ensures
        replace_all(sep + y, k, v) == sep + replace_all(y, k, v),
    decreases sep.len(),
{
    let s = sep + y;
    if sep.len() == 0 {
        assert(s =~= y);
        assert(sep + replace_all(y, k, v) =~= replace_all(y, k, v));
    } else if s.len() < k.len() {
        assert(y.len() < k.len());
        assert(replace_all(y, k, v) == y);
    } else {
        if s.subrange(0, k.len() as int) == k {
            assert(s.subrange(0, k.len() as int)[0] == s[0]);
            assert(s[0] == sep[0]);
            assert(false);
        }
        assert(s.drop_first() =~= sep.drop_first() + y);
        assert(char_disjoint(sep.drop_first(), k)) by {
            assert forall|i: int, j: int|
                0 <= i < sep.drop_first().len() && 0 <= j < k.len() implies #[trigger] sep
                .drop_first()[i] != #[trigger] k[j] by {
                assert(sep.drop_first()[i] == sep[i + 1]);
            }
        }
        lemma_replace_skips_disjoint_prefix(sep.drop_first(), y, k, v);
        assert(seq![s[0]] + (sep.drop_first() + replace_all(y, k, v)) =~= sep + replace_all(
            y,
            k,
            v,
        ));
    }
}

/// The scan of a concatenation splits at a separator that shares no
/// character with the token: no match can cover any separator
/// character, so each side is scanned on its own.
pub proof fn lemma_replace_distributes(
    x: Seq<char>,
    sep: Seq<char>,
    y: Seq<char>,
    k: Seq<char>,
    v: Seq<char>,
)
    requires
        k.len() > 0,
        sep.len() > 0,
        char_disjoint(sep, k),
    ensures
        replace_all(x + sep + y, k, v) == replace_all(x, k, v) + sep + replace_all(y, k, v),
    decreases x.len(),
{
    let s = x + sep + y;
    if x.len() == 0 {
        assert(s =~= sep + y);
        lemma_replace_skips_disjoint_prefix(sep, y, k, v);
        assert(replace_all(x, k, v) == x);
        assert(x + sep + replace_all(y, k, v) =~= sep + replace_all(y, k, v));
    } else if s.len() < k.len() {
        assert(x.len() < k.len());
        assert(y.len() < k.len());
        assert(replace_all(x, k, v) == x);
        assert(replace_all(y, k, v) == y);
    } else if k.len() <= x.len() && x.subrange(0, k.len() as int) == k {
        assert(s.subrange(0, k.len() as int) =~= x.subrange(0, k.len() as int));
        assert(s.skip(k.len() as int) =~= x.skip(k.len() as int) + sep + y);
        lemma_replace_distributes(x.skip(k.len() as int), sep, y, k, v);
        assert(v + (replace_all(x.skip(k.len() as int), k, v) + sep + replace_all(y, k, v)) =~= (v
            + replace_all(x.skip(k.len() as int), k, v)) + sep + replace_all(y, k, v));
    } else {
        if s.subrange(0, k.len() as int) == k {
            if k.len() <= x.len() {
                assert(s.subrange(0, k.len() as int) =~= x.subrange(0, k.len() as int));
            } else {
                assert(s.subrange(0, k.len() as int)[x.len() as int] == s[x.len() as int]);
                assert(s[x.len() as int] == sep[0]);
            }
            assert(false);
        }
        assert(s.drop_first() =~= x.drop_first() + sep + y);
        lemma_replace_distributes(x.drop_first(), sep, y, k, v);
        if x.len() < k.len() {
            assert(replace_all(x, k, v) == x);
            assert(replace_all(x.drop_first(), k, v) == x.drop_first());
            assert(seq![s[0]] + (x.drop_first() + sep + replace_all(y, k, v)) =~= x + sep
                + replace_all(y, k, v));
        } else {
            assert(x.subrange(0, k.len() as int) == k ==> false) by {
                if x.subrange(0, k.len() as int) == k {
                }
            }
            assert(seq![s[0]] + (replace_all(x.drop_first(), k, v) + sep + replace_all(y, k, v))
                =~= (seq![x[0]] + replace_all(x.drop_first(), k, v)) + sep + replace_all(y, k, v));
        }
    }
}

/// The scan distributes over a whole joined decomposition whose
/// separator shares no character with the token: the token is replaced
/// inside each run, and the separators stand untouched.
pub proof fn lemma_replace_distributes_over_join(
    parts: Seq<Seq<char>>,
    sep: Seq<char>,
    k: Seq<char>,
    v: Seq<char>,
)
    requires
        k.len() > 0,
        sep.len() > 0,
        char_disjoint(sep, k),
    ensures
        replace_all(join_with(parts, sep), k, v) == join_with(
            parts.map_values(|p: Seq<char>| replace_all(p, k, v)),
            sep,
        ),
    decreases parts.len(),
{
    let mapped = parts.map_values(|p: Seq<char>| replace_all(p, k, v));
    if parts.len() == 0 {
        assert(replace_all(Seq::<char>::empty(), k, v) == Seq::<char>::empty());
    } else if parts.len() == 1 {
        assert(mapped[0] == replace_all(parts[0], k, v));
    } else {
        assert(mapped[0] == replace_all(parts[0], k, v));
        assert(mapped.drop_first() =~= parts.drop_first().map_values(
            |p: Seq<char>| replace_all(p, k, v),
        ));
        lemma_replace_distributes(parts[0], sep, join_with(parts.drop_first(), sep), k, v);
        lemma_replace_distributes_over_join(parts.drop_first(), sep, k, v);
    }
}

} // verus!
