//! The template substitution engine.
//!
//! A format string is read as a sequence of tokens: single literal
//! characters and placeholders written `{{name}}`, where `name` contains
//! neither `{` nor `}`.  Generation walks the tokens once, left to right,
//! and replaces each placeholder whose class the bank knows with an
//! independently chosen random word of that class.  A placeholder for an
//! unknown class is kept verbatim; a placeholder for a known class with an
//! empty word list makes the whole generation fail.  Because the format is
//! tokenized once, text introduced by a substituted word is never scanned
//! again, so generation always terminates.

use vstd::prelude::*;

use crate::text::{push_char, str_to_chars};
use crate::word_bank::WordBank;

verus! {

/// One parsed element of a format string: a single character of literal
/// text, or a `{{name}}` placeholder.
pub enum Tok {
    /// One character of literal text.
    Lit { ch: char },
    /// A placeholder for the word class called `name`.
    Ph { name: Seq<char> },
}

pub open spec fn lit_tok(c: char) -> Tok {
    Tok::Lit { ch: c }
}

pub open spec fn ph_tok(name: Seq<char>) -> Tok {
    Tok::Ph { name }
}

pub open spec fn is_brace(c: char) -> bool {
    c == '{' || c == '}'
}

/// The position of the first `{` or `}` at or after `j`, if any.
pub open spec fn scan_stop(s: Seq<char>, j: nat) -> Option<int>
    decreases s.len() - j,
{
    if j >= s.len() {
        None
    } else if is_brace(s[j as int]) {
        Some(j as int)
    } else {
        scan_stop(s, j + 1)
    }
}

/// If the string begins with a placeholder `{{name}}`, the index just past
/// the closing braces; `None` otherwise.
pub open spec fn head_ph_end(s: Seq<char>) -> Option<int> {
    if s.len() >= 4 && s[0] == '{' && s[1] == '{' {
        match scan_stop(s, 2) {
            Some(k) => if 2 <= k && k + 1 < s.len() && s[k] == '}' && s[k + 1] == '}' {
                Some(k + 2)
            } else {
                None
            },
            None => None,
        }
    } else {
        None
    }
}

/// The tokens of a format string, scanned left to right.  At each position,
/// a well-formed placeholder is taken whole; any other character stands for
/// itself.
pub open spec fn tokens_of(s: Seq<char>) -> Seq<Tok>
    decreases s.len(),
{
    if s.len() == 0 {
        Seq::empty()
    } else if head_ph_end(s) is Some {
        let e = head_ph_end(s)->0;
        seq![ph_tok(s.subrange(2, e - 2))] + tokens_of(s.subrange(e, s.len() as int))
    } else {
        seq![lit_tok(s[0])] + tokens_of(s.subrange(1, s.len() as int))
    }
}

/// The exact source text that a token stands for in the format string.
pub open spec fn tok_src(t: Tok) -> Seq<char> {
    match t {
        Tok::Lit { ch } => seq![ch],
        Tok::Ph { name } => seq!['{', '{'] + name + seq!['}', '}'],
    }
}

/// The source text of a whole token sequence.
pub open spec fn toks_src(ts: Seq<Tok>) -> Seq<char>
    decreases ts.len(),
{
    if ts.len() == 0 {
        Seq::empty()
    } else {
        tok_src(ts[0]) + toks_src(ts.drop_first())
    }
}

/// What scanning guarantees: the position that `scan_stop` reports holds a
/// brace and no earlier position at or after `j` does.
pub proof fn lemma_scan_stop(s: Seq<char>, j: nat)
    requires
        j <= s.len(),
    ensures
        match scan_stop(s, j) {
            Some(k) => j <= k < s.len() && is_brace(s[k]) && forall|m: int|
                j <= m < k ==> !is_brace(s[m]),
            None => forall|m: int| j <= m < s.len() ==> !is_brace(s[m]),
        },
    decreases s.len() - j,
{
    if j < s.len() && !is_brace(s[j as int]) {
        lemma_scan_stop(s, j + 1);
    }
}

/// A placeholder at the head covers exactly the text `{{name}}`.
pub proof fn lemma_head_ph_src(s: Seq<char>)
    requires
        head_ph_end(s) is Some,
    ensures
        4 <= head_ph_end(s)->0 <= s.len(),
        tok_src(ph_tok(s.subrange(2, head_ph_end(s)->0 - 2))) =~= s.subrange(
            0,
            head_ph_end(s)->0,
        ),
{
    let e = head_ph_end(s)->0;
    assert(s[e - 2] == '}' && s[e - 1] == '}');
}

/// Tokenization loses nothing: the source texts of the tokens, in order,
/// give back the format string.
pub proof fn lemma_toks_src_of_tokens(s: Seq<char>)
    ensures
        toks_src(tokens_of(s)) == s,
    decreases s.len(),
{
    if s.len() == 0 {
        assert(toks_src(tokens_of(s)) =~= s);
    } else if head_ph_end(s) is Some {
        let e = head_ph_end(s)->0;
        let t = ph_tok(s.subrange(2, e - 2));
        let rest = s.subrange(e, s.len() as int);
        lemma_toks_src_of_tokens(rest);
        lemma_head_ph_src(s);
        assert(tokens_of(s) == seq![t] + tokens_of(rest));
        assert((seq![t] + tokens_of(rest))[0] == t);
        assert((seq![t] + tokens_of(rest)).drop_first() =~= tokens_of(rest));
        assert(tok_src(t) + rest =~= s);
    } else {
        let t = lit_tok(s[0]);
        let rest = s.subrange(1, s.len() as int);
        lemma_toks_src_of_tokens(rest);
        assert(tokens_of(s) == seq![t] + tokens_of(rest));
        assert((seq![t] + tokens_of(rest))[0] == t);
        assert((seq![t] + tokens_of(rest)).drop_first() =~= tokens_of(rest));
        assert(tok_src(t) + rest =~= s);
    }
}

/// How one token reads after substitution: a literal keeps its character,
/// a placeholder for a known class becomes the word that `pick` selects,
/// and a placeholder for an unknown class keeps its source text.
pub open spec fn subst_tok(t: Tok, bank: Map<Seq<char>, Seq<Seq<char>>>, pick: int) -> Seq<char> {
    match t {
        Tok::Lit { ch } => seq![ch],
        Tok::Ph { name } => if bank.contains_key(name) {
            bank[name][pick]
        } else {
            tok_src(t)
        },
    }
}

/// Whether the pick at position `i` is a valid index into the word list of
/// the class that the token there names, when it names a known class.
pub open spec fn pick_ok_at(
    ts: Seq<Tok>,
    bank: Map<Seq<char>, Seq<Seq<char>>>,
    picks: Seq<int>,
    i: int,
) -> bool {
    match ts[i] {
        Tok::Lit { .. } => true,
        Tok::Ph { name } => bank.contains_key(name) ==> 0 <= picks[i] < bank[name].len(),
    }
}

/// Whether `picks` selects, for every placeholder over a known class, a
/// valid index into that class's word list.
pub open spec fn picks_ok(
    ts: Seq<Tok>,
    bank: Map<Seq<char>, Seq<Seq<char>>>,
    picks: Seq<int>,
) -> bool {
    &&& picks.len() == ts.len()
    &&& forall|i: int| 0 <= i < ts.len() ==> #[trigger] pick_ok_at(ts, bank, picks, i)
}

/// The text that a token sequence reads as once every token is substituted
/// according to `picks`.
pub open spec fn subst(
    ts: Seq<Tok>,
    bank: Map<Seq<char>, Seq<Seq<char>>>,
    picks: Seq<int>,
) -> Seq<char>
    decreases ts.len(),
{
    if ts.len() == 0 {
        Seq::empty()
    } else {
        subst_tok(ts[0], bank, picks[0]) + subst(ts.drop_first(), bank, picks.drop_first())
    }
}

/// The token at position `i` names a class the bank knows whose word list
/// is empty.
pub open spec fn ph_empty_at(ts: Seq<Tok>, bank: Map<Seq<char>, Seq<Seq<char>>>, i: int) -> bool {
    match ts[i] {
        Tok::Lit { .. } => false,
        Tok::Ph { name } => bank.contains_key(name) && bank[name].len() == 0,
    }
}

/// Some placeholder of the token sequence names a known class with an
/// empty word list.
pub open spec fn refs_empty_class(ts: Seq<Tok>, bank: Map<Seq<char>, Seq<Seq<char>>>) -> bool {
    exists|i: int| 0 <= i < ts.len() && #[trigger] ph_empty_at(ts, bank, i)
}

/// Generation succeeds exactly when no placeholder of the format names a
/// known class whose word list is empty.
pub open spec fn generation_ok(format: Seq<char>, bank: Map<Seq<char>, Seq<Seq<char>>>) -> bool {
    !refs_empty_class(tokens_of(format), bank)
}

/// `out` is a possible result of expanding `format` over `bank`: every
/// placeholder for a known class is replaced by some word of that class,
/// and everything else is kept as it stands.
pub open spec fn is_expansion(
    format: Seq<char>,
    bank: Map<Seq<char>, Seq<Seq<char>>>,
    out: Seq<char>,
) -> bool {
    exists|picks: Seq<int>|
        #[trigger] picks_ok(tokens_of(format), bank, picks) && out == subst(
            tokens_of(format),
            bank,
            picks,
        )
}

pub open spec fn tok_is_ph(t: Tok) -> bool {
    t is Ph
}

/// The format contains at least one placeholder token.
pub open spec fn has_placeholder(s: Seq<char>) -> bool {
    exists|i: int| 0 <= i < tokens_of(s).len() && tok_is_ph(#[trigger] tokens_of(s)[i])
}

/// Substitution of one more token appends that token's substituted text.
pub proof fn lemma_subst_snoc(
    ts: Seq<Tok>,
    bank: Map<Seq<char>, Seq<Seq<char>>>,
    picks: Seq<int>,
    t: Tok,
    p: int,
)
    requires
        picks.len() == ts.len(),
    ensures
        subst(ts.push(t), bank, picks.push(p)) == subst(ts, bank, picks) + subst_tok(t, bank, p),
    decreases ts.len(),
{
    let lhs = subst(ts.push(t), bank, picks.push(p));
    if ts.len() == 0 {
        assert(ts.push(t)[0] == t);
        assert(picks.push(p)[0] == p);
        assert(ts.push(t).drop_first() =~= ts);
        assert(picks.push(p).drop_first() =~= picks);
        assert(subst(ts, bank, picks) =~= Seq::<char>::empty());
        assert(lhs == subst_tok(t, bank, p) + subst(ts, bank, picks));
        assert(subst_tok(t, bank, p) + subst(ts, bank, picks) =~= subst(ts, bank, picks)
            + subst_tok(t, bank, p));
    } else {
        lemma_subst_snoc(ts.drop_first(), bank, picks.drop_first(), t, p);
        let a = subst_tok(ts[0], bank, picks[0]);
        let b = subst(ts.drop_first(), bank, picks.drop_first());
        let c = subst_tok(t, bank, p);
        assert(ts.push(t)[0] == ts[0]);
        assert(picks.push(p)[0] == picks[0]);
        assert(ts.push(t).drop_first() =~= ts.drop_first().push(t));
        assert(picks.push(p).drop_first() =~= picks.drop_first().push(p));
        assert(subst(ts.push(t).drop_first(), bank, picks.push(p).drop_first()) == b + c);
        assert(lhs == a + (b + c));
        assert(subst(ts, bank, picks) == a + b);
        assert(a + (b + c) =~= (a + b) + c);
    }
}

/// Substitution splits around any chosen position: the text before it, the
/// substituted token, the text after it.
pub proof fn lemma_subst_split(
    ts: Seq<Tok>,
    bank: Map<Seq<char>, Seq<Seq<char>>>,
    picks: Seq<int>,
    i: int,
)
    requires
        picks.len() == ts.len(),
        0 <= i < ts.len(),
    ensures
        subst(ts, bank, picks) == subst(ts.take(i), bank, picks.take(i)) + subst_tok(
            ts[i],
            bank,
            picks[i],
        ) + subst(ts.skip(i + 1), bank, picks.skip(i + 1)),
    decreases i,
{
    let a = subst(ts.take(i), bank, picks.take(i));
    let m = subst_tok(ts[i], bank, picks[i]);
    let z = subst(ts.skip(i + 1), bank, picks.skip(i + 1));
    if i == 0 {
        assert(ts.take(0) =~= Seq::<Tok>::empty());
        assert(picks.take(0) =~= Seq::<int>::empty());
        assert(a =~= Seq::<char>::empty());
        assert(ts.drop_first() =~= ts.skip(1));
        assert(picks.drop_first() =~= picks.skip(1));
        assert(subst(ts, bank, picks) == m + z);
        assert(m + z =~= (a + m) + z);
    } else {
        let dt = ts.drop_first();
        let dp = picks.drop_first();
        lemma_subst_split(dt, bank, dp, i - 1);
        let a0 = subst_tok(ts[0], bank, picks[0]);
        let b1 = subst(dt.take(i - 1), bank, dp.take(i - 1));
        assert(dt[i - 1] == ts[i]);
        assert(dp[i - 1] == picks[i]);
        assert(dt.skip(i) =~= ts.skip(i + 1));
        assert(dp.skip(i) =~= picks.skip(i + 1));
        assert(dt.take(i - 1) =~= ts.take(i).drop_first());
        assert(dp.take(i - 1) =~= picks.take(i).drop_first());
        assert(ts.take(i)[0] == ts[0]);
        assert(picks.take(i)[0] == picks[0]);
        assert(a == a0 + b1);
        assert(subst(ts, bank, picks) == a0 + subst(dt, bank, dp));
        assert(subst(dt, bank, dp) == (b1 + m) + z);
        assert(a0 + ((b1 + m) + z) =~= ((a0 + b1) + m) + z);
    }
}

/// When every token is literal text, substitution gives back the source.
pub proof fn lemma_subst_all_lit(ts: Seq<Tok>, bank: Map<Seq<char>, Seq<Seq<char>>>, picks: Seq<
    int,
>)
    requires
        picks.len() == ts.len(),
        forall|i: int| 0 <= i < ts.len() ==> !tok_is_ph(#[trigger] ts[i]),
    ensures
        subst(ts, bank, picks) == toks_src(ts),
    decreases ts.len(),
{
    if ts.len() > 0 {
        let dt = ts.drop_first();
        let dp = picks.drop_first();
        assert(forall|i: int| 0 <= i < dt.len() ==> !tok_is_ph(#[trigger] dt[i]));
        lemma_subst_all_lit(dt, bank, dp);
        assert(!tok_is_ph(ts[0]));
        assert(subst_tok(ts[0], bank, picks[0]) == tok_src(ts[0]));
    }
}

/// A format without placeholders always generates, and generates only
/// itself, whatever the bank holds.
pub proof fn lemma_no_placeholder_generates_format(
    format: Seq<char>,
    bank: Map<Seq<char>, Seq<Seq<char>>>,
)
    requires
        !has_placeholder(format),
    ensures
        generation_ok(format, bank),
        forall|out: Seq<char>| is_expansion(format, bank, out) ==> out == format,
{
    let ts = tokens_of(format);
    lemma_toks_src_of_tokens(format);
    assert forall|i: int| 0 <= i < ts.len() implies !ph_empty_at(ts, bank, i) by {
        if tok_is_ph(ts[i]) {
            assert(has_placeholder(format));
        }
    }
    assert forall|out: Seq<char>| is_expansion(format, bank, out) implies out == format by {
        let picks = choose|picks: Seq<int>|
            picks_ok(ts, bank, picks) && out == subst(ts, bank, picks);
        assert forall|i: int| 0 <= i < ts.len() implies !tok_is_ph(#[trigger] ts[i]) by {
            if tok_is_ph(ts[i]) {
                assert(has_placeholder(format));
            }
        }
        lemma_subst_all_lit(ts, bank, picks);
    }
}

/// Every word substituted for a placeholder of a known class is a member
/// of that class's word list.
pub proof fn lemma_substituted_word_in_class(
    format: Seq<char>,
    bank: Map<Seq<char>, Seq<Seq<char>>>,
    picks: Seq<int>,
    i: int,
)
    requires
        picks_ok(tokens_of(format), bank, picks),
        0 <= i < tokens_of(format).len(),
        tokens_of(format)[i] is Ph,
        bank.contains_key(tokens_of(format)[i]->name),
    ensures
        bank[tokens_of(format)[i]->name].contains(
            subst_tok(tokens_of(format)[i], bank, picks[i]),
        ),
{
    let ts = tokens_of(format);
    let name = ts[i]->name;
    assert(pick_ok_at(ts, bank, picks, i));
    assert(subst_tok(ts[i], bank, picks[i]) == bank[name][picks[i]]);
}

/// A placeholder for a class the bank does not know comes through
/// verbatim: the expansion is the text before it, then exactly the
/// placeholder's own source text, then the text after it.
pub proof fn lemma_unknown_placeholder_kept(
    format: Seq<char>,
    bank: Map<Seq<char>, Seq<Seq<char>>>,
    picks: Seq<int>,
    i: int,
)
    requires
        picks_ok(tokens_of(format), bank, picks),
        0 <= i < tokens_of(format).len(),
        tokens_of(format)[i] is Ph,
        !bank.contains_key(tokens_of(format)[i]->name),
    ensures
        subst(tokens_of(format), bank, picks) == subst(
            tokens_of(format).take(i),
            bank,
            picks.take(i),
        ) + tok_src(tokens_of(format)[i]) + subst(
            tokens_of(format).skip(i + 1),
            bank,
            picks.skip(i + 1),
        ),
{
    lemma_subst_split(tokens_of(format), bank, picks, i);
}

/// A placeholder for a known class with an empty word list makes the
/// whole generation fail: no successful result exists at all.
pub proof fn lemma_empty_class_fails(
    format: Seq<char>,
    bank: Map<Seq<char>, Seq<Seq<char>>>,
    i: int,
)
    requires
        0 <= i < tokens_of(format).len(),
        tokens_of(format)[i] is Ph,
        bank.contains_key(tokens_of(format)[i]->name),
        bank[tokens_of(format)[i]->name].len() == 0,
    ensures
        !generation_ok(format, bank),
{
    assert(ph_empty_at(tokens_of(format), bank, i));
}

/// Placeholders for unknown classes never cause failure: generation
/// succeeds as soon as every known class that a placeholder names has at
/// least one word.
pub proof fn lemma_unknown_classes_harmless(
    format: Seq<char>,
    bank: Map<Seq<char>, Seq<Seq<char>>>,
)
    requires
        forall|i: int|
            0 <= i < tokens_of(format).len() ==> !#[trigger] ph_empty_at(
                tokens_of(format),
                bank,
                i,
            ),
    ensures
        generation_ok(format, bank),
{
}

/// In any successful expansion, a placeholder for a class the bank does
/// not know appears verbatim in the output.
pub proof fn lemma_unknown_placeholder_in_output(
    format: Seq<char>,
    bank: Map<Seq<char>, Seq<Seq<char>>>,
    out: Seq<char>,
    i: int,
)
    requires
        is_expansion(format, bank, out),
        0 <= i < tokens_of(format).len(),
        tokens_of(format)[i] is Ph,
        !bank.contains_key(tokens_of(format)[i]->name),
    ensures
        exists|pre: Seq<char>, post: Seq<char>|
            out == #[trigger] (pre + tok_src(tokens_of(format)[i]) + post),
{
    let ts = tokens_of(format);
    let picks = choose|picks: Seq<int>|
        #[trigger] picks_ok(ts, bank, picks) && out == subst(ts, bank, picks);
    lemma_unknown_placeholder_kept(format, bank, picks, i);
    let pre = subst(ts.take(i), bank, picks.take(i));
    let post = subst(ts.skip(i + 1), bank, picks.skip(i + 1));
    assert(out == pre + tok_src(ts[i]) + post);
}

/// Failure is persistent: whether generation succeeds is a function of
/// the format and the bank alone, so two results over the same format and
/// bank agree, and where a referenced known class stays empty every call
/// fails alike.
pub proof fn lemma_failure_is_persistent(
    format: Seq<char>,
    bank: Map<Seq<char>, Seq<Seq<char>>>,
    r1: Option<Seq<char>>,
    r2: Option<Seq<char>>,
)
    requires
        r1 is Some <==> generation_ok(format, bank),
        r2 is Some <==> generation_ok(format, bank),
    ensures
        r1 is Some <==> r2 is Some,
        !generation_ok(format, bank) ==> r1 is None && r2 is None,
{
}

/// Relies on `rand`: `RngExt::random_range` over `0..n` returns a
/// uniformly distributed value of that range, so an index below `n`; it
/// panics only on an empty range, which the precondition rules out.
#[verifier::external_body]
fn pick_index(n: usize) -> (r: usize)
    requires
        0 < n,
    ensures
        r < n,
{
    let mut rng = rand::rng();
    rand::RngExt::random_range(&mut rng, 0..n)
}

/// Consuming one more token preserves the walk's bookkeeping: the picks
/// stay valid and no consumed placeholder named an empty known class.
proof fn lemma_extend_state(
    ts: Seq<Tok>,
    bank: Map<Seq<char>, Seq<Seq<char>>>,
    picks: Seq<int>,
    tc: int,
    p: int,
)
    requires
        0 <= tc < ts.len(),
        picks.len() == tc,
        picks_ok(ts.take(tc), bank, picks),
        !refs_empty_class(ts.take(tc), bank),
        pick_ok_at(ts, bank, picks.push(p), tc),
        !ph_empty_at(ts, bank, tc),
    ensures
        picks_ok(ts.take(tc + 1), bank, picks.push(p)),
        !refs_empty_class(ts.take(tc + 1), bank),
{
    assert forall|q: int| 0 <= q < tc + 1 implies #[trigger] pick_ok_at(
        ts.take(tc + 1),
        bank,
        picks.push(p),
        q,
    ) by {
        assert(ts.take(tc + 1)[q] == ts[q]);
        if q < tc {
            assert(pick_ok_at(ts.take(tc), bank, picks, q));
            assert(ts.take(tc)[q] == ts[q]);
            assert(picks.push(p)[q] == picks[q]);
        } else {
            assert(picks.push(p)[q] == p);
        }
    }
    assert forall|q: int| 0 <= q < tc + 1 implies !#[trigger] ph_empty_at(ts.take(tc + 1), bank, q) by {
        assert(ts.take(tc + 1)[q] == ts[q]);
        if q < tc {
            assert(!ph_empty_at(ts.take(tc), bank, q));
            assert(ts.take(tc)[q] == ts[q]);
        }
    }
}

/// Expands the format over the bank.  Returns the expanded phrase, with
/// every placeholder of a known class replaced by a randomly drawn word of
/// that class, or `None` exactly when some placeholder names a known class
/// whose word list is empty.
#[verifier::rlimit(100)]
pub fn expand(bank: &WordBank, format: &str) -> (r: Option<String>)
    ensures
        r is Some <==> generation_ok(format@, bank@),
        r matches Some(out) ==> is_expansion(format@, bank@, out@),
{
    let fmt: Vec<char> = str_to_chars(format);
    let n: usize = fmt.len();
    let mut out = String::new();
    let ghost ts = tokens_of(format@);
    let ghost mut picks: Seq<int> = Seq::empty();
    let ghost mut tc: int = 0;
    let mut i: usize = 0;
    proof {
        assert(format@.subrange(0, n as int) =~= format@);
        assert(ts.skip(0) =~= ts);
        assert(ts.take(0) =~= Seq::<Tok>::empty());
        assert(subst(ts.take(0), bank@, picks) =~= Seq::<char>::empty());
    }
    while i < n
        invariant
            i <= n,
            n == fmt.len(),
            fmt@ == format@,
            ts == tokens_of(format@),
            0 <= tc <= ts.len(),
            picks.len() == tc,
            ts.skip(tc) == tokens_of(format@.subrange(i as int, n as int)),
            picks_ok(ts.take(tc), bank@, picks),
            !refs_empty_class(ts.take(tc), bank@),
            out@ == subst(ts.take(tc), bank@, picks),
        decreases n - i,
    {
        let ghost suffix = format@.subrange(i as int, n as int);
        let c = fmt[i];
        let two_open = c == '{' && i + 1 < n && fmt[i + 1] == '{';
        let mut k: usize = 0;
        let mut ph_found = false;
        if two_open {
            k = i + 2;
            while k < n && fmt[k] != '{' && fmt[k] != '}'
                invariant
                    n == fmt.len(),
                    fmt@ == format@,
                    i + 2 <= k <= n,
                    forall|m: int| i + 2 <= m < k ==> !is_brace(format@[m]),
                decreases n - k,
            {
                k = k + 1;
            }
            if k < n && fmt[k] == '}' && k + 1 < n && fmt[k + 1] == '}' {
                ph_found = true;
            }
        }
        if ph_found {
            proof {
                lemma_scan_stop(suffix, 2);
                assert(suffix.len() == n - i);
                assert(suffix[0] == '{');
                assert(suffix[1] == '{');
                assert(suffix[k - i] == format@[k as int]);
                assert(suffix[k - i + 1] == format@[k + 1]);
                assert forall|m: int| 2 <= m < k - i implies !is_brace(suffix[m]) by {
                    assert(suffix[m] == format@[i + m]);
                }
                match scan_stop(suffix, 2) {
                    Some(k2) => {
                        if k2 < k - i {
                            assert(suffix[k2] == format@[i + k2]);
                            assert(false);
                        }
                        if k2 > k - i {
                            assert(false);
                        }
                    },
                    None => {
                        assert(false);
                    },
                }
                assert(head_ph_end(suffix) == Some((k - i + 2) as int));
            }
            let ghost e = (k - i + 2) as int;
            let ghost nm = suffix.subrange(2, (k - i) as int);
            proof {
                assert(tokens_of(suffix) == seq![ph_tok(nm)] + tokens_of(
                    suffix.subrange(e, suffix.len() as int),
                ));
                assert(tokens_of(suffix).len() >= 1);
                assert(ts.skip(tc).len() >= 1);
                assert(tc < ts.len());
                assert(ts.skip(tc)[0] == ts[tc]);
                assert(tokens_of(suffix)[0] == ph_tok(nm));
                assert(ts[tc] == ph_tok(nm));
                assert(ts.skip(tc).drop_first() =~= ts.skip(tc + 1));
                assert(tokens_of(suffix).drop_first() =~= tokens_of(
                    suffix.subrange(e, suffix.len() as int),
                ));
                assert(suffix.subrange(e, suffix.len() as int) =~= format@.subrange(
                    (k + 2) as int,
                    n as int,
                ));
                assert(ts.skip(tc + 1) == tokens_of(format@.subrange((k + 2) as int, n as int)));
                assert(nm =~= format@.subrange(i + 2, k as int));
            }
            let mut name_s = String::new();
            let mut j: usize = i + 2;
            proof {
                assert(name_s@ =~= format@.subrange(i + 2, (i + 2) as int));
            }
            while j < k
                invariant
                    n == fmt.len(),
                    fmt@ == format@,
                    i + 2 <= j <= k,
                    k <= n,
                    name_s@ == format@.subrange(i + 2, j as int),
                decreases k - j,
            {
                push_char(&mut name_s, fmt[j]);
                proof {
                    assert(name_s@ =~= format@.subrange(i + 2, j + 1));
                }
                j = j + 1;
            }
            proof {
                assert(name_s@ == nm);
            }
            let ghost out0 = out@;
            match bank.get(name_s.as_str()) {
                Some(words) => {
                    if words.len() == 0 {
                        proof {
                            assert(bank@[nm].len() == words.deep_view().len());
                            assert(ph_empty_at(ts, bank@, tc));
                            assert(refs_empty_class(ts, bank@));
                        }
                        return None;
                    }
                    let w = pick_index(words.len());
                    out.append(words[w].as_str());
                    proof {
                        assert(words.deep_view()[w as int] == words@[w as int]@);
                        assert(subst_tok(ts[tc], bank@, w as int) == words@[w as int]@);
                        lemma_subst_snoc(ts.take(tc), bank@, picks, ts[tc], w as int);
                        assert(ts.take(tc).push(ts[tc]) =~= ts.take(tc + 1));
                        assert(picks.push(w as int)[tc] == w as int);
                        assert(bank@[nm].len() == words.deep_view().len());
                        lemma_extend_state(ts, bank@, picks, tc, w as int);
                        picks = picks.push(w as int);
                        tc = tc + 1;
                        assert(out@ == subst(ts.take(tc), bank@, picks));
                        assert(ts.skip(tc) == tokens_of(
                            format@.subrange((k + 2) as int, n as int),
                        ));
                    }
                },
                None => {
                    let mut j2: usize = i;
                    while j2 < k + 2
                        invariant
                            n == fmt.len(),
                            fmt@ == format@,
                            i <= j2 <= k + 2,
                            k + 2 <= n,
                            out@ == out0 + format@.subrange(i as int, j2 as int),
                        decreases k + 2 - j2,
                    {
                        push_char(&mut out, fmt[j2]);
                        proof {
                            assert(out@ =~= out0 + format@.subrange(i as int, j2 + 1));
                        }
                        j2 = j2 + 1;
                    }
                    proof {
                        lemma_head_ph_src(suffix);
                        assert(suffix.subrange(0, e) =~= format@.subrange(
                            i as int,
                            (k + 2) as int,
                        ));
                        assert(subst_tok(ts[tc], bank@, 0) == tok_src(ph_tok(nm)));
                        assert(out@ == out0 + subst_tok(ts[tc], bank@, 0));
                        lemma_subst_snoc(ts.take(tc), bank@, picks, ts[tc], 0);
                        assert(ts.take(tc).push(ts[tc]) =~= ts.take(tc + 1));
                        lemma_extend_state(ts, bank@, picks, tc, 0);
                        picks = picks.push(0);
                        tc = tc + 1;
                        assert(out@ == subst(ts.take(tc), bank@, picks));
                        assert(ts.skip(tc) == tokens_of(
                            format@.subrange((k + 2) as int, n as int),
                        ));
                    }
                },
            }
            i = k + 2;
        } else {
            proof {
                assert(suffix[0] == format@[i as int]);
                if two_open {
                    lemma_scan_stop(suffix, 2);
                    assert(suffix.len() == n - i);
                    assert(suffix[1] == '{');
                    assert forall|m: int| 2 <= m < k - i implies !is_brace(suffix[m]) by {
                        assert(suffix[m] == format@[i + m]);
                    }
                    match scan_stop(suffix, 2) {
                        Some(k2) => {
                            if k == n {
                                assert(suffix[k2] == format@[i + k2]);
                                assert(false);
                            }
                            assert(suffix[k - i] == format@[k as int]);
                            if k2 < k - i {
                                assert(suffix[k2] == format@[i + k2]);
                                assert(false);
                            }
                            if k2 > k - i {
                                assert(false);
                            }
                            assert(k2 == k - i);
                            if k + 1 < n {
                                assert(suffix[k2 + 1] == format@[k + 1]);
                            }
                        },
                        None => {},
                    }
                } else {
                    if i + 1 < n {
                        assert(suffix[1] == format@[i + 1]);
                    }
                }
                assert(head_ph_end(suffix) is None);
                assert(tokens_of(suffix) == seq![lit_tok(suffix[0])] + tokens_of(
                    suffix.subrange(1, suffix.len() as int),
                ));
                assert(tokens_of(suffix).len() >= 1);
                assert(tc < ts.len());
                assert(ts.skip(tc)[0] == ts[tc]);
                assert(tokens_of(suffix)[0] == lit_tok(c));
                assert(ts[tc] == lit_tok(c));
                assert(ts.skip(tc).drop_first() =~= ts.skip(tc + 1));
                assert(tokens_of(suffix).drop_first() =~= tokens_of(
                    suffix.subrange(1, suffix.len() as int),
                ));
                assert(suffix.subrange(1, suffix.len() as int) =~= format@.subrange(
                    i + 1,
                    n as int,
                ));
                assert(ts.skip(tc + 1) == tokens_of(format@.subrange(i + 1, n as int)));
            }
            let ghost out0 = out@;
            push_char(&mut out, c);
            proof {
                assert(out@ =~= out0 + seq![c]);
                assert(subst_tok(ts[tc], bank@, 0) == seq![c]);
                lemma_subst_snoc(ts.take(tc), bank@, picks, ts[tc], 0);
                assert(ts.take(tc).push(ts[tc]) =~= ts.take(tc + 1));
                lemma_extend_state(ts, bank@, picks, tc, 0);
                picks = picks.push(0);
                tc = tc + 1;
                assert(out@ == subst(ts.take(tc), bank@, picks));
            }
            i = i + 1;
        }
    }
    proof {
        assert(format@.subrange(n as int, n as int) =~= Seq::<char>::empty());
        assert(tokens_of(Seq::<char>::empty()) =~= Seq::<Tok>::empty());
        assert(ts.skip(tc).len() == 0);
        assert(tc == ts.len());
        assert(ts.take(tc) =~= ts);
        assert(picks_ok(tokens_of(format@), bank@, picks));
        assert(!refs_empty_class(tokens_of(format@), bank@));
        assert(out@ == subst(tokens_of(format@), bank@, picks));
    }
    Some(out)
}

} // verus!
