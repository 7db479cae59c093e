//! General properties of the scanner, stated over the mathematical model of
//! [`crate::laxer`] and proved once for all inputs.
use vstd::prelude::*;

use crate::laxer::DfaState;
use crate::laxer::ScanOutcome;
use crate::laxer::TokenModel;
use crate::laxer::TokenType;
use crate::laxer::end_config;
use crate::laxer::lemma_scan_initial_rest_lt;
use crate::laxer::scan_one;
use crate::laxer::spec_is_digit;
use crate::laxer::spec_is_fatal;
use crate::laxer::spec_is_id_continue;
use crate::laxer::spec_is_id_start;
use crate::laxer::spec_is_int_boundary;
use crate::laxer::spec_emit_kind;
use crate::laxer::spec_kind_of;
use crate::laxer::spec_step;
use crate::laxer::tokens_of;

verus! {

/// Scanning preserves the tie between the automaton state and the
/// accumulated text: text is pending exactly outside `Initial`, and the
/// pseudo-state `Terminal` is never held across steps.
pub proof fn lemma_end_config_wf(
    state: DfaState,
    acc: Seq<char>,
    input: Seq<char>,
    s2: DfaState,
    acc2: Seq<char>,
)
    requires
        end_config(state, acc, input) == Some((s2, acc2)),
        state != DfaState::Terminal,
        acc.len() > 0 <==> state != DfaState::Initial,
    ensures
        s2 != DfaState::Terminal,
        acc2.len() > 0 <==> s2 != DfaState::Initial,
    decreases input.len(),
{
    if input.len() > 0 {
        let c = input[0];
        if !spec_is_fatal(state, c) {
            let next = spec_step(state, c);
            if next == DfaState::Initial {
                assert(state == DfaState::Initial);
                lemma_end_config_wf(next, acc, input.drop_first(), s2, acc2);
            } else if next != DfaState::Terminal {
                lemma_end_config_wf(next, acc.push(c), input.drop_first(), s2, acc2);
            }
        }
    }
}

/// When all of `a` is consumed without finalizing a token, scanning `a + b`
/// is scanning `b` from the configuration `a` leaves behind.
pub proof fn lemma_end_config_app(
    state: DfaState,
    acc: Seq<char>,
    a: Seq<char>,
    b: Seq<char>,
    s2: DfaState,
    acc2: Seq<char>,
)
    requires
        end_config(state, acc, a) == Some((s2, acc2)),
    ensures
        scan_one(state, acc, a + b) == scan_one(s2, acc2, b),
    decreases a.len(),
{
    if a.len() == 0 {
        assert(a + b =~= b);
    } else {
        let c = a[0];
        assert((a + b)[0] == c);
        assert((a + b).drop_first() =~= a.drop_first() + b);
        let next = spec_step(state, c);
        if next == DfaState::Initial {
            lemma_end_config_app(next, acc, a.drop_first(), b, s2, acc2);
        } else {
            lemma_end_config_app(next, acc.push(c), a.drop_first(), b, s2, acc2);
        }
    }
}

/// When all of `input` is consumed without finalizing a token, the scan ends
/// by finalizing whatever is left accumulating, or by signalling the end.
pub proof fn lemma_scan_end(
    state: DfaState,
    acc: Seq<char>,
    input: Seq<char>,
    s2: DfaState,
    acc2: Seq<char>,
)
    requires
        end_config(state, acc, input) == Some((s2, acc2)),
    ensures
        scan_one(state, acc, input) == (if acc2.len() > 0 && s2 != DfaState::Initial {
            (ScanOutcome::Emit {
                kind: spec_emit_kind(s2),
                content: acc2,
                rest: Seq::<char>::empty(),
            })
        } else {
            ScanOutcome::End
        }),
    decreases input.len(),
{
    if input.len() > 0 {
        let c = input[0];
        let next = spec_step(state, c);
        if next == DfaState::Initial {
            lemma_scan_end(next, acc, input.drop_first(), s2, acc2);
        } else {
            lemma_scan_end(next, acc.push(c), input.drop_first(), s2, acc2);
        }
    }
}

/// When a token is finalized or the fatal condition is met somewhere inside
/// `a`, appending `b` leaves the production unchanged and only lengthens the
/// input left after it.
pub proof fn lemma_scan_mid(state: DfaState, acc: Seq<char>, a: Seq<char>, b: Seq<char>)
    requires
        end_config(state, acc, a) is None,
    ensures
        match scan_one(state, acc, a) {
            ScanOutcome::Emit { kind, content, rest } => rest.len() > 0 && scan_one(
                state,
                acc,
                a + b,
            ) == (ScanOutcome::Emit { kind, content, rest: rest + b }),
            ScanOutcome::Fatal { content, rest } => scan_one(state, acc, a + b) == (
            ScanOutcome::Fatal { content, rest: rest + b }),
            ScanOutcome::End => false,
        },
    decreases a.len(),
{
    let c = a[0];
    assert((a + b)[0] == c);
    assert((a + b).drop_first() =~= a.drop_first() + b);
    if !spec_is_fatal(state, c) {
        let next = spec_step(state, c);
        if next == DfaState::Initial {
            lemma_scan_mid(next, acc, a.drop_first(), b);
        } else if next != DfaState::Terminal {
            lemma_scan_mid(next, acc.push(c), a.drop_first(), b);
        }
    }
}

/// A token-separating character: space, tab, or newline.
pub open spec fn is_separator(c: char) -> bool {
    c == ' ' || c == '\t' || c == '\n'
}

proof fn lemma_sep_end_config(input: Seq<char>)
    requires
        forall|i: int| 0 <= i < input.len() ==> is_separator(#[trigger] input[i]),
    ensures
        end_config(DfaState::Initial, Seq::empty(), input) == Some(
            (DfaState::Initial, Seq::<char>::empty()),
        ),
    decreases input.len(),
{
    if input.len() > 0 {
        let c = input[0];
        assert(is_separator(c));
        assert(spec_step(DfaState::Initial, c) == DfaState::Initial);
        assert(forall|i: int|
            0 <= i < input.drop_first().len() ==> is_separator(#[trigger] input.drop_first()[i]));
        lemma_sep_end_config(input.drop_first());
    }
}

/// Law: an input consisting solely of token-separating characters yields no
/// tokens.
pub proof fn lemma_separators_yield_nothing(input: Seq<char>)
    requires
        forall|i: int| 0 <= i < input.len() ==> is_separator(#[trigger] input[i]),
    ensures
        tokens_of(input) == Some(Seq::<TokenModel>::empty()),
{
    lemma_sep_end_config(input);
    lemma_scan_end(DfaState::Initial, Seq::empty(), input, DfaState::Initial, Seq::empty());
}

/// An identifier-shaped string: an identifier-start character followed by
/// identifier-continue characters.
pub open spec fn is_ident_seq(s: Seq<char>) -> bool {
    &&& s.len() > 0
    &&& spec_is_id_start(s[0])
    &&& forall|i: int| 1 <= i < s.len() ==> spec_is_id_continue(#[trigger] s[i])
}

/// The automaton state an identifier-shaped string accumulates in: the
/// letter-by-letter disambiguation of the reserved word `int`.
pub open spec fn ident_state(s: Seq<char>) -> DfaState {
    if s.len() == 1 && s[0] == 'i' {
        DfaState::IdInt1
    } else if s.len() == 2 && s[0] == 'i' && s[1] == 'n' {
        DfaState::IdInt2
    } else if s.len() == 3 && s[0] == 'i' && s[1] == 'n' && s[2] == 't' {
        DfaState::Int
    } else {
        DfaState::Identifier
    }
}

proof fn lemma_ident_run(p: Seq<char>, r: Seq<char>)
    requires
        is_ident_seq(p),
        forall|i: int| 0 <= i < r.len() ==> spec_is_id_continue(#[trigger] r[i]),
    ensures
        end_config(ident_state(p), p, r) == Some((ident_state(p + r), p + r)),
    decreases r.len(),
{
    if r.len() == 0 {
        assert(p + r =~= p);
    } else {
        let c = r[0];
        assert(spec_is_id_continue(c));
        let next = spec_step(ident_state(p), c);
        assert(next == ident_state(p.push(c)));
        assert(is_ident_seq(p.push(c)));
        assert(forall|i: int|
            0 <= i < r.drop_first().len() ==> spec_is_id_continue(#[trigger] r.drop_first()[i]));
        lemma_ident_run(p.push(c), r.drop_first());
        assert(p.push(c) + r.drop_first() =~= p + r);
    }
}

proof fn lemma_ident_scan(s: Seq<char>)
    requires
        is_ident_seq(s),
    ensures
        end_config(DfaState::Initial, Seq::empty(), s) == Some((ident_state(s), s)),
{
    let c = s[0];
    let first = seq![c];
    assert(spec_step(DfaState::Initial, c) == ident_state(first));
    assert(Seq::empty().push(c) =~= first);
    assert(forall|i: int|
        0 <= i < s.drop_first().len() ==> spec_is_id_continue(#[trigger] s.drop_first()[i]));
    lemma_ident_run(first, s.drop_first());
    assert(first + s.drop_first() =~= s);
}

/// Law: an identifier-shaped string scans, alone, to exactly one token whose
/// content is the whole string.  Its kind follows the letter-by-letter
/// reserved-word disambiguation: `int` alone is Int, and every other
/// identifier-shaped string -- the strict prefixes `i` and `in` included --
/// is Identifier.
pub proof fn lemma_scan_single_identifier(s: Seq<char>)
    requires
        is_ident_seq(s),
    ensures
        tokens_of(s) == Some(
            seq![TokenModel { kind: spec_emit_kind(ident_state(s)), content: s }],
        ),
{
    lemma_ident_scan(s);
    lemma_scan_end(DfaState::Initial, Seq::empty(), s, ident_state(s), s);
    let tok = TokenModel { kind: spec_emit_kind(ident_state(s)), content: s };
    assert(tokens_of(Seq::<char>::empty()) == Some(Seq::<TokenModel>::empty()));
    assert(seq![tok] + Seq::<TokenModel>::empty() =~= seq![tok]);
}

proof fn lemma_digit_run(p: Seq<char>, r: Seq<char>)
    requires
        forall|i: int| 0 <= i < r.len() ==> spec_is_digit(#[trigger] r[i]),
    ensures
        end_config(DfaState::IntLiteral, p, r) == Some((DfaState::IntLiteral, p + r)),
    decreases r.len(),
{
    if r.len() == 0 {
        assert(p + r =~= p);
    } else {
        let c = r[0];
        assert(spec_is_digit(c));
        assert(forall|i: int|
            0 <= i < r.drop_first().len() ==> spec_is_digit(#[trigger] r.drop_first()[i]));
        lemma_digit_run(p.push(c), r.drop_first());
        assert(p.push(c) + r.drop_first() =~= p + r);
    }
}

/// Law: a digit run scans, alone, to exactly one IntLiteral token whose
/// content is the whole run.
pub proof fn lemma_scan_single_int_literal(s: Seq<char>)
    requires
        s.len() > 0,
        forall|i: int| 0 <= i < s.len() ==> spec_is_digit(#[trigger] s[i]),
    ensures
        tokens_of(s) == Some(seq![TokenModel { kind: TokenType::IntLiteral, content: s }]),
{
    let c = s[0];
    assert(spec_is_digit(c));
    assert(spec_step(DfaState::Initial, c) == DfaState::IntLiteral);
    assert(Seq::empty().push(c) =~= seq![c]);
    assert(forall|i: int|
        0 <= i < s.drop_first().len() ==> spec_is_digit(#[trigger] s.drop_first()[i]));
    lemma_digit_run(seq![c], s.drop_first());
    assert(seq![c] + s.drop_first() =~= s);
    lemma_scan_end(DfaState::Initial, Seq::empty(), s, DfaState::IntLiteral, s);
    let tok = TokenModel { kind: TokenType::IntLiteral, content: s };
    assert(tokens_of(Seq::<char>::empty()) == Some(Seq::<TokenModel>::empty()));
    assert(seq![tok] + Seq::<TokenModel>::empty() =~= seq![tok]);
}

/// A character that is a complete operator token by itself or, for `>`,
/// begins one.
pub open spec fn is_operator_char(c: char) -> bool {
    c == '>' || c == '=' || c == '+' || c == '-' || c == '*' || c == '/'
}

/// The kind of the one-character operator token `c`.
pub open spec fn operator_kind(c: char) -> TokenType {
    if c == '>' {
        TokenType::GreatThen
    } else if c == '=' {
        TokenType::Equal
    } else if c == '+' {
        TokenType::Plus
    } else if c == '-' {
        TokenType::Minus
    } else if c == '*' {
        TokenType::Star
    } else {
        TokenType::Slash
    }
}

/// Law: a single operator character scans, alone, to exactly one token of
/// that operator's kind, with the character as content.
pub proof fn lemma_scan_single_operator(c: char)
    requires
        is_operator_char(c),
    ensures
        tokens_of(seq![c]) == Some(seq![TokenModel { kind: operator_kind(c), content: seq![c] }]),
{
    let s1 = spec_step(DfaState::Initial, c);
    assert(spec_kind_of(s1) == operator_kind(c));
    assert(Seq::empty().push(c) =~= seq![c]);
    assert(seq![c].drop_first() =~= Seq::<char>::empty());
    let tok = TokenModel { kind: operator_kind(c), content: seq![c] };
    assert(s1 != DfaState::Initial && s1 != DfaState::Terminal);
    assert(scan_one(s1, seq![c], Seq::<char>::empty()) == (ScanOutcome::Emit {
        kind: operator_kind(c),
        content: seq![c],
        rest: Seq::<char>::empty(),
    }));
    assert(scan_one(DfaState::Initial, Seq::empty(), seq![c]) == (ScanOutcome::Emit {
        kind: operator_kind(c),
        content: seq![c],
        rest: Seq::<char>::empty(),
    }));
    assert(tokens_of(Seq::<char>::empty()) == Some(Seq::<TokenModel>::empty()));
    assert(seq![tok] + Seq::<TokenModel>::empty() =~= seq![tok]);
}

/// Law: the two-character string `>=` scans, alone, to exactly one
/// GreatEqual token, not to two tokens.
pub proof fn lemma_scan_great_equal()
    ensures
        tokens_of(seq!['>', '=']) == Some(
            seq![TokenModel { kind: TokenType::GreatEqual, content: seq!['>', '='] }],
        ),
{
    let s0 = seq!['>', '='];
    let a1 = s0.drop_first();
    let m1 = Seq::<char>::empty().push('>');
    let m2 = m1.push('=');
    assert(a1[0] == '=');
    assert(a1.drop_first() =~= Seq::<char>::empty());
    assert(m2 =~= s0);
    let tok = TokenModel { kind: TokenType::GreatEqual, content: s0 };
    assert(scan_one(DfaState::GreatEqual, m2, a1.drop_first()) == (ScanOutcome::Emit {
        kind: TokenType::GreatEqual,
        content: m2,
        rest: Seq::<char>::empty(),
    }));
    assert(scan_one(DfaState::GreatThen, m1, a1) == scan_one(
        DfaState::GreatEqual,
        m2,
        a1.drop_first(),
    ));
    assert(scan_one(DfaState::Initial, Seq::empty(), s0) == scan_one(DfaState::GreatThen, m1, a1));
    assert(tokens_of(Seq::<char>::empty()) == Some(Seq::<TokenModel>::empty()));
    assert(seq![tok] + Seq::<TokenModel>::empty() =~= seq![tok]);
}

/// Law (maximal munch): two identifier-shaped strings written back to back
/// with no separator merge into one token — the longest consumable prefix
/// wins, so `in` followed by `t` is the single reserved word `int`, and
/// `int` followed by `eger` is the single identifier `integer`.
pub proof fn lemma_munch_identifiers(s1: Seq<char>, s2: Seq<char>)
    requires
        is_ident_seq(s1),
        is_ident_seq(s2),
    ensures
        tokens_of(s1 + s2) == Some(
            seq![TokenModel { kind: spec_emit_kind(ident_state(s1 + s2)), content: s1 + s2 }],
        ),
{
    let s = s1 + s2;
    assert(is_ident_seq(s)) by {
        assert(s[0] == s1[0]);
        assert forall|i: int| 1 <= i < s.len() implies spec_is_id_continue(#[trigger] s[i]) by {
            if i < s1.len() {
                assert(s[i] == s1[i]);
            } else {
                assert(s[i] == s2[i - s1.len()]);
            }
        }
    }
    lemma_scan_single_identifier(s);
}

/// Law (maximal munch): two digit runs written back to back with no
/// separator merge into one IntLiteral token.
pub proof fn lemma_munch_int_literals(s1: Seq<char>, s2: Seq<char>)
    requires
        s1.len() > 0,
        s2.len() > 0,
        forall|i: int| 0 <= i < s1.len() ==> spec_is_digit(#[trigger] s1[i]),
        forall|i: int| 0 <= i < s2.len() ==> spec_is_digit(#[trigger] s2[i]),
    ensures
        tokens_of(s1 + s2) == Some(
            seq![TokenModel { kind: TokenType::IntLiteral, content: s1 + s2 }],
        ),
{
    let s = s1 + s2;
    assert forall|i: int| 0 <= i < s.len() implies spec_is_digit(#[trigger] s[i]) by {
        if i < s1.len() {
            assert(s[i] == s1[i]);
        } else {
            assert(s[i] == s2[i - s1.len()]);
        }
    }
    lemma_scan_single_int_literal(s);
}

/// Law (operator bounding): two operator characters written back to back
/// stay two separate one-character tokens, except for `>` directly followed
/// by `=`, which merge into GreatEqual (see [`lemma_scan_great_equal`]).
pub proof fn lemma_munch_operators(c1: char, c2: char)
    requires
        is_operator_char(c1),
        is_operator_char(c2),
        !(c1 == '>' && c2 == '='),
    ensures
        tokens_of(seq![c1, c2]) == Some(
            seq![
                TokenModel { kind: operator_kind(c1), content: seq![c1] },
                TokenModel { kind: operator_kind(c2), content: seq![c2] },
            ],
        ),
{
    let s = seq![c1, c2];
    let s1 = spec_step(DfaState::Initial, c1);
    assert(spec_emit_kind(s1) == operator_kind(c1));
    assert(Seq::<char>::empty().push(c1) =~= seq![c1]);
    assert(s.drop_first() =~= seq![c2]);
    let tok1 = TokenModel { kind: operator_kind(c1), content: seq![c1] };
    let tok2 = TokenModel { kind: operator_kind(c2), content: seq![c2] };
    assert(spec_step(s1, c2) == DfaState::Terminal);
    assert(scan_one(s1, seq![c1], seq![c2]) == (ScanOutcome::Emit {
        kind: operator_kind(c1),
        content: seq![c1],
        rest: seq![c2],
    }));
    assert(scan_one(DfaState::Initial, Seq::empty(), s) == scan_one(s1, seq![c1], s.drop_first()));
    lemma_scan_single_operator(c2);
    assert(seq![tok1] + seq![tok2] =~= seq![tok1, tok2]);
}

proof fn lemma_sep_terminates(s: DfaState, sep: char)
    requires
        s != DfaState::Initial,
        s != DfaState::Terminal,
        spec_step(DfaState::Initial, sep) == DfaState::Initial,
        spec_is_int_boundary(sep),
    ensures
        !spec_is_fatal(s, sep),
        spec_step(s, sep) == DfaState::Terminal,
{
}

proof fn lemma_tokens_of_discard(sep: char, b: Seq<char>)
    requires
        spec_step(DfaState::Initial, sep) == DfaState::Initial,
    ensures
        tokens_of(seq![sep] + b) == tokens_of(b),
{
    assert((seq![sep] + b)[0] == sep);
    assert((seq![sep] + b).drop_first() =~= b);
    assert(scan_one(DfaState::Initial, Seq::empty(), seq![sep] + b) == scan_one(
        DfaState::Initial,
        Seq::empty(),
        b,
    ));
}

/// Law: scans compose across a separating character.  If `a` and `b` each
/// scan cleanly, then `a`, one separator, `b` scans to the two token
/// sequences in order, each token as it was when scanned alone.  The
/// separator must be discarded by the automaton at a token boundary and must
/// legally end an integer literal: every separating character -- space, tab,
/// newline, carriage return -- qualifies.
pub proof fn lemma_scan_concat_separator(
    a: Seq<char>,
    sep: char,
    b: Seq<char>,
    ta: Seq<TokenModel>,
    tb: Seq<TokenModel>,
)
    requires
        tokens_of(a) == Some(ta),
        tokens_of(b) == Some(tb),
        spec_step(DfaState::Initial, sep) == DfaState::Initial,
        spec_is_int_boundary(sep),
    ensures
        tokens_of(a + seq![sep] + b) == Some(ta + tb),
    decreases a.len(),
{
    let one = seq![sep];
    assert(a + (one + b) =~= a + one + b);
    match end_config(DfaState::Initial, Seq::empty(), a) {
        Option::Some((s2, acc2)) => {
            lemma_end_config_wf(DfaState::Initial, Seq::empty(), a, s2, acc2);
            lemma_scan_end(DfaState::Initial, Seq::empty(), a, s2, acc2);
            lemma_end_config_app(DfaState::Initial, Seq::empty(), a, one + b, s2, acc2);
            lemma_tokens_of_discard(sep, b);
            if acc2.len() > 0 {
                lemma_sep_terminates(s2, sep);
                assert((one + b)[0] == sep);
                let tok = TokenModel { kind: spec_emit_kind(s2), content: acc2 };
                assert(scan_one(s2, acc2, one + b) == (ScanOutcome::Emit {
                    kind: spec_emit_kind(s2),
                    content: acc2,
                    rest: one + b,
                }));
                assert(tokens_of(Seq::<char>::empty()) == Some(Seq::<TokenModel>::empty()));
                assert(ta =~= seq![tok]);
                assert(tokens_of(a + one + b) == Some(seq![tok] + tb));
                assert(seq![tok] + tb =~= ta + tb);
            } else {
                assert(ta =~= Seq::<TokenModel>::empty());
                assert(acc2 =~= Seq::<char>::empty());
                assert(scan_one(DfaState::Initial, Seq::empty(), a + one + b) == scan_one(
                    DfaState::Initial,
                    Seq::empty(),
                    one + b,
                ));
                assert(tokens_of(a + one + b) == Some(tb));
                assert(tb =~= ta + tb);
            }
        },
        Option::None => {
            lemma_scan_mid(DfaState::Initial, Seq::empty(), a, one + b);
            match scan_one(DfaState::Initial, Seq::empty(), a) {
                ScanOutcome::Emit { kind, content, rest } => {
                    let tok = TokenModel { kind, content };
                    let ts = tokens_of(rest);
                    assert(ts is Some && ta == seq![tok] + ts->Some_0);
                    let ta2 = ts->Some_0;
                    assert(a.len() > 0);
                    lemma_scan_initial_rest_lt(Seq::empty(), a);
                    lemma_scan_concat_separator(rest, sep, b, ta2, tb);
                    assert(rest + (one + b) =~= rest + one + b);
                    assert(scan_one(DfaState::Initial, Seq::empty(), a + one + b) == (
                    ScanOutcome::Emit { kind, content, rest: rest + one + b }));
                    assert(tokens_of(a + one + b) == Some(seq![tok] + (ta2 + tb)));
                    assert(seq![tok] + (ta2 + tb) =~= ta + tb);
                },
                ScanOutcome::Fatal { content, rest } => {
                    assert(false);
                },
                ScanOutcome::End => {
                    assert(false);
                },
            }
        },
    }
}

} // verus!
