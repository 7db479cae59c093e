//! A character-level lexical scanner for a minimal expression language.
//!
//! The scanner is a deterministic finite automaton driven one character at a
//! time over an in-memory source string.  It produces tokens on demand:
//! identifiers, the reserved word `int`, integer literals, `=`, `>`, `>=`,
//! and the four arithmetic operators.  Characters that cannot begin a token
//! are discarded as separators.  A digit run followed by a character that is
//! neither a digit nor a recognized token boundary is a fatal condition that
//! aborts the scan.
use std::io::Write;
use vstd::prelude::*;
use vstd::string::StrSliceExecFns;

verus! {

/// The states of the automaton.  `Initial` means no character of the current
/// token has been consumed yet; the accumulating states each stand for one
/// lexical class in progress; `IdInt1` and `IdInt2` disambiguate the reserved
/// word `int` from identifiers letter by letter; `Terminal` is a pseudo-state
/// that exists for exactly one automaton step when a token has just ended.
#[derive(Copy, Clone, PartialEq, Eq, Structural, Debug)]
pub enum DfaState {
    Initial,
    Identifier,
    GreatThen,
    GreatEqual,
    IntLiteral,
    Int,
    IdInt1,
    IdInt2,
    Equal,
    Plus,
    Minus,
    Star,
    Slash,
    Terminal,
}

/// The kind of a token.  `Invalid` is the defensive image of the states that
/// should never finalize a real token; `Eof` is reserved for consumers that
/// want an explicit end marker and is never produced by the scanner itself.
#[derive(Copy, Clone, PartialEq, Eq, Structural, Debug)]
pub enum TokenType {
    Identifier,
    GreatThen,
    GreatEqual,
    IntLiteral,
    Int,
    Equal,
    Plus,
    Minus,
    Star,
    Slash,
    Invalid,
    Eof,
}

/// A decimal digit.
pub open spec fn spec_is_digit(c: char) -> bool {
    '0' <= c && c <= '9'
}

/// An ASCII letter.
pub open spec fn spec_is_letter(c: char) -> bool {
    ('a' <= c && c <= 'z') || ('A' <= c && c <= 'Z')
}

/// A character that may begin an identifier.
pub open spec fn spec_is_id_start(c: char) -> bool {
    spec_is_letter(c) || c == '_' || c == '$'
}

/// A character that may continue an identifier.
pub open spec fn spec_is_id_continue(c: char) -> bool {
    spec_is_id_start(c) || spec_is_digit(c)
}

/// A character that may legally end an integer literal: whitespace or an
/// operator symbol.
pub open spec fn spec_is_int_boundary(c: char) -> bool {
    c == ' ' || c == '\t' || c == '\n' || c == '\r' || c == '=' || c == '>' || c == '*' || c == '/'
        || c == '+' || c == '-'
}

/// A malformed integer literal: while accumulating a digit run, the next
/// character is neither a digit nor a recognized token boundary.  This is the
/// one fatal condition of the scanner.
pub open spec fn spec_is_fatal(state: DfaState, c: char) -> bool {
    state == DfaState::IntLiteral && !spec_is_digit(c) && !spec_is_int_boundary(c)
}

/// The transition table of the automaton: the next state from `state` on
/// seeing `c`.  For the one fatal pair (see [`spec_is_fatal`]) the table is
/// never consulted; its value there is immaterial.
pub open spec fn spec_step(state: DfaState, c: char) -> DfaState {
    match state {
        DfaState::Initial => if c == 'i' {
            DfaState::IdInt1
        } else if spec_is_id_start(c) {
            DfaState::Identifier
        } else if spec_is_digit(c) {
            DfaState::IntLiteral
        } else if c == '>' {
            DfaState::GreatThen
        } else if c == '=' {
            DfaState::Equal
        } else if c == '+' {
            DfaState::Plus
        } else if c == '-' {
            DfaState::Minus
        } else if c == '*' {
            DfaState::Star
        } else if c == '/' {
            DfaState::Slash
        } else {
            DfaState::Initial
        },
        DfaState::Identifier => if spec_is_id_continue(c) {
            DfaState::Identifier
        } else {
            DfaState::Terminal
        },
        DfaState::GreatThen => if c == '=' {
            DfaState::GreatEqual
        } else {
            DfaState::Terminal
        },
        DfaState::GreatEqual => DfaState::Terminal,
        DfaState::IntLiteral => if spec_is_digit(c) {
            DfaState::IntLiteral
        } else {
            DfaState::Terminal
        },
        DfaState::Int => if spec_is_id_continue(c) {
            DfaState::Identifier
        } else {
            DfaState::Terminal
        },
        DfaState::IdInt1 => if c == 'n' {
            DfaState::IdInt2
        } else if spec_is_id_continue(c) {
            DfaState::Identifier
        } else {
            DfaState::Terminal
        },
        DfaState::IdInt2 => if c == 't' {
            DfaState::Int
        } else if spec_is_id_continue(c) {
            DfaState::Identifier
        } else {
            DfaState::Terminal
        },
        DfaState::Equal => DfaState::Terminal,
        DfaState::Plus => DfaState::Terminal,
        DfaState::Minus => DfaState::Terminal,
        DfaState::Star => DfaState::Terminal,
        DfaState::Slash => DfaState::Terminal,
        DfaState::Terminal => DfaState::Initial,
    }
}

/// The defensive state-to-kind map: the kind a state stands for on its own.
/// The states that should never be the source of a real token — `Initial`,
/// `Terminal`, and the two reserved-word disambiguation states — map to
/// `Invalid` here; see [`spec_emit_kind`] for the kind an emitted token
/// actually carries.
pub open spec fn spec_kind_of(state: DfaState) -> TokenType {
    match state {
        DfaState::Initial => TokenType::Invalid,
        DfaState::Identifier => TokenType::Identifier,
        DfaState::GreatThen => TokenType::GreatThen,
        DfaState::GreatEqual => TokenType::GreatEqual,
        DfaState::IntLiteral => TokenType::IntLiteral,
        DfaState::Int => TokenType::Int,
        DfaState::IdInt1 => TokenType::Invalid,
        DfaState::IdInt2 => TokenType::Invalid,
        DfaState::Equal => TokenType::Equal,
        DfaState::Plus => TokenType::Plus,
        DfaState::Minus => TokenType::Minus,
        DfaState::Star => TokenType::Star,
        DfaState::Slash => TokenType::Slash,
        DfaState::Terminal => TokenType::Invalid,
    }
}

/// The kind a token finalized in `state` carries.  A token that ends while
/// the reserved word `int` is still being disambiguated letter by letter is
/// an ordinary identifier (`i`, `in`); every other state maps through
/// [`spec_kind_of`].
pub open spec fn spec_emit_kind(state: DfaState) -> TokenType {
    if state == DfaState::IdInt1 || state == DfaState::IdInt2 {
        TokenType::Identifier
    } else {
        spec_kind_of(state)
    }
}

impl From<DfaState> for TokenType {
    fn from(state: DfaState) -> (r: Self)
        ensures
            r == spec_kind_of(state),
    {
        match state {
            DfaState::Initial => TokenType::Invalid,
            DfaState::Identifier => TokenType::Identifier,
            DfaState::GreatThen => TokenType::GreatThen,
            DfaState::GreatEqual => TokenType::GreatEqual,
            DfaState::IntLiteral => TokenType::IntLiteral,
            DfaState::Int => TokenType::Int,
            DfaState::IdInt1 => TokenType::Invalid,
            DfaState::IdInt2 => TokenType::Invalid,
            DfaState::Equal => TokenType::Equal,
            DfaState::Plus => TokenType::Plus,
            DfaState::Minus => TokenType::Minus,
            DfaState::Star => TokenType::Star,
            DfaState::Slash => TokenType::Slash,
            DfaState::Terminal => TokenType::Invalid,
        }
    }
}

impl vstd::std_specs::convert::FromSpecImpl<DfaState> for TokenType {
    open spec fn obeys_from_spec() -> bool {
        true
    }

    open spec fn from_spec(state: DfaState) -> TokenType {
        spec_kind_of(state)
    }
}

/// A token: a kind together with the exact source text that produced it.
#[derive(Debug)]
pub struct Token {
    pub token_type: TokenType,
    pub content: String,
}

/// The mathematical image of a token: its kind and its text.
pub struct TokenModel {
    pub kind: TokenType,
    pub content: Seq<char>,
}

impl View for Token {
    type V = TokenModel;

    open spec fn view(&self) -> TokenModel {
        TokenModel { kind: self.token_type, content: self.content@ }
    }
}

impl Token {
    /// Builds a token of the kind `dfa_state` stands for on its own (the
    /// defensive map [`spec_kind_of`]) with text `content`.
    pub fn from(dfa_state: DfaState, content: String) -> (r: Token)
        ensures
            r@.kind == spec_kind_of(dfa_state),
            r@.content == content@,
    {
        Token { token_type: dfa_state.into(), content }
    }
}

/// The outcome of driving the automaton until it next produces something:
/// a token together with the input left after it, the end of the input with
/// nothing pending, or the fatal condition with the accumulated text
/// (offending character included) and the input left after that character.
pub enum ScanOutcome {
    Emit { kind: TokenType, content: Seq<char>, rest: Seq<char> },
    End,
    Fatal { content: Seq<char>, rest: Seq<char> },
}

/// Drives the automaton from state `state` with accumulated text `acc` over
/// `input` until one token is produced, the input ends, or the fatal
/// condition is met.  A character whose transition leads to `Terminal` is not
/// consumed: it remains the first character of `rest`.  Input that ends while
/// text is accumulating finalizes that text as one last token.
pub open spec fn scan_one(state: DfaState, acc: Seq<char>, input: Seq<char>) -> ScanOutcome
    decreases input.len(),
{
    if input.len() == 0 {
        if acc.len() > 0 && state != DfaState::Initial {
            ScanOutcome::Emit { kind: spec_emit_kind(state), content: acc, rest: Seq::empty() }
        } else {
            ScanOutcome::End
        }
    } else {
        let c = input[0];
        if spec_is_fatal(state, c) {
            ScanOutcome::Fatal { content: acc.push(c), rest: input.drop_first() }
        } else {
            let next = spec_step(state, c);
            if next == DfaState::Terminal {
                ScanOutcome::Emit { kind: spec_emit_kind(state), content: acc, rest: input }
            } else if next == DfaState::Initial {
                scan_one(next, acc, input.drop_first())
            } else {
                scan_one(next, acc.push(c), input.drop_first())
            }
        }
    }
}

/// The configuration `(state, accumulated text)` the automaton is left in
/// after consuming all of `input` from `(state, acc)` without finalizing a
/// token and without the fatal condition; `None` if a token is finalized or
/// the fatal condition is met somewhere inside `input`.
pub open spec fn end_config(state: DfaState, acc: Seq<char>, input: Seq<char>) -> Option<
    (DfaState, Seq<char>),
>
    decreases input.len(),
{
    if input.len() == 0 {
        Some((state, acc))
    } else {
        let c = input[0];
        if spec_is_fatal(state, c) {
            None
        } else {
            let next = spec_step(state, c);
            if next == DfaState::Terminal {
                None
            } else if next == DfaState::Initial {
                end_config(next, acc, input.drop_first())
            } else {
                end_config(next, acc.push(c), input.drop_first())
            }
        }
    }
}

/// After one production, the input left over is no longer than the input
/// scanned; the fatal condition always consumes the offending character.
pub proof fn lemma_scan_rest_le(state: DfaState, acc: Seq<char>, input: Seq<char>)
    ensures
        scan_one(state, acc, input) matches ScanOutcome::Emit { rest, .. } ==> rest.len()
            <= input.len(),
        scan_one(state, acc, input) matches ScanOutcome::Fatal { rest, .. } ==> rest.len()
            < input.len(),
    decreases input.len(),
{
    if input.len() > 0 {
        let c = input[0];
        if !spec_is_fatal(state, c) {
            let next = spec_step(state, c);
            if next == DfaState::Initial {
                lemma_scan_rest_le(next, acc, input.drop_first());
            } else if next != DfaState::Terminal {
                lemma_scan_rest_le(next, acc.push(c), input.drop_first());
            }
        }
    }
}

/// From `Initial` the first character is always consumed before any token can
/// be finalized, so a production out of `Initial` leaves strictly less input.
pub proof fn lemma_scan_initial_rest_lt(acc: Seq<char>, input: Seq<char>)
    requires
        input.len() > 0,
    ensures
        scan_one(DfaState::Initial, acc, input) matches ScanOutcome::Emit { rest, .. }
            ==> rest.len() < input.len(),
        scan_one(DfaState::Initial, acc, input) matches ScanOutcome::Fatal { rest, .. }
            ==> rest.len() < input.len(),
{
    let c = input[0];
    let next = spec_step(DfaState::Initial, c);
    assert(next != DfaState::Terminal);
    if next == DfaState::Initial {
        lemma_scan_rest_le(next, acc, input.drop_first());
    } else {
        lemma_scan_rest_le(next, acc.push(c), input.drop_first());
    }
}

/// The full token sequence of `input`, scanned from a fresh automaton:
/// `None` if the fatal condition is ever met, otherwise the tokens in order.
pub open spec fn tokens_of(input: Seq<char>) -> Option<Seq<TokenModel>>
    decreases input.len()
    via tokens_of_decreases
{
    match scan_one(DfaState::Initial, Seq::empty(), input) {
        ScanOutcome::End => Some(Seq::empty()),
        ScanOutcome::Fatal { .. } => None,
        ScanOutcome::Emit { kind, content, rest } => match tokens_of(rest) {
            Option::None => None,
            Option::Some(ts) => Some(seq![TokenModel { kind, content }] + ts),
        },
    }
}

#[via_fn]
proof fn tokens_of_decreases(input: Seq<char>) {
    if input.len() > 0 {
        lemma_scan_initial_rest_lt(Seq::empty(), input);
    }
}

fn is_digit(c: char) -> (r: bool)
    ensures
        r == spec_is_digit(c),
{
    '0' <= c && c <= '9'
}

fn is_id_start(c: char) -> (r: bool)
    ensures
        r == spec_is_id_start(c),
{
    ('a' <= c && c <= 'z') || ('A' <= c && c <= 'Z') || c == '_' || c == '$'
}

fn is_id_continue(c: char) -> (r: bool)
    ensures
        r == spec_is_id_continue(c),
{
    is_id_start(c) || is_digit(c)
}

fn is_int_boundary(c: char) -> (r: bool)
    ensures
        r == spec_is_int_boundary(c),
{
    c == ' ' || c == '\t' || c == '\n' || c == '\r' || c == '=' || c == '>' || c == '*' || c == '/'
        || c == '+' || c == '-'
}

/// The transition table, executed.
fn transition(state: DfaState, c: char) -> (r: DfaState)
    ensures
        r == spec_step(state, c),
{
    match state {
        DfaState::Initial => if c == 'i' {
            DfaState::IdInt1
        } else if is_id_start(c) {
            DfaState::Identifier
        } else if is_digit(c) {
            DfaState::IntLiteral
        } else if c == '>' {
            DfaState::GreatThen
        } else if c == '=' {
            DfaState::Equal
        } else if c == '+' {
            DfaState::Plus
        } else if c == '-' {
            DfaState::Minus
        } else if c == '*' {
            DfaState::Star
        } else if c == '/' {
            DfaState::Slash
        } else {
            DfaState::Initial
        },
        DfaState::Identifier => if is_id_continue(c) {
            DfaState::Identifier
        } else {
            DfaState::Terminal
        },
        DfaState::GreatThen => if c == '=' {
            DfaState::GreatEqual
        } else {
            DfaState::Terminal
        },
        DfaState::GreatEqual => DfaState::Terminal,
        DfaState::IntLiteral => if is_digit(c) {
            DfaState::IntLiteral
        } else {
            DfaState::Terminal
        },
        DfaState::Int => if is_id_continue(c) {
            DfaState::Identifier
        } else {
            DfaState::Terminal
        },
        DfaState::IdInt1 => if c == 'n' {
            DfaState::IdInt2
        } else if is_id_continue(c) {
            DfaState::Identifier
        } else {
            DfaState::Terminal
        },
        DfaState::IdInt2 => if c == 't' {
            DfaState::Int
        } else if is_id_continue(c) {
            DfaState::Identifier
        } else {
            DfaState::Terminal
        },
        DfaState::Equal => DfaState::Terminal,
        DfaState::Plus => DfaState::Terminal,
        DfaState::Minus => DfaState::Terminal,
        DfaState::Star => DfaState::Terminal,
        DfaState::Slash => DfaState::Terminal,
        DfaState::Terminal => DfaState::Initial,
    }
}

/// Relies on `writeln!` to `std::io::Stdout` for the optional diagnostic
/// trace of automaton steps; purely observational, no effect on results.
#[verifier::external_body]
fn trace_step(c: char, from: &DfaState, to: &DfaState) {
    let _ = writeln!(std::io::stdout(), "char: {:?}, state: {:?} => {:?}", c, from, to);
}

/// The fatal condition raised on a malformed integer literal: the accumulated
/// text, offending character included.
#[derive(Debug)]
pub struct ScanError {
    pub content: String,
}

/// How one low-level automaton step can end without producing a token.
enum ScanStop {
    Eof,
    InvalidIntLiteral(String),
}

/// The scanner: a cursor over the source text together with the current
/// automaton state.  The text accumulated for the token in progress is the
/// source slice from `start` (where the token began) up to `pos`.
pub struct Laxer<'a> {
    pub source: &'a str,
    pub pos: usize,
    pub start: usize,
    pub state: DfaState,
    pub verbose: bool,
}

impl<'a> Laxer<'a> {
    /// The input not yet consumed.
    pub open spec fn remaining(self) -> Seq<char> {
        self.source@.skip(self.pos as int)
    }

    /// The text accumulated for the token in progress; empty in `Initial`.
    pub open spec fn pending(self) -> Seq<char> {
        if self.state == DfaState::Initial {
            Seq::empty()
        } else {
            self.source@.subrange(self.start as int, self.pos as int)
        }
    }

    /// The scanner's invariant: the cursor lies within the source, the
    /// pseudo-state `Terminal` is never held across steps, and outside
    /// `Initial` the accumulated text is non-empty.
    pub open spec fn wf(self) -> bool {
        &&& self.pos <= self.source@.len()
        &&& self.start <= self.pos
        &&& self.state != DfaState::Terminal
        &&& (self.state != DfaState::Initial ==> self.start < self.pos)
    }

    /// The state a token being finalized is emitted from: a token ending in
    /// one of the two reserved-word disambiguation states is an ordinary
    /// identifier (`i`, `in`).
    fn finalize(state: DfaState) -> (r: DfaState)
        ensures
            spec_kind_of(r) == spec_emit_kind(state),
    {
        match state {
            DfaState::IdInt1 => DfaState::Identifier,
            DfaState::IdInt2 => DfaState::Identifier,
            _ => state,
        }
    }

    /// A fresh scanner over `source`, in `Initial`, nothing consumed.
    pub fn new(source: &'a str, verbose: bool) -> (r: Laxer<'a>)
        ensures
            r.wf(),
            r.source@ == source@,
            r.state == DfaState::Initial,
            r.pending() == Seq::<char>::empty(),
            r.remaining() == source@,
            r.verbose == verbose,
    {
        proof {
            assert(source@.skip(0) =~= source@);
        }
        Laxer { source, pos: 0, start: 0, state: DfaState::Initial, verbose }
    }

    /// One automaton step, the core primitive: peek the next character,
    /// consult the transition table, and either finalize a token (`Ok(Some)`),
    /// make progress without one (`Ok(None)`), signal the end of the input
    /// (`Err(Eof)`), or meet the fatal condition (`Err(InvalidIntLiteral)`),
    /// which exhausts the scanner: the rest of the source is abandoned.
    /// A character whose transition leads to `Terminal` is not consumed.
    fn next_state(&mut self) -> (r: Result<Option<Token>, ScanStop>)
        requires
            old(self).wf(),
        ensures
            final(self).wf(),
            final(self).source == old(self).source,
            final(self).verbose == old(self).verbose,
            ({
                let s = old(self).state;
                let m = old(self).pending();
                let inp = old(self).remaining();
                if inp.len() == 0 {
                    if m.len() > 0 && s != DfaState::Initial {
                        &&& r matches Result::Ok(Option::Some(t)) && t@.kind == spec_emit_kind(s)
                            && t@.content == m
                        &&& final(self).state == DfaState::Initial
                        &&& final(self).pending() == Seq::<char>::empty()
                        &&& final(self).remaining() == Seq::<char>::empty()
                    } else {
                        &&& r matches Result::Err(ScanStop::Eof)
                        &&& *final(self) == *old(self)
                    }
                } else {
                    let c = inp[0];
                    if spec_is_fatal(s, c) {
                        &&& r matches Result::Err(ScanStop::InvalidIntLiteral(e)) && e@ == m.push(
                            c,
                        )
                        &&& final(self).state == DfaState::Initial
                        &&& final(self).pending() == Seq::<char>::empty()
                        &&& final(self).remaining() == Seq::<char>::empty()
                    } else if spec_step(s, c) == DfaState::Terminal {
                        &&& r matches Result::Ok(Option::Some(t)) && t@.kind == spec_emit_kind(s)
                            && t@.content == m
                        &&& final(self).state == DfaState::Initial
                        &&& final(self).pending() == Seq::<char>::empty()
                        &&& final(self).remaining() == inp
                    } else if spec_step(s, c) == DfaState::Initial {
                        &&& r matches Result::Ok(Option::None)
                        &&& final(self).state == DfaState::Initial
                        &&& final(self).pending() == Seq::<char>::empty()
                        &&& final(self).remaining() == inp.drop_first()
                    } else {
                        &&& r matches Result::Ok(Option::None)
                        &&& final(self).state == spec_step(s, c)
                        &&& final(self).pending() == m.push(c)
                        &&& final(self).remaining() == inp.drop_first()
                    }
                }
            }),
    {
        let ghost pre = *old(self);
        let n = self.source.unicode_len();
        if self.pos < n {
            let c = self.source.get_char(self.pos);
            proof {
                assert(pre.remaining()[0] == c);
                assert(self.source@.skip(self.pos as int + 1) =~= pre.remaining().drop_first());
            }
            let current_state = self.state;
            if current_state == DfaState::IntLiteral && !is_digit(c) && !is_int_boundary(c) {
                self.pos = self.pos + 1;
                let sub = self.source.substring_char(self.start, self.pos);
                proof {
                    assert(sub@ =~= pre.pending().push(c));
                }
                self.state = DfaState::Initial;
                self.pos = n;
                self.start = n;
                proof {
                    assert(self.remaining() =~= Seq::<char>::empty());
                }
                return Err(ScanStop::InvalidIntLiteral(sub.to_owned()));
            }
            let next = transition(current_state, c);
            if self.verbose {
                trace_step(c, &current_state, &next);
            }
            if next == DfaState::Terminal {
                proof {
                    assert(spec_step(DfaState::Initial, c) != DfaState::Terminal);
                }
                let sub = self.source.substring_char(self.start, self.pos);
                self.state = DfaState::Initial;
                self.start = self.pos;
                Ok(Some(Token::from(Self::finalize(current_state), sub.to_owned())))
            } else if next == DfaState::Initial {
                self.state = DfaState::Initial;
                self.pos = self.pos + 1;
                self.start = self.pos;
                Ok(None)
            } else {
                if current_state == DfaState::Initial {
                    self.start = self.pos;
                }
                self.state = next;
                self.pos = self.pos + 1;
                proof {
                    assert(self.pending() =~= pre.pending().push(c));
                }
                Ok(None)
            }
        } else {
            proof {
                assert(pre.remaining() =~= Seq::<char>::empty());
            }
            if self.state != DfaState::Initial {
                let current_state = self.state;
                let sub = self.source.substring_char(self.start, self.pos);
                self.state = DfaState::Initial;
                self.start = self.pos;
                Ok(Some(Token::from(Self::finalize(current_state), sub.to_owned())))
            } else {
                Err(ScanStop::Eof)
            }
        }
    }

    /// Produces the next token on demand, driving the automaton until one is
    /// finalized, the input ends (`Ok(None)`), or the fatal condition is met
    /// (`Err`).  The result is exactly that of [`scan_one`] on the scanner's
    /// current configuration.  The fatal condition aborts the whole scan: it
    /// exhausts the scanner, so every later call returns `Ok(None)`.
    pub fn next(&mut self) -> (r: Result<Option<Token>, ScanError>)
        requires
            old(self).wf(),
        ensures
            final(self).wf(),
            final(self).source == old(self).source,
            final(self).verbose == old(self).verbose,
            ({
                match scan_one(old(self).state, old(self).pending(), old(self).remaining()) {
                    ScanOutcome::Emit { kind, content, rest } => {
                        &&& r matches Result::Ok(Option::Some(t)) && t@.kind == kind
                            && t@.content == content
                        &&& final(self).state == DfaState::Initial
                        &&& final(self).pending() == Seq::<char>::empty()
                        &&& final(self).remaining() == rest
                    },
                    ScanOutcome::End => {
                        &&& r matches Result::Ok(Option::None)
                        &&& final(self).state == DfaState::Initial
                        &&& final(self).pending() == Seq::<char>::empty()
                        &&& final(self).remaining() == Seq::<char>::empty()
                    },
                    ScanOutcome::Fatal { content, rest: _ } => {
                        &&& r matches Result::Err(e) && e.content@ == content
                        &&& final(self).state == DfaState::Initial
                        &&& final(self).pending() == Seq::<char>::empty()
                        &&& final(self).remaining() == Seq::<char>::empty()
                    },
                }
            }),
    {
        let ghost orig = *self;
        #[verifier::loop_isolation(false)]
        loop
            invariant
                self.wf(),
                self.source == orig.source,
                self.verbose == orig.verbose,
                scan_one(self.state, self.pending(), self.remaining()) == scan_one(
                    orig.state,
                    orig.pending(),
                    orig.remaining(),
                ),
            decreases self.remaining().len(),
        {
            let ghost before = *self;
            match self.next_state() {
                Ok(Some(t)) => {
                    return Ok(Some(t));
                },
                Ok(None) => {
                    proof {
                        if before.remaining().len() > 0 {
                            let c = before.remaining()[0];
                            if spec_step(before.state, c) == DfaState::Initial {
                                assert(before.state == DfaState::Initial);
                            }
                        }
                    }
                },
                Err(ScanStop::Eof) => {
                    return Ok(None);
                },
                Err(ScanStop::InvalidIntLiteral(content)) => {
                    return Err(ScanError { content });
                },
            }
        }
    }
}

} // verus!
