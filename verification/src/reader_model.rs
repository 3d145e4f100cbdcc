//! The meaning of the reader, as a function from input characters to a parse
//! tree or an error.
//!
//! `read_model` folds `char_model` over the characters and then applies
//! `finish_model`. Each character is handled in the reader's current state;
//! handling may ask for the same character to be handled again in a new state
//! (`Handled::Again`), which happens at most a few times per character.

use vstd::prelude::*;
use crate::reader::{ReaderPosition, ReadState, QuoteState, GroupKind, GroupLineState, TAG_FILE};
use crate::text::{hex_model};

verus! {

/// The mathematical value of a parse tree node's content.
pub enum AstModel {
    Nil,
    True,
    Str(Seq<char>),
    Int(i64),
    Quote(Box<NodeModel>),
    Group(Seq<NodeModel>),
}

pub struct NodeModel {
    pub at: ReaderPosition,
    pub content: AstModel,
}

pub struct FrameModel {
    pub node: NodeModel,
    pub group: GroupKind,
}

/// Where a stray comma stood.
#[derive(Debug, Clone, Copy, PartialEq, Eq, Structural)]
pub enum CommaPlace {
    AfterComma,
    StartOfFile,
    AfterBrackets,
    AfterBraces,
}

/// Every way reading can fail.
#[derive(Debug, Clone, Copy, PartialEq, Eq, Structural)]
pub enum ReadErrorKind {
    /// A comma (true) or a newline or comment (false) inside ().
    NotAllowedInRound(bool),
    UnexpectedComma(CommaPlace),
    LispComma,
    IllegalChar(char),
    Unbalanced(char),
    NoBracketInLisp,
    BackslashFollowedBy(char),
    IllegalIdentifierChar(char),
    IllegalNumberChar(char),
    NewlineInString,
    UnrecognizedEscape(char),
    WhitespaceThen(char),
    StrayQuote,
    MissingClose,
    /// The input ends inside a string.
    UnterminatedString,
    /// A number literal outside the range of `i64`.
    NumberTooLarge,
    /// The reader's stack is in a shape that reading never produces.
    Internal,
}

pub struct ErrorModel {
    pub at: ReaderPosition,
    pub message: Seq<char>,
}

/// The state of the reader between two characters.
pub struct ReaderModel {
    pub state: ReadState,
    pub stack: Seq<FrameModel>,
    pub at: ReaderPosition,
    pub last_cr: bool,
}

/// What handling one character in one state gives.
pub enum Handled {
    /// The character is done with.
    Done(ReaderModel),
    /// The character is to be handled again in the new state.
    Again(ReaderModel),
    Fail(ReadErrorKind),
}

pub open spec fn spec_is_whitespace(ch: char) -> bool {
    ch == ' ' || ch == '\t' || ch == '\r' || ch == '\n'
}

pub open spec fn spec_is_num(ch: char) -> bool {
    '0' <= ch && ch <= '9'
}

pub open spec fn spec_digit(ch: char) -> i64 {
    (ch as int - 48) as i64
}

pub open spec fn spec_is_paren_open(ch: char) -> bool {
    ch == '(' || ch == '[' || ch == '{'
}

pub open spec fn spec_is_paren_close(ch: char) -> bool {
    ch == ')' || ch == ']' || ch == '}'
}

pub open spec fn illegal_chars() -> Seq<char> {
    seq!['\u{00A0}', '\u{1680}', '\u{200B}', '\u{FEFF}']
}

pub open spec fn spec_is_line_group(g: GroupKind) -> bool {
    match g {
        GroupKind::Square(GroupLineState::Line) | GroupKind::Curly(GroupLineState::Line)
        | GroupKind::File(GroupLineState::Line) => true,
        _ => false,
    }
}

pub open spec fn placeholder_model() -> NodeModel {
    NodeModel { at: ReaderPosition { source: TAG_FILE, line: 0, column: 0 }, content: AstModel::Nil }
}

pub open spec fn into_model_group(f: FrameModel) -> Seq<NodeModel> {
    match f.node.content {
        AstModel::Group(g) => g,
        _ => Seq::empty(),
    }
}

pub open spec fn error_message(kind: ReadErrorKind) -> Seq<char> {
    match kind {
        ReadErrorKind::NotAllowedInRound(is_comma) => (if is_comma {
            "Comma"@
        } else {
            "Newline"@
        }) + " currently not allowed in (). Use \\."@,
        ReadErrorKind::UnexpectedComma(place) => "Unexpected comma "@ + match place {
            CommaPlace::AfterComma => "after comma"@,
            CommaPlace::StartOfFile => "at start of file"@,
            CommaPlace::AfterBrackets => "after brackets"@,
            CommaPlace::AfterBraces => "after braces"@,
        },
        ReadErrorKind::LispComma => "Please don't use commas in LISP mode"@,
        ReadErrorKind::IllegalChar(ch) => "Illegal unicode char: U+"@ + hex_model(ch as nat),
        ReadErrorKind::Unbalanced(ch) => "Unbalanced extra "@.push(ch) + " parenthesis"@,
        ReadErrorKind::NoBracketInLisp => "No [ support in lisp mode"@,
        ReadErrorKind::BackslashFollowedBy(ch) =>
            "Backslash may only be followed by a comment or newline, but saw: "@.push(ch),
        ReadErrorKind::IllegalIdentifierChar(ch) => "Illegal character for identifier: "@.push(ch),
        ReadErrorKind::IllegalNumberChar(ch) => "Illegal character for number: "@.push(ch),
        ReadErrorKind::NewlineInString => "Newline inside string"@,
        ReadErrorKind::UnrecognizedEscape(ch) => "Unrecognized backslash sequence \\"@.push(ch),
        ReadErrorKind::WhitespaceThen(ch) =>
            "Unrecognized backslash sequence: whitespace followed by "@.push(ch),
        ReadErrorKind::StrayQuote => "Stray ' at end of input"@,
        ReadErrorKind::MissingClose => "Expected ) at end of input"@,
        ReadErrorKind::UnterminatedString => "Unterminated string at end of input"@,
        ReadErrorKind::NumberTooLarge => "Number too large"@,
        ReadErrorKind::Internal => "Reader internal error. Please run again with RUST_BACKTRACE=1"@,
    }
}

/// Merges the top frame into the frame below it. A quote frame takes the top
/// node as its content and is merged further down in turn; a group frame gets
/// the top node appended (a one-word line of a bracket group in L0 mode is
/// appended as that word alone).
pub open spec fn peel_model(stack: Seq<FrameModel>, lisp: bool) -> Option<Seq<FrameModel>>
    decreases stack.len(),
{
    if stack.len() < 2 {
        None
    } else {
        let top = stack.last();
        let rest = stack.drop_last();
        let into = rest.last();
        match into.node.content {
            AstModel::Quote(_) => peel_model(
                rest.update(
                    rest.len() - 1,
                    FrameModel {
                        node: NodeModel {
                            at: into.node.at,
                            content: AstModel::Quote(Box::new(top.node)),
                        },
                        group: into.group,
                    },
                ),
                lisp,
            ),
            AstModel::Group(v) => {
                if !lisp && spec_is_line_group(top.group) && !(top.node.content is Group) {
                    None
                } else {
                    let node = if !lisp && spec_is_line_group(top.group) && (top.node.content matches AstModel::Group(tv) && tv.len() == 1) {
                        top.node.content->Group_0[0]
                    } else {
                        top.node
                    };
                    Some(
                        rest.update(
                            rest.len() - 1,
                            FrameModel {
                                node: NodeModel { at: into.node.at, content: AstModel::Group(v.push(node)) },
                                group: into.group,
                            },
                        ),
                    )
                }
            },
            _ => None,
        }
    }
}

pub open spec fn with_state(st: ReaderModel, s: ReadState) -> ReaderModel {
    ReaderModel { state: s, ..st }
}

pub open spec fn with_stack(st: ReaderModel, stack: Seq<FrameModel>) -> ReaderModel {
    ReaderModel { stack, ..st }
}

pub open spec fn push_frame(st: ReaderModel, content: AstModel, at: ReaderPosition, group: GroupKind) -> ReaderModel {
    with_stack(st, st.stack.push(FrameModel { node: NodeModel { at, content }, group }))
}

/// Peels, then continues with `k` on success.
pub open spec fn peel_then(st: ReaderModel, lisp: bool, again: bool) -> Handled {
    match peel_model(st.stack, lisp) {
        Some(s) => if again {
            Handled::Again(with_stack(st, s))
        } else {
            Handled::Done(with_stack(st, s))
        },
        None => Handled::Fail(ReadErrorKind::Internal),
    }
}

pub open spec fn with_line_state(g: GroupKind, ls: GroupLineState) -> Option<GroupKind> {
    match g {
        GroupKind::File(_) => Some(GroupKind::File(ls)),
        GroupKind::Curly(_) => Some(GroupKind::Curly(ls)),
        GroupKind::Square(_) => Some(GroupKind::Square(ls)),
        _ => None,
    }
}

pub open spec fn line_state_of(g: GroupKind) -> Option<GroupLineState> {
    match g {
        GroupKind::File(ls) | GroupKind::Curly(ls) | GroupKind::Square(ls) => Some(ls),
        _ => None,
    }
}

pub open spec fn comma_place(g: GroupKind, ls: GroupLineState) -> CommaPlace {
    if ls == GroupLineState::Comma {
        CommaPlace::AfterComma
    } else {
        match g {
            GroupKind::File(_) => CommaPlace::StartOfFile,
            GroupKind::Square(_) => CommaPlace::AfterBrackets,
            _ => CommaPlace::AfterBraces,
        }
    }
}

/// Handling of a comma, newline or comment start in L0 mode, in the Scan state.
/// `None` means: go on as for any other character.
pub open spec fn scan_line_end(st: ReaderModel, ch: char, lisp: bool) -> Option<Handled> {
    let is_comma = ch == ',';
    let is_newline = ch == '\r' || ch == '\n';
    let is_comment_start = ch == '#';
    if st.stack.len() == 0 {
        Some(Handled::Fail(ReadErrorKind::Internal))
    } else {
        let g = st.stack.last().group;
        match g {
            GroupKind::Round => Some(Handled::Fail(ReadErrorKind::NotAllowedInRound(is_comma))),
            GroupKind::Bare => None,
            _ => {
                let ls = line_state_of(g).unwrap();
                let is_line = ls == GroupLineState::Line;
                if is_comma && !is_line {
                    Some(Handled::Fail(ReadErrorKind::UnexpectedComma(comma_place(g, ls))))
                } else {
                    let st2 = if is_line {
                        match peel_model(st.stack, lisp) {
                            Some(s) => if s.len() > 0 && with_line_state(s.last().group, if is_comma { GroupLineState::Comma } else { GroupLineState::Normal }) is Some {
                                let f = s.last();
                                Some(with_stack(st, s.update(s.len() - 1, FrameModel {
                                    node: f.node,
                                    group: with_line_state(f.group, if is_comma { GroupLineState::Comma } else { GroupLineState::Normal }).unwrap(),
                                })))
                            } else {
                                None
                            },
                            None => None,
                        }
                    } else {
                        Some(st)
                    };
                    match st2 {
                        None => Some(Handled::Fail(ReadErrorKind::Internal)),
                        Some(st2) => if !is_comment_start {
                            Some(Handled::Done(st2))
                        } else {
                            Some(Handled::Done(with_state(st2, ReadState::Comment(false))))
                        },
                    }
                }
            },
        }
    }
}

/// The Scan state, after line-end handling: everything from the comment check on.
pub open spec fn scan_rest(st: ReaderModel, ch: char, lisp: bool) -> Handled {
    let at = st.at;
    if ch == '#' {
        Handled::Done(with_state(st, ReadState::Comment(false)))
    } else if illegal_chars().contains(ch) {
        Handled::Fail(ReadErrorKind::IllegalChar(ch))
    } else if spec_is_whitespace(ch) {
        Handled::Done(st)
    } else if ch == '\\' {
        Handled::Done(with_state(st, ReadState::Backslash(false)))
    } else if spec_is_paren_close(ch) {
        if st.stack.len() == 0 {
            Handled::Fail(ReadErrorKind::Internal)
        } else {
            let g = st.stack.last().group;
            let pre = match (g, ch) {
                (GroupKind::Round, ')') => Some(st.stack),
                (GroupKind::Curly(ls), '}') | (GroupKind::Square(ls), ']') => if ls == GroupLineState::Line {
                    peel_model(st.stack, lisp)
                } else {
                    Some(st.stack)
                },
                _ => None,
            };
            match (g, ch) {
                (GroupKind::Round, ')') | (GroupKind::Curly(_), '}') | (GroupKind::Square(_), ']') => match pre {
                    Some(s) => peel_then(with_stack(st, s), lisp, false),
                    None => Handled::Fail(ReadErrorKind::Internal),
                },
                _ => Handled::Fail(ReadErrorKind::Unbalanced(ch)),
            }
        }
    } else if st.stack.len() == 0 {
        Handled::Fail(ReadErrorKind::Internal)
    } else {
        let g = st.stack.last().group;
        let st = if !lisp && (line_state_of(g) matches Some(ls) && ls != GroupLineState::Line) {
            push_frame(st, AstModel::Group(Seq::empty()), at, with_line_state(g, GroupLineState::Line).unwrap())
        } else {
            st
        };
        if ch == '-' {
            Handled::Done(with_state(st, ReadState::Minus(at)))
        } else if ch == '\'' {
            Handled::Done(push_frame(st, AstModel::Quote(Box::new(placeholder_model())), at, GroupKind::Bare))
        } else if spec_is_num(ch) {
            Handled::Again(with_state(push_frame(st, AstModel::Int(0), at, GroupKind::Bare), ReadState::Number(false)))
        } else if ch == '"' || ch == '`' {
            let st = push_frame(st, AstModel::Quote(Box::new(placeholder_model())), at, GroupKind::Bare);
            let st = push_frame(st, AstModel::Str(Seq::empty()), at, GroupKind::Bare);
            Handled::Done(with_state(st, ReadState::Quote(if ch == '"' { QuoteState::Normal } else { QuoteState::Raw })))
        } else if spec_is_paren_open(ch) {
            let st = with_state(st, ReadState::Scan(false));
            if ch == '[' {
                if lisp {
                    Handled::Fail(ReadErrorKind::NoBracketInLisp)
                } else {
                    Handled::Done(push_frame(st, AstModel::Group(seq![NodeModel { at, content: AstModel::Str("make-array"@) }]), at, GroupKind::Square(GroupLineState::Normal)))
                }
            } else if ch == '{' {
                if lisp {
                    Handled::Fail(ReadErrorKind::NoBracketInLisp)
                } else {
                    let st = push_frame(st, AstModel::Quote(Box::new(placeholder_model())), at, GroupKind::Bare);
                    Handled::Done(push_frame(st, AstModel::Group(Seq::empty()), at, GroupKind::Curly(GroupLineState::Normal)))
                }
            } else {
                Handled::Done(push_frame(st, AstModel::Group(Seq::empty()), at, GroupKind::Round))
            }
        } else {
            Handled::Again(with_state(push_frame(st, AstModel::Str(Seq::empty()), at, GroupKind::Bare), ReadState::Identifier))
        }
    }
}

pub open spec fn scan_model(st: ReaderModel, ch: char, lisp: bool) -> Handled {
    let is_comma = ch == ',';
    let is_newline = ch == '\r' || ch == '\n';
    if !lisp && (is_comma || is_newline || ch == '#') {
        match scan_line_end(st, ch, lisp) {
            Some(h) => h,
            None => scan_rest(st, ch, lisp),
        }
    } else if lisp && is_comma {
        Handled::Fail(ReadErrorKind::LispComma)
    } else {
        scan_rest(st, ch, lisp)
    }
}

/// Replaces the content of the top frame.
pub open spec fn set_top_content(st: ReaderModel, c: AstModel) -> ReaderModel {
    let f = st.stack.last();
    with_stack(st, st.stack.update(st.stack.len() - 1, FrameModel { node: NodeModel { at: f.node.at, content: c }, group: f.group }))
}

/// Appends a char to the string being read in the top frame.
pub open spec fn append_char(st: ReaderModel, ch: char) -> Handled {
    if st.stack.len() > 0 && st.stack.last().node.content is Str {
        Handled::Done(set_top_content(st, AstModel::Str(st.stack.last().node.content->Str_0.push(ch))))
    } else {
        Handled::Fail(ReadErrorKind::Internal)
    }
}

/// One more digit of the number being read in the top frame, away from zero
/// in the direction of its sign; none where it leaves the range of `i64`.
pub open spec fn number_step(i: i64, d: i64, negative: bool) -> Option<i64> {
    let v = if negative { i * 10 - d } else { i * 10 + d };
    if i64::MIN <= v <= i64::MAX {
        Some(v as i64)
    } else {
        None
    }
}

pub open spec fn word_model(st: ReaderModel, ch: char, lisp: bool) -> Handled {
    if illegal_chars().contains(ch) {
        Handled::Fail(ReadErrorKind::IllegalChar(ch))
    } else if spec_is_whitespace(ch) || spec_is_paren_close(ch) || ch == ',' || ch == '#' {
        peel_then(with_state(st, ReadState::Scan(false)), lisp, !(lisp && spec_is_whitespace(ch)))
    } else if st.state == ReadState::Identifier {
        if spec_is_paren_open(ch) || ch == '"' || ch == '`' {
            Handled::Fail(ReadErrorKind::IllegalIdentifierChar(ch))
        } else {
            append_char(st, ch)
        }
    } else if !spec_is_num(ch) {
        Handled::Fail(ReadErrorKind::IllegalNumberChar(ch))
    } else if st.stack.len() > 0 && st.stack.last().node.content is Int {
        match number_step(st.stack.last().node.content->Int_0, spec_digit(ch), st.state == ReadState::Number(true)) {
            Some(v) => Handled::Done(set_top_content(st, AstModel::Int(v))),
            None => Handled::Fail(ReadErrorKind::NumberTooLarge),
        }
    } else {
        Handled::Fail(ReadErrorKind::Internal)
    }
}

pub open spec fn quote_model(st: ReaderModel, qs: QuoteState, ch: char, lisp: bool) -> Handled {
    let is_newline = ch == '\r' || ch == '\n';
    match qs {
        QuoteState::Normal | QuoteState::Raw => {
            let closed = (qs != QuoteState::Raw && ch == '"') || (qs == QuoteState::Raw && ch == '`');
            if is_newline {
                Handled::Fail(ReadErrorKind::NewlineInString)
            } else if qs == QuoteState::Normal && ch == '\\' {
                Handled::Done(with_state(st, ReadState::Quote(QuoteState::Backslash)))
            } else if closed {
                peel_then(with_state(st, ReadState::Scan(false)), lisp, false)
            } else {
                append_char(st, ch)
            }
        },
        QuoteState::Backslash => {
            if is_newline {
                Handled::Done(with_state(st, ReadState::Quote(QuoteState::BackslashNewline)))
            } else if ch == 't' || ch == 'n' || ch == '\\' || ch == '"' {
                let c = if ch == 't' { '\t' } else if ch == 'n' { '\n' } else { ch };
                append_char(with_state(st, ReadState::Quote(QuoteState::Normal)), c)
            } else if spec_is_whitespace(ch) {
                Handled::Done(with_state(st, ReadState::Quote(QuoteState::BackslashSeekingNewline)))
            } else {
                Handled::Fail(ReadErrorKind::UnrecognizedEscape(ch))
            }
        },
        QuoteState::BackslashSeekingNewline => {
            if is_newline {
                Handled::Done(with_state(st, ReadState::Quote(QuoteState::BackslashNewline)))
            } else if !spec_is_whitespace(ch) {
                Handled::Fail(ReadErrorKind::WhitespaceThen(ch))
            } else {
                Handled::Done(st)
            }
        },
        QuoteState::BackslashNewline => {
            if !spec_is_whitespace(ch) {
                Handled::Again(with_state(st, ReadState::Quote(QuoteState::Normal)))
            } else {
                Handled::Done(st)
            }
        },
    }
}

/// Handling one character once, in the current state.
pub open spec fn handle_model(st: ReaderModel, ch: char, lisp: bool) -> Handled {
    let is_newline = ch == '\r' || ch == '\n';
    match st.state {
        ReadState::Scan(_) => scan_model(st, ch, lisp),
        ReadState::Comment(in_backslash) => if is_newline {
            Handled::Done(with_state(st, if in_backslash { ReadState::Backslash(true) } else { ReadState::Scan(false) }))
        } else {
            Handled::Done(st)
        },
        ReadState::Backslash(cleared) => if ch == '#' {
            Handled::Done(with_state(st, ReadState::Comment(true)))
        } else if is_newline {
            Handled::Done(with_state(st, ReadState::Backslash(true)))
        } else if !spec_is_whitespace(ch) {
            if !cleared {
                Handled::Fail(ReadErrorKind::BackslashFollowedBy(ch))
            } else {
                Handled::Again(with_state(st, ReadState::Scan(false)))
            }
        } else {
            Handled::Done(st)
        },
        ReadState::Minus(node_at) => if spec_is_num(ch) {
            Handled::Done(with_state(push_frame(st, AstModel::Int((-spec_digit(ch)) as i64), node_at, GroupKind::Bare), ReadState::Number(true)))
        } else {
            Handled::Again(with_state(push_frame(st, AstModel::Str(seq!['-']), node_at, GroupKind::Bare), ReadState::Identifier))
        },
        ReadState::Identifier | ReadState::Number(_) => word_model(st, ch, lisp),
        ReadState::Quote(qs) => quote_model(st, qs, ch, lisp),
    }
}

/// The number of times one character may be handled again at most.
pub open spec fn retry_limit() -> nat {
    8
}

/// Handling one character until it is done with (Ok), or an error.
pub open spec fn process_model(st: ReaderModel, ch: char, lisp: bool, fuel: nat) -> Result<ReaderModel, ReadErrorKind>
    decreases fuel,
{
    match handle_model(st, ch, lisp) {
        Handled::Done(s) => Ok(s),
        Handled::Fail(k) => Err(k),
        Handled::Again(s) => if fuel == 0 {
            Ok(s)
        } else {
            process_model(s, ch, lisp, (fuel - 1) as nat)
        },
    }
}

pub open spec fn advance(at: ReaderPosition, ch: char) -> ReaderPosition {
    if ch == '\r' || ch == '\n' {
        ReaderPosition { line: (at.line + 1) as u32, column: 1, ..at }
    } else {
        ReaderPosition { column: (at.column + 1) as u32, ..at }
    }
}

/// One character of input: byte order mark and CR LF handling, then the state
/// machine, then the position update.
#[verifier::opaque]
pub open spec fn char_model(st: ReaderModel, ch: char, lisp: bool) -> Result<ReaderModel, ErrorModel> {
    if st.state == ReadState::Scan(true) && ch == '\u{FEFF}' {
        Ok(with_state(st, ReadState::Scan(false)))
    } else {
        let st = if st.state == ReadState::Scan(true) { with_state(st, ReadState::Scan(false)) } else { st };
        if ch == '\n' && st.last_cr {
            Ok(ReaderModel { last_cr: false, ..st })
        } else {
            match process_model(st, ch, lisp, retry_limit()) {
                Ok(s) => Ok(ReaderModel { at: advance(st.at, ch), last_cr: ch == '\r', ..s }),
                Err(k) => Err(ErrorModel { at: st.at, message: error_message(k) }),
            }
        }
    }
}

pub open spec fn initial_model() -> ReaderModel {
    ReaderModel {
        state: ReadState::Scan(true),
        stack: seq![FrameModel {
            node: NodeModel { at: ReaderPosition { source: TAG_FILE, line: 0, column: 0 }, content: AstModel::Group(Seq::empty()) },
            group: GroupKind::File(GroupLineState::Normal),
        }],
        at: ReaderPosition { source: TAG_FILE, line: 1, column: 1 },
        last_cr: false,
    }
}

/// The reader state after the given characters, or the first error.
pub open spec fn chars_model(chars: Seq<char>, lisp: bool) -> Result<ReaderModel, ErrorModel>
    decreases chars.len(),
{
    if chars.len() == 0 {
        Ok(initial_model())
    } else {
        match chars_model(chars.drop_last(), lisp) {
            Ok(st) => char_model(st, chars.last(), lisp),
            Err(e) => Err(e),
        }
    }
}

/// Reading one more character.
pub proof fn lemma_chars_step(input: Seq<char>, lisp: bool, k: int)
    requires
        0 <= k < input.len(),
    ensures
        chars_model(input.take(k + 1), lisp) == match chars_model(input.take(k), lisp) {
            Ok(st) => char_model(st, input[k], lisp),
            Err(e) => Err(e),
        },
{
    assert(input.take(k + 1).drop_last() =~= input.take(k));
}

/// Once reading has failed, more input does not change the error.
pub proof fn lemma_error_sticks(input: Seq<char>, lisp: bool, j: int, m: int)
    requires
        0 <= j <= m <= input.len(),
        chars_model(input.take(j), lisp) is Err,
    ensures
        chars_model(input.take(m), lisp) == chars_model(input.take(j), lisp),
    decreases m - j,
{
    if m > j {
        lemma_error_sticks(input, lisp, j, m - 1);
        assert(input.take(m).drop_last() =~= input.take(m - 1));
    }
}

/// The reader is inside the text of a string literal, where every character
/// stands for itself.
pub open spec fn in_string_text(s: ReadState) -> bool {
    s == ReadState::Quote(QuoteState::Normal) || s == ReadState::Quote(QuoteState::Raw)
}

proof fn lemma_blanks_legal()
    ensures
        !illegal_chars().contains(' '),
        !illegal_chars().contains('\t'),
{
    assert forall|i: int| 0 <= i < illegal_chars().len() implies illegal_chars()[i] != ' ' && illegal_chars()[i] != '\t' by {
        if i == 0 {
        } else if i == 1 {
        } else if i == 2 {
        } else {
        }
    }
}

/// Out of string text, one handling of a tab is that of a space, and what
/// it hands on to be handled again is out of string text too.
proof fn lemma_handle_tab(st: ReaderModel, lisp: bool)
    requires
        !in_string_text(st.state),
    ensures
        handle_model(st, '\t', lisp) == handle_model(st, ' ', lisp),
        handle_model(st, ' ', lisp) matches Handled::Again(s) ==> !in_string_text(s.state),
{
    lemma_blanks_legal();
}

proof fn lemma_process_tab(st: ReaderModel, lisp: bool, fuel: nat)
    requires
        !in_string_text(st.state),
    ensures
        process_model(st, '\t', lisp, fuel) == process_model(st, ' ', lisp, fuel),
    decreases fuel,
{
    lemma_handle_tab(st, lisp);
    match handle_model(st, ' ', lisp) {
        Handled::Again(s) => {
            if fuel > 0 {
                lemma_process_tab(s, lisp, (fuel - 1) as nat);
            }
        },
        _ => {},
    }
}

/// Reading goes on alike from equal states.
proof fn lemma_chars_same_then(a: Seq<char>, b: Seq<char>, w: Seq<char>, lisp: bool)
    requires
        chars_model(a, lisp) == chars_model(b, lisp),
    ensures
        chars_model(a + w, lisp) == chars_model(b + w, lisp),
    decreases w.len(),
{
    if w.len() == 0 {
        assert(a + w =~= a);
        assert(b + w =~= b);
    } else {
        let w1 = w.drop_last();
        lemma_chars_same_then(a, b, w1, lisp);
        assert((a + w).drop_last() =~= a + w1);
        assert((b + w).drop_last() =~= b + w1);
        assert((a + w).last() == w.last());
        assert((b + w).last() == w.last());
    }
}

/// A tab separates words as a space does: outside the text of a string
/// literal, reading a tab in place of a space gives the same tree, or the
/// same error.
pub proof fn law_tab_reads_as_space(before: Seq<char>, after: Seq<char>, lisp: bool)
    requires
        !(chars_model(before, lisp) matches Ok(st) && in_string_text(st.state)),
    ensures
        read_model(before.push('\t') + after, lisp) == read_model(before.push(' ') + after, lisp),
{
    assert(before.push('\t').drop_last() =~= before);
    assert(before.push(' ').drop_last() =~= before);
    match chars_model(before, lisp) {
        Ok(st) => {
            reveal(char_model);
            let st1 = if st.state == ReadState::Scan(true) { with_state(st, ReadState::Scan(false)) } else { st };
            lemma_process_tab(st1, lisp, retry_limit());
            assert(char_model(st, '\t', lisp) == char_model(st, ' ', lisp));
        },
        Err(_) => {},
    }
    assert(chars_model(before.push('\t'), lisp) == chars_model(before.push(' '), lisp));
    lemma_chars_same_then(before.push('\t'), before.push(' '), after, lisp);
}

/// End of input: the word being read is closed, then the last line of the
/// file (L0 mode), and the file group must then be all that is left.
pub open spec fn finish_model(st: ReaderModel, lisp: bool) -> Result<NodeModel, ErrorModel> {
    let fail = |k: ReadErrorKind| Err(ErrorModel { at: st.at, message: error_message(k) });
    let s1 = if st.state is Quote {
        Err(ReadErrorKind::UnterminatedString)
    } else if st.stack.len() > 1 {
        match st.stack.last().node.content {
            AstModel::Group(_) => Ok(st.stack),
            AstModel::Quote(_) => Err(ReadErrorKind::StrayQuote),
            _ => match peel_model(st.stack, lisp) {
                Some(s) => Ok(s),
                None => Err(ReadErrorKind::Internal),
            },
        }
    } else {
        Ok(st.stack)
    };
    match s1 {
        Err(k) => fail(k),
        Ok(s1) => {
            let s2 = if !lisp && s1.len() > 1 && s1.last().node.content is Group && s1.last().group is File {
                peel_model(s1, lisp)
            } else {
                Some(s1)
            };
            match s2 {
                None => fail(ReadErrorKind::Internal),
                Some(s2) => if s2.len() > 1 {
                    fail(ReadErrorKind::MissingClose)
                } else if s2.len() == 0 {
                    fail(ReadErrorKind::Internal)
                } else {
                    Ok(s2.last().node)
                },
            }
        },
    }
}

/// What reading the characters gives: the parse tree of the whole input, a
/// group of its top level statements, or the first error.
pub open spec fn read_model(chars: Seq<char>, lisp: bool) -> Result<NodeModel, ErrorModel> {
    match chars_model(chars, lisp) {
        Ok(st) => finish_model(st, lisp),
        Err(e) => Err(e),
    }
}

} // verus!
