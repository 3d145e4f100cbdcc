//! Turns a stream of unicode characters into a parse tree.
//!
//! The reader is a character-at-a-time state machine. Its meaning is given by
//! the functional model in `reader_model`: `read_model` folds `step_model` over
//! the input, and the executable reader is proved to compute exactly that fold.

use vstd::prelude::*;
use crate::reader_model::{
    AstModel, NodeModel, FrameModel, CommaPlace, ReadErrorKind, ErrorModel, ReaderModel, Handled,
    spec_is_whitespace, spec_is_num, spec_digit, spec_is_paren_open, spec_is_paren_close,
    illegal_chars, spec_is_line_group, placeholder_model, into_model_group, error_message,
    peel_model, with_stack, push_frame, peel_then, with_line_state, scan_line_end, scan_rest,
    set_top_content, append_char, word_model, quote_model, handle_model, retry_limit,
    process_model, finish_model, read_model, initial_model, chars_model, char_model,
    lemma_error_sticks, lemma_chars_step,
};
use crate::text::{push_char, hex_lower};
use crate::chars::{next_char, pending_chars, char_source};

verus! {

pub const TAG_USER: u32 = 0;
pub const TAG_INTERNAL: u32 = 1;
pub const TAG_FILE: u32 = 2;

/// Where in the source something was read.
#[derive(Debug, Clone, Copy, PartialEq, Eq, Structural)]
pub struct ReaderPosition {
    /// Index into the source tag list.
    pub source: u32,
    /// 1-indexed.
    pub line: u32,
    /// 1-indexed.
    pub column: u32,
}

pub open spec fn position_unknown() -> ReaderPosition {
    ReaderPosition { source: TAG_INTERNAL, line: 0, column: 0 }
}

/// The position given to values that were not read from any source.
pub fn position_unknown_exec() -> (r: ReaderPosition)
    ensures
        r == position_unknown(),
{
    ReaderPosition { source: TAG_INTERNAL, line: 0, column: 0 }
}

impl ReaderPosition {
    /// The default position is the unknown position.
    pub fn default() -> (r: ReaderPosition)
        ensures
            r == position_unknown(),
    {
        position_unknown_exec()
    }
}

/// Substate of a string literal.
#[derive(Debug, Clone, Copy, PartialEq, Eq, Structural)]
pub enum QuoteState {
    Normal,
    Raw,
    /// Last char was a backslash.
    Backslash,
    /// Last char was a backslash followed by whitespace.
    BackslashSeekingNewline,
    /// In a backslash-newline chomp.
    BackslashNewline,
}

#[derive(Debug, Clone, Copy, PartialEq, Eq, Structural)]
pub enum ReadState {
    /// True if still looking for a byte order mark.
    Scan(bool),
    /// True if in backslash mode.
    Comment(bool),
    /// True if the newline was already cleared.
    Backslash(bool),
    Minus(ReaderPosition),
    Identifier,
    /// True for a negative number.
    Number(bool),
    Quote(QuoteState),
}

#[derive(Debug, Clone, Copy, PartialEq, Eq, Structural)]
pub enum GroupLineState {
    Normal,
    /// Same as Normal, but tracked separately for a clearer message on a stray comma.
    Comma,
    Line,
}

/// What closes a group.
#[derive(Debug, Clone, Copy, PartialEq, Eq, Structural)]
pub enum GroupKind {
    /// Not a bracket group: a quote or a word in progress.
    Bare,
    File(GroupLineState),
    Round,
    Curly(GroupLineState),
    Square(GroupLineState),
}

#[derive(Debug)]
pub enum AstContent {
    Nil,
    True,
    String(String),
    Int(i64),
    Quote(Box<AstNode>),
    Group(Vec<AstNode>),
}

#[derive(Debug)]
pub struct AstNode {
    pub at: ReaderPosition,
    pub content: AstContent,
}

#[derive(Debug)]
pub struct StackFrame {
    pub node: AstNode,
    pub group: GroupKind,
}

#[derive(Debug)]
pub struct Output {
    pub source_tag: Vec<String>,
    pub source: AstNode,
}

#[derive(Debug, Clone)]
pub struct Error {
    /// "Filename"
    pub tag: String,
    pub at: ReaderPosition,
    pub message: String,
}

impl AstNode {
    pub open spec fn model(&self) -> NodeModel
        decreases self,
    {
        NodeModel { at: self.at, content: self.content.model() }
    }
}

impl AstContent {
    pub open spec fn model(&self) -> AstModel
        decreases self,
    {
        match self {
            AstContent::Nil => AstModel::Nil,
            AstContent::True => AstModel::True,
            AstContent::String(s) => AstModel::Str(s@),
            AstContent::Int(i) => AstModel::Int(*i),
            AstContent::Quote(b) => AstModel::Quote(Box::new(b.model())),
            AstContent::Group(v) => AstModel::Group(
                Seq::new(
                    v@.len(),
                    |i: int|
                        if 0 <= i < v@.len() {
                            v@[i].model()
                        } else {
                            placeholder_model()
                        },
                ),
            ),
        }
    }
}

impl StackFrame {
    pub open spec fn model(&self) -> FrameModel {
        FrameModel { node: self.node.model(), group: self.group }
    }

    pub fn new(node: AstNode, group: GroupKind) -> (r: Self)
        ensures
            r.node == node,
            r.group == group,
    {
        StackFrame { node, group }
    }
}

pub open spec fn stack_model(s: Seq<StackFrame>) -> Seq<FrameModel> {
    Seq::new(s.len(), |i: int| s[i].model())
}

impl Error {
    pub open spec fn model(&self) -> ErrorModel {
        ErrorModel { at: self.at, message: self.message@ }
    }
}

pub fn is_whitespace(ch: char) -> (r: bool)
    ensures
        r == spec_is_whitespace(ch),
{
    ch == ' ' || ch == '\t' || ch == '\r' || ch == '\n'
}

pub fn is_num(ch: char) -> (r: bool)
    ensures
        r == spec_is_num(ch),
{
    '0' <= ch && ch <= '9'
}

pub fn parse_num(ch: char) -> (r: i64)
    requires
        spec_is_num(ch),
    ensures
        r == spec_digit(ch),
        0 <= r <= 9,
{
    (ch as u32 - '0' as u32) as i64
}

pub fn is_word_start(ch: char) -> (r: bool)
    ensures
        r == (('A' <= ch && ch <= 'Z') || ('a' <= ch && ch <= 'z')),
{
    ('A' <= ch && ch <= 'Z') || ('a' <= ch && ch <= 'z')
}

pub fn is_normal_quote_open(ch: char) -> (r: bool)
    ensures
        r == (ch == '"'),
{
    ch == '"'
}

pub fn is_normal_quote_close(ch: char) -> (r: bool)
    ensures
        r == (ch == '"'),
{
    is_normal_quote_open(ch)
}

pub fn is_raw_quote_open(ch: char) -> (r: bool)
    ensures
        r == (ch == '`'),
{
    ch == '`'
}

pub fn is_raw_quote_close(ch: char) -> (r: bool)
    ensures
        r == (ch == '`'),
{
    is_raw_quote_open(ch)
}

pub fn is_word(ch: char) -> (r: bool)
    ensures
        r == (spec_is_num(ch) || ('A' <= ch && ch <= 'Z') || ('a' <= ch && ch <= 'z')),
{
    is_num(ch) || is_word_start(ch)
}

pub fn is_paren_open(ch: char) -> (r: bool)
    ensures
        r == spec_is_paren_open(ch),
{
    ch == '(' || ch == '[' || ch == '{'
}

pub fn is_paren_close(ch: char) -> (r: bool)
    ensures
        r == spec_is_paren_close(ch),
{
    ch == ')' || ch == ']' || ch == '}'
}

/// The characters that may appear nowhere outside strings and comments.
pub fn generate_illegal_chars() -> (r: Vec<char>)
    ensures
        r@ == illegal_chars(),
{
    let mut illegal: Vec<char> = Vec::new();
    illegal.push('\u{00A0}');  // No-break space
    illegal.push('\u{1680}');  // Ogham space mark
    illegal.push('\u{200B}');  // Zero width space
    illegal.push('\u{FEFF}');  // Zero-width non-breaking space
    assert(illegal@ =~= illegal_chars());
    illegal
}

/// Fails with an "illegal char" error where `ch` is one of `illegal`.
pub fn check_illegal(illegal: &Vec<char>, at: &ReaderPosition, tag: &String, ch: char) -> (r: Result<(), Error>)
    ensures
        r is Ok <==> !illegal@.contains(ch),
        r matches Err(e) ==> e.at == *at && e.tag@ == tag@ && e.message@ == error_message(
            ReadErrorKind::IllegalChar(ch),
        ),
{
    let mut i: usize = 0;
    while i < illegal.len()
        invariant
            0 <= i <= illegal@.len(),
            forall|j: int| 0 <= j < i ==> illegal@[j] != ch,
        decreases illegal@.len() - i,
    {
        if illegal[i] == ch {
            let message = message_of(ReadErrorKind::IllegalChar(ch));
            return Err(Error { at: *at, tag: tag.clone(), message });
        }
        i = i + 1;
    }
    Ok(())
}

/// The message text of a reader error.
pub fn message_of(kind: ReadErrorKind) -> (r: String)
    ensures
        r@ == error_message(kind),
{
    match kind {
        ReadErrorKind::NotAllowedInRound(is_comma) => {
            let mut s = if is_comma {
                String::from_str("Comma")
            } else {
                String::from_str("Newline")
            };
            s.append(" currently not allowed in (). Use \\.");
            s
        },
        ReadErrorKind::UnexpectedComma(place) => {
            let mut s = String::from_str("Unexpected comma ");
            match place {
                CommaPlace::AfterComma => s.append("after comma"),
                CommaPlace::StartOfFile => s.append("at start of file"),
                CommaPlace::AfterBrackets => s.append("after brackets"),
                CommaPlace::AfterBraces => s.append("after braces"),
            }
            s
        },
        ReadErrorKind::LispComma => String::from_str("Please don't use commas in LISP mode"),
        ReadErrorKind::IllegalChar(ch) => {
            let mut s = String::from_str("Illegal unicode char: U+");
            let h = hex_lower(ch as u32);
            s.append(h.as_str());
            s
        },
        ReadErrorKind::Unbalanced(ch) => {
            let mut s = String::from_str("Unbalanced extra ");
            push_char(&mut s, ch);
            s.append(" parenthesis");
            s
        },
        ReadErrorKind::NoBracketInLisp => String::from_str("No [ support in lisp mode"),
        ReadErrorKind::BackslashFollowedBy(ch) => {
            let mut s = String::from_str(
                "Backslash may only be followed by a comment or newline, but saw: ",
            );
            push_char(&mut s, ch);
            s
        },
        ReadErrorKind::IllegalIdentifierChar(ch) => {
            let mut s = String::from_str("Illegal character for identifier: ");
            push_char(&mut s, ch);
            s
        },
        ReadErrorKind::IllegalNumberChar(ch) => {
            let mut s = String::from_str("Illegal character for number: ");
            push_char(&mut s, ch);
            s
        },
        ReadErrorKind::NewlineInString => String::from_str("Newline inside string"),
        ReadErrorKind::UnrecognizedEscape(ch) => {
            let mut s = String::from_str("Unrecognized backslash sequence \\");
            push_char(&mut s, ch);
            s
        },
        ReadErrorKind::WhitespaceThen(ch) => {
            let mut s = String::from_str(
                "Unrecognized backslash sequence: whitespace followed by ",
            );
            push_char(&mut s, ch);
            s
        },
        ReadErrorKind::StrayQuote => String::from_str("Stray ' at end of input"),
        ReadErrorKind::MissingClose => String::from_str("Expected ) at end of input"),
        ReadErrorKind::UnterminatedString => String::from_str("Unterminated string at end of input"),
        ReadErrorKind::NumberTooLarge => String::from_str("Number too large"),
        ReadErrorKind::Internal => String::from_str(
            "Reader internal error. Please run again with RUST_BACKTRACE=1",
        ),
    }
}

/// The node that a quote frame holds until its content is read.
pub fn placeholder() -> (r: AstNode)
    ensures
        r.model() == placeholder_model(),
{
    AstNode { at: ReaderPosition { source: TAG_FILE, line: 0, column: 0 }, content: AstContent::Nil }
}

/// Merges the top layer of the stack into the one below it (and any quote
/// frames below that), applying the "solo" rule for lines of a bracket group.
/// Returns false where the stack is not of a shape the reader produces.
pub fn peel(stack: &mut Vec<StackFrame>, lisp: bool) -> (ok: bool)
    ensures
        match peel_model(stack_model(old(stack)@), lisp) {
            Some(s) => ok && stack_model(final(stack)@) == s,
            None => !ok,
        },
{
    let ghost target = peel_model(stack_model(stack@), lisp);
    let mut done = false;
    let mut ok = false;
    while !done
        invariant
            !done ==> peel_model(stack_model(stack@), lisp) == target,
            done ==> match target {
                Some(s) => ok && stack_model(stack@) == s,
                None => !ok,
            },
        decreases stack@.len() + (if done { 0int } else { 1int }),
    {
        match peel_step(stack, lisp) {
            PeelStep::Again => {},
            PeelStep::Finished => {
                done = true;
                ok = true;
            },
            PeelStep::Stuck => {
                done = true;
                ok = false;
            },
        }
    }
    ok
}

enum PeelStep {
    /// A quote frame took the top node; the quote frame is to be merged next.
    Again,
    /// A group frame took the top node.
    Finished,
    /// The stack is not of a shape the reader produces.
    Stuck,
}

/// One step of `peel`.
fn peel_step(stack: &mut Vec<StackFrame>, lisp: bool) -> (r: PeelStep)
    ensures
        r is Again ==> final(stack)@.len() < old(stack)@.len()
            && peel_model(stack_model(final(stack)@), lisp) == peel_model(stack_model(old(stack)@), lisp),
        r is Finished ==> peel_model(stack_model(old(stack)@), lisp) == Some(stack_model(final(stack)@)),
        r is Stuck ==> peel_model(stack_model(old(stack)@), lisp) is None,
        final(stack)@.len() <= old(stack)@.len(),
{
    let ghost s0 = stack_model(stack@);
    if stack.len() < 2 {
        return PeelStep::Stuck;
    }
    let top = stack.pop().unwrap();
    let into = stack.pop().unwrap();
    let ghost rest = stack_model(stack@);
    assert(s0.drop_last().drop_last() =~= rest);
    assert(s0.last() == top.model());
    assert(s0.drop_last().last() == into.model());
    let StackFrame { node: AstNode { at: into_at, content: into_content }, group: into_group } =
        into;
    match into_content {
        AstContent::Quote(_) => {
            let merged = StackFrame {
                node: AstNode { at: into_at, content: AstContent::Quote(Box::new(top.node)) },
                group: into_group,
            };
            stack.push(merged);
            proof {
                let d = s0.drop_last();
                assert(stack_model(stack@) =~= d.update(d.len() - 1, merged.model()));
                assert(merged.model() == FrameModel {
                    node: NodeModel { at: d.last().node.at, content: AstModel::Quote(Box::new(s0.last().node)) },
                    group: d.last().group,
                });
                assert(d.last().node.content is Quote);
            }
            PeelStep::Again
        },
        AstContent::Group(mut v) => {
            let StackFrame { node: top_node, group: top_group } = top;
            let ghost top_model = top_node.model();
            let node = if !lisp && is_line_group(top_group) {
                let AstNode { at: top_at, content: top_content } = top_node;
                match top_content {
                    AstContent::Group(mut tv) => {
                        if tv.len() == 1 {
                            let only = tv.pop().unwrap();
                            proof {
                                assert(top_model.content matches AstModel::Group(g) && g.len() == 1
                                    && g[0] == only.model());
                            }
                            only
                        } else {
                            let n = AstNode { at: top_at, content: AstContent::Group(tv) };
                            assert(n.model() == top_model);
                            n
                        }
                    },
                    other => {
                        return PeelStep::Stuck;
                    },
                }
            } else {
                top_node
            };
            let ghost v0 = v@;
            v.push(node);
            let merged = StackFrame {
                node: AstNode { at: into_at, content: AstContent::Group(v) },
                group: into_group,
            };
            proof {
                let d = s0.drop_last();
                let g0 = into_model_group(d.last());
                assert(g0.len() == v0.len());
                assert(forall|i: int| 0 <= i < v0.len() ==> g0[i] == v0[i].model());
                assert(merged.node.content.model()->Group_0 =~= g0.push(node.model()));
            }
            stack.push(merged);
            proof {
                let d = s0.drop_last();
                assert(stack_model(stack@) =~= d.update(d.len() - 1, merged.model()));
            }
            PeelStep::Finished
        },
        _ => PeelStep::Stuck,
    }
}

pub fn is_line_group(g: GroupKind) -> (r: bool)
    ensures
        r == spec_is_line_group(g),
{
    match g {
        GroupKind::Square(GroupLineState::Line) | GroupKind::Curly(GroupLineState::Line)
        | GroupKind::File(GroupLineState::Line) => true,
        _ => false,
    }
}

} // verus!

verus! {

/// The reader between two characters.
pub struct Reader {
    pub state: ReadState,
    pub stack: Vec<StackFrame>,
    pub at: ReaderPosition,
    pub last_cr: bool,
}

/// What handling a character once did.
pub enum Handling {
    Done,
    Again,
    Fail(ReadErrorKind),
}

pub open spec fn handling_matches(h: Handled, res: Handling, after: ReaderModel) -> bool {
    match h {
        Handled::Done(s) => res is Done && after == s,
        Handled::Again(s) => res is Again && after == s,
        Handled::Fail(k) => res == Handling::Fail(k),
    }
}

impl Reader {
    pub open spec fn model(&self) -> ReaderModel {
        ReaderModel { state: self.state, stack: stack_model(self.stack@), at: self.at, last_cr: self.last_cr }
    }

    fn push_node(&mut self, content: AstContent, at: ReaderPosition, group: GroupKind)
        ensures
            final(self).model() == push_frame(old(self).model(), content.model(), at, group),
    {
        let ghost s0 = self.stack@;
        let f = StackFrame::new(AstNode { at, content }, group);
        self.stack.push(f);
        assert(stack_model(self.stack@) =~= stack_model(s0).push(f.model()));
    }

    fn peel(&mut self, lisp: bool) -> (ok: bool)
        ensures
            match peel_model(old(self).model().stack, lisp) {
                Some(s) => ok && final(self).model() == with_stack(old(self).model(), s),
                None => !ok,
            },
    {
        peel(&mut self.stack, lisp)
    }

    fn peel_then(&mut self, lisp: bool, again: bool) -> (res: Handling)
        ensures
            handling_matches(peel_then(old(self).model(), lisp, again), res, final(self).model()),
    {
        if self.peel(lisp) {
            if again {
                Handling::Again
            } else {
                Handling::Done
            }
        } else {
            Handling::Fail(ReadErrorKind::Internal)
        }
    }

    fn top_group(&self) -> (g: Option<GroupKind>)
        ensures
            self.stack@.len() == 0 ==> g is None,
            self.stack@.len() > 0 ==> g == Some(self.model().stack.last().group),
    {
        if self.stack.len() == 0 {
            None
        } else {
            Some(self.stack[self.stack.len() - 1].group)
        }
    }

    /// Sets the line state of the top group.
    fn set_top_line_state(&mut self, ls: GroupLineState) -> (ok: bool)
        ensures
            ({
                let s = old(self).model().stack;
                if s.len() > 0 && with_line_state(s.last().group, ls) is Some {
                    ok && final(self).model() == with_stack(old(self).model(), s.update(s.len() - 1, FrameModel {
                        node: s.last().node,
                        group: with_line_state(s.last().group, ls).unwrap(),
                    }))
                } else {
                    !ok
                }
            }),
    {
        let ghost s0 = self.stack@;
        if self.stack.len() == 0 {
            return false;
        }
        let f = self.stack.pop().unwrap();
        let StackFrame { node, group } = f;
        let g2 = match group {
            GroupKind::File(_) => GroupKind::File(ls),
            GroupKind::Curly(_) => GroupKind::Curly(ls),
            GroupKind::Square(_) => GroupKind::Square(ls),
            _ => {
                return false;
            },
        };
        let f2 = StackFrame { node, group: g2 };
        self.stack.push(f2);
        assert(stack_model(self.stack@) =~= stack_model(s0).update(s0.len() - 1, f2.model()));
        true
    }

    fn scan_line_end(&mut self, ch: char, lisp: bool) -> (res: Option<Handling>)
        ensures
            match scan_line_end(old(self).model(), ch, lisp) {
                Some(h) => res matches Some(r) && handling_matches(h, r, final(self).model()),
                None => res is None && final(self).model() == old(self).model(),
            },
    {
        let is_comma = ch == ',';
        let is_comment_start = ch == '#';
        let g = match self.top_group() {
            None => {
                return Some(Handling::Fail(ReadErrorKind::Internal));
            },
            Some(g) => g,
        };
        let ls = match g {
            GroupKind::Round => {
                return Some(Handling::Fail(ReadErrorKind::NotAllowedInRound(is_comma)));
            },
            GroupKind::Bare => {
                return None;
            },
            GroupKind::File(ls) | GroupKind::Curly(ls) | GroupKind::Square(ls) => ls,
        };
        let is_line = ls == GroupLineState::Line;
        if is_comma && !is_line {
            let place = if ls == GroupLineState::Comma {
                CommaPlace::AfterComma
            } else {
                match g {
                    GroupKind::File(_) => CommaPlace::StartOfFile,
                    GroupKind::Square(_) => CommaPlace::AfterBrackets,
                    _ => CommaPlace::AfterBraces,
                }
            };
            return Some(Handling::Fail(ReadErrorKind::UnexpectedComma(place)));
        }
        if is_line {
            if !self.peel(lisp) {
                return Some(Handling::Fail(ReadErrorKind::Internal));
            }
            let new_ls = if is_comma {
                GroupLineState::Comma
            } else {
                GroupLineState::Normal
            };
            if !self.set_top_line_state(new_ls) {
                return Some(Handling::Fail(ReadErrorKind::Internal));
            }
        }
        if is_comment_start {
            self.state = ReadState::Comment(false);
        }
        Some(Handling::Done)
    }

    fn scan_rest(&mut self, ch: char, lisp: bool, illegal: &Vec<char>) -> (res: Handling)
        requires
            illegal@ == illegal_chars(),
        ensures
            handling_matches(scan_rest(old(self).model(), ch, lisp), res, final(self).model()),
    {
        let at = self.at;
        if ch == '#' {
            self.state = ReadState::Comment(false);
            return Handling::Done;
        }
        if contains_char(illegal, ch) {
            return Handling::Fail(ReadErrorKind::IllegalChar(ch));
        }
        if is_whitespace(ch) {
            return Handling::Done;
        }
        if ch == '\\' {
            self.state = ReadState::Backslash(false);
            return Handling::Done;
        }
        if is_paren_close(ch) {
            let g = match self.top_group() {
                None => {
                    return Handling::Fail(ReadErrorKind::Internal);
                },
                Some(g) => g,
            };
            match (g, ch) {
                (GroupKind::Round, ')') => {},
                (GroupKind::Curly(ls), '}') | (GroupKind::Square(ls), ']') => {
                    if ls == GroupLineState::Line {
                        if !self.peel(lisp) {
                            return Handling::Fail(ReadErrorKind::Internal);
                        }
                    }
                },
                _ => {
                    return Handling::Fail(ReadErrorKind::Unbalanced(ch));
                },
            }
            return self.peel_then(lisp, false);
        }
        let g = match self.top_group() {
            None => {
                return Handling::Fail(ReadErrorKind::Internal);
            },
            Some(g) => g,
        };
        if !lisp {
            match g {
                GroupKind::File(ls) | GroupKind::Curly(ls) | GroupKind::Square(ls) => {
                    if ls != GroupLineState::Line {
                        let lg = match g {
                            GroupKind::File(_) => GroupKind::File(GroupLineState::Line),
                            GroupKind::Curly(_) => GroupKind::Curly(GroupLineState::Line),
                            _ => GroupKind::Square(GroupLineState::Line),
                        };
                        self.push_node(empty_group(), at, lg);
                    }
                },
                _ => {},
            }
        }
        if ch == '-' {
            self.state = ReadState::Minus(at);
            return Handling::Done;
        }
        if ch == '\'' {
            self.push_node(AstContent::Quote(Box::new(placeholder())), at, GroupKind::Bare);
            return Handling::Done;
        }
        if is_num(ch) {
            self.push_node(AstContent::Int(0), at, GroupKind::Bare);
            self.state = ReadState::Number(false);
            return Handling::Again;
        }
        let normal_quote = is_normal_quote_open(ch);
        if normal_quote || is_raw_quote_open(ch) {
            self.push_node(AstContent::Quote(Box::new(placeholder())), at, GroupKind::Bare);
            let empty = String::new();
            self.push_node(AstContent::String(empty), at, GroupKind::Bare);
            self.state = ReadState::Quote(
                if normal_quote {
                    QuoteState::Normal
                } else {
                    QuoteState::Raw
                },
            );
            return Handling::Done;
        }
        if is_paren_open(ch) {
            self.state = ReadState::Scan(false);
            if ch == '[' {
                if lisp {
                    return Handling::Fail(ReadErrorKind::NoBracketInLisp);
                }
                self.push_node(make_array_group(at), at, GroupKind::Square(GroupLineState::Normal));
            } else if ch == '{' {
                if lisp {
                    return Handling::Fail(ReadErrorKind::NoBracketInLisp);
                }
                self.push_node(AstContent::Quote(Box::new(placeholder())), at, GroupKind::Bare);
                self.push_node(empty_group(), at, GroupKind::Curly(GroupLineState::Normal));
            } else {
                self.push_node(empty_group(), at, GroupKind::Round);
            }
            return Handling::Done;
        }
        self.push_node(AstContent::String(String::new()), at, GroupKind::Bare);
        self.state = ReadState::Identifier;
        Handling::Again
    }

    fn set_top_content(&mut self, c: AstContent)
        requires
            old(self).stack@.len() > 0,
        ensures
            final(self).model() == set_top_content(old(self).model(), c.model()),
    {
        let ghost s0 = self.stack@;
        let f = self.stack.pop().unwrap();
        let StackFrame { node, group } = f;
        let f2 = StackFrame { node: AstNode { at: node.at, content: c }, group };
        self.stack.push(f2);
        assert(stack_model(self.stack@) =~= stack_model(s0).update(s0.len() - 1, f2.model()));
    }

    fn append_char(&mut self, ch: char) -> (res: Handling)
        ensures
            handling_matches(append_char(old(self).model(), ch), res, final(self).model()),
    {
        if self.stack.len() == 0 {
            return Handling::Fail(ReadErrorKind::Internal);
        }
        let ghost s0 = self.stack@;
        let f = self.stack.pop().unwrap();
        let StackFrame { node, group } = f;
        let AstNode { at, content } = node;
        match content {
            AstContent::String(mut s) => {
                push_char(&mut s, ch);
                let f2 = StackFrame { node: AstNode { at, content: AstContent::String(s) }, group };
                self.stack.push(f2);
                assert(stack_model(self.stack@) =~= stack_model(s0).update(s0.len() - 1, f2.model()));
                Handling::Done
            },
            _ => Handling::Fail(ReadErrorKind::Internal),
        }
    }

    fn word(&mut self, ch: char, lisp: bool, illegal: &Vec<char>) -> (res: Handling)
        requires
            illegal@ == illegal_chars(),
            old(self).state == ReadState::Identifier || old(self).state is Number,
        ensures
            handling_matches(word_model(old(self).model(), ch, lisp), res, final(self).model()),
    {
        if contains_char(illegal, ch) {
            return Handling::Fail(ReadErrorKind::IllegalChar(ch));
        }
        let is_white = is_whitespace(ch);
        if is_white || is_paren_close(ch) || ch == ',' || ch == '#' {
            self.state = ReadState::Scan(false);
            return self.peel_then(lisp, !(lisp && is_white));
        }
        if self.state == ReadState::Identifier {
            if is_paren_open(ch) || is_normal_quote_open(ch) || is_raw_quote_open(ch) {
                return Handling::Fail(ReadErrorKind::IllegalIdentifierChar(ch));
            }
            self.append_char(ch)
        } else {
            if !is_num(ch) {
                return Handling::Fail(ReadErrorKind::IllegalNumberChar(ch));
            }
            if self.stack.len() == 0 {
                return Handling::Fail(ReadErrorKind::Internal);
            }
            let i = match self.stack[self.stack.len() - 1].node.content {
                AstContent::Int(i) => i,
                _ => {
                    return Handling::Fail(ReadErrorKind::Internal);
                },
            };
            let d = parse_num(ch);
            let negative = self.state == ReadState::Number(true);
            let w: i128 = if negative { (i as i128) * 10 - (d as i128) } else { (i as i128) * 10 + (d as i128) };
            if w < (i64::MIN as i128) || w > (i64::MAX as i128) {
                return Handling::Fail(ReadErrorKind::NumberTooLarge);
            }
            self.set_top_content(AstContent::Int(w as i64));
            Handling::Done
        }
    }

    fn quote(&mut self, qs: QuoteState, ch: char, lisp: bool) -> (res: Handling)
        requires
            old(self).state == ReadState::Quote(qs),
        ensures
            handling_matches(quote_model(old(self).model(), qs, ch, lisp), res, final(self).model()),
    {
        let is_newline = ch == '\r' || ch == '\n';
        match qs {
            QuoteState::Normal | QuoteState::Raw => {
                let closed = (qs != QuoteState::Raw && is_normal_quote_close(ch)) || (qs
                    == QuoteState::Raw && is_raw_quote_close(ch));
                if is_newline {
                    Handling::Fail(ReadErrorKind::NewlineInString)
                } else if qs == QuoteState::Normal && ch == '\\' {
                    self.state = ReadState::Quote(QuoteState::Backslash);
                    Handling::Done
                } else if closed {
                    self.state = ReadState::Scan(false);
                    self.peel_then(lisp, false)
                } else {
                    self.append_char(ch)
                }
            },
            QuoteState::Backslash => {
                if is_newline {
                    self.state = ReadState::Quote(QuoteState::BackslashNewline);
                    Handling::Done
                } else if ch == 't' || ch == 'n' || ch == '\\' || ch == '"' {
                    let c = if ch == 't' {
                        '\t'
                    } else if ch == 'n' {
                        '\n'
                    } else {
                        ch
                    };
                    self.state = ReadState::Quote(QuoteState::Normal);
                    self.append_char(c)
                } else if is_whitespace(ch) {
                    self.state = ReadState::Quote(QuoteState::BackslashSeekingNewline);
                    Handling::Done
                } else {
                    Handling::Fail(ReadErrorKind::UnrecognizedEscape(ch))
                }
            },
            QuoteState::BackslashSeekingNewline => {
                if is_newline {
                    self.state = ReadState::Quote(QuoteState::BackslashNewline);
                    Handling::Done
                } else if !is_whitespace(ch) {
                    Handling::Fail(ReadErrorKind::WhitespaceThen(ch))
                } else {
                    Handling::Done
                }
            },
            QuoteState::BackslashNewline => {
                if !is_whitespace(ch) {
                    self.state = ReadState::Quote(QuoteState::Normal);
                    Handling::Again
                } else {
                    Handling::Done
                }
            },
        }
    }

    /// Handles one character once, in the current state.
    pub fn handle(&mut self, ch: char, lisp: bool, illegal: &Vec<char>) -> (res: Handling)
        requires
            illegal@ == illegal_chars(),
        ensures
            handling_matches(handle_model(old(self).model(), ch, lisp), res, final(self).model()),
    {
        let is_newline = ch == '\r' || ch == '\n';
        match self.state {
            ReadState::Scan(_) => {
                let is_comma = ch == ',';
                if !lisp && (is_comma || is_newline || ch == '#') {
                    match self.scan_line_end(ch, lisp) {
                        Some(h) => h,
                        None => self.scan_rest(ch, lisp, illegal),
                    }
                } else if lisp && is_comma {
                    Handling::Fail(ReadErrorKind::LispComma)
                } else {
                    self.scan_rest(ch, lisp, illegal)
                }
            },
            ReadState::Comment(in_backslash) => {
                if is_newline {
                    self.state = if in_backslash {
                        ReadState::Backslash(true)
                    } else {
                        ReadState::Scan(false)
                    };
                }
                Handling::Done
            },
            ReadState::Backslash(cleared) => {
                if ch == '#' {
                    self.state = ReadState::Comment(true);
                    Handling::Done
                } else if is_newline {
                    self.state = ReadState::Backslash(true);
                    Handling::Done
                } else if !is_whitespace(ch) {
                    if !cleared {
                        Handling::Fail(ReadErrorKind::BackslashFollowedBy(ch))
                    } else {
                        self.state = ReadState::Scan(false);
                        Handling::Again
                    }
                } else {
                    Handling::Done
                }
            },
            ReadState::Minus(node_at) => {
                if is_num(ch) {
                    let d = parse_num(ch);
                    self.push_node(AstContent::Int(-d), node_at, GroupKind::Bare);
                    self.state = ReadState::Number(true);
                    Handling::Done
                } else {
                    let mut s = String::new();
                    push_char(&mut s, '-');
                    assert(s@ =~= seq!['-']);
                    self.push_node(AstContent::String(s), node_at, GroupKind::Bare);
                    self.state = ReadState::Identifier;
                    Handling::Again
                }
            },
            ReadState::Identifier | ReadState::Number(_) => self.word(ch, lisp, illegal),
            ReadState::Quote(qs) => self.quote(qs, ch, lisp),
        }
    }

    /// Handles one character until it is done with, handling it again at most
    /// `fuel` more times.
    fn process_with(&mut self, ch: char, lisp: bool, illegal: &Vec<char>, fuel: usize) -> (res: Result<(), ReadErrorKind>)
        requires
            illegal@ == illegal_chars(),
        ensures
            match process_model(old(self).model(), ch, lisp, fuel as nat) {
                Ok(s) => res is Ok && final(self).model() == s,
                Err(k) => res == Err::<(), ReadErrorKind>(k),
            },
        decreases fuel,
    {
        match self.handle(ch, lisp, illegal) {
            Handling::Done => Ok(()),
            Handling::Fail(k) => Err(k),
            Handling::Again => {
                if fuel == 0 {
                    Ok(())
                } else {
                    self.process_with(ch, lisp, illegal, fuel - 1)
                }
            },
        }
    }

    /// Handles one character until it is done with.
    pub fn process(&mut self, ch: char, lisp: bool, illegal: &Vec<char>) -> (res: Result<(), ReadErrorKind>)
        requires
            illegal@ == illegal_chars(),
        ensures
            match process_model(old(self).model(), ch, lisp, retry_limit()) {
                Ok(s) => res is Ok && final(self).model() == s,
                Err(k) => res == Err::<(), ReadErrorKind>(k),
            },
    {
        self.process_with(ch, lisp, illegal, 8)
    }
}

fn make_array_group(at: ReaderPosition) -> (c: AstContent)
    ensures
        c.model() == AstModel::Group(seq![NodeModel { at, content: AstModel::Str("make-array"@) }]),
{
    let name = String::from_str("make-array");
    let mut v: Vec<AstNode> = Vec::new();
    let n = AstNode { at, content: AstContent::String(name) };
    v.push(n);
    let c = AstContent::Group(v);
    assert(v@[0] == n);
    assert(n.model() == NodeModel { at, content: AstModel::Str("make-array"@) });
    assert(c.model()->Group_0.len() == 1);
    assert(c.model()->Group_0[0] == v@[0].model());
    assert(c.model()->Group_0 =~= seq![NodeModel { at, content: AstModel::Str("make-array"@) }]);
    c
}

fn empty_group() -> (c: AstContent)
    ensures
        c.model() == AstModel::Group(Seq::empty()),
{
    let c = AstContent::Group(Vec::new());
    assert(c.model()->Group_0 =~= Seq::<NodeModel>::empty());
    c
}

fn contains_char(v: &Vec<char>, ch: char) -> (r: bool)
    ensures
        r == v@.contains(ch),
{
    let mut i: usize = 0;
    while i < v.len()
        invariant
            0 <= i <= v@.len(),
            forall|j: int| 0 <= j < i ==> v@[j] != ch,
        decreases v@.len() - i,
    {
        if v[i] == ch {
            assert(v@[i as int] == ch);
            return true;
        }
        i = i + 1;
    }
    false
}

} // verus!

verus! {

impl Reader {
    /// Reads one character of input: byte order mark and CR LF handling, the
    /// state machine, then the position update.
    fn read_char(&mut self, ch: char, lisp: bool, illegal: &Vec<char>) -> (r: Result<(), (ReaderPosition, ReadErrorKind)>)
        requires
            illegal@ == illegal_chars(),
            old(self).at.line < u32::MAX,
            old(self).at.column < u32::MAX,
        ensures
            match char_model(old(self).model(), ch, lisp) {
                Ok(s) => r is Ok && final(self).model() == s,
                Err(e) => r matches Err((at, k)) && e == (ErrorModel { at, message: error_message(k) }),
            },
            r is Ok ==> final(self).at.line <= old(self).at.line + 1 && final(self).at.column <= old(self).at.column + 1
                && final(self).at.source == old(self).at.source,
    {
        reveal(char_model);
        if self.state == ReadState::Scan(true) {
            self.state = ReadState::Scan(false);
            if ch == '\u{FEFF}' {
                return Ok(());
            }
        }
        if ch == '\n' && self.last_cr {
            self.last_cr = false;
            return Ok(());
        }
        let at = self.at;
        match self.process(ch, lisp, illegal) {
            Err(kind) => {
                return Err((at, kind));
            },
            Ok(()) => {},
        }
        if ch == '\r' || ch == '\n' {
            self.at = ReaderPosition { source: at.source, line: at.line + 1, column: 1 };
        } else {
            self.at = ReaderPosition { source: at.source, line: at.line, column: at.column + 1 };
        }
        self.last_cr = ch == '\r';
        Ok(())
    }
}

/// End of input: closes the word being read, then the last line of the file.
fn finish(reader: &mut Reader, lisp: bool) -> (r: Result<AstNode, ReadErrorKind>)
    ensures
        match finish_model(old(reader).model(), lisp) {
            Ok(n) => r matches Ok(node) && node.model() == n,
            Err(e) => r matches Err(k) && e == (ErrorModel { at: old(reader).at, message: error_message(k) }),
        },
{
    let ghost st = reader.model();
    if let ReadState::Quote(_) = reader.state {
        return Err(ReadErrorKind::UnterminatedString);
    }
    if reader.stack.len() > 1 {
        let kind = match &reader.stack[reader.stack.len() - 1].node.content {
            AstContent::Group(_) => 0u8,
            AstContent::Quote(_) => 1u8,
            _ => 2u8,
        };
        if kind == 1 {
            return Err(ReadErrorKind::StrayQuote);
        }
        if kind == 2 {
            if !reader.peel(lisp) {
                return Err(ReadErrorKind::Internal);
            }
        }
    }
    if !lisp && reader.stack.len() > 1 {
        let top = &reader.stack[reader.stack.len() - 1];
        let is_file_group = match (&top.node.content, top.group) {
            (AstContent::Group(_), GroupKind::File(_)) => true,
            _ => false,
        };
        if is_file_group {
            if !reader.peel(lisp) {
                return Err(ReadErrorKind::Internal);
            }
        }
    }
    if reader.stack.len() > 1 {
        return Err(ReadErrorKind::MissingClose);
    }
    if reader.stack.len() == 0 {
        return Err(ReadErrorKind::Internal);
    }
    let f = reader.stack.pop().unwrap();
    Ok(f.node)
}

/// The source tag list of a read: the built-in tags, then the input's own.
pub open spec fn source_tag_model(tag: Seq<char>) -> Seq<Seq<char>> {
    seq!["<user-defined>"@, "<internal>"@, tag]
}

/// Reads all the pending characters of `chars` into a parse tree: the group of
/// the input's top level statements. `tag` names the input in errors (such as
/// a file name); `lisp` selects the plain LISP syntax over the L0 sugar.
pub fn ast(source: crate::chars::CharSource, tag: String, lisp: bool) -> (r: Result<Output, Error>)
    requires
        pending_chars(source).len() < u32::MAX,
    ensures
        match read_model(pending_chars(source), lisp) {
            Ok(n) => r matches Ok(o) && o.source.model() == n && o.source_tag@.len() == 3
                && (forall|i: int| 0 <= i < 3 ==> o.source_tag@[i]@ == #[trigger] source_tag_model(tag@)[i]),
            Err(e) => r matches Err(err) && err.model() == e && err.tag@ == tag@,
        },
{
    let ghost input = pending_chars(source);
    let mut chars = source;
    let illegal = generate_illegal_chars();
    let mut stack: Vec<StackFrame> = Vec::new();
    let file_group = AstNode { at: ReaderPosition { source: TAG_FILE, line: 0, column: 0 }, content: empty_group() };
    stack.push(StackFrame::new(file_group, GroupKind::File(GroupLineState::Normal)));
    let mut reader = Reader {
        state: ReadState::Scan(true),
        stack,
        at: ReaderPosition { source: TAG_FILE, line: 1, column: 1 },
        last_cr: false,
    };
    assert(stack_model(reader.stack@) =~= initial_model().stack);
    let ghost mut k: int = 0;
    assert(input.take(0) =~= Seq::<char>::empty());
    let mut next = next_char(&mut chars);
    while next.is_some()
        invariant
            illegal@ == illegal_chars(),
            input == pending_chars(source),
            input.len() < u32::MAX,
            0 <= k <= input.len(),
            next is Some ==> pending_chars(chars) == input.skip(k + 1),
            next is None ==> k == input.len(),
            next is Some ==> k < input.len() && next == Some(input[k]),
            chars_model(input.take(k), lisp) == Ok::<ReaderModel, ErrorModel>(reader.model()),
            reader.at.line <= k + 1,
            reader.at.column <= k + 1,
            reader.at.source == TAG_FILE,
        decreases input.len() - k,
    {
        let ch = next.unwrap();
        proof {
            lemma_chars_step(input, lisp, k);
        }
        match reader.read_char(ch, lisp, &illegal) {
            Err((at, kind)) => {
                let message = message_of(kind);
                proof {
                    assert(chars_model(input.take(k + 1), lisp) == Err::<ReaderModel, ErrorModel>(ErrorModel { at, message: error_message(kind) }));
                    lemma_error_sticks(input, lisp, k + 1, input.len() as int);
                    assert(input.take(input.len() as int) =~= input);
                    assert(read_model(input, lisp) == Err::<NodeModel, ErrorModel>(ErrorModel { at, message: error_message(kind) }));
                }
                return Err(Error { tag, at, message });
            },
            Ok(()) => {},
        }
        let ghost p = pending_chars(chars);
        next = next_char(&mut chars);
        proof {
            k = k + 1;
            assert(p == input.skip(k));
            if next is Some {
                assert(input.skip(k).drop_first() =~= input.skip(k + 1));
            } else {
                assert(input.skip(k).len() == 0);
            }
        }
    }
    assert(input.take(k) =~= input);
    let at = reader.at;
    match finish(&mut reader, lisp) {
        Err(kind) => {
            let message = message_of(kind);
            Err(Error { tag, at, message })
        },
        Ok(source) => {
            let mut source_tag: Vec<String> = Vec::new();
            source_tag.push(String::from_str("<user-defined>"));
            source_tag.push(String::from_str("<internal>"));
            source_tag.push(tag);
            Ok(Output { source_tag, source })
        },
    }
}

/// Reads a source text into a parse tree, as `ast` does on a reader over the
/// text's UTF-8 bytes.
pub fn read_text(text: &str, tag: String, lisp: bool) -> (r: Result<Output, Error>)
    requires
        text@.len() < u32::MAX,
    ensures
        match read_model(text@, lisp) {
            Ok(n) => r matches Ok(o) && o.source.model() == n && o.source_tag@.len() == 3
                && (forall|i: int| 0 <= i < 3 ==> o.source_tag@[i]@ == #[trigger] source_tag_model(tag@)[i]),
            Err(e) => r matches Err(err) && err.model() == e && err.tag@ == tag@,
        },
{
    let bytes = text.as_bytes_vec();
    proof {
        vstd::utf8::encode_utf8_valid_utf8(text@);
        vstd::utf8::encode_utf8_decode_utf8(text@);
    }
    let chars = char_source(bytes);
    ast(chars, tag, lisp)
}

} // verus!
