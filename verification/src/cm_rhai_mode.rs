//! The editor mode: what to paint each token as, and how far to indent a
//! line.

pub mod chars;
pub mod grammar;
pub mod laws;
pub mod number;
pub mod token;

use vstd::prelude::*;
use vstd::string::StrSliceExecFns;
use crate::cm_rhai_mode::chars::{blank, is_blank};
use crate::cm_rhai_mode::grammar::lex;
use crate::cm_rhai_mode::laws::lemma_lex_peak;
use crate::cm_rhai_mode::token::{next_token, InBetweenToken, Token, TokenView};
use crate::codemirror::StringStream;

verus! {

/// The pattern of a line on which typing re-indents at once: nothing but
/// white space and one closing bracket.
pub const ELECTRIC_INPUT: &'static str = "^\\s*[}\\])]$";

/// The marker that begins a line comment.
pub const LINE_COMMENT: &'static str = "//";

/// What the editor paints a token as.
#[derive(Clone, Copy, Debug, PartialEq, Eq, Structural)]
pub enum Category {
    Number,
    Variable,
    Def,
    String,
    String2,
    Bracket,
    Operator,
    Keyword,
    Builtin,
    Comment,
    Error,
}

impl Category {
    /// The name that the editor knows the category by.
    pub open spec fn name(self) -> Seq<char> {
        match self {
            Category::Number => "number"@,
            Category::Variable => "variable"@,
            Category::Def => "def"@,
            Category::String => "string"@,
            Category::String2 => "string-2"@,
            Category::Bracket => "bracket"@,
            Category::Operator => "operator"@,
            Category::Keyword => "keyword"@,
            Category::Builtin => "builtin"@,
            Category::Comment => "comment"@,
            Category::Error => "error"@,
        }
    }

    /// The name that the editor knows the category by.
    pub fn as_str(&self) -> (name: &'static str)
        ensures
            name@ == self.name(),
    {
        match self {
            Category::Number => "number",
            Category::Variable => "variable",
            Category::Def => "def",
            Category::String => "string",
            Category::String2 => "string-2",
            Category::Bracket => "bracket",
            Category::Operator => "operator",
            Category::Keyword => "keyword",
            Category::Builtin => "builtin",
            Category::Comment => "comment",
            Category::Error => "error",
        }
    }
}

/// The lexer gave no token: it could not go on.
#[derive(Clone, Copy, Debug, PartialEq, Eq, Structural)]
pub struct NoToken;

impl NoToken {
    /// What to tell the editor.
    pub fn message(&self) -> (text: &'static str)
        ensures
            text@ == "Failed to get next token"@,
    {
        "Failed to get next token"
    }
}

impl Token {
    /// The tokens that open a bracket: `{`, `(`, `[` and `#{`.
    pub open spec fn opens_bracket(self) -> bool {
        self.is_opening() || self is MapStart
    }

    /// The keywords that a new name follows.
    pub open spec fn names_next(self) -> bool {
        self is Fn || self is Let || self is Const || self is As || self is For
    }

    /// What the token is painted as; the end of the stream is not
    /// painted. An identifier is a definition where `defining` is set.
    pub open spec fn category(self, defining: bool) -> Option<Category> {
        if self is EOF {
            None
        } else if self.is_number() {
            Some(Category::Number)
        } else if self is Identifier {
            Some(
                if defining {
                    Category::Def
                } else {
                    Category::Variable
                },
            )
        } else if self is CharConstant {
            Some(Category::String2)
        } else if self is StringConstant {
            Some(Category::String)
        } else if self.opens_bracket() || self.is_closing() {
            Some(Category::Bracket)
        } else if self.is_builtin() {
            Some(Category::Builtin)
        } else if self.is_keyword() {
            Some(Category::Keyword)
        } else if self.is_comment() {
            Some(Category::Comment)
        } else if self is LexError {
            Some(Category::Error)
        } else {
            Some(Category::Operator)
        }
    }
}

/// The number of brackets that are open after a token, where `count` were
/// open before it. An opening bracket counts from zero where more
/// brackets were closed than opened.
pub open spec fn count_brackets(count: int, token: Token) -> int {
    if token.opens_bracket() {
        (if count < 0 {
            0
        } else {
            count
        }) + 1
    } else if token.is_closing() {
        count - 1
    } else {
        count
    }
}

impl TokenView {
    /// Whether the token opens a bracket.
    pub open spec fn opens_bracket(self) -> bool {
        self matches TokenView::Plain(token) && token.opens_bracket()
    }

    /// Whether the token closes a bracket.
    pub open spec fn is_closing(self) -> bool {
        self matches TokenView::Plain(token) && token.is_closing()
    }

    /// The number of brackets that are open after the token, where
    /// `count` were open before it.
    pub open spec fn count_brackets(self, count: int) -> int {
        match self {
            TokenView::Plain(token) => count_brackets(count, token),
            TokenView::Error(_) => count,
        }
    }
}

/// Whether `count` is a number of brackets that the counter can hold.
pub open spec fn count_fits(count: int) -> bool {
    i32::MIN <= count <= i32::MAX
}

/// The state of a mode as contracts speak of it.
pub struct StateView {
    /// Whether a sign that comes next is a prefix.
    pub unary: bool,
    /// The number of block comments that are open.
    pub level: nat,
    /// The brackets opened on this line, less those closed.
    pub unclosed_bracket_count: int,
    /// The indentation of this line.
    pub line_indent: u32,
    /// Whether an identifier that comes next is a new name.
    pub is_defining_identifier: bool,
}

impl StateView {
    /// The state at the start of a line with the given indentation.
    pub open spec fn at_line_start(self, indentation: u32) -> StateView {
        StateView { unclosed_bracket_count: 0, line_indent: indentation, ..self }
    }

    /// The state after `token`, as far as the mode keeps it: the brackets
    /// and whether a name is being defined. A comment leaves the latter as
    /// it is, and so does the end of the stream.
    pub open spec fn observe(self, token: Token) -> StateView {
        StateView {
            unclosed_bracket_count: count_brackets(self.unclosed_bracket_count, token),
            is_defining_identifier: if token is EOF || token.is_comment() {
                self.is_defining_identifier
            } else {
                token.names_next()
            },
            ..self
        }
    }
}

/// What a mode keeps from one call to the next.
#[derive(Clone, Copy, Debug)]
pub struct State {
    token_state: token::State,
    unclosed_bracket_count: i32,
    line_indent: u32,
    is_defining_identifier: bool,
}

impl View for State {
    type V = StateView;

    closed spec fn view(&self) -> StateView {
        StateView {
            unary: self.token_state.unary(),
            level: self.token_state.level(),
            unclosed_bracket_count: self.unclosed_bracket_count as int,
            line_indent: self.line_indent,
            is_defining_identifier: self.is_defining_identifier,
        }
    }
}

impl State {
    /// The state of the lexer.
    pub fn token_state(&self) -> (state: token::State)
        ensures
            state.unary() == self@.unary,
            state.level() == self@.level,
    {
        self.token_state
    }

    /// The brackets opened on this line, less those closed.
    pub fn unclosed_bracket_count(&self) -> (count: i32)
        ensures
            count == self@.unclosed_bracket_count,
    {
        self.unclosed_bracket_count
    }

    /// The indentation of this line.
    pub fn line_indent(&self) -> (indent: u32)
        ensures
            indent == self@.line_indent,
    {
        self.line_indent
    }

    /// Whether an identifier that comes next is a new name.
    pub fn is_defining_identifier(&self) -> (defining: bool)
        ensures
            defining == self@.is_defining_identifier,
    {
        self.is_defining_identifier
    }

    /// Takes note of a token: counts its bracket, says what to paint it
    /// as, and remembers whether it announces a new name.
    pub fn observe(&mut self, token: &Token) -> (category: Option<Category>)
        requires
            count_fits(count_brackets(old(self)@.unclosed_bracket_count, *token)),
        ensures
            category == token.category(old(self)@.is_defining_identifier),
            final(self)@ == old(self)@.observe(*token),
    {
        let category = paint(token, self.is_defining_identifier);
        self.unclosed_bracket_count = brackets_after(self.unclosed_bracket_count, token);
        self.is_defining_identifier = defining_after(self.is_defining_identifier, token);
        category
    }
}

/// The number of brackets that are open after `token`.
fn brackets_after(count: i32, token: &Token) -> (after: i32)
    requires
        count_fits(count_brackets(count as int, *token)),
    ensures
        after == count_brackets(count as int, *token),
{
    match token {
        Token::LeftBrace | Token::LeftBracket | Token::LeftParen | Token::MapStart => {
            let mut count = count;
            if count < 0 {
                count = 0;
            }
            count + 1
        },
        Token::RightBrace | Token::RightBracket | Token::RightParen => count - 1,
        _ => count,
    }
}

/// Whether an identifier after `token` is a new name.
fn defining_after(defining: bool, token: &Token) -> (after: bool)
    ensures
        after == (if *token is EOF || token.is_comment() {
            defining
        } else {
            token.names_next()
        }),
{
    match token {
        Token::Fn | Token::Let | Token::Const | Token::As | Token::For => true,
        Token::LineComment | Token::BlockComment | Token::EOF => defining,
        _ => false,
    }
}

/// What to paint `token` as.
fn paint(token: &Token, defining: bool) -> (category: Option<Category>)
    ensures
        category == token.category(defining),
{
let category = match token {
        Token::IntegerConstant => Category::Number,
        Token::FloatConstant => Category::Number,
        Token::Identifier => {
            if defining {
                Category::Def
            } else {
                Category::Variable
            }
        },
        Token::CharConstant => Category::String2,
        Token::StringConstant => Category::String,
        Token::LeftBrace => Category::Bracket,
        Token::RightBrace => Category::Bracket,
        Token::LeftParen => Category::Bracket,
        Token::RightParen => Category::Bracket,
        Token::LeftBracket => Category::Bracket,
        Token::RightBracket => Category::Bracket,
        Token::Plus => Category::Operator,
        Token::UnaryPlus => Category::Operator,
        Token::Minus => Category::Operator,
        Token::UnaryMinus => Category::Operator,
        Token::Multiply => Category::Operator,
        Token::Divide => Category::Operator,
        Token::Modulo => Category::Operator,
        Token::PowerOf => Category::Operator,
        Token::LeftShift => Category::Operator,
        Token::RightShift => Category::Operator,
        Token::SemiColon => Category::Operator,
        Token::Colon => Category::Operator,
        Token::DoubleColon => Category::Operator,
        Token::Comma => Category::Operator,
        Token::Period => Category::Operator,
        Token::MapStart => Category::Bracket,
        Token::Equals => Category::Operator,
        Token::True => Category::Builtin,
        Token::False => Category::Builtin,
        Token::Let => Category::Keyword,
        Token::Const => Category::Keyword,
        Token::If => Category::Keyword,
        Token::Else => Category::Keyword,
        Token::While => Category::Keyword,
        Token::Loop => Category::Keyword,
        Token::For => Category::Keyword,
        Token::In => Category::Keyword,
        Token::LessThan => Category::Operator,
        Token::GreaterThan => Category::Operator,
        Token::LessThanEqualsTo => Category::Operator,
        Token::GreaterThanEqualsTo => Category::Operator,
        Token::EqualsTo => Category::Operator,
        Token::NotEqualsTo => Category::Operator,
        Token::Bang => Category::Operator,
        Token::Pipe => Category::Operator,
        Token::Or => Category::Operator,
        Token::XOr => Category::Operator,
        Token::Ampersand => Category::Operator,
        Token::And => Category::Operator,
        Token::Fn => Category::Keyword,
        Token::Continue => Category::Keyword,
        Token::Break => Category::Keyword,
        Token::Return => Category::Keyword,
        Token::Throw => Category::Keyword,
        Token::PlusAssign => Category::Operator,
        Token::MinusAssign => Category::Operator,
        Token::MultiplyAssign => Category::Operator,
        Token::DivideAssign => Category::Operator,
        Token::LeftShiftAssign => Category::Operator,
        Token::RightShiftAssign => Category::Operator,
        Token::AndAssign => Category::Operator,
        Token::OrAssign => Category::Operator,
        Token::XOrAssign => Category::Operator,
        Token::ModuloAssign => Category::Operator,
        Token::PowerOfAssign => Category::Operator,
        Token::Private => Category::Keyword,
        Token::Import => Category::Keyword,
        Token::Export => Category::Keyword,
        Token::As => Category::Keyword,
        Token::LineComment => Category::Comment,
        Token::BlockComment => Category::Comment,
        Token::LexError(_) => Category::Error,
        Token::EOF => {
            return None;
        },
    };
    Some(category)
}

/// What one call of the mode comes to.
pub struct Step {
    /// The token that was read.
    pub token: TokenView,
    /// The state after the call.
    pub state: StateView,
    /// What to paint the token as.
    pub category: Option<Category>,
    /// The number of characters that were read.
    pub end: int,
    /// The greatest number of block comments that were open on the way.
    pub peak: nat,
}

/// One call of the mode on the text `s`, which is what is left of a line
/// with the given indentation; `sol` says whether it is the whole line.
/// The state begins the line anew there. Then comes one token, and the
/// state takes note of it.
pub open spec fn step(state: StateView, sol: bool, indentation: u32, s: Seq<char>) -> Step {
    let begun = if sol {
        state.at_line_start(indentation)
    } else {
        state
    };
    let scan = lex(s, begun.unary, begun.level);
    let lexed = StateView { unary: scan.token.next_is_unary(), level: scan.level, ..begun };
    match scan.token {
        TokenView::Plain(token) => Step {
            token: scan.token,
            state: lexed.observe(token),
            category: token.category(begun.is_defining_identifier),
            end: scan.end,
            peak: scan.peak,
        },
        TokenView::Error(_) => Step {
            token: scan.token,
            state: StateView { is_defining_identifier: false, ..lexed },
            category: Some(Category::Error),
            end: scan.end,
            peak: scan.peak,
        },
    }
}

/// Whether one call of the mode stays within what its counters hold: at
/// no place are more block comments open than 32 bits count, and the
/// number of brackets after the token is one of 32 bits with a sign.
pub open spec fn step_fits(state: StateView, sol: bool, indentation: u32, s: Seq<char>) -> bool {
    let step = step(state, sol, indentation, s);
    step.peak <= u32::MAX && count_fits(step.state.unclosed_bracket_count)
}

/// Reads one token from the stream, and hands it back with what to paint
/// it as: `None` for the end of the line. At the start of a line the
/// brackets are counted from zero and the line's indentation is taken
/// down.
pub fn advance(stream: &mut StringStream, state: &mut State) -> (r: Result<
    (Token, Option<Category>),
    NoToken,
>)
    requires
        step_fits(
            old(state)@,
            old(stream).position() == 0,
            old(stream).line_indentation(),
            old(stream).remaining(),
        ),
    ensures
        ({
            let step = step(
                old(state)@,
                old(stream).position() == 0,
                old(stream).line_indentation(),
                old(stream).remaining(),
            );
            &&& r matches Ok((token, category))
            &&& token@ == step.token
            &&& category == step.category
            &&& final(state)@ == step.state
            &&& final(stream).has_read(*old(stream), step.end)
        }),
        old(stream).remaining().len() > 0 ==> final(stream).remaining().len() < old(
            stream,
        ).remaining().len(),
{
    if stream.sol() {
        state.line_indent = stream.indentation();
        state.unclosed_bracket_count = 0;
    }
    match next_token(&mut state.token_state, stream) {
        Some((token, _)) => {
            let category = state.observe(&token);
            Ok((token, category))
        },
        None => Err(NoToken),
    }
}

/// Reads one token from the stream and says what to paint it as, or
/// `None` at the end of the line.
pub fn token(stream: &mut StringStream, state: &mut State) -> (r: Result<Option<Category>, NoToken>)
    requires
        step_fits(
            old(state)@,
            old(stream).position() == 0,
            old(stream).line_indentation(),
            old(stream).remaining(),
        ),
    ensures
        ({
            let step = step(
                old(state)@,
                old(stream).position() == 0,
                old(stream).line_indentation(),
                old(stream).remaining(),
            );
            &&& r == Ok::<Option<Category>, NoToken>(step.category)
            &&& final(state)@ == step.state
            &&& final(stream).has_read(*old(stream), step.end)
        }),
        old(stream).remaining().len() > 0 ==> final(stream).remaining().len() < old(
            stream,
        ).remaining().len(),
{
    match advance(stream, state) {
        Ok((_, category)) => Ok(category),
        Err(error) => Err(error),
    }
}

/// Whether a call of the mode is sure to stay within what its counters
/// hold, whatever the line holds from the cursor on: the comments that
/// are open and the code units that are left together are a number of 32
/// bits, and off the start of the line the number of brackets is neither
/// the least nor the greatest of 32 bits with a sign.
pub open spec fn surely_fits(state: StateView, position: int, units_left: int) -> bool {
    &&& state.level + units_left <= u32::MAX
    &&& position == 0 || i32::MIN < state.unclosed_bracket_count < i32::MAX
}

/// Whether a call of the mode on `stream` is sure to stay within what the
/// counters of `state` hold.
fn is_sure_to_fit(stream: &StringStream, state: &State) -> (b: bool)
    ensures
        b == surely_fits(state@, stream.position(), stream.units().len() - stream.position()),
        b ==> step_fits(
            state@,
            stream.position() == 0,
            stream.line_indentation(),
            stream.remaining(),
        ),
{
    proof {
        use_type_invariant(stream);
        stream.lemma_bounds();
        let begun = if stream.position() == 0 {
            state@.at_line_start(stream.line_indentation())
        } else {
            state@
        };
        lemma_lex_peak(stream.remaining(), begun.unary, begun.level);
    }
    let level: u32 = match state.token_state.in_between_token() {
        InBetweenToken::BlockComment(level) => level,
        InBetweenToken::Nothing => 0,
    };
    let units_left = stream.len() - stream.pos();
    units_left <= (u32::MAX - level) as usize && (stream.sol() || (i32::MIN
        < state.unclosed_bracket_count && state.unclosed_bracket_count < i32::MAX))
}

/// Reads one token as `advance` does, where that is sure to stay within
/// what the counters hold, and does nothing where it is not.
pub fn checked_advance(stream: &mut StringStream, state: &mut State) -> (r: Option<
    Result<(Token, Option<Category>), NoToken>,
>)
    ensures
        ({
            let step = step(
                old(state)@,
                old(stream).position() == 0,
                old(stream).line_indentation(),
                old(stream).remaining(),
            );
            match r {
                Some(result) => {
                    &&& surely_fits(
                        old(state)@,
                        old(stream).position(),
                        old(stream).units().len() - old(stream).position(),
                    )
                    &&& result matches Ok((token, category))
                    &&& token@ == step.token
                    &&& category == step.category
                    &&& final(state)@ == step.state
                    &&& final(stream).has_read(*old(stream), step.end)
                },
                None => {
                    &&& !surely_fits(
                        old(state)@,
                        old(stream).position(),
                        old(stream).units().len() - old(stream).position(),
                    )
                    &&& *final(state) == *old(state)
                    &&& *final(stream) == *old(stream)
                },
            }
        }),
{
    if is_sure_to_fit(stream, state) {
        Some(advance(stream, state))
    } else {
        None
    }
}

/// Whether `c` closes a bracket.
pub open spec fn is_closing_char(c: char) -> bool {
    c == '}' || c == ']' || c == ')'
}

/// Whether `text` begins by closing a bracket: whether a closing bracket
/// stands in it with nothing but white space before.
pub open spec fn begins_with_closing(text: Seq<char>) -> bool {
    exists|k: int|
        0 <= k < text.len() && is_closing_char(#[trigger] text[k]) && forall|j: int|
            0 <= j < k ==> !is_closing_char(#[trigger] text[j]) && is_blank(text[j])
}

/// The indentation for a line after a line whose indentation and
/// brackets `state` holds; `closing` says whether the line begins by
/// closing a bracket. Inside a bracket the line stands one unit deeper,
/// but a line that begins by closing the bracket stands where the bracket
/// was opened. Outside any bracket a line that begins by closing one
/// stands one unit back, and for any other line there is nothing to say.
pub open spec fn indentation_of(unit: u32, state: StateView, closing: bool) -> Option<u32> {
    if state.unclosed_bracket_count > 0 {
        if closing {
            Some(state.line_indent)
        } else {
            Some((state.line_indent + unit) as u32)
        }
    } else if closing {
        Some(
            if state.line_indent >= unit {
                (state.line_indent - unit) as u32
            } else {
                0u32
            },
        )
    } else {
        None
    }
}

/// Whether the indentation is a number that can be held: a line inside a
/// bracket that does not begin by closing it stands one unit deeper, and
/// that sum must not be too large.
pub open spec fn indentation_fits(unit: u32, state: StateView, closing: bool) -> bool {
    state.unclosed_bracket_count > 0 && !closing ==> state.line_indent + unit <= u32::MAX
}

/// Whether `text` begins by closing a bracket.
fn should_dedent(text: &str) -> (b: bool)
    ensures
        b == begins_with_closing(text@),
{
    let n = text.unicode_len();
    let mut i: usize = 0;
    while i < n
        invariant
            0 <= i <= n,
            n == text@.len(),
            forall|j: int|
                0 <= j < i ==> !is_closing_char(#[trigger] text@[j]) && is_blank(text@[j]),
        decreases n - i,
    {
        let c = text.get_char(i);
        if c == '}' || c == ']' || c == ')' {
            assert(is_closing_char(text@[i as int]));
            return true;
        }
        if !blank(c) {
            assert(!is_closing_char(text@[i as int]) && !is_blank(text@[i as int]));
            return false;
        }
        i = i + 1;
    }
    false
}

/// The indentation for a line that begins by closing a bracket, or does
/// not, as `closing` says; `None` where the mode has nothing to say.
pub fn indent_by(mode: &RhaiMode, state: &State, closing: bool) -> (r: Option<u32>)
    requires
        indentation_fits(mode.indent_unit, state@, closing),
    ensures
        r == indentation_of(mode.indent_unit, state@, closing),
{
    if state.unclosed_bracket_count > 0 {
        if closing {
            Some(state.line_indent)
        } else {
            Some(state.line_indent + mode.indent_unit)
        }
    } else if closing {
        Some(state.line_indent.saturating_sub(mode.indent_unit))
    } else {
        None
    }
}

/// The indentation for the line that goes on with `text_after`, or `None`
/// where the mode has nothing to say.
pub fn indent(mode: &RhaiMode, state: &State, text_after: String) -> (r: Option<u32>)
    requires
        indentation_fits(mode.indent_unit, state@, begins_with_closing(text_after@)),
    ensures
        r == indentation_of(mode.indent_unit, state@, begins_with_closing(text_after@)),
{
    indent_by(mode, state, should_dedent(text_after.as_str()))
}

/// The indentation as `indent` gives it, where it is a number that can be
/// held, and `None` where it is not.
pub fn checked_indent(mode: &RhaiMode, state: &State, text_after: String) -> (r: Option<
    Option<u32>,
>)
    ensures
        match r {
            Some(indentation) => {
                &&& indentation_fits(
                    mode.indent_unit,
                    state@,
                    begins_with_closing(text_after@),
                )
                &&& indentation == indentation_of(
                    mode.indent_unit,
                    state@,
                    begins_with_closing(text_after@),
                )
            },
            None => !indentation_fits(mode.indent_unit, state@, begins_with_closing(text_after@)),
        },
{
    if state.unclosed_bracket_count > 0 && mode.indent_unit > u32::MAX - state.line_indent
        && !should_dedent(text_after.as_str()) {
        None
    } else {
        Some(indent(mode, state, text_after))
    }
}

/// A mode for the editor.
pub struct RhaiMode {
    /// The width of one step of indentation.
    pub indent_unit: u32,
}

impl RhaiMode {
    /// A mode that indents by `indent_unit`.
    pub fn new(indent_unit: u32) -> (mode: Self)
        ensures
            mode.indent_unit == indent_unit,
    {
        Self { indent_unit }
    }

    /// The state at the start of a session.
    pub fn start_state(&self) -> (state: State)
        ensures
            state@ == (StateView {
                unary: true,
                level: 0,
                unclosed_bracket_count: 0,
                line_indent: 0,
                is_defining_identifier: false,
            }),
    {
        State {
            token_state: token::State::new(),
            unclosed_bracket_count: 0,
            line_indent: 0,
            is_defining_identifier: false,
        }
    }

    /// A copy of `state`, for the editor to keep.
    pub fn copy_state(&self, state: &State) -> (copy: State)
        ensures
            copy == *state,
    {
        *state
    }

    /// Reads one token from the stream and returns the name of what to
    /// paint it as, or `None` at the end of the line.
    pub fn token(&self, stream: &mut StringStream, state: &mut State) -> (r: Result<
        Option<String>,
        NoToken,
    >)
        requires
            step_fits(
                old(state)@,
                old(stream).position() == 0,
                old(stream).line_indentation(),
                old(stream).remaining(),
            ),
        ensures
            ({
                let step = step(
                    old(state)@,
                    old(stream).position() == 0,
                    old(stream).line_indentation(),
                    old(stream).remaining(),
                );
                &&& match step.category {
                    Some(category) => r matches Ok(Some(name)) && name@ == category.name(),
                    None => r matches Ok(None),
                }
                &&& final(state)@ == step.state
                &&& final(stream).has_read(*old(stream), step.end)
            }),
            old(stream).remaining().len() > 0 ==> final(stream).remaining().len() < old(
                stream,
            ).remaining().len(),
    {
        match token(stream, state) {
            Ok(Some(category)) => Ok(Some(category.as_str().to_owned())),
            Ok(None) => Ok(None),
            Err(error) => Err(error),
        }
    }

    /// The indentation for the line that goes on with `text_after`, or
    /// `None` where the editor should decide.
    pub fn indent(&self, state: &mut State, text_after: String) -> (r: Option<u32>)
        requires
            indentation_fits(
                self.indent_unit,
                old(state)@,
                begins_with_closing(text_after@),
            ),
        ensures
            r == indentation_of(
                self.indent_unit,
                old(state)@,
                begins_with_closing(text_after@),
            ),
            *final(state) == *old(state),
    {
        indent(self, state, text_after)
    }

    /// Reads one token as `token` does, where that is sure to stay within
    /// what the counters hold, and does nothing where it is not.
    pub fn checked_token(&self, stream: &mut StringStream, state: &mut State) -> (r: Option<
        Result<Option<String>, NoToken>,
    >)
        ensures
            ({
                let step = step(
                    old(state)@,
                    old(stream).position() == 0,
                    old(stream).line_indentation(),
                    old(stream).remaining(),
                );
                match r {
                    Some(result) => {
                        &&& surely_fits(
                            old(state)@,
                            old(stream).position(),
                            old(stream).units().len() - old(stream).position(),
                        )
                        &&& match step.category {
                            Some(category) => result matches Ok(Some(name)) && name@
                                == category.name(),
                            None => result matches Ok(None),
                        }
                        &&& final(state)@ == step.state
                        &&& final(stream).has_read(*old(stream), step.end)
                    },
                    None => {
                        &&& !surely_fits(
                            old(state)@,
                            old(stream).position(),
                            old(stream).units().len() - old(stream).position(),
                        )
                        &&& *final(state) == *old(state)
                        &&& *final(stream) == *old(stream)
                    },
                }
            }),
    {
        if is_sure_to_fit(stream, state) {
            Some(self.token(stream, state))
        } else {
            None
        }
    }

    /// The indentation as `indent` gives it, where it is a number that
    /// can be held, and `None` where it is not.
    pub fn checked_indent(&self, state: &mut State, text_after: String) -> (r: Option<
        Option<u32>,
    >)
        ensures
            match r {
                Some(indentation) => {
                    &&& indentation_fits(
                        self.indent_unit,
                        old(state)@,
                        begins_with_closing(text_after@),
                    )
                    &&& indentation == indentation_of(
                        self.indent_unit,
                        old(state)@,
                        begins_with_closing(text_after@),
                    )
                },
                None => !indentation_fits(
                    self.indent_unit,
                    old(state)@,
                    begins_with_closing(text_after@),
                ),
            },
            *final(state) == *old(state),
    {
        if state.unclosed_bracket_count > 0 && self.indent_unit > u32::MAX - state.line_indent
            && !should_dedent(text_after.as_str()) {
            None
        } else {
            Some(self.indent(state, text_after))
        }
    }

    /// The pattern of a line on which typing re-indents at once.
    pub fn electric_input(&self) -> (pattern: &'static str)
        ensures
            pattern@ == ELECTRIC_INPUT@,
    {
        ELECTRIC_INPUT
    }

    /// The marker that begins a line comment.
    pub fn line_comment(&self) -> (marker: &'static str)
        ensures
            marker@ == LINE_COMMENT@,
    {
        LINE_COMMENT
    }
}

} // verus!
