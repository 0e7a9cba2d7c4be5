use vstd::prelude::*;
use vstd::std_specs::iter::IteratorSpec;
use vstd::string::StrSliceExecFns;

use crate::ispl::kinds::SyntaxKind as K;
use crate::ispl::kinds::SyntaxKind;

verus! {

/// Whether `c` has the Unicode `White_Space` property, as `char::is_whitespace`
/// tests.
pub open spec fn spec_is_whitespace(c: char) -> bool {
    ('\t' <= c && c <= '\r') || c == ' ' || c == '\u{85}' || c == '\u{a0}' || c == '\u{1680}' || (
    '\u{2000}' <= c && c <= '\u{200a}') || c == '\u{2028}' || c == '\u{2029}' || c == '\u{202f}'
        || c == '\u{205f}' || c == '\u{3000}'
}

/// Whether `c` may start an identifier.
pub open spec fn spec_is_var_start(c: char) -> bool {
    ('a' <= c && c <= 'z') || ('A' <= c && c <= 'Z')
}

/// Whether `c` may continue an identifier.
pub open spec fn spec_is_var_char(c: char) -> bool {
    spec_is_var_start(c) || ('0' <= c && c <= '9') || c == '_' || c == '$' || c == '@' || c == '#'
}

fn is_whitespace(c: char) -> (r: bool)
    ensures
        r == spec_is_whitespace(c),
{
    ('\t' <= c && c <= '\r') || c == ' ' || c == '\u{85}' || c == '\u{a0}' || c == '\u{1680}' || (
    '\u{2000}' <= c && c <= '\u{200a}') || c == '\u{2028}' || c == '\u{2029}' || c == '\u{202f}'
        || c == '\u{205f}' || c == '\u{3000}'
}

fn is_valid_start_var_char(c: char) -> (r: bool)
    ensures
        r == spec_is_var_start(c),
{
    ('a' <= c && c <= 'z') || ('A' <= c && c <= 'Z')
}

fn is_valid_var_char(c: char) -> (r: bool)
    ensures
        r == spec_is_var_char(c),
{
    is_valid_start_var_char(c) || ('0' <= c && c <= '9') || c == '_' || c == '$' || c == '@' || c
        == '#'
}

#[verifier::loop_isolation(false)]
fn to_chars(s: &str) -> (r: Vec<char>)
    ensures
        r@ == s@,
{
    let mut v: Vec<char> = Vec::new();
    let mut it = s.chars();
    loop
        invariant
            it.obeys_prophetic_iter_laws(),
            v@ + it.remaining() == s@,
            it.decrease() is Some,
        decreases it.decrease()->0,
    {
        match it.next() {
            Some(c) => {
                v.push(c);
            },
            None => {
                break;
            },
        }
    }
    v
}

/// The index of the first character at or after `i` that is not whitespace,
/// or the length of `t`.
pub open spec fn skip_ws_from(t: Seq<char>, i: int) -> int
    decreases t.len() - i,
{
    if i < 0 || i >= t.len() || !spec_is_whitespace(t[i]) {
        i
    } else {
        skip_ws_from(t, i + 1)
    }
}

/// The end of the run of identifier characters that starts at `i`.
pub open spec fn ident_end(t: Seq<char>, i: int) -> int
    decreases t.len() - i,
{
    if i < 0 || i >= t.len() || !spec_is_var_char(t[i]) {
        i
    } else {
        ident_end(t, i + 1)
    }
}

/// The index of the first line break at or after `i`, or the length of `t`.
pub open spec fn line_end(t: Seq<char>, i: int) -> int
    decreases t.len() - i,
{
    if i < 0 || i >= t.len() || t[i] == '\n' {
        i
    } else {
        line_end(t, i + 1)
    }
}

/// The position just past the first `;` at or after `i`, or the length of
/// `t`.
pub open spec fn past_semicolon(t: Seq<char>, i: int) -> int
    decreases t.len() - i,
{
    if i < 0 || i >= t.len() {
        t.len() as int
    } else if t[i] == ';' {
        i + 1
    } else {
        past_semicolon(t, i + 1)
    }
}

/// The kind of a `Semantics` line with text `w`: the two semantics, each in
/// its short and long spelling, or an error.
pub open spec fn semantics_kind(w: Seq<char>) -> SyntaxKind {
    let v = strip_ws(w);
    if v == "Semantics=SA;"@ || v == "Semantics=SingleAssignment;"@ {
        K::TOKEN_SEMANTICS_SA
    } else if v == "Semantics=MA;"@ || v == "Semantics=MultiAssignment;"@ {
        K::TOKEN_SEMANTICS_MA
    } else {
        K::TOKEN_ERR_UNEXPECTED_TOPLEVEL
    }
}

/// The kind of the token that a word at position `p` of the top level of
/// `t` starts.
pub open spec fn top_word_kind(t: Seq<char>, p: int) -> SyntaxKind {
    let w = t.subrange(p, ident_end(t, p));
    if w == "Semantics"@ {
        semantics_kind(t.subrange(p, top_word_end(t, p)))
    } else {
        top_level_kind(w)
    }
}

/// Where a token that starts with a word at position `p` of the top level
/// of `t` ends: a block keyword is a token of its own, `Semantics` runs to
/// its `;`, and any other word starts an error that runs to the end of the
/// line.
pub open spec fn top_word_end(t: Seq<char>, p: int) -> int {
    let e = ident_end(t, p);
    let w = t.subrange(p, e);
    if top_level_kind(w) != K::TOKEN_ERR_UNEXPECTED_TOPLEVEL {
        e
    } else if w == "Semantics"@ {
        past_semicolon(t, e)
    } else {
        line_end(t, e)
    }
}

proof fn lemma_past_semicolon(t: Seq<char>, i: int, r: int)
    requires
        0 <= i <= r <= t.len(),
        forall|j: int| i <= j < r ==> #[trigger] t[j] != ';',
    ensures
        r == t.len() ==> past_semicolon(t, i) == t.len(),
        r < t.len() && t[r] == ';' ==> past_semicolon(t, i) == r + 1,
    decreases r - i,
{
    if i < r {
        lemma_past_semicolon(t, i + 1, r);
    }
}

/// Whether no digit follows position `e` of `t`.
pub open spec fn ends_number(t: Seq<char>, e: int) -> bool {
    e >= t.len() || !('0' <= t[e] <= '9')
}

/// Whether a comment, `--`, starts at position `i` of `t`.
pub open spec fn starts_comment(t: Seq<char>, i: int) -> bool {
    0 <= i && i + 1 < t.len() && t[i] == '-' && t[i + 1] == '-'
}

/// Whether no identifier character follows position `e` of `t`: a token that
/// ends there ends a whole word.
pub open spec fn ends_word(t: Seq<char>, e: int) -> bool {
    e >= t.len() || !spec_is_var_char(t[e])
}

proof fn lemma_strip_ws_len(s: Seq<char>)
    ensures
        strip_ws(s).len() <= s.len(),
    decreases s.len(),
{
    if s.len() > 0 {
        lemma_strip_ws_len(s.drop_last());
    }
}

proof fn lemma_line_end(t: Seq<char>, i: int, r: int)
    requires
        0 <= i <= r <= t.len(),
        forall|j: int| i <= j < r ==> #[trigger] t[j] != '\n',
        r < t.len() ==> t[r] == '\n',
    ensures
        line_end(t, i) == r,
    decreases r - i,
{
    if i < r {
        lemma_line_end(t, i + 1, r);
    }
}

/// The identifier that follows position `i` of `t` after whitespace, if one
/// does.
pub open spec fn next_ident(t: Seq<char>, i: int) -> Option<Seq<char>> {
    let s = skip_ws_from(t, i);
    if 0 <= s < t.len() && spec_is_var_start(t[s]) {
        Some(t.subrange(s, ident_end(t, s)))
    } else {
        None
    }
}

proof fn lemma_skip_ws_from(t: Seq<char>, i: int, r: int)
    requires
        0 <= i <= r <= t.len(),
        forall|j: int| i <= j < r ==> spec_is_whitespace(#[trigger] t[j]),
        r < t.len() ==> !spec_is_whitespace(t[r]),
    ensures
        skip_ws_from(t, i) == r,
    decreases r - i,
{
    if i < r {
        lemma_skip_ws_from(t, i + 1, r);
    }
}

proof fn lemma_ident_end(t: Seq<char>, i: int, r: int)
    requires
        0 <= i <= r <= t.len(),
        forall|j: int| i <= j < r ==> spec_is_var_char(#[trigger] t[j]),
        r < t.len() ==> !spec_is_var_char(t[r]),
    ensures
        ident_end(t, i) == r,
    decreases r - i,
{
    if i < r {
        lemma_ident_end(t, i + 1, r);
    }
}

/// Whether `s` is an identifier: a letter, then letters, digits and `_$@#`.
pub open spec fn is_ident(s: Seq<char>) -> bool {
    &&& s.len() > 0
    &&& spec_is_var_start(s[0])
    &&& forall|i: int| 0 <= i < s.len() ==> spec_is_var_char(#[trigger] s[i])
}

/// `s` without its whitespace.
pub open spec fn strip_ws(s: Seq<char>) -> Seq<char>
    decreases s.len(),
{
    if s.len() == 0 {
        s
    } else if spec_is_whitespace(s.last()) {
        strip_ws(s.drop_last())
    } else {
        strip_ws(s.drop_last()).push(s.last())
    }
}

/// Whether `lex` can be the text of a token of kind `kind`: punctuation and
/// keywords have their one spelling, names are identifiers, whitespace and
/// comments are what they say.
pub open spec fn lexeme_fits(kind: SyntaxKind, lex: Seq<char>) -> bool {
    match kind {
        K::TOKEN_WHITESPACE => forall|i: int| 0 <= i < lex.len() ==> spec_is_whitespace(#[trigger] lex[i]),
        K::TOKEN_COMMENT => {
            &&& lex.len() >= 2
            &&& lex[0] == '-'
            &&& lex[1] == '-'
            &&& forall|i: int| 0 <= i < lex.len() ==> #[trigger] lex[i] != '\n'
        },
        K::TOKEN_INT_LITERAL => forall|i: int| 0 <= i < lex.len() ==> '0' <= #[trigger] lex[i] <= '9',
        K::TOKEN_SEMANTICS_SA => strip_ws(lex) == "Semantics=SA;"@ || strip_ws(lex)
            == "Semantics=SingleAssignment;"@,
        K::TOKEN_SEMANTICS_MA => strip_ws(lex) == "Semantics=MA;"@ || strip_ws(lex)
            == "Semantics=MultiAssignment;"@,
        K::TOKEN_L_PAREN => lex == seq!['('],
        K::TOKEN_R_PAREN => lex == seq![')'],
        K::TOKEN_COLON => lex == seq![':'],
        K::TOKEN_BEGIN_INNER_BLOCK => lex == seq![':'],
        K::TOKEN_SEMICOLON => lex == seq![';'],
        K::TOKEN_COMMA => lex == seq![','],
        K::TOKEN_DOT => lex == seq!['.'],
        K::TOKEN_DOUBLEDOT => lex == seq!['.', '.'],
        K::TOKEN_NEG => lex == seq!['!'],
        K::TOKEN_LE => lex == seq!['<', '='],
        K::TOKEN_LT => lex == seq!['<'],
        K::TOKEN_START_GROUPEXPR => lex == seq!['<'],
        K::TOKEN_GE => lex == seq!['>', '='],
        K::TOKEN_GT => lex == seq!['>'],
        K::TOKEN_END_GROUPEXPR => lex == seq!['>'],
        K::TOKEN_EQ => lex == seq!['='],
        K::TOKEN_GROUPS_ASSIGN => lex == seq!['='],
        K::TOKEN_INNER_BLOCK_ASSIGN => lex == seq!['='],
        K::TOKEN_NEQ => lex == seq!['<', '>'],
        K::TOKEN_PLUS => lex == seq!['+'],
        K::TOKEN_MINUS => lex == seq!['-'],
        K::TOKEN_TIMES => lex == seq!['*'],
        K::TOKEN_DEVIDE => lex == seq!['/'],
        K::TOKEN_IMPLIES_R => lex == seq!['-', '>'],
        K::TOKEN_IMPLIES_L => lex == seq!['<', '-'],
        K::TOKEN_IMPLIES_BI => lex == seq!['<', '-', '>'],
        K::TOKEN_BITAND => lex == seq!['&'],
        K::TOKEN_BITOR => lex == seq!['|'],
        K::TOKEN_BITNOT => lex == seq!['~'],
        K::TOKEN_BITXOR => lex == seq!['^'],
        K::TOKEN_GROUP_OPENCURLY => lex == seq!['{'],
        K::TOKEN_ENUM_OPENCURLY => lex == seq!['{'],
        K::TOKEN_SET_OPENCURLY => lex == seq!['{'],
        K::TOKEN_GROUP_CLOSECURLY => lex == seq!['}'],
        K::TOKEN_ENUM_CLOSECURLY => lex == seq!['}'],
        K::TOKEN_SET_CLOSECURLY => lex == seq!['}'],
        K::TOKEN_AG => lex == "AG"@,
        K::TOKEN_EG => lex == "EG"@,
        K::TOKEN_AX => lex == "AX"@,
        K::TOKEN_EX => lex == "EX"@,
        K::TOKEN_X => lex == "X"@,
        K::TOKEN_F => lex == "F"@,
        K::TOKEN_G => lex == "G"@,
        K::TOKEN_AF => lex == "AF"@,
        K::TOKEN_EF => lex == "EF"@,
        K::TOKEN_A => lex == "A"@,
        K::TOKEN_E => lex == "E"@,
        K::TOKEN_U => lex == "U"@,
        K::TOKEN_K => lex == "K"@,
        K::TOKEN_GK => lex == "GK"@,
        K::TOKEN_GCK => lex == "GCK"@,
        K::TOKEN_O => lex == "O"@,
        K::TOKEN_DK => lex == "DK"@,
        K::TOKEN_AND => lex == "and"@,
        K::TOKEN_OR => lex == "or"@,
        K::TOKEN_IF => lex == "if"@,
        K::TOKEN_TRUE => lex == "true"@,
        K::TOKEN_FALSE => lex == "false"@,
        K::TOKEN_BOOLEAN_LITERAL => lex == "boolean"@,
        K::TOKEN_ENVIRONMENT => lex == "Environment"@,
        K::TOKEN_OTHER => lex == "Other"@,
        K::TOKEN_ACTION => lex == "Action"@,
        K::TOKEN_NONE => lex == "none"@,
        K::TOKEN_REDSTATES => lex == "RedStates"@,
        K::TOKEN_GREENSTATES => lex == "GreenStates"@,
        K::TOKEN_ACTIONS => lex == "Actions"@,
        K::TOKEN_PROTOCOL => lex == "Protocol"@,
        K::TOKEN_EVOLUTION => lex == "Evolution"@,
        K::TOKEN_OBSVARS => lex == "Obsvars"@,
        K::TOKEN_LOBSVARS => lex == "Lobsvars"@,
        K::TOKEN_VARS => lex == "Vars"@,
        K::TOKEN_END_INNER_BLOCK => lex == "end"@,
        K::TOKEN_END_OUTER_BLOCK => lex == "end"@,
        K::TOKEN_BEGIN_AGENT => lex == "Agent"@,
        K::TOKEN_BEGIN_EVALUATION => lex == "Evaluation"@,
        K::TOKEN_BEGIN_INIT_STATES => lex == "InitStates"@,
        K::TOKEN_BEGIN_GROUPS => lex == "Groups"@,
        K::TOKEN_BEGIN_FAIRNESS => lex == "Fairness"@,
        K::TOKEN_BEGIN_FORMULAE => lex == "Formulae"@,
        K::TOKEN_VARNAME | K::TOKEN_AGENT_NAME | K::TOKEN_GROUPNAME | K::TOKEN_ENUM_LITERAL | K::TOKEN_ERR_UNEXPECTED_KEYWORD | K::TOKEN_ERR_UNDEFINED_NAME | K::TOKEN_ERR_INVALID_CLOSE_BLOCK | K::TOKEN_ERR_UNEXPECTED_BLOCK | K::TOKEN_END_INNER_BLOCK_NAME | K::TOKEN_END_OUTER_BLOCK_NAME => is_ident(lex),
        _ => true,
    }
}

/// The kind of a keyword of formulas, if `w` spells one.
pub open spec fn keyword_kind(w: Seq<char>) -> Option<SyntaxKind> {
    if w == "AG"@ {
        Some(K::TOKEN_AG)
    } else if w == "EG"@ {
        Some(K::TOKEN_EG)
    } else if w == "AX"@ {
        Some(K::TOKEN_AX)
    } else if w == "EX"@ {
        Some(K::TOKEN_EX)
    } else if w == "X"@ {
        Some(K::TOKEN_X)
    } else if w == "F"@ {
        Some(K::TOKEN_F)
    } else if w == "G"@ {
        Some(K::TOKEN_G)
    } else if w == "AF"@ {
        Some(K::TOKEN_AF)
    } else if w == "EF"@ {
        Some(K::TOKEN_EF)
    } else if w == "A"@ {
        Some(K::TOKEN_A)
    } else if w == "E"@ {
        Some(K::TOKEN_E)
    } else if w == "U"@ {
        Some(K::TOKEN_U)
    } else if w == "K"@ {
        Some(K::TOKEN_K)
    } else if w == "GK"@ {
        Some(K::TOKEN_GK)
    } else if w == "GCK"@ {
        Some(K::TOKEN_GCK)
    } else if w == "O"@ {
        Some(K::TOKEN_O)
    } else if w == "DK"@ {
        Some(K::TOKEN_DK)
    } else if w == "and"@ {
        Some(K::TOKEN_AND)
    } else if w == "or"@ {
        Some(K::TOKEN_OR)
    } else if w == "if"@ {
        Some(K::TOKEN_IF)
    } else if w == "true"@ {
        Some(K::TOKEN_TRUE)
    } else if w == "false"@ {
        Some(K::TOKEN_FALSE)
    } else if w == "boolean"@ {
        Some(K::TOKEN_BOOLEAN_LITERAL)
    } else {
        None
    }
}

/// Whether a token of kind `r` over the text `w` respects the keywords:
/// where `w` spells a keyword of formulas, `r` is its kind.
pub open spec fn keeps_keyword(w: Seq<char>, r: SyntaxKind) -> bool {
    match keyword_kind(w) {
        Some(k) => r == k,
        None => true,
    }
}

/// The kind of the word after `Agent`: the reserved environment agent, or
/// an agent's name.
pub open spec fn agent_kind(w: Seq<char>) -> SyntaxKind {
    if w == "Environment"@ {
        K::TOKEN_ENVIRONMENT
    } else {
        K::TOKEN_AGENT_NAME
    }
}

/// Whether `w` is a reserved word of ISPL.
pub open spec fn is_reserved(w: Seq<char>) -> bool {
    w == "Semantics"@
        || w == "MultiAssignment"@
        || w == "SingleAssignment"@
        || w == "MA"@
        || w == "SA"@
        || w == "Agent"@
        || w == "Evaluation"@
        || w == "InitStates"@
        || w == "Groups"@
        || w == "Fairness"@
        || w == "Formulae"@
        || w == "RedStates"@
        || w == "GreenStates"@
        || w == "Actions"@
        || w == "Protocol"@
        || w == "Evolution"@
        || w == "Obsvars"@
        || w == "Lobsvars"@
        || w == "Vars"@
}

/// The kind of a name in a place where `expected` is the kind of an ordinary
/// name: reserved words are flagged, and a few words keep their own kind.
pub open spec fn reserved_kind(w: Seq<char>, expected: SyntaxKind) -> SyntaxKind {
    if is_reserved(w) {
        K::TOKEN_ERR_UNEXPECTED_KEYWORD
    } else if w == "Environment"@ {
        K::TOKEN_ENVIRONMENT
    } else if w == "Action"@ {
        K::TOKEN_ACTION
    } else if w == "Other"@ {
        K::TOKEN_OTHER
    } else if w == "none"@ {
        K::TOKEN_NONE
    } else {
        expected
    }
}

/// The kind of the name of an inner block.
pub open spec fn inner_block_kind(w: Seq<char>) -> SyntaxKind {
    if w == "RedStates"@ {
        K::TOKEN_REDSTATES
    } else if w == "GreenStates"@ {
        K::TOKEN_GREENSTATES
    } else if w == "Actions"@ {
        K::TOKEN_ACTIONS
    } else if w == "Action"@ {
        K::TOKEN_ACTION
    } else if w == "Protocol"@ {
        K::TOKEN_PROTOCOL
    } else if w == "Evolution"@ {
        K::TOKEN_EVOLUTION
    } else if w == "Obsvars"@ {
        K::TOKEN_OBSVARS
    } else if w == "Lobsvars"@ {
        K::TOKEN_LOBSVARS
    } else if w == "Vars"@ {
        K::TOKEN_VARS
    } else {
        K::TOKEN_ERR_UNEXPECTED_BLOCK
    }
}

/// The first character at or after `i` that is not whitespace.
pub open spec fn next_char(t: Seq<char>, i: int) -> Option<char> {
    let j = skip_ws_from(t, i);
    if 0 <= j < t.len() {
        Some(t[j])
    } else {
        None
    }
}

/// The kind of the word `w` after `end`, given what `closing` says of the
/// enclosing block.
pub open spec fn close_kind(closing: Option<(Set<Seq<char>>, SyntaxKind)>, w: Seq<char>) -> SyntaxKind {
    match closing {
        Some((names, ok)) => if names.contains(w) {
            ok
        } else {
            K::TOKEN_ERR_INVALID_CLOSE_BLOCK
        },
        None => K::TOKEN_ERROR,
    }
}

/// The kind of a word at the top level of a file: a block keyword, or an
/// error.
pub open spec fn top_level_kind(w: Seq<char>) -> SyntaxKind {
    if w == "Agent"@ {
        K::TOKEN_BEGIN_AGENT
    } else if w == "Evaluation"@ {
        K::TOKEN_BEGIN_EVALUATION
    } else if w == "InitStates"@ {
        K::TOKEN_BEGIN_INIT_STATES
    } else if w == "Groups"@ {
        K::TOKEN_BEGIN_GROUPS
    } else if w == "Fairness"@ {
        K::TOKEN_BEGIN_FAIRNESS
    } else if w == "Formulae"@ {
        K::TOKEN_BEGIN_FORMULAE
    } else {
        K::TOKEN_ERR_UNEXPECTED_TOPLEVEL
    }
}

/// What holds of a token of kind `kind` over `t[p..q]`, whatever the
/// context: its text fits its kind; a token that starts with whitespace is a
/// whitespace token that takes the whole run; one that starts with `--` is a
/// comment up to the end of the line; an identifier token takes the whole
/// word, and a number all its digits.
pub open spec fn token_fits(t: Seq<char>, p: int, q: int, kind: SyntaxKind) -> bool {
    &&& 0 <= p < q <= t.len()
    &&& lexeme_fits(kind, t.subrange(p, q))
    &&& (spec_is_whitespace(t[p]) <==> kind == K::TOKEN_WHITESPACE)
    &&& kind == K::TOKEN_WHITESPACE ==> q == skip_ws_from(t, p)
    &&& (starts_comment(t, p) <==> kind == K::TOKEN_COMMENT)
    &&& kind == K::TOKEN_COMMENT ==> q == line_end(t, p)
    &&& is_ident(t.subrange(p, q)) ==> ends_word(t, q)
    &&& kind == K::TOKEN_INT_LITERAL ==> ends_number(t, q)
}

/// A frame of the context stack, as a reader of the text sees it: blocks are
/// named by their words.
pub enum Frame {
    AgentDef,
    /// An agent's block; `true` for the environment agent.
    AgentBlock(bool),
    OuterBlock(Seq<char>),
    InnerBlock(Seq<char>),
    InnerBlockAssign,
    InnerBlockBegin,
    BlockEnded,
    EnumDef,
    GroupDef,
    SetDef,
    GroupExpr,
}

/// Whether the name `w`, read under `top` with `next` the first character
/// after it that is not whitespace, opens an inner block: a name before `:`
/// in an agent or an outer block other than `Groups`, or before `=` in an
/// agent.
pub open spec fn opens_inner(top: Frame, w: Seq<char>, next: Option<char>) -> bool {
    &&& is_ident(w)
    &&& keyword_kind(w) is None
    &&& w != "end"@
    &&& match top {
        Frame::AgentBlock(_) => next == Some('=') || next == Some(':'),
        Frame::OuterBlock(n) => n != "Groups"@ && next == Some(':'),
        _ => false,
    }
}

/// The kind of a one-character token `c` whose kind depends on the innermost
/// block `top`, if `c` is one of those.
pub open spec fn punct_kind(top: Frame, c: char) -> Option<SyntaxKind> {
    if c == '{' {
        Some(
            if top == Frame::OuterBlock("Groups"@) {
                K::TOKEN_GROUP_OPENCURLY
            } else if top is InnerBlock {
                K::TOKEN_ENUM_OPENCURLY
            } else {
                K::TOKEN_SET_OPENCURLY
            },
        )
    } else if c == '}' {
        Some(
            if top == Frame::GroupDef {
                K::TOKEN_GROUP_CLOSECURLY
            } else if top == Frame::EnumDef {
                K::TOKEN_ENUM_CLOSECURLY
            } else if top == Frame::SetDef {
                K::TOKEN_SET_CLOSECURLY
            } else {
                K::TOKEN_ERROR
            },
        )
    } else if c == ':' {
        Some(
            if top == Frame::InnerBlockBegin {
                K::TOKEN_BEGIN_INNER_BLOCK
            } else {
                K::TOKEN_COLON
            },
        )
    } else if c == '=' {
        Some(
            if top == Frame::OuterBlock("Groups"@) {
                K::TOKEN_GROUPS_ASSIGN
            } else if top == Frame::InnerBlockAssign {
                K::TOKEN_INNER_BLOCK_ASSIGN
            } else {
                K::TOKEN_EQ
            },
        )
    } else if c == '>' {
        Some(
            if top == Frame::GroupExpr {
                K::TOKEN_END_GROUPEXPR
            } else {
                K::TOKEN_GT
            },
        )
    } else {
        None
    }
}

/// Whether a token of kind `r` over the text `w`, read under `top`, gets
/// the kind that `punct_kind` gives a one-character text.
pub open spec fn keeps_punct(top: Frame, w: Seq<char>, r: SyntaxKind) -> bool {
    w.len() == 1 ==> match punct_kind(top, w[0]) {
        Some(k) => r == k,
        None => true,
    }
}

/// The kind of the word `end` read under `top`: it ends an agent, an outer
/// block or an inner block, and is out of place elsewhere.
pub open spec fn end_kind(top: Frame) -> SyntaxKind {
    match top {
        Frame::AgentBlock(_) | Frame::OuterBlock(_) => K::TOKEN_END_OUTER_BLOCK,
        Frame::InnerBlock(_) => K::TOKEN_END_INNER_BLOCK,
        _ => K::TOKEN_ERR_INVALID_CLOSE_BLOCK,
    }
}

/// Whether `c` starts an operator or a punctuation token.
pub open spec fn is_punct(c: char) -> bool {
    c == '('
        || c == ')'
        || c == '{'
        || c == '}'
        || c == ':'
        || c == ';'
        || c == ','
        || c == '.'
        || c == '!'
        || c == '<'
        || c == '>'
        || c == '='
        || c == '+'
        || c == '-'
        || c == '*'
        || c == '/'
        || c == '&'
        || c == '|'
        || c == '~'
        || c == '^'
}

/// The length of the operator that starts at position `p` of `t`: the
/// longest of `<->`, the two-character operators and a single character.
pub open spec fn op_len(t: Seq<char>, p: int) -> int {
    let c = t[p];
    let c1 = if p + 1 < t.len() {
        Some(t[p + 1])
    } else {
        None
    };
    let c2 = if p + 2 < t.len() {
        Some(t[p + 2])
    } else {
        None
    };
    if c == '<' && c1 == Some('-') && c2 == Some('>') {
        3
    } else if (c == '<' && (c1 == Some('-') || c1 == Some('=') || c1 == Some('>'))) || (c == '>'
        && c1 == Some('=')) || (c == '-' && c1 == Some('>')) || (c == '.' && c1 == Some('.')) {
        2
    } else {
        1
    }
}

/// The kind of an operator or punctuation token with text `w`, where the
/// text alone decides it.
pub open spec fn fixed_punct_kind(w: Seq<char>) -> Option<SyntaxKind> {
    if w.len() == 1 {
        if w[0] == '(' {
            Some(K::TOKEN_L_PAREN)
        } else if w[0] == ')' {
            Some(K::TOKEN_R_PAREN)
        } else if w[0] == ';' {
            Some(K::TOKEN_SEMICOLON)
        } else if w[0] == ',' {
            Some(K::TOKEN_COMMA)
        } else if w[0] == '.' {
            Some(K::TOKEN_DOT)
        } else if w[0] == '!' {
            Some(K::TOKEN_NEG)
        } else if w[0] == '+' {
            Some(K::TOKEN_PLUS)
        } else if w[0] == '-' {
            Some(K::TOKEN_MINUS)
        } else if w[0] == '*' {
            Some(K::TOKEN_TIMES)
        } else if w[0] == '/' {
            Some(K::TOKEN_DEVIDE)
        } else if w[0] == '&' {
            Some(K::TOKEN_BITAND)
        } else if w[0] == '|' {
            Some(K::TOKEN_BITOR)
        } else if w[0] == '~' {
            Some(K::TOKEN_BITNOT)
        } else if w[0] == '^' {
            Some(K::TOKEN_BITXOR)
        } else {
            None
        }
    } else if w.len() == 2 {
        if w[0] == '.' && w[1] == '.' {
            Some(K::TOKEN_DOUBLEDOT)
        } else if w[0] == '<' && w[1] == '=' {
            Some(K::TOKEN_LE)
        } else if w[0] == '>' && w[1] == '=' {
            Some(K::TOKEN_GE)
        } else if w[0] == '<' && w[1] == '>' {
            Some(K::TOKEN_NEQ)
        } else if w[0] == '-' && w[1] == '>' {
            Some(K::TOKEN_IMPLIES_R)
        } else if w[0] == '<' && w[1] == '-' {
            Some(K::TOKEN_IMPLIES_L)
        } else {
            None
        }
    } else if w.len() == 3 && w[0] == '<' && w[1] == '-' && w[2] == '>' {
        Some(K::TOKEN_IMPLIES_BI)
    } else {
        None
    }
}

/// Whether the token of kind `r` over `t[p..q]`, read inside a block, is
/// what its first character makes it: an operator takes its longest
/// spelling and gets its kind, a lone `<` is a comparison or opens a group
/// expression, and a character that starts no token is an error token of
/// its own.
pub open spec fn keeps_symbols(t: Seq<char>, p: int, q: int, r: SyntaxKind) -> bool {
    let c = t[p];
    &&& is_punct(c) && !starts_comment(t, p) ==> q == p + op_len(t, p)
    &&& (fixed_punct_kind(t.subrange(p, q)) matches Some(k) ==> r == k)
    &&& !spec_is_whitespace(c) && !is_punct(c) && !spec_is_var_start(c) && !('0' <= c <= '9') ==> q
        == p + 1 && r == K::TOKEN_ERROR
    &&& c == '<' && q == p + 1 ==> r == K::TOKEN_LT || r == K::TOKEN_START_GROUPEXPR
}

/// The context stack after a token of kind `kind` over the text `w`, read
/// with the stack `frames`, where `next` is the first character after the
/// token that is not whitespace.
pub open spec fn next_frames(
    frames: Seq<Frame>,
    kind: SyntaxKind,
    w: Seq<char>,
    next: Option<char>,
) -> Seq<Frame> {
    if kind == K::TOKEN_WHITESPACE || kind == K::TOKEN_COMMENT {
        frames
    } else if frames.len() == 0 {
        if kind == K::TOKEN_BEGIN_AGENT {
            frames.push(Frame::AgentDef)
        } else if kind == K::TOKEN_BEGIN_EVALUATION || kind == K::TOKEN_BEGIN_INIT_STATES || kind
            == K::TOKEN_BEGIN_GROUPS || kind == K::TOKEN_BEGIN_FAIRNESS || kind
            == K::TOKEN_BEGIN_FORMULAE {
            frames.push(Frame::OuterBlock(w))
        } else {
            frames
        }
    } else {
        let top = frames.last();
        let rest = frames.drop_last();
        if top == Frame::AgentDef {
            rest.push(Frame::AgentBlock(is_ident(w) && w == "Environment"@))
        } else if top == Frame::BlockEnded {
            if kind == K::TOKEN_END_OUTER_BLOCK_NAME || kind == K::TOKEN_END_INNER_BLOCK_NAME {
                rest.drop_last()
            } else {
                rest
            }
        } else if kind == K::TOKEN_GROUP_OPENCURLY {
            frames.push(Frame::GroupDef)
        } else if kind == K::TOKEN_ENUM_OPENCURLY {
            frames.push(Frame::EnumDef)
        } else if kind == K::TOKEN_SET_OPENCURLY {
            frames.push(Frame::SetDef)
        } else if kind == K::TOKEN_START_GROUPEXPR {
            frames.push(Frame::GroupExpr)
        } else if kind == K::TOKEN_END_OUTER_BLOCK || kind == K::TOKEN_END_INNER_BLOCK {
            frames.push(Frame::BlockEnded)
        } else if kind == K::TOKEN_GROUP_CLOSECURLY || kind == K::TOKEN_ENUM_CLOSECURLY || kind
            == K::TOKEN_SET_CLOSECURLY || kind == K::TOKEN_BEGIN_INNER_BLOCK || kind
            == K::TOKEN_INNER_BLOCK_ASSIGN || kind == K::TOKEN_END_GROUPEXPR {
            rest
        } else if opens_inner(top, w, next) {
            if top is AgentBlock && next == Some('=') {
                frames.push(Frame::InnerBlockAssign)
            } else {
                frames.push(Frame::InnerBlock(w)).push(Frame::InnerBlockBegin)
            }
        } else {
            frames
        }
    }
}

/// The outer blocks of an ISPL file that are closed by their own name.
#[derive(Debug, Clone, Copy, PartialEq, Eq, Structural)]
enum Outer {
    Evaluation,
    InitStates,
    Groups,
    Fairness,
    Formulae,
}

/// A frame of the tokenizer's context stack. Names of inner blocks are
/// spans of the input.
#[derive(Debug, Clone, Copy, PartialEq, Eq, Structural)]
enum Context {
    AgentDef,
    AgentBlock(bool),
    OuterBlock(Outer),
    InnerBlock(usize, usize),
    InnerBlockAssign,
    InnerBlockBegin,
    BlockEnded,
    EnumDef,
    GroupDef,
    SetDef,
    GroupExpr,
}

/// The tables of names that the tokenizer collects as it goes.
#[derive(Debug, Clone, Copy, PartialEq, Eq, Structural)]
enum Names {
    EnumLiterals,
    GroupNames,
    AgentNames,
}

pub type Token<'a> = (SyntaxKind, &'a str);

/// A context-sensitive ISPL lexer over one input text.
pub struct Tokenizer<'a> {
    input: &'a str,
    chars: Vec<char>,
    offset: usize,
    ctx: Vec<Context>,
    enumliterals: Vec<(usize, usize)>,
    groupnames: Vec<(usize, usize)>,
    agentnames: Vec<(usize, usize)>,
}

/// The words that the spans of `table` mark in `t`.
pub open spec fn names_in(table: Seq<(usize, usize)>, t: Seq<char>) -> Set<Seq<char>> {
    Set::new(
        |w: Seq<char>|
            exists|k: int|
                0 <= k < table.len() && #[trigger] t.subrange(table[k].0 as int, table[k].1 as int) == w,
    )
}

spec fn spans_ok(t: Seq<(usize, usize)>, n: nat) -> bool {
    forall|i: int| 0 <= i < t.len() ==> (#[trigger] t[i]).0 <= t[i].1 <= n
}

spec fn ctx_ok(c: Seq<Context>, n: nat) -> bool {
    forall|i: int|
        0 <= i < c.len() ==> match #[trigger] c[i] {
            Context::InnerBlock(s, e) => s <= e <= n,
            _ => true,
        }
}

impl<'a> Tokenizer<'a> {
    /// The text being tokenized.
    pub closed spec fn text(&self) -> Seq<char> {
        self.input@
    }

    /// How many characters of the text have been consumed.
    pub closed spec fn pos(&self) -> nat {
        self.offset as nat
    }

    pub closed spec fn wf(&self) -> bool {
        &&& self.chars@ == self.input@
        &&& self.offset <= self.chars.len()
        &&& spans_ok(self.enumliterals@, self.chars.len() as nat)
        &&& spans_ok(self.groupnames@, self.chars.len() as nat)
        &&& spans_ok(self.agentnames@, self.chars.len() as nat)
        &&& ctx_ok(self.ctx@, self.chars.len() as nat)
    }

    /// Whether some block is open.
    pub open spec fn ctx_nonempty(&self) -> bool {
        self.frames().len() > 0
    }

    /// The context stack, outermost frame first.
    pub closed spec fn frames(&self) -> Seq<Frame> {
        Seq::new(self.ctx@.len(), |i: int| frame_of(self.ctx@[i], self.chars@))
    }

    /// Whether the innermost block is an enum definition.
    pub open spec fn in_enum_def(&self) -> bool {
        self.frames().len() > 0 && self.frames().last() == Frame::EnumDef
    }

    /// Whether the innermost block is the `Groups` block.
    pub open spec fn in_groups_block(&self) -> bool {
        self.frames().len() > 0 && self.frames().last() == Frame::OuterBlock("Groups"@)
    }

    spec fn tables_kept(&self, old: &Tokenizer<'a>) -> bool {
        &&& self.enumliterals == old.enumliterals
        &&& self.groupnames == old.groupnames
        &&& self.agentnames == old.agentnames
    }

    /// Whether no block is open.
    pub open spec fn at_top_level(&self) -> bool {
        self.frames().len() == 0
    }

    /// Whether the next word names an agent: it follows `Agent`.
    pub open spec fn after_agent(&self) -> bool {
        self.frames().len() > 0 && self.frames().last() == Frame::AgentDef
    }

    /// Whether the next word names the block that `end` closes.
    pub open spec fn after_end(&self) -> bool {
        self.frames().len() > 0 && self.frames().last() == Frame::BlockEnded
    }

    /// After `end`: the names that close the enclosing block (an agent's
    /// block closes with `Agent`, the environment's also with its own name),
    /// and the kind of such a name; `None` when no block encloses the `end`.
    pub open spec fn closing(&self) -> Option<(Set<Seq<char>>, SyntaxKind)> {
        let f = self.frames();
        if f.len() >= 2 {
            match f[f.len() - 2] {
                Frame::AgentBlock(env) => Some(
                    (
                        if env {
                            set!["Agent"@, "Environment"@]
                        } else {
                            set!["Agent"@]
                        },
                        K::TOKEN_END_OUTER_BLOCK_NAME,
                    ),
                ),
                Frame::OuterBlock(n) => Some((set![n], K::TOKEN_END_OUTER_BLOCK_NAME)),
                Frame::InnerBlock(n) => Some((set![n], K::TOKEN_END_INNER_BLOCK_NAME)),
                _ => None,
            }
        } else {
            None
        }
    }

    /// The kind of the error token that a character that cannot start a
    /// word makes at the top level, after `Agent`, or after `end`.
    pub open spec fn recovery_kind(&self) -> SyntaxKind {
        if self.at_top_level() {
            K::TOKEN_ERR_UNEXPECTED_TOPLEVEL
        } else if self.after_agent() || self.closing() is Some {
            K::TOKEN_ERR_EXPECTED_NAME
        } else {
            K::TOKEN_ERROR
        }
    }

    /// The names declared so far as enum literals.
    pub closed spec fn enum_literals(&self) -> Set<Seq<char>> {
        names_in(self.enumliterals@, self.chars@)
    }

    /// The names declared so far as agents.
    pub closed spec fn agent_names(&self) -> Set<Seq<char>> {
        names_in(self.agentnames@, self.chars@)
    }

    /// The kind of a name `w`, neither a keyword nor `end`, inside a block,
    /// where `next` is the first character after it that is not whitespace:
    /// enum literals and group names are declared in their places, members
    /// of groups and groups in group expressions must have been declared,
    /// a name before `:` (or `=` in an agent) names an inner block, and
    /// elsewhere a name is an enum literal, an agent or a variable.
    pub open spec fn name_kind(&self, w: Seq<char>, next: Option<char>) -> SyntaxKind {
        let plain = reserved_kind(
            w,
            if self.enum_literals().contains(w) {
                K::TOKEN_ENUM_LITERAL
            } else if self.agent_names().contains(w) {
                K::TOKEN_AGENT_NAME
            } else {
                K::TOKEN_VARNAME
            },
        );
        match self.frames().last() {
            Frame::EnumDef => reserved_kind(w, K::TOKEN_ENUM_LITERAL),
            Frame::GroupDef => reserved_kind(
                w,
                if self.agent_names().contains(w) {
                    K::TOKEN_AGENT_NAME
                } else {
                    K::TOKEN_ERR_UNDEFINED_NAME
                },
            ),
            Frame::GroupExpr => reserved_kind(
                w,
                if self.group_names().contains(w) {
                    K::TOKEN_GROUPNAME
                } else {
                    K::TOKEN_ERR_UNDEFINED_NAME
                },
            ),
            Frame::AgentBlock(_) => if next == Some('=') || next == Some(':') {
                inner_block_kind(w)
            } else {
                plain
            },
            Frame::OuterBlock(n) => if n == "Groups"@ {
                reserved_kind(w, K::TOKEN_GROUPNAME)
            } else if next == Some(':') {
                inner_block_kind(w)
            } else {
                plain
            },
            _ => plain,
        }
    }

    /// The names declared so far as groups.
    pub closed spec fn group_names(&self) -> Set<Seq<char>> {
        names_in(self.groupnames@, self.chars@)
    }

    spec fn sub(&self, s: int, e: int) -> Seq<char> {
        self.chars@.subrange(s, e)
    }

    /// Whether the step from `old` to `self` kept the text, moved forward and
    /// kept the tokenizer well formed.
    spec fn stepped(&self, old: &Tokenizer<'a>) -> bool {
        &&& self.wf()
        &&& self.input == old.input
        &&& self.chars == old.chars
        &&& old.offset <= self.offset
    }

    pub fn new(input: &'a str) -> (r: Self)
        ensures
            r.wf(),
            r.text() == input@,
            r.pos() == 0,
            r.frames() == Seq::<Frame>::empty(),
            r.enum_literals() == Set::<Seq<char>>::empty(),
            r.group_names() == Set::<Seq<char>>::empty(),
            r.agent_names() == Set::<Seq<char>>::empty(),
    {
        let r = Tokenizer {
            input,
            chars: to_chars(input),
            offset: 0,
            ctx: Vec::new(),
            enumliterals: Vec::new(),
            groupnames: Vec::new(),
            agentnames: Vec::new(),
        };
        assert(r.frames() =~= Seq::<Frame>::empty());
        assert(r.enum_literals() =~= Set::<Seq<char>>::empty());
        assert(r.group_names() =~= Set::<Seq<char>>::empty());
        assert(r.agent_names() =~= Set::<Seq<char>>::empty());
        r
    }

    /// Records the span `s..e` in one of the tables of names.
    fn remember(&mut self, which: Names, s: usize, e: usize)
        requires
            old(self).wf(),
            s <= e <= old(self).chars.len(),
        ensures
            final(self).ctx == old(self).ctx,
            final(self).frames() == old(self).frames(),
            final(self).stepped(old(self)),
            final(self).offset == old(self).offset,
            final(self).ctx == old(self).ctx,
            final(self).enumliterals@ == if which == Names::EnumLiterals {
                old(self).enumliterals@.push((s, e))
            } else {
                old(self).enumliterals@
            },
            final(self).groupnames@ == if which == Names::GroupNames {
                old(self).groupnames@.push((s, e))
            } else {
                old(self).groupnames@
            },
            final(self).agentnames@ == if which == Names::AgentNames {
                old(self).agentnames@.push((s, e))
            } else {
                old(self).agentnames@
            },
    {
        let ghost n = self.chars.len() as nat;
        match which {
            Names::EnumLiterals => self.enumliterals.push((s, e)),
            Names::GroupNames => self.groupnames.push((s, e)),
            Names::AgentNames => self.agentnames.push((s, e)),
        }
        assert forall|i: int| 0 <= i < self.enumliterals@.len() implies (
        #[trigger] self.enumliterals@[i]).0 <= self.enumliterals@[i].1 <= n by {
            if i < old(self).enumliterals@.len() {
                assert(self.enumliterals@[i] == old(self).enumliterals@[i]);
            }
        }
        assert forall|i: int| 0 <= i < self.groupnames@.len() implies (
        #[trigger] self.groupnames@[i]).0 <= self.groupnames@[i].1 <= n by {
            if i < old(self).groupnames@.len() {
                assert(self.groupnames@[i] == old(self).groupnames@[i]);
            }
        }
        assert forall|i: int| 0 <= i < self.agentnames@.len() implies (
        #[trigger] self.agentnames@[i]).0 <= self.agentnames@[i].1 <= n by {
            if i < old(self).agentnames@.len() {
                assert(self.agentnames@[i] == old(self).agentnames@[i]);
            }
        }
        proof {
            lemma_frames_same(self, old(self));
        }
    }

    fn top(&self) -> (r: Option<Context>)
        ensures
            r == if self.ctx.len() > 0 {
                Some(self.ctx@.last())
            } else {
                None::<Context>
            },
    {
        if self.ctx.len() > 0 {
            Some(self.ctx[self.ctx.len() - 1])
        } else {
            None
        }
    }

    fn push_ctx(&mut self, c: Context)
        requires
            old(self).wf(),
            match c {
                Context::InnerBlock(s, e) => s <= e <= old(self).chars.len(),
                _ => true,
            },
        ensures
            final(self).tables_kept(old(self)),
            final(self).stepped(old(self)),
            final(self).offset == old(self).offset,
            final(self).ctx@ == old(self).ctx@.push(c),
            final(self).frames() == old(self).frames().push(frame_of(c, old(self).chars@)),
    {
        self.ctx.push(c);
        assert(self.frames() =~= old(self).frames().push(frame_of(c, old(self).chars@)));
        assert(ctx_ok(self.ctx@, self.chars.len() as nat)) by {
            assert forall|i: int| 0 <= i < self.ctx@.len() implies match #[trigger] self.ctx@[i] {
                Context::InnerBlock(s, e) => s <= e <= self.chars.len(),
                _ => true,
            } by {
                if i < old(self).ctx@.len() {
                    assert(self.ctx@[i] == old(self).ctx@[i]);
                }
            }
        }
    }

    fn pop_ctx(&mut self)
        requires
            old(self).wf(),
        ensures
            final(self).tables_kept(old(self)),
            final(self).stepped(old(self)),
            final(self).offset == old(self).offset,
            old(self).ctx.len() > 0 ==> final(self).ctx@ == old(self).ctx@.drop_last(),
            old(self).ctx.len() > 0 ==> final(self).frames() == old(self).frames().drop_last(),
    {
        proof {
            if old(self).ctx.len() > 0 {
                assert(old(self).ctx@.drop_last().len() == old(self).ctx@.len() - 1);
            }
        }
        let _ = self.ctx.pop();
        proof {
            if old(self).ctx.len() > 0 {
                assert(self.frames() =~= old(self).frames().drop_last());
            }
        }
        assert(ctx_ok(self.ctx@, self.chars.len() as nat)) by {
            assert forall|i: int| 0 <= i < self.ctx@.len() implies match #[trigger] self.ctx@[i] {
                Context::InnerBlock(s, e) => s <= e <= self.chars.len(),
                _ => true,
            } by {
                assert(self.ctx@[i] == old(self).ctx@[i]);
            }
        }
    }

    /// The index of the first character at or after `i` that is not
    /// whitespace, or the length of the text.
    fn skip_ws(&self, i: usize) -> (r: usize)
        requires
            self.wf(),
            i <= self.chars.len(),
        ensures
            i <= r <= self.chars.len(),
            forall|j: int| i <= j < r ==> spec_is_whitespace(#[trigger] self.chars@[j]),
            r < self.chars.len() ==> !spec_is_whitespace(self.chars@[r as int]),
    {
        let mut j = i;
        while j < self.chars.len() && is_whitespace(self.chars[j])
            invariant
                self.wf(),
                i <= j <= self.chars.len(),
                forall|k: int| i <= k < j ==> spec_is_whitespace(#[trigger] self.chars@[k]),
            decreases self.chars.len() - j,
        {
            j += 1;
        }
        j
    }

    /// The end of the run of identifier characters that starts at `i`.
    fn var_end(&self, i: usize) -> (r: usize)
        requires
            self.wf(),
            i <= self.chars.len(),
        ensures
            i <= r <= self.chars.len(),
            forall|j: int| i <= j < r ==> spec_is_var_char(#[trigger] self.chars@[j]),
            r < self.chars.len() ==> !spec_is_var_char(self.chars@[r as int]),
    {
        let mut j = i;
        while j < self.chars.len() && is_valid_var_char(self.chars[j])
            invariant
                self.wf(),
                i <= j <= self.chars.len(),
                forall|k: int| i <= k < j ==> spec_is_var_char(#[trigger] self.chars@[k]),
            decreases self.chars.len() - j,
        {
            j += 1;
        }
        j
    }

    /// The first character at or after the current position that is not
    /// whitespace.
    fn peekchar(&self) -> (r: Option<char>)
        requires
            self.wf(),
        ensures
            r == next_char(self.chars@, self.offset as int),
    {
        let j = self.skip_ws(self.offset);
        proof {
            lemma_skip_ws_from(self.chars@, self.offset as int, j as int);
        }
        if j < self.chars.len() {
            Some(self.chars[j])
        } else {
            None
        }
    }

    /// Consumes an identifier, if one starts at the current position.
    fn consume_var(&mut self) -> (r: Option<(usize, usize)>)
        requires
            old(self).wf(),
        ensures
            final(self).ctx == old(self).ctx,
            final(self).frames() == old(self).frames(),
            final(self).tables_kept(old(self)),
            final(self).stepped(old(self)),
            match r {
                Some((s, e)) => {
                    &&& s == old(self).offset
                    &&& e == final(self).offset
                    &&& is_ident(final(self).sub(s as int, e as int))
                    &&& ends_word(final(self).chars@, e as int)
                    &&& e == ident_end(final(self).chars@, s as int)
                },
                None => {
                    &&& final(self).offset == old(self).offset
                    &&& (old(self).offset >= old(self).chars.len() || !spec_is_var_start(
                        old(self).chars@[old(self).offset as int],
                    ))
                },
            },
    {
        if self.offset < self.chars.len() && is_valid_start_var_char(self.chars[self.offset]) {
            let s = self.offset;
            let e = self.var_end(s);
            proof {
                lemma_ident_end(self.chars@, s as int, e as int);
            }
            self.offset = e;
            assert(is_ident(self.sub(s as int, e as int))) by {
                assert forall|i: int| 0 <= i < e - s implies spec_is_var_char(
                    #[trigger] self.sub(s as int, e as int)[i],
                ) by {
                    assert(self.sub(s as int, e as int)[i] == self.chars@[s + i]);
                }
            }
            proof {
                lemma_frames_same(self, old(self));
            }
            Some((s, e))
        } else {
            None
        }
    }

    /// Consumes the rest of the line, which is not empty.
    fn consume_err(&mut self)
        requires
            old(self).wf(),
        ensures
            old(self).offset < old(self).chars.len() && old(self).chars@[old(self).offset as int] != '\n'
                ==> final(self).offset == line_end(old(self).chars@, old(self).offset as int) && ends_word(
                final(self).chars@,
                final(self).offset as int,
            ),
            old(self).offset < old(self).chars.len() && old(self).chars@[old(self).offset as int] == '\n'
                ==> final(self).offset == old(self).offset + 1,
            old(self).offset < old(self).chars.len() ==> final(self).offset > old(self).offset,
            final(self).ctx == old(self).ctx,
            final(self).frames() == old(self).frames(),
            final(self).tables_kept(old(self)),
            final(self).stepped(old(self)),
    {
        let start = self.offset;
        self.consume_line();
        if self.offset == start && self.offset < self.chars.len() {
            self.offset += 1;
            proof {
                lemma_frames_same(self, old(self));
            }
        }
    }

    /// Whether the span `s..e` of the text spells `word`.
    fn span_is(&self, s: usize, e: usize, word: &str) -> (r: bool)
        requires
            self.wf(),
            s <= e <= self.chars.len(),
        ensures
            r == (self.sub(s as int, e as int) == word@),
    {
        let n = word.unicode_len();
        if e - s != n {
            return false;
        }
        let mut i: usize = 0;
        while i < n
            invariant
                self.wf(),
                s <= e <= self.chars.len(),
                n == word@.len(),
                e - s == n,
                i <= n,
                forall|k: int| 0 <= k < i ==> self.chars@[s + k] == #[trigger] word@[k],
            decreases n - i,
        {
            if self.chars[s + i] != word.get_char(i) {
                return false;
            }
            i += 1;
        }
        assert(self.sub(s as int, e as int) =~= word@);
        true
    }

    /// Whether two spans of the text spell the same word.
    fn spans_match(&self, a: (usize, usize), b: (usize, usize)) -> (r: bool)
        requires
            self.wf(),
            a.0 <= a.1 <= self.chars.len(),
            b.0 <= b.1 <= self.chars.len(),
        ensures
            r == (self.sub(a.0 as int, a.1 as int) == self.sub(b.0 as int, b.1 as int)),
    {
        if a.1 - a.0 != b.1 - b.0 {
            assert(self.sub(a.0 as int, a.1 as int).len() != self.sub(b.0 as int, b.1 as int).len());
            return false;
        }
        let n = a.1 - a.0;
        let mut i: usize = 0;
        while i < n
            invariant
                self.wf(),
                a.0 <= a.1 <= self.chars.len(),
                b.0 <= b.1 <= self.chars.len(),
                n == a.1 - a.0,
                n == b.1 - b.0,
                i <= n,
                forall|k: int| 0 <= k < i ==> #[trigger] self.chars@[a.0 + k] == self.chars@[b.0 + k],
            decreases n - i,
        {
            if self.chars[a.0 + i] != self.chars[b.0 + i] {
                assert(self.sub(a.0 as int, a.1 as int)[i as int] != self.sub(b.0 as int, b.1 as int)[i as int]);
                return false;
            }
            i += 1;
        }
        assert forall|k: int| 0 <= k < n implies self.sub(a.0 as int, a.1 as int)[k] == self.sub(b.0 as int, b.1 as int)[k] by {
            assert(self.chars@[a.0 + k] == self.chars@[b.0 + k]);
        }
        assert(self.sub(a.0 as int, a.1 as int) =~= self.sub(b.0 as int, b.1 as int));
        true
    }

    /// Whether one of the spans of `table` spells the same word as `s..e`.
    fn table_has(&self, table: &Vec<(usize, usize)>, s: usize, e: usize) -> (r: bool)
        requires
            self.wf(),
            spans_ok(table@, self.chars.len() as nat),
            s <= e <= self.chars.len(),
        ensures
            r == names_in(table@, self.chars@).contains(self.sub(s as int, e as int)),
    {
        let mut i: usize = 0;
        while i < table.len()
            invariant
                self.wf(),
                spans_ok(table@, self.chars.len() as nat),
                s <= e <= self.chars.len(),
                i <= table.len(),
                forall|k: int|
                    0 <= k < i ==> #[trigger] self.sub(table@[k].0 as int, table@[k].1 as int)
                        != self.sub(s as int, e as int),
            decreases table.len() - i,
        {
            if self.spans_match(table[i], (s, e)) {
                proof {
                    assert(self.chars@.subrange(table@[i as int].0 as int, table@[i as int].1 as int)
                        == self.sub(s as int, e as int));
                }
                return true;
            }
            i += 1;
        }
        proof {
            if names_in(table@, self.chars@).contains(self.sub(s as int, e as int)) {
                let k = choose|k: int|
                    0 <= k < table@.len() && #[trigger] self.chars@.subrange(
                        table@[k].0 as int,
                        table@[k].1 as int,
                    ) == self.sub(s as int, e as int);
                assert(self.sub(table@[k].0 as int, table@[k].1 as int) == self.sub(s as int, e as int));
            }
        }
        false
    }

    /// Whether the span `s..e`, without its whitespace, spells `word`.
    fn stripped_is(&self, s: usize, e: usize, word: &str) -> (r: bool)
        requires
            self.wf(),
            s <= e <= self.chars.len(),
        ensures
            r == (strip_ws(self.sub(s as int, e as int)) == word@),
    {
        let mut v: Vec<char> = Vec::new();
        let mut i = s;
        while i < e
            invariant
                self.wf(),
                s <= i <= e <= self.chars.len(),
                v@ == strip_ws(self.sub(s as int, i as int)),
            decreases e - i,
        {
            let c = self.chars[i];
            proof {
                assert(self.sub(s as int, i + 1).drop_last() =~= self.sub(s as int, i as int));
                assert(self.sub(s as int, i + 1).last() == c);
            }
            if !is_whitespace(c) {
                v.push(c);
            }
            i += 1;
        }
        let n = word.unicode_len();
        if v.len() != n {
            return false;
        }
        let mut k: usize = 0;
        while k < n
            invariant
                n == word@.len(),
                v.len() == n,
                k <= n,
                self.wf(),
                s <= e <= self.chars.len(),
                v@ == strip_ws(self.sub(s as int, e as int)),
                forall|j: int| 0 <= j < k ==> v@[j] == word@[j],
            decreases n - k,
        {
            if v[k] != word.get_char(k) {
                assert(v@[k as int] != word@[k as int]);
                return false;
            }
            k += 1;
        }
        assert(v@ =~= word@);
        true
    }

    /// The kind of a keyword of formulas, if `s..e` spells one.
    fn keyword(&self, s: usize, e: usize) -> (r: Option<SyntaxKind>)
        requires
            self.wf(),
            s <= e <= self.chars.len(),
        ensures
            r == keyword_kind(self.sub(s as int, e as int)),
            r matches Some(k) ==> lexeme_fits(k, self.sub(s as int, e as int)),
    {
        let k = if self.span_is(s, e, "AG") {
            K::TOKEN_AG
        } else if self.span_is(s, e, "EG") {
            K::TOKEN_EG
        } else if self.span_is(s, e, "AX") {
            K::TOKEN_AX
        } else if self.span_is(s, e, "EX") {
            K::TOKEN_EX
        } else if self.span_is(s, e, "X") {
            K::TOKEN_X
        } else if self.span_is(s, e, "F") {
            K::TOKEN_F
        } else if self.span_is(s, e, "G") {
            K::TOKEN_G
        } else if self.span_is(s, e, "AF") {
            K::TOKEN_AF
        } else if self.span_is(s, e, "EF") {
            K::TOKEN_EF
        } else if self.span_is(s, e, "A") {
            K::TOKEN_A
        } else if self.span_is(s, e, "E") {
            K::TOKEN_E
        } else if self.span_is(s, e, "U") {
            K::TOKEN_U
        } else if self.span_is(s, e, "K") {
            K::TOKEN_K
        } else if self.span_is(s, e, "GK") {
            K::TOKEN_GK
        } else if self.span_is(s, e, "GCK") {
            K::TOKEN_GCK
        } else if self.span_is(s, e, "O") {
            K::TOKEN_O
        } else if self.span_is(s, e, "DK") {
            K::TOKEN_DK
        } else if self.span_is(s, e, "and") {
            K::TOKEN_AND
        } else if self.span_is(s, e, "or") {
            K::TOKEN_OR
        } else if self.span_is(s, e, "if") {
            K::TOKEN_IF
        } else if self.span_is(s, e, "true") {
            K::TOKEN_TRUE
        } else if self.span_is(s, e, "false") {
            K::TOKEN_FALSE
        } else if self.span_is(s, e, "boolean") {
            K::TOKEN_BOOLEAN_LITERAL
        } else {
            return None;
        };
        Some(k)
    }

    /// The kind of the name of an inner block.
    fn parse_inner_block_name(&self, s: usize, e: usize) -> (r: SyntaxKind)
        requires
            self.wf(),
            s <= e <= self.chars.len(),
        ensures
            is_ident(self.sub(s as int, e as int)) ==> lexeme_fits(r, self.sub(s as int, e as int)),
            r == inner_block_kind(self.sub(s as int, e as int)),
    {
        if self.span_is(s, e, "RedStates") {
            K::TOKEN_REDSTATES
        } else if self.span_is(s, e, "GreenStates") {
            K::TOKEN_GREENSTATES
        } else if self.span_is(s, e, "Actions") {
            K::TOKEN_ACTIONS
        } else if self.span_is(s, e, "Action") {
            K::TOKEN_ACTION
        } else if self.span_is(s, e, "Protocol") {
            K::TOKEN_PROTOCOL
        } else if self.span_is(s, e, "Evolution") {
            K::TOKEN_EVOLUTION
        } else if self.span_is(s, e, "Obsvars") {
            K::TOKEN_OBSVARS
        } else if self.span_is(s, e, "Lobsvars") {
            K::TOKEN_LOBSVARS
        } else if self.span_is(s, e, "Vars") {
            K::TOKEN_VARS
        } else {
            K::TOKEN_ERR_UNEXPECTED_BLOCK
        }
    }

    /// The kind of a name in a place where `expected` is the kind of an
    /// ordinary name: reserved words are flagged or keep their own kind.
    fn parse_var(&self, s: usize, e: usize, expected: SyntaxKind) -> (r: SyntaxKind)
        requires
            self.wf(),
            s <= e <= self.chars.len(),
        ensures
            is_ident(self.sub(s as int, e as int)) && lexeme_fits(expected, self.sub(s as int, e as int))
                ==> lexeme_fits(r, self.sub(s as int, e as int)),
            r == reserved_kind(self.sub(s as int, e as int), expected),
    {
        if self.span_is(s, e, "Semantics")
            || self.span_is(s, e, "MultiAssignment")
            || self.span_is(s, e, "SingleAssignment")
            || self.span_is(s, e, "MA")
            || self.span_is(s, e, "SA")
            || self.span_is(s, e, "Agent")
            || self.span_is(s, e, "Evaluation")
            || self.span_is(s, e, "InitStates")
            || self.span_is(s, e, "Groups")
            || self.span_is(s, e, "Fairness")
            || self.span_is(s, e, "Formulae")
            || self.span_is(s, e, "RedStates")
            || self.span_is(s, e, "GreenStates")
            || self.span_is(s, e, "Actions")
            || self.span_is(s, e, "Protocol")
            || self.span_is(s, e, "Evolution")
            || self.span_is(s, e, "Obsvars")
            || self.span_is(s, e, "Lobsvars")
            || self.span_is(s, e, "Vars") {
            K::TOKEN_ERR_UNEXPECTED_KEYWORD
        } else if self.span_is(s, e, "Environment") {
            K::TOKEN_ENVIRONMENT
        } else if self.span_is(s, e, "Action") {
            K::TOKEN_ACTION
        } else if self.span_is(s, e, "Other") {
            K::TOKEN_OTHER
        } else if self.span_is(s, e, "none") {
            K::TOKEN_NONE
        } else {
            expected
        }
    }

    /// Consumes characters up to the end of the line.
    fn consume_line(&mut self)
        requires
            old(self).wf(),
        ensures
            final(self).offset == line_end(old(self).chars@, old(self).offset as int),
            final(self).ctx == old(self).ctx,
            final(self).frames() == old(self).frames(),
            final(self).tables_kept(old(self)),
            final(self).stepped(old(self)),
            forall|j: int| old(self).offset <= j < final(self).offset ==> #[trigger] final(self).chars@[j] != '\n',
            final(self).offset == final(self).chars.len() || final(self).chars@[final(self).offset as int] == '\n',
    {
        while self.offset < self.chars.len() && self.chars[self.offset] != '\n'
            invariant
                self.wf(),
                self.input == old(self).input,
                self.chars == old(self).chars,
                self.ctx == old(self).ctx,
                self.enumliterals == old(self).enumliterals,
                self.groupnames == old(self).groupnames,
                self.agentnames == old(self).agentnames,
                old(self).offset <= self.offset,
                forall|j: int| old(self).offset <= j < self.offset ==> #[trigger] self.chars@[j] != '\n',
            decreases self.chars.len() - self.offset,
        {
            self.offset += 1;
        }
        proof {
            lemma_line_end(self.chars@, old(self).offset as int, self.offset as int);
        }
        proof {
            lemma_frames_same(self, old(self));
        }
    }

    /// The token after `Agent`: the agent's name.
    fn agent_def(&mut self) -> (r: SyntaxKind)
        requires
            old(self).after_agent(),
            old(self).wf(),
            old(self).offset < old(self).chars.len(),
            !spec_is_whitespace(old(self).chars@[old(self).offset as int]),
        ensures
            spec_is_var_start(old(self).chars@[old(self).offset as int]) ==> final(self).offset == ident_end(old(self).chars@, old(self).offset as int),
            !spec_is_var_start(old(self).chars@[old(self).offset as int]) ==> final(self).offset == line_end(old(self).chars@, old(self).offset as int) && r
                == K::TOKEN_ERR_EXPECTED_NAME,
            r != K::TOKEN_INT_LITERAL,
            final(self).frames() == old(self).frames().drop_last().push(
                Frame::AgentBlock(
                    is_ident(final(self).sub(old(self).offset as int, final(self).offset as int))
                        && final(self).sub(old(self).offset as int, final(self).offset as int)
                        == "Environment"@,
                ),
            ),
            tables_follow(
                old(self),
                final(self),
                final(self).sub(old(self).offset as int, final(self).offset as int),
            ),
            is_ident(final(self).sub(old(self).offset as int, final(self).offset as int)) ==> r
                == agent_kind(final(self).sub(old(self).offset as int, final(self).offset as int)),
            is_ident(final(self).sub(old(self).offset as int, final(self).offset as int)) ==> ends_word(
                final(self).chars@,
                final(self).offset as int,
            ),
            r != K::TOKEN_WHITESPACE && r != K::TOKEN_COMMENT,
            r != K::TOKEN_LT && r != K::TOKEN_START_GROUPEXPR,
            final(self).stepped(old(self)),
            final(self).offset > old(self).offset,
            lexeme_fits(r, final(self).sub(old(self).offset as int, final(self).offset as int)),
    {
        self.pop_ctx();
        match self.consume_var() {
            Some((s, e)) => {
                proof {
                    lemma_names_push(self.agentnames@, self.chars@, s, e);
                }
                self.remember(Names::AgentNames, s, e);
                let env = self.span_is(s, e, "Environment");
                self.push_ctx(Context::AgentBlock(env));
                if env {
                    K::TOKEN_ENVIRONMENT
                } else {
                    K::TOKEN_AGENT_NAME
                }
            },
            None => {
                self.consume_err();
                self.push_ctx(Context::AgentBlock(false));
                proof {
                    assert(self.sub(old(self).offset as int, self.offset as int)[0] == self.chars@[old(self).offset as int]);
                }
                K::TOKEN_ERR_EXPECTED_NAME
            },
        }
    }

    /// The token after `end`: the name of the block it closes.
    fn block_ended(&mut self) -> (r: SyntaxKind)
        requires
            old(self).wf(),
            old(self).offset < old(self).chars.len(),
            !spec_is_whitespace(old(self).chars@[old(self).offset as int]),
            old(self).after_end(),
        ensures
            spec_is_var_start(old(self).chars@[old(self).offset as int]) ==> final(self).offset == ident_end(old(self).chars@, old(self).offset as int),
            !spec_is_var_start(old(self).chars@[old(self).offset as int]) ==> final(self).offset == line_end(old(self).chars@, old(self).offset as int) && r
                == old(self).recovery_kind(),
            r != K::TOKEN_INT_LITERAL,
            final(self).frames() == if r == K::TOKEN_END_OUTER_BLOCK_NAME || r == K::TOKEN_END_INNER_BLOCK_NAME {
                old(self).frames().drop_last().drop_last()
            } else {
                old(self).frames().drop_last()
            },
            final(self).tables_kept(old(self)),
            is_ident(final(self).sub(old(self).offset as int, final(self).offset as int)) ==> r
                == close_kind(old(self).closing(), final(self).sub(old(self).offset as int, final(self).offset as int)),
            is_ident(final(self).sub(old(self).offset as int, final(self).offset as int)) ==> ends_word(
                final(self).chars@,
                final(self).offset as int,
            ),
            r != K::TOKEN_WHITESPACE && r != K::TOKEN_COMMENT,
            r != K::TOKEN_LT && r != K::TOKEN_START_GROUPEXPR,
            final(self).stepped(old(self)),
            final(self).offset > old(self).offset,
            lexeme_fits(r, final(self).sub(old(self).offset as int, final(self).offset as int)),
    {
        self.pop_ctx();
        match self.top() {
            Some(Context::AgentBlock(env)) => match self.consume_var() {
                Some((s, e)) => {
                    if self.span_is(s, e, "Agent") || (env && self.span_is(s, e, "Environment")) {
                        self.pop_ctx();
                        K::TOKEN_END_OUTER_BLOCK_NAME
                    } else {
                        K::TOKEN_ERR_INVALID_CLOSE_BLOCK
                    }
                },
                None => {
                    self.consume_err();
                    proof {
                        assert(self.sub(old(self).offset as int, self.offset as int)[0] == self.chars@[old(self).offset as int]);
                    }
                    K::TOKEN_ERR_EXPECTED_NAME
                },
            },
            Some(Context::OuterBlock(o)) => match self.consume_var() {
                Some((s, e)) => {
                    if self.span_is(s, e, outer_name(o)) {
                        self.pop_ctx();
                        K::TOKEN_END_OUTER_BLOCK_NAME
                    } else {
                        K::TOKEN_ERR_INVALID_CLOSE_BLOCK
                    }
                },
                None => {
                    self.consume_err();
                    proof {
                        assert(self.sub(old(self).offset as int, self.offset as int)[0] == self.chars@[old(self).offset as int]);
                    }
                    K::TOKEN_ERR_EXPECTED_NAME
                },
            },
            Some(Context::InnerBlock(bs, be)) => {
                proof {
                    assert(ctx_ok(self.ctx@, self.chars.len() as nat));
                    assert(match self.ctx@[self.ctx@.len() - 1] {
                        Context::InnerBlock(s, e) => s <= e <= self.chars.len(),
                        _ => true,
                    });
                }
                match self.consume_var() {
                    Some((s, e)) => {
                        if self.spans_match((bs, be), (s, e)) {
                            self.pop_ctx();
                            K::TOKEN_END_INNER_BLOCK_NAME
                        } else {
                            K::TOKEN_ERR_INVALID_CLOSE_BLOCK
                        }
                    },
                    None => {
                        self.consume_err();
                        proof {
                            assert(self.sub(old(self).offset as int, self.offset as int)[0] == self.chars@[old(self).offset as int]);
                        }
                        K::TOKEN_ERR_EXPECTED_NAME
                    },
                }
            },
            _ => {
                if self.consume_var().is_none() {
                    self.consume_err();
                    proof {
                        assert(self.sub(old(self).offset as int, self.offset as int)[0] == self.chars@[old(self).offset as int]);
                    }
                }
                K::TOKEN_ERROR
            },
        }
    }

    /// The `Semantics = ...;` line, whose word `Semantics` spans `s..e`.
    fn semantics(&mut self, s: usize, e: usize) -> (r: SyntaxKind)
        requires
            old(self).wf(),
            s < e == old(self).offset,
            old(self).sub(s as int, e as int) == "Semantics"@,
            ends_word(old(self).chars@, e as int),
        ensures
            r == semantics_kind(final(self).sub(s as int, final(self).offset as int)),
            final(self).offset == past_semicolon(old(self).chars@, e as int),
            final(self).ctx == old(self).ctx,
            final(self).tables_kept(old(self)),
            final(self).stepped(old(self)),
            is_ident(final(self).sub(s as int, final(self).offset as int)) ==> r
                == K::TOKEN_ERR_UNEXPECTED_TOPLEVEL && final(self).offset == e,
            r == K::TOKEN_SEMANTICS_SA || r == K::TOKEN_SEMANTICS_MA || r == K::TOKEN_ERR_UNEXPECTED_TOPLEVEL,
            lexeme_fits(r, final(self).sub(s as int, final(self).offset as int)),
    {
        while self.offset < self.chars.len() && self.chars[self.offset] != ';'
            invariant
                self.stepped(old(self)),
                self.tables_kept(old(self)),
                self.ctx == old(self).ctx,
                e <= self.offset,
                forall|j: int| e <= j < self.offset ==> #[trigger] self.chars@[j] != ';',
            decreases self.chars.len() - self.offset,
        {
            self.offset += 1;
        }
        proof {
            lemma_past_semicolon(self.chars@, e as int, self.offset as int);
        }
        if self.offset < self.chars.len() {
            self.offset += 1;
        }
        let r = if self.stripped_is(s, self.offset, "Semantics=SA;") || self.stripped_is(
            s,
            self.offset,
            "Semantics=SingleAssignment;",
        ) {
            K::TOKEN_SEMANTICS_SA
        } else if self.stripped_is(s, self.offset, "Semantics=MA;") || self.stripped_is(
            s,
            self.offset,
            "Semantics=MultiAssignment;",
        ) {
            K::TOKEN_SEMANTICS_MA
        } else {
            K::TOKEN_ERR_UNEXPECTED_TOPLEVEL
        };
        proof {
            let lex = self.sub(s as int, self.offset as int);
            if is_ident(lex) {
                if self.offset > e {
                    assert(lex[e - s] == self.chars@[e as int]);
                }
                assert(lex == "Semantics"@);
                reveal_strlit("Semantics");
                reveal_strlit("Semantics=SA;");
                reveal_strlit("Semantics=SingleAssignment;");
                reveal_strlit("Semantics=MA;");
                reveal_strlit("Semantics=MultiAssignment;");
                lemma_strip_ws_len(lex);
            }
        }
        r
    }

    /// A token at the top level of the file.
    fn top_level(&mut self) -> (r: SyntaxKind)
        requires
            old(self).ctx.len() == 0,
            old(self).wf(),
            old(self).offset < old(self).chars.len(),
            !spec_is_whitespace(old(self).chars@[old(self).offset as int]),
        ensures
            spec_is_var_start(old(self).chars@[old(self).offset as int]) ==> r == top_word_kind(old(self).chars@, old(self).offset as int),
            !spec_is_var_start(old(self).chars@[old(self).offset as int]) ==> final(self).offset == line_end(old(self).chars@, old(self).offset as int) && r
                == K::TOKEN_ERR_UNEXPECTED_TOPLEVEL,
            spec_is_var_start(old(self).chars@[old(self).offset as int]) ==> final(self).offset == top_word_end(old(self).chars@, old(self).offset as int),
            r != K::TOKEN_INT_LITERAL,
            final(self).frames() == next_frames(old(self).frames(), r, final(self).sub(old(self).offset as int, final(self).offset as int), None),
            final(self).tables_kept(old(self)),
            is_ident(final(self).sub(old(self).offset as int, final(self).offset as int)) ==> r
                == top_level_kind(final(self).sub(old(self).offset as int, final(self).offset as int)),
            is_ident(final(self).sub(old(self).offset as int, final(self).offset as int)) ==> ends_word(
                final(self).chars@,
                final(self).offset as int,
            ),
            r != K::TOKEN_WHITESPACE && r != K::TOKEN_COMMENT,
            r != K::TOKEN_LT && r != K::TOKEN_START_GROUPEXPR,
            final(self).stepped(old(self)),
            final(self).offset > old(self).offset,
            lexeme_fits(r, final(self).sub(old(self).offset as int, final(self).offset as int)),
    {
        let start = self.offset;
        match self.consume_var() {
            Some((s, e)) => {
                proof {
                    assert forall|j: int| s <= j < e implies spec_is_var_char(#[trigger] self.chars@[j]) by {
                        assert(self.sub(s as int, e as int)[j - s] == self.chars@[j]);
                    }
                    lemma_ident_end(self.chars@, s as int, e as int);
                    lemma_semantics_opens_no_block();
                }
                if self.span_is(s, e, "Agent") {
                    self.push_ctx(Context::AgentDef);
                    K::TOKEN_BEGIN_AGENT
                } else if self.span_is(s, e, "Evaluation") {
                    self.push_ctx(Context::OuterBlock(Outer::Evaluation));
                    K::TOKEN_BEGIN_EVALUATION
                } else if self.span_is(s, e, "InitStates") {
                    self.push_ctx(Context::OuterBlock(Outer::InitStates));
                    K::TOKEN_BEGIN_INIT_STATES
                } else if self.span_is(s, e, "Groups") {
                    self.push_ctx(Context::OuterBlock(Outer::Groups));
                    K::TOKEN_BEGIN_GROUPS
                } else if self.span_is(s, e, "Fairness") {
                    self.push_ctx(Context::OuterBlock(Outer::Fairness));
                    K::TOKEN_BEGIN_FAIRNESS
                } else if self.span_is(s, e, "Formulae") {
                    self.push_ctx(Context::OuterBlock(Outer::Formulae));
                    K::TOKEN_BEGIN_FORMULAE
                } else if self.span_is(s, e, "Semantics") {
                    self.semantics(s, e)
                } else {
                    self.consume_line();
                    proof {
                        if self.offset > e {
                            assert(self.sub(s as int, self.offset as int)[e - s] == self.chars@[e as int]);
                        }
                    }
                    K::TOKEN_ERR_UNEXPECTED_TOPLEVEL
                }
            },
            None => {
                self.consume_err();
                proof {
                    assert(self.sub(start as int, self.offset as int)[0] == self.chars@[start as int]);
                }
                K::TOKEN_ERR_UNEXPECTED_TOPLEVEL
            },
        }
    }

    /// A word after its first letter was consumed at `start`: a keyword, or
    /// a name classified by the context.
    fn word(&mut self, start: usize) -> (r: SyntaxKind)
        requires
            !old(self).after_end(),
            old(self).ctx.len() > 0,
            !old(self).after_agent(),
            old(self).wf(),
            start < old(self).offset,
            old(self).offset == start + 1,
            spec_is_var_start(old(self).chars@[start as int]),
        ensures
            final(self).offset == ident_end(old(self).chars@, start as int),
            final(self).sub(start as int, final(self).offset as int) == "end"@ ==> r == end_kind(old(self).frames().last()),
            final(self).frames() == next_frames(old(self).frames(), r, final(self).sub(start as int, final(self).offset as int), next_char(old(self).chars@, final(self).offset as int)),
            tables_follow(old(self), final(self), final(self).sub(start as int, final(self).offset as int)),
            final(self).stepped(old(self)),
            lexeme_fits(r, final(self).sub(start as int, final(self).offset as int)),
            r != K::TOKEN_LT && r != K::TOKEN_START_GROUPEXPR,
            r != K::TOKEN_WHITESPACE && r != K::TOKEN_COMMENT,
            ends_word(final(self).chars@, final(self).offset as int),
            keeps_keyword(final(self).sub(start as int, final(self).offset as int), r),
            names_kept(old(self), final(self).sub(start as int, final(self).offset as int), final(self).offset as int, r),
    {
        let r = self.word_kind(start);
        proof {
            let lex = self.sub(start as int, self.offset as int);
            assert(lex[0] == self.chars@[start as int]);
            if r == K::TOKEN_WHITESPACE {
                assert(spec_is_whitespace(lex[0]));
            }
            if r == K::TOKEN_LT || r == K::TOKEN_START_GROUPEXPR {
                assert(lex == seq!['<']);
                assert(lex[0] == '<');
            }
        }
        r
    }

    fn word_kind(&mut self, start: usize) -> (r: SyntaxKind)
        requires
            !old(self).after_end(),
            old(self).ctx.len() > 0,
            !old(self).after_agent(),
            old(self).wf(),
            start < old(self).offset,
            old(self).offset == start + 1,
            spec_is_var_start(old(self).chars@[start as int]),
        ensures
            final(self).offset == ident_end(old(self).chars@, start as int),
            final(self).sub(start as int, final(self).offset as int) == "end"@ ==> r == end_kind(old(self).frames().last()),
            final(self).frames() == next_frames(old(self).frames(), r, final(self).sub(start as int, final(self).offset as int), next_char(old(self).chars@, final(self).offset as int)),
            tables_follow(old(self), final(self), final(self).sub(start as int, final(self).offset as int)),
            final(self).stepped(old(self)),
            lexeme_fits(r, final(self).sub(start as int, final(self).offset as int)),
            final(self).offset > start,
            ends_word(final(self).chars@, final(self).offset as int),
            keeps_keyword(final(self).sub(start as int, final(self).offset as int), r),
            names_kept(old(self), final(self).sub(start as int, final(self).offset as int), final(self).offset as int, r),
    {
        let e = self.var_end(self.offset);
        proof {
            lemma_ident_end(self.chars@, start + 1, e as int);
            assert(spec_is_var_char(self.chars@[start as int]));
        }
        self.offset = e;
        assert(is_ident(self.sub(start as int, e as int))) by {
            assert forall|i: int| 0 <= i < e - start implies spec_is_var_char(
                #[trigger] self.sub(start as int, e as int)[i],
            ) by {
                assert(self.sub(start as int, e as int)[i] == self.chars@[start + i]);
            }
        }
        let s = start;
        match self.keyword(s, e) {
            Some(k) => {
                proof {
                    lemma_end_not_keyword();
                }
                return k;
            },
            None => {},
        }
        if self.span_is(s, e, "end") {
            return match self.top() {
                Some(Context::AgentBlock(_)) | Some(Context::OuterBlock(_)) => {
                    self.push_ctx(Context::BlockEnded);
                    K::TOKEN_END_OUTER_BLOCK
                },
                Some(Context::InnerBlock(_, _)) => {
                    self.push_ctx(Context::BlockEnded);
                    K::TOKEN_END_INNER_BLOCK
                },
                _ => K::TOKEN_ERR_INVALID_CLOSE_BLOCK,
            };
        }
        let ghost before = *self;
        let r = self.name(s, e);
        proof {
            lemma_name_kind_same(&before, old(self), self.sub(s as int, e as int), next_char(self.chars@, e as int));
        }
        r
    }

    /// A name that is neither a keyword nor `end`, classified by the context.
    fn name(&mut self, s: usize, e: usize) -> (r: SyntaxKind)
        requires
            is_ident(old(self).sub(s as int, e as int)),
            keyword_kind(old(self).sub(s as int, e as int)) is None,
            old(self).sub(s as int, e as int) != "end"@,
            old(self).wf(),
            s <= e <= old(self).chars.len(),
            is_ident(old(self).sub(s as int, e as int)),
        ensures
            old(self).ctx.len() > 0 ==> final(self).frames() == if opens_inner(
                old(self).frames().last(),
                old(self).sub(s as int, e as int),
                next_char(old(self).chars@, old(self).offset as int),
            ) {
                if old(self).frames().last() is AgentBlock && next_char(old(self).chars@, old(self).offset as int) == Some('=') {
                    old(self).frames().push(Frame::InnerBlockAssign)
                } else {
                    old(self).frames().push(Frame::InnerBlock(old(self).sub(s as int, e as int))).push(
                        Frame::InnerBlockBegin,
                    )
                }
            } else {
                old(self).frames()
            },
            old(self).ctx.len() > 0 ==> final(self).enum_literals() == if old(self).in_enum_def() {
                old(self).enum_literals().insert(old(self).sub(s as int, e as int))
            } else {
                old(self).enum_literals()
            },
            old(self).ctx.len() > 0 ==> final(self).group_names() == if old(self).in_groups_block() {
                old(self).group_names().insert(old(self).sub(s as int, e as int))
            } else {
                old(self).group_names()
            },
            final(self).agent_names() == old(self).agent_names(),
            final(self).stepped(old(self)),
            final(self).offset == old(self).offset,
            lexeme_fits(r, final(self).sub(s as int, e as int)),
            old(self).ctx.len() > 0 ==> r == old(self).name_kind(
                old(self).sub(s as int, e as int),
                next_char(old(self).chars@, old(self).offset as int),
            ),
    {
        proof {
            if self.ctx.len() > 0 {
                match self.ctx@.last() {
                    Context::OuterBlock(o) => lemma_outer_word_groups(o),
                    _ => {},
                }
            }
        }
        let top = self.top();
        let pc = self.peekchar();
        match top {
            Some(Context::EnumDef) => {
                proof {
                    lemma_names_push(self.enumliterals@, self.chars@, s, e);
                }
                self.remember(Names::EnumLiterals, s, e);
                self.parse_var(s, e, K::TOKEN_ENUM_LITERAL)
            },
            Some(Context::OuterBlock(Outer::Groups)) => {
                proof {
                    lemma_names_push(self.groupnames@, self.chars@, s, e);
                }
                self.remember(Names::GroupNames, s, e);
                self.parse_var(s, e, K::TOKEN_GROUPNAME)
            },
            Some(Context::GroupDef) => {
                if self.table_has(&self.agentnames, s, e) {
                    self.parse_var(s, e, K::TOKEN_AGENT_NAME)
                } else {
                    self.parse_var(s, e, K::TOKEN_ERR_UNDEFINED_NAME)
                }
            },
            Some(Context::GroupExpr) => {
                if self.table_has(&self.groupnames, s, e) {
                    self.parse_var(s, e, K::TOKEN_GROUPNAME)
                } else {
                    self.parse_var(s, e, K::TOKEN_ERR_UNDEFINED_NAME)
                }
            },
            Some(Context::AgentBlock(_)) => {
                if pc == Some('=') {
                    self.push_ctx(Context::InnerBlockAssign);
                    self.parse_inner_block_name(s, e)
                } else if pc == Some(':') {
                    self.push_ctx(Context::InnerBlock(s, e));
                    self.push_ctx(Context::InnerBlockBegin);
                    self.parse_inner_block_name(s, e)
                } else {
                    self.plain_name(s, e)
                }
            },
            Some(Context::OuterBlock(_)) => {
                if pc == Some(':') {
                    self.push_ctx(Context::InnerBlock(s, e));
                    self.push_ctx(Context::InnerBlockBegin);
                    self.parse_inner_block_name(s, e)
                } else {
                    self.plain_name(s, e)
                }
            },
            _ => self.plain_name(s, e),
        }
    }

    /// A name outside the places that declare names: an enum literal, an
    /// agent name or a variable.
    fn plain_name(&self, s: usize, e: usize) -> (r: SyntaxKind)
        requires
            self.wf(),
            s <= e <= self.chars.len(),
            is_ident(self.sub(s as int, e as int)),
        ensures
            lexeme_fits(r, self.sub(s as int, e as int)),
            r == reserved_kind(
                self.sub(s as int, e as int),
                if self.enum_literals().contains(self.sub(s as int, e as int)) {
                    K::TOKEN_ENUM_LITERAL
                } else if self.agent_names().contains(self.sub(s as int, e as int)) {
                    K::TOKEN_AGENT_NAME
                } else {
                    K::TOKEN_VARNAME
                },
            ),
    {
        if self.table_has(&self.enumliterals, s, e) {
            self.parse_var(s, e, K::TOKEN_ENUM_LITERAL)
        } else if self.table_has(&self.agentnames, s, e) {
            self.parse_var(s, e, K::TOKEN_AGENT_NAME)
        } else {
            self.parse_var(s, e, K::TOKEN_VARNAME)
        }
    }

    /// Whether the identifier that follows the current position, after
    /// whitespace, is a declared group name.
    fn group_follows(&self) -> (r: bool)
        requires
            self.wf(),
        ensures
            r == (next_ident(self.text(), self.offset as int) matches Some(w) && self.group_names().contains(w)),
    {
        let s = self.skip_ws(self.offset);
        proof {
            lemma_skip_ws_from(self.chars@, self.offset as int, s as int);
        }
        if s < self.chars.len() && is_valid_start_var_char(self.chars[s]) {
            let e = self.var_end(s);
            proof {
                lemma_ident_end(self.chars@, s as int, e as int);
            }
            let r = self.table_has(&self.groupnames, s, e);
            proof {
                let w = self.sub(s as int, e as int);
                assert(next_ident(self.text(), self.offset as int) == Some(w));
            }
            r
        } else {
            false
        }
    }

    /// Consumes one more character when it is `c`.
    fn bump_if(&mut self, c: char) -> (r: bool)
        requires
            old(self).wf(),
        ensures
            final(self).ctx == old(self).ctx,
            final(self).frames() == old(self).frames(),
            final(self).tables_kept(old(self)),
            final(self).stepped(old(self)),
            r ==> old(self).offset < old(self).chars.len() && old(self).chars@[old(self).offset as int] == c
                && final(self).offset == old(self).offset + 1,
            final(self).groupnames == old(self).groupnames,
            !r ==> final(self).offset == old(self).offset && (old(self).offset >= old(self).chars.len()
                || old(self).chars@[old(self).offset as int] != c),
    {
        if self.offset < self.chars.len() && self.chars[self.offset] == c {
            self.offset += 1;
            proof {
                lemma_frames_same(self, old(self));
            }
            true
        } else {
            false
        }
    }

    /// The token that starts with `<`, which was consumed at `start`.
    fn less_than(&mut self, start: usize) -> (r: SyntaxKind)
        requires
            old(self).wf(),
            old(self).offset == start + 1,
            old(self).chars@[start as int] == '<',
        ensures
            final(self).offset == start + op_len(old(self).chars@, start as int),
            r == K::TOKEN_IMPLIES_BI || r == K::TOKEN_IMPLIES_L || r == K::TOKEN_LE || r == K::TOKEN_NEQ
                || r == K::TOKEN_START_GROUPEXPR || r == K::TOKEN_LT,
            final(self).frames() == if r == K::TOKEN_START_GROUPEXPR {
                old(self).frames().push(Frame::GroupExpr)
            } else {
                old(self).frames()
            },
            final(self).tables_kept(old(self)),
            (r == K::TOKEN_LT || r == K::TOKEN_START_GROUPEXPR) ==> (r == K::TOKEN_START_GROUPEXPR <==> (
            next_ident(old(self).text(), final(self).offset as int) matches Some(w)
                && old(self).group_names().contains(w))),
            (r == K::TOKEN_LT || r == K::TOKEN_START_GROUPEXPR) ==> final(self).offset == old(self).offset,
            r != K::TOKEN_WHITESPACE && r != K::TOKEN_COMMENT,
            final(self).stepped(old(self)),
            lexeme_fits(r, final(self).sub(start as int, final(self).offset as int)),
    {
        let ghost one = self.sub(start as int, start + 1);
        assert(one == seq!['<']);
        if self.bump_if('-') {
            if self.bump_if('>') {
                assert(self.sub(start as int, start + 3) =~= seq!['<', '-', '>']);
                K::TOKEN_IMPLIES_BI
            } else {
                assert(self.sub(start as int, start + 2) =~= seq!['<', '-']);
                K::TOKEN_IMPLIES_L
            }
        } else if self.bump_if('=') {
            assert(self.sub(start as int, start + 2) =~= seq!['<', '=']);
            K::TOKEN_LE
        } else if self.bump_if('>') {
            assert(self.sub(start as int, start + 2) =~= seq!['<', '>']);
            K::TOKEN_NEQ
        } else {
            assert(self.group_names() =~= old(self).group_names());
            if self.group_follows() {
                self.push_ctx(Context::GroupExpr);
                K::TOKEN_START_GROUPEXPR
            } else {
                K::TOKEN_LT
            }
        }
    }

    /// A token that is not whitespace, a comment or decided by the context
    /// alone.
    fn symbol(&mut self) -> (r: SyntaxKind)
        requires
            !old(self).after_end(),
            old(self).ctx.len() > 0,
            !old(self).after_agent(),
            old(self).wf(),
            old(self).offset < old(self).chars.len(),
            !spec_is_whitespace(old(self).chars@[old(self).offset as int]),
        ensures
            '0' <= old(self).chars@[old(self).offset as int] <= '9' ==> r == K::TOKEN_INT_LITERAL,
            spec_is_var_start(old(self).chars@[old(self).offset as int]) ==> final(self).offset == ident_end(old(self).chars@, old(self).offset as int),
            keeps_symbols(old(self).chars@, old(self).offset as int, final(self).offset as int, r),
            r == K::TOKEN_INT_LITERAL ==> ends_number(final(self).chars@, final(self).offset as int),
            final(self).sub(old(self).offset as int, final(self).offset as int) == "end"@ ==> r == end_kind(old(self).frames().last()),
            keeps_punct(old(self).frames().last(), final(self).sub(old(self).offset as int, final(self).offset as int), r),
            final(self).frames() == next_frames(old(self).frames(), r, final(self).sub(old(self).offset as int, final(self).offset as int), next_char(old(self).chars@, final(self).offset as int)),
            tables_follow(
                old(self),
                final(self),
                final(self).sub(old(self).offset as int, final(self).offset as int),
            ),
            is_ident(final(self).sub(old(self).offset as int, final(self).offset as int)) ==> keeps_keyword(
                final(self).sub(old(self).offset as int, final(self).offset as int),
                r,
            ),
            is_ident(final(self).sub(old(self).offset as int, final(self).offset as int)) ==> names_kept(
                old(self),
                final(self).sub(old(self).offset as int, final(self).offset as int),
                final(self).offset as int,
                r,
            ),
            is_ident(final(self).sub(old(self).offset as int, final(self).offset as int)) ==> ends_word(
                final(self).chars@,
                final(self).offset as int,
            ),
            r != K::TOKEN_WHITESPACE && r != K::TOKEN_COMMENT,
            (r == K::TOKEN_LT || r == K::TOKEN_START_GROUPEXPR) ==> (r == K::TOKEN_START_GROUPEXPR <==> (
            next_ident(old(self).text(), final(self).offset as int) matches Some(w)
                && old(self).group_names().contains(w))),
            final(self).stepped(old(self)),
            final(self).offset > old(self).offset,
            lexeme_fits(r, final(self).sub(old(self).offset as int, final(self).offset as int)),
    {
        let ghost start = self.offset as int;
        let r = self.symbol_kind();
        proof {
            assert(self.sub(start, self.offset as int)[0] == self.chars@[start]);
            reveal_strlit("end");
        }
        r
    }

    fn symbol_kind(&mut self) -> (r: SyntaxKind)
        requires
            !old(self).after_end(),
            old(self).ctx.len() > 0,
            !old(self).after_agent(),
            old(self).wf(),
            old(self).offset < old(self).chars.len(),
            !spec_is_whitespace(old(self).chars@[old(self).offset as int]),
        ensures
            '0' <= old(self).chars@[old(self).offset as int] <= '9' ==> r == K::TOKEN_INT_LITERAL,
            spec_is_var_start(old(self).chars@[old(self).offset as int]) ==> final(self).offset == ident_end(old(self).chars@, old(self).offset as int),
            keeps_symbols(old(self).chars@, old(self).offset as int, final(self).offset as int, r),
            r == K::TOKEN_INT_LITERAL ==> ends_number(final(self).chars@, final(self).offset as int),
            spec_is_var_start(old(self).chars@[old(self).offset as int]) && final(self).sub(old(self).offset as int, final(self).offset as int) == "end"@ ==> r
                == end_kind(old(self).frames().last()),
            keeps_punct(old(self).frames().last(), final(self).sub(old(self).offset as int, final(self).offset as int), r),
            spec_is_var_start(old(self).chars@[old(self).offset as int]) ==> final(self).frames()
                == next_frames(old(self).frames(), r, final(self).sub(old(self).offset as int, final(self).offset as int), next_char(old(self).chars@, final(self).offset as int)),
            !spec_is_var_start(old(self).chars@[old(self).offset as int]) && !is_ident(final(self).sub(old(self).offset as int, final(self).offset as int))
                ==> final(self).frames() == next_frames(old(self).frames(), r, final(self).sub(old(self).offset as int, final(self).offset as int), next_char(old(self).chars@, final(self).offset as int)),
            spec_is_var_start(old(self).chars@[old(self).offset as int]) ==> tables_follow(
                old(self),
                final(self),
                final(self).sub(old(self).offset as int, final(self).offset as int),
            ),
            !spec_is_var_start(old(self).chars@[old(self).offset as int]) ==> final(self).tables_kept(old(self)),
            spec_is_var_start(old(self).chars@[old(self).offset as int]) ==> ends_word(
                final(self).chars@,
                final(self).offset as int,
            ),
            spec_is_var_start(old(self).chars@[old(self).offset as int]) ==> keeps_keyword(
                final(self).sub(old(self).offset as int, final(self).offset as int),
                r,
            ),
            spec_is_var_start(old(self).chars@[old(self).offset as int]) ==> names_kept(
                old(self),
                final(self).sub(old(self).offset as int, final(self).offset as int),
                final(self).offset as int,
                r,
            ),
            r != K::TOKEN_WHITESPACE && r != K::TOKEN_COMMENT,
            (r == K::TOKEN_LT || r == K::TOKEN_START_GROUPEXPR) ==> (r == K::TOKEN_START_GROUPEXPR <==> (
            next_ident(old(self).text(), final(self).offset as int) matches Some(w)
                && old(self).group_names().contains(w))),
            final(self).stepped(old(self)),
            final(self).offset > old(self).offset,
            lexeme_fits(r, final(self).sub(old(self).offset as int, final(self).offset as int)),
    {
        let start = self.offset;
        let c = self.chars[start];
        self.offset = start + 1;
        proof {
            lemma_frames_same(self, old(self));
            assert(self.frames().len() > 0);
            assert(self.frames().last() == frame_of(self.ctx@.last(), self.chars@));
            assert(self.frames().last() != Frame::AgentDef);
            assert(self.frames().last() != Frame::BlockEnded);
            match self.ctx@.last() {
                Context::OuterBlock(o) => lemma_outer_word_groups(o),
                _ => {},
            }
        }
        let ghost one = self.sub(start as int, start + 1);
        assert(one == seq![c]);
        match c {
            '.' => {
                if self.bump_if('.') {
                    assert(self.sub(start as int, start + 2) =~= seq!['.', '.']);
                    K::TOKEN_DOUBLEDOT
                } else {
                    K::TOKEN_DOT
                }
            },
            '&' => K::TOKEN_BITAND,
            '|' => K::TOKEN_BITOR,
            '~' => K::TOKEN_BITNOT,
            '^' => K::TOKEN_BITXOR,
            '(' => K::TOKEN_L_PAREN,
            ')' => K::TOKEN_R_PAREN,
            '{' => match self.top() {
                Some(Context::OuterBlock(Outer::Groups)) => {
                    self.push_ctx(Context::GroupDef);
                    K::TOKEN_GROUP_OPENCURLY
                },
                Some(Context::InnerBlock(_, _)) => {
                    self.push_ctx(Context::EnumDef);
                    K::TOKEN_ENUM_OPENCURLY
                },
                _ => {
                    self.push_ctx(Context::SetDef);
                    K::TOKEN_SET_OPENCURLY
                },
            },
            '}' => match self.top() {
                Some(Context::GroupDef) => {
                    self.pop_ctx();
                    K::TOKEN_GROUP_CLOSECURLY
                },
                Some(Context::EnumDef) => {
                    self.pop_ctx();
                    K::TOKEN_ENUM_CLOSECURLY
                },
                Some(Context::SetDef) => {
                    self.pop_ctx();
                    K::TOKEN_SET_CLOSECURLY
                },
                _ => K::TOKEN_ERROR,
            },
            ':' => {
                if self.top() == Some(Context::InnerBlockBegin) {
                    self.pop_ctx();
                    K::TOKEN_BEGIN_INNER_BLOCK
                } else {
                    K::TOKEN_COLON
                }
            },
            ';' => K::TOKEN_SEMICOLON,
            ',' => K::TOKEN_COMMA,
            '!' => K::TOKEN_NEG,
            '<' => {
                assert(self.group_names() =~= old(self).group_names());
                self.less_than(start)
            },
            '>' => {
                if self.bump_if('=') {
                    assert(self.sub(start as int, start + 2) =~= seq!['>', '=']);
                    K::TOKEN_GE
                } else if self.top() == Some(Context::GroupExpr) {
                    self.pop_ctx();
                    K::TOKEN_END_GROUPEXPR
                } else {
                    K::TOKEN_GT
                }
            },
            '-' => {
                if self.bump_if('>') {
                    assert(self.sub(start as int, start + 2) =~= seq!['-', '>']);
                    K::TOKEN_IMPLIES_R
                } else {
                    K::TOKEN_MINUS
                }
            },
            '+' => K::TOKEN_PLUS,
            '*' => K::TOKEN_TIMES,
            '/' => K::TOKEN_DEVIDE,
            '=' => {
                match self.top() {
                    Some(Context::OuterBlock(Outer::Groups)) => K::TOKEN_GROUPS_ASSIGN,
                    Some(Context::InnerBlockAssign) => {
                        self.pop_ctx();
                        K::TOKEN_INNER_BLOCK_ASSIGN
                    },
                    _ => K::TOKEN_EQ,
                }
            },
            '0'..='9' => {
                while self.offset < self.chars.len() && '0' <= self.chars[self.offset]
                    && self.chars[self.offset] <= '9'
                    invariant
                        self.stepped(old(self)),
                        self.tables_kept(old(self)),
                        self.ctx == old(self).ctx,
                        start == old(self).offset,
                        start < self.offset,
                        forall|j: int| start <= j < self.offset ==> '0' <= #[trigger] self.chars@[j] <= '9',
                    decreases self.chars.len() - self.offset,
                {
                    self.offset += 1;
                }
                proof {
                    lemma_frames_same(self, old(self));
                }
                assert forall|i: int| 0 <= i < self.offset - start implies '0' <= #[trigger] self.sub(start as int, self.offset as int)[i] <= '9' by {
                    assert(self.sub(start as int, self.offset as int)[i] == self.chars@[start + i]);
                }
                K::TOKEN_INT_LITERAL
            },
            _ => {
                if is_valid_start_var_char(c) {
                    let ghost before = *self;
                    let r = self.word(start);
                    proof {
                        lemma_name_kind_same(
                            &before,
                            old(self),
                            self.sub(start as int, self.offset as int),
                            next_char(self.chars@, self.offset as int),
                        );
                    }
                    r
                } else {
                    K::TOKEN_ERROR
                }
            },
        }
    }

    fn next_inner(&mut self) -> (r: Option<SyntaxKind>)
        requires
            old(self).wf(),
        ensures
            match r {
                Some(k) => (k == K::TOKEN_LT || k == K::TOKEN_START_GROUPEXPR) ==> (k
                    == K::TOKEN_START_GROUPEXPR <==> (next_ident(
                    old(self).text(),
                    final(self).offset as int,
                ) matches Some(w) && old(self).group_names().contains(w))),
                None => true,
            },
            final(self).stepped(old(self)),
            match r {
                None => old(self).offset == old(self).chars.len() && final(self).offset == old(self).offset,
                Some(k) => {
                    let t = old(self).chars@;
                    let p = old(self).offset as int;
                    let q = final(self).offset as int;
                    &&& p < q
                    &&& lexeme_fits(k, final(self).sub(p, q))
                    &&& (spec_is_whitespace(t[p]) <==> k == K::TOKEN_WHITESPACE)
                    &&& k == K::TOKEN_WHITESPACE ==> q == skip_ws_from(t, p)
                    &&& (starts_comment(t, p) <==> k == K::TOKEN_COMMENT)
                    &&& k == K::TOKEN_COMMENT ==> q == line_end(t, p)
                    &&& is_ident(final(self).sub(p, q)) ==> ends_word(t, q)
                    &&& k == K::TOKEN_INT_LITERAL ==> ends_number(t, q)
                    &&& (old(self).at_top_level() || old(self).after_agent() || old(self).after_end())
                        && !spec_is_whitespace(t[p]) && !starts_comment(t, p) && !spec_is_var_start(t[p])
                        ==> q == line_end(t, p) && k == old(self).recovery_kind()
                    &&& old(self).at_top_level() && spec_is_var_start(t[p]) ==> q == top_word_end(t, p) && k
                        == top_word_kind(t, p)
                    &&& !old(self).at_top_level() && spec_is_var_start(t[p]) ==> q == ident_end(t, p)
                    &&& old(self).ctx_nonempty() && !old(self).after_agent() && !old(self).after_end()
                        && '0' <= t[p] <= '9' ==> k == K::TOKEN_INT_LITERAL
                    &&& old(self).at_top_level() && is_ident(final(self).sub(p, q)) ==> k
                        == top_level_kind(final(self).sub(p, q))
                    &&& old(self).after_agent() && is_ident(final(self).sub(p, q)) ==> k == agent_kind(
                        final(self).sub(p, q),
                    )
                    &&& old(self).after_end() && is_ident(final(self).sub(p, q)) ==> k == close_kind(
                        old(self).closing(),
                        final(self).sub(p, q),
                    )
                    &&& !old(self).at_top_level() && !old(self).after_agent() && !old(self).after_end()
                        && is_ident(final(self).sub(p, q)) ==> keeps_keyword(final(self).sub(p, q), k)
                    &&& !old(self).at_top_level() && !old(self).after_agent() && !old(self).after_end()
                        && is_ident(final(self).sub(p, q)) ==> names_kept(old(self), final(self).sub(p, q), q, k)
                    &&& tables_follow(old(self), final(self), final(self).sub(p, q))
                    &&& final(self).frames() == next_frames(old(self).frames(), k, final(self).sub(p, q), next_char(t, q))
                    &&& old(self).ctx_nonempty() && !old(self).after_agent() && !old(self).after_end()
                        ==> keeps_punct(old(self).frames().last(), final(self).sub(p, q), k)
                    &&& old(self).ctx_nonempty() && !old(self).after_agent() && !old(self).after_end()
                        && !spec_is_whitespace(t[p]) && !starts_comment(t, p) ==> keeps_symbols(t, p, q, k)
                    &&& old(self).ctx_nonempty() && !old(self).after_agent() && !old(self).after_end()
                        && final(self).sub(p, q) == "end"@ ==> k == end_kind(old(self).frames().last())
                },
            },
    {
        let start = self.offset;
        if start >= self.chars.len() {
            return None;
        }
        let e = self.skip_ws(start);
        if e > start {
            self.offset = e;
            proof {
                lemma_frames_same(self, old(self));
                lemma_skip_ws_from(self.chars@, start as int, e as int);
                reveal_strlit("end");
                assert(self.sub(start as int, e as int)[0] == self.chars@[start as int]);
            }
            assert forall|i: int| 0 <= i < e - start implies spec_is_whitespace(
                #[trigger] self.sub(start as int, e as int)[i],
            ) by {
                assert(self.sub(start as int, e as int)[i] == self.chars@[start + i]);
            }
            return Some(K::TOKEN_WHITESPACE);
        }
        if start + 1 < self.chars.len() && self.chars[start] == '-' && self.chars[start + 1] == '-' {
            self.offset = start + 2;
            self.consume_line();
            proof {
                lemma_frames_same(self, old(self));
                lemma_line_end(self.chars@, start as int, self.offset as int);
                reveal_strlit("end");
                assert(self.sub(start as int, self.offset as int)[0] == '-');
            }
            assert forall|i: int| 0 <= i < self.offset - start implies #[trigger] self.sub(
                start as int,
                self.offset as int,
            )[i] != '\n' by {
                assert(self.sub(start as int, self.offset as int)[i] == self.chars@[start + i]);
            }
            return Some(K::TOKEN_COMMENT);
        }
        proof {
            if self.ctx.len() > 0 {
                assert(self.frames().last() == frame_of(self.ctx@.last(), self.chars@));
            }
        }
        match self.top() {
            Some(Context::AgentDef) => Some(self.agent_def()),
            Some(Context::BlockEnded) => Some(self.block_ended()),
            None => Some(self.top_level()),
            _ => Some(self.symbol()),
        }
    }

    /// The next token and its text, or `None` at the end of the input; see
    /// `steps_to` for what it is.
    pub fn next(&mut self) -> (r: Option<Token<'a>>)
        requires
            old(self).wf(),
        ensures
            steps_to(old(self), final(self), r),
    {
        let start = self.offset;
        match self.next_inner() {
            None => None,
            Some(kind) => Some((kind, self.input.substring_char(start, self.offset))),
        }
    }
}

/// One step of a tokenizer: from `a`, reading the token `r` (or nothing, at
/// the end of the input), leads to `b`. Whitespace, comments, words and
/// numbers take their whole run, and an operator its longest spelling; at
/// the top level, after `Agent` and after `end`, a line that does not start
/// with a word is one error token. A word gets its kind from the keywords,
/// the enclosing blocks (`frames`) and the names declared so far; `<` opens
/// a group expression exactly when a declared group follows. The stack of
/// blocks and the tables of names change as `next_frames` and
/// `tables_follow` say.
pub open spec fn steps_to<'a>(a: &Tokenizer<'a>, b: &Tokenizer<'a>, r: Option<Token<'a>>) -> bool {
    &&& b.wf()
    &&& b.text() == a.text()
    &&& match r {
        None => a.pos() == a.text().len() && b.pos() == a.pos(),
        Some(t) => {
            &&& a.pos() < b.pos() <= b.text().len()
            &&& t.1@ == a.text().subrange(a.pos() as int, b.pos() as int)
            &&& token_fits(a.text(), a.pos() as int, b.pos() as int, t.0)
            &&& (a.at_top_level() || a.after_agent() || a.after_end())
                && !spec_is_whitespace(a.text()[a.pos() as int]) && !starts_comment(
                a.text(),
                a.pos() as int,
            ) && !spec_is_var_start(a.text()[a.pos() as int]) ==> b.pos()
                == line_end(a.text(), a.pos() as int) && t.0 == a.recovery_kind()
            &&& a.at_top_level() && spec_is_var_start(a.text()[a.pos() as int])
                ==> b.pos() == top_word_end(a.text(), a.pos() as int) && t.0
                == top_word_kind(a.text(), a.pos() as int)
            &&& !a.at_top_level() && spec_is_var_start(a.text()[a.pos() as int])
                ==> b.pos() == ident_end(a.text(), a.pos() as int)
            &&& a.ctx_nonempty() && !a.after_agent() && !a.after_end()
                && '0' <= a.text()[a.pos() as int] <= '9' ==> t.0 == K::TOKEN_INT_LITERAL
            &&& a.at_top_level() && is_ident(t.1@) ==> t.0 == top_level_kind(t.1@)
            &&& a.after_agent() && is_ident(t.1@) ==> t.0 == agent_kind(t.1@)
            &&& a.after_end() && is_ident(t.1@) ==> t.0 == close_kind(a.closing(), t.1@)
            &&& !a.at_top_level() && !a.after_agent() && !a.after_end()
                && is_ident(t.1@) ==> keeps_keyword(t.1@, t.0)
            &&& !a.at_top_level() && !a.after_agent() && !a.after_end()
                && is_ident(t.1@) ==> names_kept(a, t.1@, b.pos() as int, t.0)
            &&& tables_follow(a, b, t.1@)
            &&& b.frames() == next_frames(
                a.frames(),
                t.0,
                t.1@,
                next_char(a.text(), b.pos() as int),
            )
            &&& a.ctx_nonempty() && !a.after_agent() && !a.after_end()
                ==> keeps_punct(a.frames().last(), t.1@, t.0)
            &&& a.ctx_nonempty() && !a.after_agent() && !a.after_end()
                && !spec_is_whitespace(a.text()[a.pos() as int]) && !starts_comment(
                a.text(),
                a.pos() as int,
            ) ==> keeps_symbols(a.text(), a.pos() as int, b.pos() as int, t.0)
            &&& a.ctx_nonempty() && !a.after_agent() && !a.after_end()
                && t.1@ == "end"@ ==> t.0 == end_kind(a.frames().last())
            &&& (t.0 == K::TOKEN_LT || t.0 == K::TOKEN_START_GROUPEXPR) ==> (t.0
                == K::TOKEN_START_GROUPEXPR <==> (next_ident(a.text(), b.pos() as int) matches Some(w)
                && a.group_names().contains(w)))
        },
    }
}

/// Whether `r`, the kind of a token over the word `w` that ends at `q`, is
/// the kind that the context of `t` gives a name: where `w` is neither a
/// keyword nor `end`, `r` is what `name_kind` says.
pub open spec fn names_kept(t: &Tokenizer, w: Seq<char>, q: int, r: SyntaxKind) -> bool {
    t.ctx_nonempty() && keyword_kind(w) is None && w != "end"@ ==> r == t.name_kind(
        w,
        next_char(t.text(), q),
    )
}

/// Recording a span adds its word to the words of a table.
proof fn lemma_names_push(table: Seq<(usize, usize)>, t: Seq<char>, s: usize, e: usize)
    ensures
        names_in(table.push((s, e)), t) == names_in(table, t).insert(t.subrange(s as int, e as int)),
{
    let big = table.push((s, e));
    assert forall|w: Seq<char>| names_in(big, t).contains(w) implies names_in(table, t).insert(
        t.subrange(s as int, e as int),
    ).contains(w) by {
        let k = choose|k: int|
            0 <= k < big.len() && #[trigger] t.subrange(big[k].0 as int, big[k].1 as int) == w;
        if k < table.len() {
            assert(big[k] == table[k]);
        }
    }
    assert forall|w: Seq<char>| names_in(table, t).insert(t.subrange(s as int, e as int)).contains(
        w,
    ) implies names_in(big, t).contains(w) by {
        if w == t.subrange(s as int, e as int) {
            assert(big[table.len() as int] == (s, e));
            assert(t.subrange(big[table.len() as int].0 as int, big[table.len() as int].1 as int) == w);
        } else {
            let k = choose|k: int|
                0 <= k < table.len() && #[trigger] t.subrange(table[k].0 as int, table[k].1 as int)
                    == w;
            assert(big[k] == table[k]);
            assert(t.subrange(big[k].0 as int, big[k].1 as int) == w);
        }
    }
    assert(names_in(big, t) =~= names_in(table, t).insert(t.subrange(s as int, e as int)));
}

/// Whether the tables of names of `new` are those of `old`, with `w`, the
/// text of the token read between them, added where it declares a name: a
/// name in an enum definition is an enum literal, a name in the `Groups`
/// block a group, and the word after `Agent` an agent.
pub open spec fn tables_follow(old: &Tokenizer, new: &Tokenizer, w: Seq<char>) -> bool {
    let named = is_ident(w) && keyword_kind(w) is None && w != "end"@;
    &&& new.enum_literals() == if old.in_enum_def() && named {
        old.enum_literals().insert(w)
    } else {
        old.enum_literals()
    }
    &&& new.group_names() == if old.in_groups_block() && named {
        old.group_names().insert(w)
    } else {
        old.group_names()
    }
    &&& new.agent_names() == if old.after_agent() && is_ident(w) {
        old.agent_names().insert(w)
    } else {
        old.agent_names()
    }
}

/// `Semantics` opens no block.
proof fn lemma_semantics_opens_no_block()
    ensures
        top_level_kind("Semantics"@) == K::TOKEN_ERR_UNEXPECTED_TOPLEVEL,
        "Semantics"@ != "Agent"@,
        "Semantics"@ != "Evaluation"@,
        "Semantics"@ != "InitStates"@,
        "Semantics"@ != "Groups"@,
        "Semantics"@ != "Fairness"@,
        "Semantics"@ != "Formulae"@,
{
    reveal_strlit("Semantics");
    reveal_strlit("Agent");
    assert("Semantics"@.len() != "Agent"@.len());
    reveal_strlit("Evaluation");
    assert("Semantics"@.len() != "Evaluation"@.len());
    reveal_strlit("InitStates");
    assert("Semantics"@.len() != "InitStates"@.len());
    reveal_strlit("Groups");
    assert("Semantics"@.len() != "Groups"@.len());
    reveal_strlit("Fairness");
    assert("Semantics"@.len() != "Fairness"@.len());
    reveal_strlit("Formulae");
    assert("Semantics"@.len() != "Formulae"@.len());
}

/// `end` is not a keyword of formulas.
proof fn lemma_end_not_keyword()
    ensures
        keyword_kind("end"@) is None,
{
    reveal_strlit("end");
    reveal_strlit("AG");
    reveal_strlit("EG");
    reveal_strlit("AX");
    reveal_strlit("EX");
    reveal_strlit("X");
    reveal_strlit("F");
    reveal_strlit("G");
    reveal_strlit("AF");
    reveal_strlit("EF");
    reveal_strlit("A");
    reveal_strlit("E");
    reveal_strlit("U");
    reveal_strlit("K");
    reveal_strlit("GK");
    reveal_strlit("GCK");
    reveal_strlit("O");
    reveal_strlit("DK");
    reveal_strlit("and");
    reveal_strlit("or");
    reveal_strlit("if");
    reveal_strlit("true");
    reveal_strlit("false");
    reveal_strlit("boolean");
    assert("end"@.len() != "AG"@.len());
    assert("end"@.len() != "EG"@.len());
    assert("end"@.len() != "AX"@.len());
    assert("end"@.len() != "EX"@.len());
    assert("end"@.len() != "X"@.len());
    assert("end"@.len() != "F"@.len());
    assert("end"@.len() != "G"@.len());
    assert("end"@.len() != "AF"@.len());
    assert("end"@.len() != "EF"@.len());
    assert("end"@.len() != "A"@.len());
    assert("end"@.len() != "E"@.len());
    assert("end"@.len() != "U"@.len());
    assert("end"@.len() != "K"@.len());
    assert("end"@.len() != "GK"@.len());
    assert("end"@[0] != "GCK"@[0]);
    assert("end"@.len() != "O"@.len());
    assert("end"@.len() != "DK"@.len());
    assert("end"@[0] != "and"@[0]);
    assert("end"@.len() != "or"@.len());
    assert("end"@.len() != "if"@.len());
    assert("end"@.len() != "true"@.len());
    assert("end"@.len() != "false"@.len());
    assert("end"@.len() != "boolean"@.len());
}

/// Classifying a name depends on the text, the context and the tables of
/// names only.
proof fn lemma_name_kind_same(a: &Tokenizer, b: &Tokenizer, w: Seq<char>, next: Option<char>)
    requires
        a.chars@ == b.chars@,
        a.ctx@ == b.ctx@,
        a.enumliterals@ == b.enumliterals@,
        a.agentnames@ == b.agentnames@,
        a.groupnames@ == b.groupnames@,
    ensures
        a.name_kind(w, next) == b.name_kind(w, next),
{
    assert(a.enum_literals() =~= b.enum_literals());
    assert(a.agent_names() =~= b.agent_names());
    assert(a.group_names() =~= b.group_names());
}

/// The keyword that opens and closes an outer block.
spec fn outer_word(o: Outer) -> Seq<char> {
    match o {
        Outer::Evaluation => "Evaluation"@,
        Outer::InitStates => "InitStates"@,
        Outer::Groups => "Groups"@,
        Outer::Fairness => "Fairness"@,
        Outer::Formulae => "Formulae"@,
    }
}

spec fn frame_of(c: Context, t: Seq<char>) -> Frame {
    match c {
        Context::AgentDef => Frame::AgentDef,
        Context::AgentBlock(env) => Frame::AgentBlock(env),
        Context::OuterBlock(o) => Frame::OuterBlock(outer_word(o)),
        Context::InnerBlock(s, e) => Frame::InnerBlock(t.subrange(s as int, e as int)),
        Context::InnerBlockAssign => Frame::InnerBlockAssign,
        Context::InnerBlockBegin => Frame::InnerBlockBegin,
        Context::BlockEnded => Frame::BlockEnded,
        Context::EnumDef => Frame::EnumDef,
        Context::GroupDef => Frame::GroupDef,
        Context::SetDef => Frame::SetDef,
        Context::GroupExpr => Frame::GroupExpr,
    }
}

/// The context stack depends on the frames and the text only.
proof fn lemma_frames_same(a: &Tokenizer, b: &Tokenizer)
    requires
        a.ctx@ == b.ctx@,
        a.chars@ == b.chars@,
    ensures
        a.frames() == b.frames(),
{
    assert(a.frames() =~= b.frames());
}

/// Only the `Groups` block is named `Groups`.
proof fn lemma_outer_word_groups(o: Outer)
    ensures
        (outer_word(o) == "Groups"@) == (o == Outer::Groups),
{
    reveal_strlit("Groups");
    reveal_strlit("Evaluation");
    reveal_strlit("InitStates");
    reveal_strlit("Fairness");
    reveal_strlit("Formulae");
    if o != Outer::Groups {
        assert(outer_word(o).len() != "Groups"@.len());
    }
}

fn outer_name(o: Outer) -> (r: &'static str)
    ensures
        r@ == outer_word(o),
{
    match o {
        Outer::Evaluation => "Evaluation",
        Outer::InitStates => "InitStates",
        Outer::Groups => "Groups",
        Outer::Fairness => "Fairness",
        Outer::Formulae => "Formulae",
    }
}

/// The text of the tokens, one after the other.
pub open spec fn concat_lexemes(toks: Seq<Token>) -> Seq<char>
    decreases toks.len(),
{
    if toks.len() == 0 {
        Seq::empty()
    } else {
        concat_lexemes(toks.drop_last()) + toks.last().1@
    }
}

/// The next token of `t`, with what `tokenize` needs to know of it.
fn next_fitting<'a>(t: &mut Tokenizer<'a>) -> (r: Option<Token<'a>>)
    requires
        old(t).wf(),
    ensures
        final(t).wf(),
        final(t).text() == old(t).text(),
        match r {
            None => old(t).pos() == old(t).text().len() && final(t).pos() == old(t).pos(),
            Some(tok) => {
                &&& old(t).pos() < final(t).pos() <= final(t).text().len()
                &&& tok.1@ == old(t).text().subrange(old(t).pos() as int, final(t).pos() as int)
                &&& token_fits(old(t).text(), old(t).pos() as int, final(t).pos() as int, tok.0)
            },
        },
        stepped_by(*old(t), *final(t), r),
{
    let r = t.next();
    proof {
        reveal(stepped_by);
    }
    r
}

/// `steps_to`, kept folded while `tokenize` loops.
#[verifier::opaque]
spec fn stepped_by<'a>(a: Tokenizer<'a>, b: Tokenizer<'a>, r: Option<Token<'a>>) -> bool {
    steps_to(&a, &b, r)
}

/// `reads_through`, with its steps folded.
spec fn read_by<'a>(text: Seq<char>, states: Seq<Tokenizer<'a>>, toks: Seq<Token<'a>>) -> bool {
    &&& states.len() == toks.len() + 1
    &&& starts_on(&states[0], text)
    &&& forall|i: int| 0 <= i < toks.len() ==> stepped_by(states[i], states[i + 1], Some(#[trigger] toks[i]))
}

proof fn lemma_read_by_unfolds<'a>(text: Seq<char>, states: Seq<Tokenizer<'a>>, toks: Seq<Token<'a>>)
    requires
        read_by(text, states, toks),
    ensures
        reads_through(text, states, toks),
{
    reveal(stepped_by);
    assert forall|i: int| 0 <= i < toks.len() implies steps_to(&states[i], &states[i + 1], Some(#[trigger] toks[i])) by {
        assert(stepped_by(states[i], states[i + 1], Some(toks[i])));
    }
}

/// Whether `t` is a tokenizer that has read nothing of `text` yet.
pub open spec fn starts_on<'a>(t: &Tokenizer<'a>, text: Seq<char>) -> bool {
    &&& t.wf()
    &&& t.text() == text
    &&& t.pos() == 0
    &&& t.frames() == Seq::<Frame>::empty()
    &&& t.enum_literals() == Set::<Seq<char>>::empty()
    &&& t.group_names() == Set::<Seq<char>>::empty()
    &&& t.agent_names() == Set::<Seq<char>>::empty()
}

/// Whether a tokenizer that starts on `text` goes through `states` while it
/// reads the tokens `toks`, one step per token.
pub open spec fn reads_through<'a>(
    text: Seq<char>,
    states: Seq<Tokenizer<'a>>,
    toks: Seq<Token<'a>>,
) -> bool {
    &&& states.len() == toks.len() + 1
    &&& starts_on(&states[0], text)
    &&& forall|i: int|
        0 <= i < toks.len() ==> steps_to(&states[i], &states[i + 1], Some(#[trigger] toks[i]))
}

/// Reading one more token extends the run of states by the state it leads to.
proof fn lemma_reads_push<'a>(
    text: Seq<char>,
    states: Seq<Tokenizer<'a>>,
    toks: Seq<Token<'a>>,
    next: Tokenizer<'a>,
    tok: Token<'a>,
)
    requires
        read_by(text, states, toks),
        stepped_by(states.last(), next, Some(tok)),
    ensures
        read_by(text, states.push(next), toks.push(tok)),
{
    let s2 = states.push(next);
    let t2 = toks.push(tok);
    assert forall|i: int| 0 <= i < t2.len() implies stepped_by(s2[i], s2[i + 1], Some(#[trigger] t2[i])) by {
        if i < toks.len() {
            assert(s2[i] == states[i] && s2[i + 1] == states[i + 1] && t2[i] == toks[i]);
        } else {
            assert(s2[i] == states.last() && s2[i + 1] == next && t2[i] == tok);
        }
    }
}

/// Where token `i` of `toks` starts in the text.
pub open spec fn token_start(toks: Seq<Token>, i: int) -> int {
    concat_lexemes(toks.take(i)).len() as int
}

/// Appending a token that fits where the others end keeps every token
/// fitting its place.
proof fn lemma_push_token(before: Seq<Token>, tok: Token, text: Seq<char>)
    requires
        forall|i: int|
            0 <= i < before.len() ==> token_fits(
                text,
                token_start(before, i),
                token_start(before, i) + (#[trigger] before[i]).1@.len(),
                before[i].0,
            ),
        token_fits(
            text,
            concat_lexemes(before).len() as int,
            (concat_lexemes(before).len() + tok.1@.len()) as int,
            tok.0,
        ),
    ensures
        forall|i: int|
            0 <= i < before.len() + 1 ==> token_fits(
                text,
                token_start(before.push(tok), i),
                token_start(before.push(tok), i) + (#[trigger] before.push(tok)[i]).1@.len(),
                before.push(tok)[i].0,
            ),
{
    let out = before.push(tok);
    assert forall|i: int| 0 <= i < out.len() implies token_fits(
        text,
        token_start(out, i),
        token_start(out, i) + (#[trigger] out[i]).1@.len(),
        out[i].0,
    ) by {
        if i == before.len() {
            assert(out.take(i) =~= before);
        } else {
            assert(out.take(i) =~= before.take(i));
            assert(out[i] == before[i]);
        }
    }
}

/// Splits `input` into tokens. The texts of the tokens, in order, make up
/// the input exactly; no token is empty, and each token fits its kind and
/// its place in the input. The tokens are those that a tokenizer started on
/// the input reads one after the other, each as `steps_to` says, until it
/// has read the whole input.
#[verifier::rlimit(60)]
pub fn tokenize<'a>(input: &'a str) -> (r: Vec<Token<'a>>)
    ensures
        exists|states: Seq<Tokenizer<'a>>|
            #[trigger] reads_through(input@, states, r@) && states.last().pos() == input@.len(),
        concat_lexemes(r@) == input@,
        forall|i: int| 0 <= i < r.len() ==> (#[trigger] r@[i]).1@.len() > 0 && lexeme_fits(r@[i].0, r@[i].1@),
        forall|i: int|
            0 <= i < r.len() ==> token_fits(
                input@,
                token_start(r@, i),
                token_start(r@, i) + (#[trigger] r@[i]).1@.len(),
                r@[i].0,
            ),
{
    let mut t = Tokenizer::new(input);
    let ghost text = input@;
    let ghost mut states: Seq<Tokenizer<'a>> = seq![t];
    let mut out: Vec<Token<'a>> = Vec::new();
    loop
        invariant_except_break
            states.last() == t,
        invariant
            t.wf(),
            t.text() == input@,
            t.pos() <= input@.len(),
            concat_lexemes(out@) == input@.subrange(0, t.pos() as int),
            forall|i: int| 0 <= i < out.len() ==> (#[trigger] out@[i]).1@.len() > 0 && lexeme_fits(out@[i].0, out@[i].1@),
            text == input@,
            forall|i: int|
                0 <= i < out.len() ==> token_fits(
                    text,
                    token_start(out@, i),
                    token_start(out@, i) + (#[trigger] out@[i]).1@.len(),
                    out@[i].0,
                ),
            read_by(text, states, out@),
        ensures
            read_by(text, states, out@),
            states.last().pos() == text.len(),
            concat_lexemes(out@) == input@,
            forall|i: int| 0 <= i < out.len() ==> (#[trigger] out@[i]).1@.len() > 0 && lexeme_fits(out@[i].0, out@[i].1@),
            forall|i: int|
                0 <= i < out.len() ==> token_fits(
                    text,
                    token_start(out@, i),
                    token_start(out@, i) + (#[trigger] out@[i]).1@.len(),
                    out@[i].0,
                ),
        decreases input@.len() - t.pos(),
    {
        let ghost pos_before = t.pos();
        assert(states.last() == t);
        match next_fitting(&mut t) {
            Some(tok) => {
                let ghost before = out@;
                out.push(tok);
                assert(out@.drop_last() == before);
                assert(input@.subrange(0, t.pos() as int) =~= input@.subrange(0, pos_before as int) + tok.1@);
                proof {
                    lemma_push_token(before, tok, text);
                    lemma_reads_push(text, states, before, t, tok);
                    states = states.push(t);
                }
            },
            None => {
                assert(input@.subrange(0, t.pos() as int) =~= input@);
                break;
            },
        }
    }
    proof {
        lemma_read_by_unfolds(text, states, out@);
    }
    out
}

} // verus!
