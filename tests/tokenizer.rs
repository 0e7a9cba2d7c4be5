use minictl::ispl::tokenizer::{tokenize, Tokenizer};
use minictl::ispl::SyntaxKind;
use minictl::parser;

const GROUPS_FILE: &str = "Agent A1\nend Agent\nGroups\n  g1 = {A1};\nend Groups\nFormulae\n  <g1> X p;\nend Formulae\n";

fn kinds(input: &str) -> Vec<SyntaxKind> {
    tokenize(input).iter().map(|(k, _)| *k).collect()
}

fn significant(input: &str) -> Vec<(SyntaxKind, String)> {
    tokenize(input)
        .into_iter()
        .filter(|(k, _)| *k != SyntaxKind::TOKEN_WHITESPACE)
        .map(|(k, s)| (k, s.to_string()))
        .collect()
}

fn rebuilt(input: &str) -> String {
    tokenize(input).iter().map(|(_, s)| *s).collect()
}

#[test]
fn semantics_line_is_one_token() {
    assert_eq!(kinds("Semantics = SA;"), vec![SyntaxKind::TOKEN_SEMANTICS_SA]);
    assert_eq!(kinds("Semantics=MultiAssignment;"), vec![SyntaxKind::TOKEN_SEMANTICS_MA]);
    assert_eq!(
        kinds("Semantics = XY;"),
        vec![SyntaxKind::TOKEN_ERR_UNEXPECTED_TOPLEVEL]
    );
}

#[test]
fn group_expression_after_declared_group() {
    let toks = tokenize(GROUPS_FILE);
    let start = toks
        .iter()
        .position(|(k, _)| *k == SyntaxKind::TOKEN_START_GROUPEXPR)
        .expect("a group expression");
    let got: Vec<(SyntaxKind, &str)> = toks[start..start + 7].to_vec();
    assert_eq!(
        got,
        vec![
            (SyntaxKind::TOKEN_START_GROUPEXPR, "<"),
            (SyntaxKind::TOKEN_GROUPNAME, "g1"),
            (SyntaxKind::TOKEN_END_GROUPEXPR, ">"),
            (SyntaxKind::TOKEN_WHITESPACE, " "),
            (SyntaxKind::TOKEN_X, "X"),
            (SyntaxKind::TOKEN_WHITESPACE, " "),
            (SyntaxKind::TOKEN_VARNAME, "p"),
        ]
    );
    assert!(toks.iter().all(|(k, _)| !k.is_err()));
}

#[test]
fn less_than_between_names() {
    let toks = significant("Formulae\n  p < q;\nend Formulae\n");
    let p = toks.iter().position(|(_, s)| s == "p").expect("p");
    assert_eq!(toks[p + 1], (SyntaxKind::TOKEN_LT, "<".to_string()));
    assert_eq!(toks[p + 2], (SyntaxKind::TOKEN_VARNAME, "q".to_string()));
}

#[test]
fn less_than_before_undeclared_group() {
    let toks = significant("Formulae\n  <g> X p;\nend Formulae\n");
    assert_eq!(toks[1], (SyntaxKind::TOKEN_LT, "<".to_string()));
}

#[test]
fn end_with_wrong_name() {
    let toks = significant("Agent A\nend Foo\n");
    assert_eq!(
        toks,
        vec![
            (SyntaxKind::TOKEN_BEGIN_AGENT, "Agent".to_string()),
            (SyntaxKind::TOKEN_AGENT_NAME, "A".to_string()),
            (SyntaxKind::TOKEN_END_OUTER_BLOCK, "end".to_string()),
            (SyntaxKind::TOKEN_ERR_INVALID_CLOSE_BLOCK, "Foo".to_string()),
        ]
    );
}

#[test]
fn full_file_round_trips() {
    let input = "-- a model\nSemantics = SingleAssignment;\nAgent Environment\n  Vars:\n    s : {on, off};\n  end Vars\n  Actions = {none};\n  Protocol:\n    s = on : {none};\n  end Protocol\nend Agent\nEvaluation\n  lit if s = on and 1 <= 2;\nend Evaluation\nGroups\n  g = {Environment};\nend Groups\nFormulae\n  AG (lit -> EF !lit) <-> <g> X lit;\nend Formulae\n";
    assert_eq!(rebuilt(input), input);
    let toks = tokenize(input);
    assert!(toks.iter().all(|(_, s)| !s.is_empty()));
    assert!(toks.iter().all(|(k, _)| !k.is_err()));
    let sig = significant(input);
    assert!(sig.contains(&(SyntaxKind::TOKEN_ENVIRONMENT, "Environment".to_string())));
    assert!(sig.contains(&(SyntaxKind::TOKEN_VARS, "Vars".to_string())));
    assert!(sig.contains(&(SyntaxKind::TOKEN_BEGIN_INNER_BLOCK, ":".to_string())));
    assert!(sig.contains(&(SyntaxKind::TOKEN_ENUM_LITERAL, "on".to_string())));
    assert!(sig.contains(&(SyntaxKind::TOKEN_INNER_BLOCK_ASSIGN, "=".to_string())));
    assert!(sig.contains(&(SyntaxKind::TOKEN_NONE, "none".to_string())));
    assert!(sig.contains(&(SyntaxKind::TOKEN_END_INNER_BLOCK_NAME, "Vars".to_string())));
    assert!(sig.contains(&(SyntaxKind::TOKEN_LE, "<=".to_string())));
    assert!(sig.contains(&(SyntaxKind::TOKEN_INT_LITERAL, "1".to_string())));
    assert!(sig.contains(&(SyntaxKind::TOKEN_IMPLIES_R, "->".to_string())));
    assert!(sig.contains(&(SyntaxKind::TOKEN_IMPLIES_BI, "<->".to_string())));
    assert!(sig.contains(&(SyntaxKind::TOKEN_START_GROUPEXPR, "<".to_string())));
    assert!(sig.contains(&(SyntaxKind::TOKEN_COMMENT, "-- a model".to_string())));
}

#[test]
fn rebuilds_any_text() {
    for input in [
        "",
        "   ",
        "\n\n",
        "Groups\n g = {A};\n",
        "garbage at the top\nAgent",
        "Formulae\n <= >= <> <- -> <-> .. . ~ ^ & | + * / 12 héllo }\nend Formulae",
        "Agent\n",
        "end",
        "Semantics",
        "Agent A\n  Vars:\n  end Other\nend Agent",
    ] {
        assert_eq!(rebuilt(input), input);
    }
}

#[test]
fn errors_recover_to_end_of_line() {
    let toks = tokenize("junk here\nAgent A\n");
    assert_eq!(toks[0], (SyntaxKind::TOKEN_ERR_UNEXPECTED_TOPLEVEL, "junk here"));
    assert_eq!(toks[2], (SyntaxKind::TOKEN_BEGIN_AGENT, "Agent"));
    let toks = tokenize("Agent\n");
    assert_eq!(toks[1].0, SyntaxKind::TOKEN_WHITESPACE);
}

#[test]
fn undefined_names() {
    let sig = significant("Groups\n g = {Nobody};\nend Groups\n");
    assert!(sig.contains(&(SyntaxKind::TOKEN_ERR_UNDEFINED_NAME, "Nobody".to_string())));
    let sig = significant("Agent A\n  Junk:\n  end Junk\nend Agent\n");
    assert!(sig.contains(&(SyntaxKind::TOKEN_ERR_UNEXPECTED_BLOCK, "Junk".to_string())));
    let sig = significant("Agent Agent\n");
    assert_eq!(sig[1].0, SyntaxKind::TOKEN_AGENT_NAME);
    let sig = significant("Formulae\n Groups\nend Formulae\n");
    assert!(sig.contains(&(SyntaxKind::TOKEN_ERR_UNEXPECTED_KEYWORD, "Groups".to_string())));
    let sig = significant("Formulae\n end\n");
    assert_eq!(sig[1], (SyntaxKind::TOKEN_END_OUTER_BLOCK, "end".to_string()));
    let sig = significant("Formulae\n { } }\n");
    assert_eq!(sig[3].0, SyntaxKind::TOKEN_ERROR);
}

#[test]
fn stepping_by_hand() {
    let mut t = Tokenizer::new("Groups\n");
    assert_eq!(t.next(), Some((SyntaxKind::TOKEN_BEGIN_GROUPS, "Groups")));
    assert_eq!(t.next(), Some((SyntaxKind::TOKEN_WHITESPACE, "\n")));
    assert_eq!(t.next(), None);
    assert_eq!(t.next(), None);
}

#[test]
fn kind_predicates() {
    assert!(SyntaxKind::TOKEN_ERROR.is_err());
    assert!(SyntaxKind::TOKEN_ERR_UNDEFINED_NAME.is_err());
    assert!(!SyntaxKind::TOKEN_VARNAME.is_err());
    assert!(SyntaxKind::TOKEN_COMMENT.is_trivia());
    assert!(SyntaxKind::TOKEN_WHITESPACE.is_trivia());
    assert!(SyntaxKind::TOKEN_ERR_EXPECTED_NAME.is_trivia());
    assert!(!SyntaxKind::TOKEN_LT.is_trivia());
}

#[test]
fn parser_path_reaches_the_tokenizer() {
    let toks = parser::tokenize("Formulae\nend Formulae");
    assert_eq!(toks.len(), 5);
    let mut t = parser::Tokenizer::new("Evaluation");
    assert_eq!(t.next(), Some((parser::SyntaxKind::TOKEN_BEGIN_EVALUATION, "Evaluation")));
}

#[test]
fn missing_agent_name() {
    let toks = tokenize("Agent {x}\n");
    assert_eq!(toks[0].0, SyntaxKind::TOKEN_BEGIN_AGENT);
    assert_eq!(toks[2], (SyntaxKind::TOKEN_ERR_EXPECTED_NAME, "{x}"));
}

#[test]
fn inner_block_closed_by_its_own_name() {
    let sig = significant("Agent A\n  Vars:\n  end Actions\n  end Vars\nend Agent\n");
    assert!(sig.contains(&(SyntaxKind::TOKEN_ERR_INVALID_CLOSE_BLOCK, "Actions".to_string())));
    assert!(sig.contains(&(SyntaxKind::TOKEN_END_INNER_BLOCK_NAME, "Vars".to_string())));
    assert_eq!(
        sig.last().cloned(),
        Some((SyntaxKind::TOKEN_END_OUTER_BLOCK_NAME, "Agent".to_string()))
    );
}

#[test]
fn keywords_inside_blocks() {
    let sig = significant("Formulae\n  A G p U E F q and true or false;\nend Formulae\n");
    let kinds: Vec<SyntaxKind> = sig.iter().map(|(k, _)| *k).collect();
    assert_eq!(
        kinds,
        vec![
            SyntaxKind::TOKEN_BEGIN_FORMULAE,
            SyntaxKind::TOKEN_A,
            SyntaxKind::TOKEN_G,
            SyntaxKind::TOKEN_VARNAME,
            SyntaxKind::TOKEN_U,
            SyntaxKind::TOKEN_E,
            SyntaxKind::TOKEN_F,
            SyntaxKind::TOKEN_VARNAME,
            SyntaxKind::TOKEN_AND,
            SyntaxKind::TOKEN_TRUE,
            SyntaxKind::TOKEN_OR,
            SyntaxKind::TOKEN_FALSE,
            SyntaxKind::TOKEN_SEMICOLON,
            SyntaxKind::TOKEN_END_OUTER_BLOCK,
            SyntaxKind::TOKEN_END_OUTER_BLOCK_NAME,
        ]
    );
}

#[test]
fn top_level_blocks_and_words() {
    assert_eq!(kinds("InitStates"), vec![SyntaxKind::TOKEN_BEGIN_INIT_STATES]);
    assert_eq!(kinds("Fairness"), vec![SyntaxKind::TOKEN_BEGIN_FAIRNESS]);
    assert_eq!(kinds("AG"), vec![SyntaxKind::TOKEN_ERR_UNEXPECTED_TOPLEVEL]);
    assert_eq!(
        kinds("Semantics =\n  MA;"),
        vec![SyntaxKind::TOKEN_SEMANTICS_MA]
    );
    assert_eq!(kinds("Semantics"), vec![SyntaxKind::TOKEN_ERR_UNEXPECTED_TOPLEVEL]);
}

#[test]
fn words_end_at_word_boundaries() {
    let sig = significant("Formulae\n  abc12_$@#+x9\nend Formulae\n");
    assert_eq!(sig[1], (SyntaxKind::TOKEN_VARNAME, "abc12_$@#".to_string()));
    assert_eq!(sig[2], (SyntaxKind::TOKEN_PLUS, "+".to_string()));
    assert_eq!(sig[3], (SyntaxKind::TOKEN_VARNAME, "x9".to_string()));
}

#[test]
fn recovery_after_end_and_at_top_level() {
    let toks = tokenize("Formulae\nend (x)\n");
    assert_eq!(toks[4], (SyntaxKind::TOKEN_ERR_EXPECTED_NAME, "(x)"));
    let toks = tokenize("end of it\nGroups");
    assert_eq!(toks[0], (SyntaxKind::TOKEN_ERR_UNEXPECTED_TOPLEVEL, "end of it"));
    assert_eq!(toks[2], (SyntaxKind::TOKEN_BEGIN_GROUPS, "Groups"));
    let toks = tokenize("Formulae\n ? x\n");
    assert_eq!(toks[2], (SyntaxKind::TOKEN_ERROR, "?"));
}

#[test]
fn top_level_error_stops_at_line_end() {
    assert_eq!(
        tokenize("foo\nGroups"),
        vec![
            (SyntaxKind::TOKEN_ERR_UNEXPECTED_TOPLEVEL, "foo"),
            (SyntaxKind::TOKEN_WHITESPACE, "\n"),
            (SyntaxKind::TOKEN_BEGIN_GROUPS, "Groups"),
        ]
    );
    let sig = significant("Formulae\n  p <-> q;\n  Vars;\nend Formulae");
    assert!(sig.contains(&(SyntaxKind::TOKEN_IMPLIES_BI, "<->".to_string())));
    assert!(sig.contains(&(SyntaxKind::TOKEN_ERR_UNEXPECTED_KEYWORD, "Vars".to_string())));
}

#[test]
fn environment_block_closes_with_its_name() {
    let sig = significant("Agent Environment\nend Environment\nAgent Environment\nend Agent\nAgent A\nend Environment\n");
    let closes: Vec<SyntaxKind> = sig
        .iter()
        .filter(|(k, _)| {
            *k == SyntaxKind::TOKEN_END_OUTER_BLOCK_NAME || *k == SyntaxKind::TOKEN_ERR_INVALID_CLOSE_BLOCK
        })
        .map(|(k, _)| *k)
        .collect();
    assert_eq!(
        closes,
        vec![
            SyntaxKind::TOKEN_END_OUTER_BLOCK_NAME,
            SyntaxKind::TOKEN_END_OUTER_BLOCK_NAME,
            SyntaxKind::TOKEN_ERR_INVALID_CLOSE_BLOCK,
        ]
    );
}
