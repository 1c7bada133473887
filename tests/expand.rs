use option_chain_tool::expand::{build, ends_with_fn_call, if_let, some_wrapper, ExpandError};
use option_chain_tool::opt;
use option_chain_tool::segment::{split_on_optional_variants, OptionalSegment, OptionalVariant};
use option_chain_tool::token::{copy_tokens, text_is, Delimiter, Spacing, Token};

fn is_punct_char(c: char) -> bool {
    !c.is_alphanumeric() && !c.is_whitespace() && !"_()[]{}\"".contains(c)
}

fn lex_until(chars: &[char], pos: &mut usize, close: Option<char>) -> Vec<Token> {
    let mut out = Vec::new();
    while *pos < chars.len() {
        let c = chars[*pos];
        if c.is_whitespace() {
            *pos += 1;
        } else if Some(c) == close {
            *pos += 1;
            return out;
        } else if c.is_alphabetic() || c == '_' {
            let start = *pos;
            while *pos < chars.len() && (chars[*pos].is_alphanumeric() || chars[*pos] == '_') {
                *pos += 1;
            }
            out.push(Token::Ident(chars[start..*pos].iter().collect()));
        } else if c.is_ascii_digit() {
            let start = *pos;
            while *pos < chars.len() && chars[*pos].is_ascii_digit() {
                *pos += 1;
            }
            out.push(Token::Literal(chars[start..*pos].iter().collect()));
        } else if c == '"' {
            let start = *pos;
            *pos += 1;
            while chars[*pos] != '"' {
                *pos += 1;
            }
            *pos += 1;
            out.push(Token::Literal(chars[start..*pos].iter().collect()));
        } else if c == '(' || c == '[' || c == '{' {
            let (d, end) = match c {
                '(' => (Delimiter::Parenthesis, ')'),
                '[' => (Delimiter::Bracket, ']'),
                _ => (Delimiter::Brace, '}'),
            };
            *pos += 1;
            let inner = lex_until(chars, pos, Some(end));
            out.push(Token::Group(d, inner));
        } else {
            *pos += 1;
            let joint = *pos < chars.len() && is_punct_char(chars[*pos]);
            out.push(Token::Punct(c, if joint { Spacing::Joint } else { Spacing::Alone }));
        }
    }
    out
}

/// Tokens of a piece of source text, spaced as a Rust tokenizer spaces them.
fn lex(src: &str) -> Vec<Token> {
    let chars: Vec<char> = src.chars().collect();
    let mut pos = 0;
    lex_until(&chars, &mut pos, None)
}

/// The tokens written out, one space between each.
fn render(tokens: &[Token]) -> String {
    let mut parts: Vec<String> = Vec::new();
    for t in tokens {
        parts.push(match t {
            Token::Ident(s) | Token::Literal(s) => s.clone(),
            Token::Punct(c, _) => c.to_string(),
            Token::Group(d, inner) => {
                let (open, close) = match d {
                    Delimiter::Parenthesis => ("(", ")"),
                    Delimiter::Brace => ("{", "}"),
                    Delimiter::Bracket => ("[", "]"),
                    Delimiter::Invisible => ("", ""),
                };
                let body = render(inner);
                if body.is_empty() {
                    format!("{} {}", open, close)
                } else {
                    format!("{} {} {}", open, body, close)
                }
            }
        });
    }
    parts.join(" ")
}

fn expand(src: &str) -> String {
    render(&opt(lex(src)).expect("expansion"))
}

fn variants(segs: &[OptionalSegment]) -> Vec<OptionalVariant> {
    segs.iter().map(|s| s.variant).collect()
}

fn texts(segs: &[OptionalSegment]) -> Vec<String> {
    segs.iter().map(|s| render(&s.tokens)).collect()
}

struct Address {
    city: Option<String>,
    validation: Result<String, String>,
}

struct Profile {
    address: Option<Address>,
}

struct User {
    profile: Option<Profile>,
}

fn user(profile: bool, address: bool, city: Option<&str>, validation: Result<&str, &str>) -> User {
    User {
        profile: if profile {
            Some(Profile {
                address: if address {
                    Some(Address {
                        city: city.map(|c| c.to_string()),
                        validation: validation.map(|v| v.to_string()).map_err(|e| e.to_string()),
                    })
                } else {
                    None
                },
            })
        } else {
            None
        }
    }
}

const CITY_EXPANSION: &str = "if let Some ( ____v ) = & user . profile { if let Some ( ____v ) = & ____v . address { Some ( & ____v . city ) } else { None } } else { None }";

// The body is CITY_EXPANSION as source text.
fn city_of(user: &User) -> Option<&Option<String>> {
    if let Some ( ____v ) = & user . profile { if let Some ( ____v ) = & ____v . address { Some ( & ____v . city ) } else { None } } else { None }
}

const VALIDATION_EXPANSION: &str = "if let Some ( ____v ) = & user . profile { if let Some ( ____v ) = & ____v . address { if let Ok ( ____v ) = & ____v . validation { Some ( ____v ) } else { None } } else { None } } else { None }";

// The body is VALIDATION_EXPANSION as source text.
fn validation_of(user: &User) -> Option<&String> {
    if let Some ( ____v ) = & user . profile { if let Some ( ____v ) = & ____v . address { if let Ok ( ____v ) = & ____v . validation { Some ( ____v ) } else { None } } else { None } } else { None }
}

#[test]
fn city_chain_expands_to_nested_checks() {
    assert_eq!(expand("user.profile?.address?.city"), CITY_EXPANSION);
}

#[test]
fn city_chain_is_absent_without_profile() {
    let u = user(false, false, None, Ok("ok"));
    assert_eq!(city_of(&u), None);
    let u = user(true, false, None, Ok("ok"));
    assert_eq!(city_of(&u), None);
}

#[test]
fn city_chain_is_present_with_profile_and_address() {
    let u = user(true, true, Some("New York"), Ok("ok"));
    assert_eq!(city_of(&u), Some(&Some("New York".to_string())));
}

#[test]
fn ok_chain_expands_to_result_check() {
    assert_eq!(expand("user.profile?.address?.validation?Ok"), VALIDATION_EXPANSION);
}

#[test]
fn ok_chain_values() {
    assert_eq!(validation_of(&user(true, true, None, Ok("valid"))), Some(&"valid".to_string()));
    assert_eq!(validation_of(&user(true, true, None, Err("bad"))), None);
    assert_eq!(validation_of(&user(true, false, None, Ok("valid"))), None);
    assert_eq!(validation_of(&user(false, false, None, Ok("valid"))), None);
}

#[test]
fn err_chain_expands_to_err_check() {
    assert_eq!(
        expand("a?.b?Err"),
        "if let Some ( ____v ) = & a { if let Err ( ____v ) = & ____v . b { Some ( ____v ) } else { None } } else { None }"
    );
}

#[test]
fn empty_input_is_refused() {
    assert_eq!(opt(Vec::new()), Err(ExpandError::EmptyInput));
}

#[test]
fn missing_base_is_refused() {
    assert_eq!(opt(lex("?.a")), Err(ExpandError::MissingBase));
    assert_eq!(opt(lex("?Ok.a")), Err(ExpandError::MissingBase));
    assert_eq!(opt(lex("?")), Err(ExpandError::MissingBase));
}

#[test]
fn empty_input_is_one_root_segment() {
    let segs = split_on_optional_variants(&Vec::new());
    assert_eq!(segs.len(), 1);
    assert_eq!(segs[0].variant, OptionalVariant::Root);
    assert!(segs[0].tokens.is_empty());
}

#[test]
fn nullable_chain_segments() {
    let segs = split_on_optional_variants(&lex("user.profile?.address?.city"));
    assert_eq!(
        variants(&segs),
        vec![OptionalVariant::Nullable, OptionalVariant::Nullable, OptionalVariant::Plain]
    );
    assert_eq!(texts(&segs), vec!["user . profile", "address", "city"]);
}

#[test]
fn plain_chain_is_some_of_field() {
    assert_eq!(expand("user.name"), "Some ( & user . name )");
    assert_eq!(expand("base.f1.f2"), "Some ( & base . f1 . f2 )");
}

#[test]
fn plain_chain_ending_in_call_is_not_borrowed() {
    assert_eq!(expand("user.name()"), "Some ( user . name ( ) )");
}

#[test]
fn mixed_kinds_segments() {
    let segs = split_on_optional_variants(&lex("base?.addr?Ok.validated?Err.reason"));
    assert_eq!(
        variants(&segs),
        vec![
            OptionalVariant::Nullable,
            OptionalVariant::Success,
            OptionalVariant::Failure,
            OptionalVariant::Plain
        ]
    );
    assert_eq!(texts(&segs), vec!["base", "addr", "validated", "reason"]);
}

const MIXED_EXPANSION: &str = "if let Some ( ____v ) = & base { if let Ok ( ____v ) = & ____v . addr { if let Err ( ____v ) = & ____v . validated { Some ( & ____v . reason ) } else { None } } else { None } } else { None }";

struct Rejection {
    reason: String,
}

struct Validated {
    validated: Result<u32, Rejection>,
}

struct Entry {
    addr: Result<Validated, String>,
}

// The body is MIXED_EXPANSION as source text.
fn reason_of(base: &Option<Entry>) -> Option<&String> {
    if let Some ( ____v ) = & base { if let Ok ( ____v ) = & ____v . addr { if let Err ( ____v ) = & ____v . validated { Some ( & ____v . reason ) } else { None } } else { None } } else { None }
}

fn entry(addr_ok: bool, validated_ok: bool) -> Option<Entry> {
    Some(Entry {
        addr: if addr_ok {
            Ok(Validated {
                validated: if validated_ok {
                    Ok(7)
                } else {
                    Err(Rejection { reason: "too long".to_string() })
                },
            })
        } else {
            Err("no address".to_string())
        },
    })
}

#[test]
fn mixed_kinds_expansion() {
    assert_eq!(expand("base?.addr?Ok.validated?Err.reason"), MIXED_EXPANSION);
}

#[test]
fn mixed_kinds_values() {
    assert_eq!(reason_of(&entry(true, false)), Some(&"too long".to_string()));
    assert_eq!(reason_of(&entry(true, true)), None);
    assert_eq!(reason_of(&entry(false, false)), None);
    assert_eq!(reason_of(&None), None);
}

#[test]
fn trailing_gate_needs_no_access() {
    let segs = split_on_optional_variants(&lex("base?.f1?."));
    assert_eq!(
        variants(&segs),
        vec![OptionalVariant::Nullable, OptionalVariant::Nullable, OptionalVariant::Plain]
    );
    assert_eq!(texts(&segs), vec!["base", "f1", ""]);
    assert_eq!(
        expand("base?.f1?."),
        "if let Some ( ____v ) = & base { if let Some ( ____v ) = & ____v . f1 { Some ( ____v ) } else { None } } else { None }"
    );
}

struct Holder {
    f1: Option<u32>,
}

// The body is the expansion of `base?.f1?.`.
fn f1_of(base: &Option<Holder>) -> Option<&u32> {
    if let Some ( ____v ) = & base { if let Some ( ____v ) = & ____v . f1 { Some ( ____v ) } else { None } } else { None }
}

#[test]
fn trailing_gate_values() {
    assert_eq!(f1_of(&Some(Holder { f1: Some(3) })), Some(&3));
    assert_eq!(f1_of(&Some(Holder { f1: None })), None);
    assert_eq!(f1_of(&None), None);
}

#[test]
fn trailing_bare_unwrap_tags_final_empty_segment() {
    let segs = split_on_optional_variants(&lex("a?.b?"));
    assert_eq!(
        variants(&segs),
        vec![OptionalVariant::Nullable, OptionalVariant::Nullable, OptionalVariant::Nullable]
    );
    assert_eq!(texts(&segs), vec!["a", "b", ""]);
    let segs = split_on_optional_variants(&lex("user.profile?.address?.validation?Ok"));
    assert_eq!(
        variants(&segs),
        vec![
            OptionalVariant::Nullable,
            OptionalVariant::Nullable,
            OptionalVariant::Success,
            OptionalVariant::Success
        ]
    );
    assert_eq!(texts(&segs), vec!["user . profile", "address", "validation", ""]);
    let segs = split_on_optional_variants(&lex("a?Err"));
    assert_eq!(variants(&segs), vec![OptionalVariant::Failure, OptionalVariant::Failure]);
    assert_eq!(texts(&segs), vec!["a", ""]);
}

#[test]
fn trailing_dotted_operator_leaves_final_segment_plain() {
    let segs = split_on_optional_variants(&lex("a?Ok."));
    assert_eq!(variants(&segs), vec![OptionalVariant::Success, OptionalVariant::Plain]);
    assert_eq!(texts(&segs), vec!["a", ""]);
}

#[test]
fn build_accepts_final_segment_with_trailing_unwrap() {
    let segs = vec![
        OptionalSegment { variant: OptionalVariant::Success, tokens: lex("a") },
        OptionalSegment { variant: OptionalVariant::Success, tokens: Vec::new() },
    ];
    assert_eq!(
        render(&build(&segs).expect("build")),
        "if let Ok ( ____v ) = & a { Some ( ____v ) } else { None }"
    );
}

#[test]
fn trailing_bare_unwrap_matches_trailing_gate() {
    assert_eq!(expand("base?.f1?"), expand("base?.f1?."));
    assert_eq!(expand("base?.f1?Ok"), expand("base?.f1?Ok."));
    assert_eq!(expand("base?.f1?Err"), expand("base?.f1?Err."));
}

#[test]
fn call_segment_is_not_borrowed() {
    assert_eq!(
        expand("user.profile?.address?.get_city()?"),
        "if let Some ( ____v ) = & user . profile { if let Some ( ____v ) = & ____v . address { if let Some ( ____v ) = ____v . get_city ( ) { Some ( ____v ) } else { None } } else { None } } else { None }"
    );
}

#[test]
fn call_with_arguments_is_not_borrowed() {
    assert_eq!(
        expand("a.get(1)?.b"),
        "if let Some ( ____v ) = a . get ( 1 ) { Some ( & ____v . b ) } else { None }"
    );
}

#[test]
fn outcome_word_as_plain_text_stays_in_place() {
    assert_eq!(expand("x.Ok"), "Some ( & x . Ok )");
    let segs = split_on_optional_variants(&lex("a?Ok b"));
    assert_eq!(variants(&segs), vec![OptionalVariant::Plain]);
    assert_eq!(texts(&segs), vec!["a ? Ok b"]);
}

#[test]
fn question_before_range_is_not_an_operator() {
    let segs = split_on_optional_variants(&lex("a?..b"));
    assert_eq!(variants(&segs), vec![OptionalVariant::Plain]);
    assert_eq!(texts(&segs), vec!["a ? . . b"]);
}

#[test]
fn empty_middle_segment_uses_placeholder() {
    let tokens = vec![
        Token::ident("a"),
        Token::punct('?', Spacing::Joint),
        Token::punct('.', Spacing::Alone),
        Token::punct('?', Spacing::Joint),
        Token::punct('.', Spacing::Alone),
        Token::ident("b"),
    ];
    assert_eq!(
        render(&opt(tokens).expect("expansion")),
        "if let Some ( ____v ) = & a { if let Some ( ____v ) = ____v { Some ( & ____v . b ) } else { None } } else { None }"
    );
}

#[test]
fn dot_joined_to_next_punct_is_not_a_separator() {
    let segs = split_on_optional_variants(&lex("a?.?.b"));
    assert_eq!(variants(&segs), vec![OptionalVariant::Nullable, OptionalVariant::Plain]);
    assert_eq!(texts(&segs), vec!["a ? .", "b"]);
}

#[test]
fn groups_pass_through() {
    let segs = split_on_optional_variants(&lex("a.items[0]?.f(x, \"s\")"));
    assert_eq!(texts(&segs), vec!["a . items [ 0 ]", "f ( x , \"s\" )"]);
    assert_eq!(variants(&segs), vec![OptionalVariant::Nullable, OptionalVariant::Plain]);
}

#[test]
fn copy_keeps_nested_tokens() {
    let tokens = lex("a.f(x[1], {y})");
    assert_eq!(copy_tokens(&tokens), tokens);
    assert_eq!(tokens[3].deep_copy(), tokens[3]);
}

#[test]
fn text_comparison() {
    assert!(text_is(&"Ok".to_string(), "Ok"));
    assert!(!text_is(&"Ok".to_string(), "Err"));
    assert!(!text_is(&"O".to_string(), "Ok"));
}

#[test]
fn call_detection() {
    assert!(ends_with_fn_call(&lex("a.f()")));
    assert!(!ends_with_fn_call(&lex("a.f")));
    assert!(!ends_with_fn_call(&lex("a[0]")));
    assert!(!ends_with_fn_call(&Vec::new()));
}

#[test]
fn some_wrapper_wraps() {
    assert_eq!(render(&some_wrapper(lex("x"))), "Some ( x )");
}

#[test]
fn if_let_form() {
    assert_eq!(
        render(&if_let(OptionalVariant::Success, lex("&v"), lex("Some(v)"))),
        "if let Ok ( ____v ) = & v { Some ( v ) } else { None }"
    );
    assert_eq!(
        render(&if_let(OptionalVariant::Nullable, lex("v"), lex("x"))),
        "if let Some ( ____v ) = v { x } else { None }"
    );
}

#[test]
fn build_from_segments() {
    let segs = vec![
        OptionalSegment { variant: OptionalVariant::Nullable, tokens: lex("a") },
        OptionalSegment { variant: OptionalVariant::Plain, tokens: lex("b") },
    ];
    assert_eq!(
        render(&build(&segs).expect("build")),
        "if let Some ( ____v ) = & a { Some ( & ____v . b ) } else { None }"
    );
    let empty_base = vec![
        OptionalSegment { variant: OptionalVariant::Nullable, tokens: Vec::new() },
        OptionalSegment { variant: OptionalVariant::Plain, tokens: lex("b") },
    ];
    assert_eq!(build(&empty_base), Err(ExpandError::MissingBase));
}

#[test]
fn lexer_spacing_matches_operators() {
    let tokens = lex("a?.b");
    assert_eq!(tokens[1], Token::Punct('?', Spacing::Joint));
    assert_eq!(tokens[2], Token::Punct('.', Spacing::Alone));
    assert_eq!(Token::ident("a"), Token::Ident("a".to_string()));
    assert_eq!(Token::punct('.', Spacing::Alone), tokens[2]);
}
