use token_visualizer::parser::parse;

#[test]
fn example_line() {
    let p = parse("300 tokens prompt, 12000 tokens tool inputs, 4000 tokens response").unwrap();
    assert_eq!(p.input, 12_300); // prompt + tool inputs
    assert_eq!(p.output, 4_000);
    assert_eq!(p.cached_override, None);
}

#[test]
fn short_synonyms() {
    let p = parse("300 prompt, 5000 tools, 400 out").unwrap();
    assert_eq!(p.input, 5_300); // prompt + tools
    assert_eq!(p.output, 400);

    let p = parse("200 in, 500 instructions, 300 response").unwrap();
    assert_eq!(p.input, 700); // in + instructions
    assert_eq!(p.output, 300);
}

#[test]
fn k_suffix_and_cached() {
    let p = parse("input 1.5k, output 4k, cached 10k").unwrap();
    assert_eq!(p.input, 1_500);
    assert_eq!(p.output, 4_000);
    assert_eq!(p.cached_override, Some(10_000));
}

#[test]
fn repeat_count() {
    let p = parse("300 prompt, 5000 tools, 400 out, repeat 10").unwrap();
    assert_eq!(p.input, 5_300);
    assert_eq!(p.output, 400);
    assert_eq!(p.repeat, 10);
}

#[test]
fn default_repeat_is_one() {
    assert_eq!(parse("100 in, 200 out").unwrap().repeat, 1);
}

#[test]
fn thinking_tokens() {
    let p = parse("300 prompt, 2000 thinking, 400 out").unwrap();
    assert_eq!(p.input, 300);
    assert_eq!(p.thinking, 2_000);
    assert_eq!(p.output, 400);

    // "reasoning" is a synonym and shouldn't fall through to output.
    let p = parse("500 reasoning, 1000 response").unwrap();
    assert_eq!(p.thinking, 500);
    assert_eq!(p.output, 1_000);
}

#[test]
fn no_numbers() {
    assert!(parse("hello there").is_none());
}
