use rv32_asm::lexer::lex;

#[test]
fn test_lex_commas_and_spaces() {
    let fields = lex("add x1, x2, x3");
    assert_eq!(fields, vec!["add", "x1", "x2", "x3"]);
}

#[test]
fn test_lex_strips_comment() {
    let fields = lex("addi x5, x0, 10 # load the loop counter");
    assert_eq!(fields, vec!["addi", "x5", "x0", "10"]);
}

#[test]
fn test_lex_blank_and_comment_only() {
    assert_eq!(lex("").len(), 0);
    assert_eq!(lex("   \t ").len(), 0);
    assert_eq!(lex("# nothing but a comment").len(), 0);
}

#[test]
fn test_lex_drops_empty_fragments() {
    let fields = lex(",,add ,,  x1,\tx2 ,x3\n");
    assert_eq!(fields, vec!["add", "x1", "x2", "x3"]);
}

#[test]
fn test_lex_label_field() {
    let fields = lex("loop:");
    assert_eq!(fields, vec!["loop:"]);
}

#[test]
fn test_lex_rejoin_stable() {
    // joining the fields with ", " and lexing again gives the same fields
    let inputs = ["add x1, x2, x3", "  beq\tx1 ,, x2, loop # back", "org 0x100", ""];
    for input in inputs.iter() {
        let first = lex(input);
        let rejoined = first.join(", ");
        let second = lex(&rejoined);
        assert_eq!(first, second);
    }
}
