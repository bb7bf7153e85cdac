//! Tests of the parsers that do not read events yet.
use styx::parser::Parser;
use styx::parser4::Parser4;

#[test]
fn parsers_are_set_up_at_the_start() {
    let parser = Parser::new("a b");
    let _ = parser.clone();
    let parser = Parser4::new("a b");
    let _ = parser.clone();
}
