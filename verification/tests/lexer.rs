//! Tests of the lexer.
use styx::lexer::{Lexer, Skip};
use styx::span::Span;
use styx::token::TokenKind;

fn tokens(source: &str) -> Vec<(TokenKind, &str)> {
    let mut lexer = Lexer::new(source);
    let mut list = Vec::new();
    loop {
        let t = lexer.next_token();
        list.push((t.kind, &source[t.span.start as usize..t.span.end as usize]));
        if t.kind == TokenKind::Eof {
            return list;
        }
    }
}

#[test]
fn lexer_reads_punctuation_and_blanks() {
    assert_eq!(
        tokens("{ }\t(),>@\r\n"),
        vec![
            (TokenKind::LBrace, "{"),
            (TokenKind::Whitespace, " "),
            (TokenKind::RBrace, "}"),
            (TokenKind::Whitespace, "\t"),
            (TokenKind::LParen, "("),
            (TokenKind::RParen, ")"),
            (TokenKind::Comma, ","),
            (TokenKind::Gt, ">"),
            (TokenKind::At, "@"),
            (TokenKind::Newline, "\r\n"),
            (TokenKind::Eof, ""),
        ]
    );
}

#[test]
fn lexer_reads_scalars() {
    assert_eq!(
        tokens("a@b=c \"x\\\"y\" r#\"q\"r\"# r\"z\""),
        vec![
            (TokenKind::BareScalar, "a@b=c"),
            (TokenKind::Whitespace, " "),
            (TokenKind::QuotedScalar, "\"x\\\"y\""),
            (TokenKind::Whitespace, " "),
            (TokenKind::RawScalar, "r#\"q\"r\"#"),
            (TokenKind::Whitespace, " "),
            (TokenKind::RawScalar, "r\"z\""),
            (TokenKind::Eof, ""),
        ]
    );
}

#[test]
fn lexer_reads_comments_and_heredocs() {
    assert_eq!(
        tokens("// c\n/// d\n<<END x\none\ntwo\nEND\nk"),
        vec![
            (TokenKind::LineComment, "// c"),
            (TokenKind::Newline, "\n"),
            (TokenKind::DocComment, "/// d"),
            (TokenKind::Newline, "\n"),
            (TokenKind::HeredocStart, "<<END x\n"),
            (TokenKind::HeredocContent, "one\n"),
            (TokenKind::HeredocContent, "two\n"),
            (TokenKind::HeredocEnd, "END"),
            (TokenKind::Newline, "\n"),
            (TokenKind::BareScalar, "k"),
            (TokenKind::Eof, ""),
        ]
    );
}

#[test]
fn lexer_marks_what_it_cannot_read() {
    assert_eq!(
        tokens("= \"open"),
        vec![
            (TokenKind::Error, "="),
            (TokenKind::Whitespace, " "),
            (TokenKind::Error, "\"open"),
            (TokenKind::Eof, ""),
        ]
    );
}

#[test]
fn lexer_tokens_tile_the_source() {
    let source = "größe { x \"ä\\n\" } // ü\n<<A\nß";
    let mut lexer = Lexer::new(source);
    let mut at = 0;
    loop {
        let t = lexer.next_token();
        assert_eq!(t.span.start, at);
        assert!(source.is_char_boundary(t.span.end as usize));
        at = t.span.end;
        if t.kind == TokenKind::Eof {
            break;
        }
    }
    assert_eq!(at as usize, source.len());
    assert_eq!(lexer.next_token().kind, TokenKind::Eof);
}

#[test]
fn lexer_passes_over_tokens() {
    let mut lexer = Lexer::new(" \n a b ) c\nd");
    assert_eq!(lexer.next_past(Skip::Blanks).kind, TokenKind::Newline);
    assert_eq!(lexer.next_past(Skip::Lines).span, Span::new(3, 4));
    assert_eq!(lexer.next_past(Skip::RestOfEntry).kind, TokenKind::RParen);
    assert_eq!(lexer.next_past(Skip::RestOfLine).kind, TokenKind::Newline);
    assert_eq!(lexer.next_past(Skip::Nothing).span, Span::new(11, 12));
    assert_eq!(lexer.next_past(Skip::RestOfLine).kind, TokenKind::Eof);
    assert_eq!(lexer.source().len(), 12);
}

#[test]
fn lexer_passes_over_a_heredoc() {
    let mut lexer = Lexer::new("<<A\nx\ny\nA\n");
    assert_eq!(lexer.next_token().kind, TokenKind::HeredocStart);
    assert_eq!(lexer.next_past(Skip::Heredoc).kind, TokenKind::HeredocEnd);
}
