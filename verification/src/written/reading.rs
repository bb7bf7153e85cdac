//! The parser with a queue reads every document as it was written.
use crate::ascii;
use crate::emit;
use crate::escape::ShortUnicode;
use crate::event::{EventView, Separator};
use crate::lexer;
use crate::parser2::machine;
use crate::parser2::machine::{Context, State};
use crate::parser2::nesting;
use crate::parser2::progress;
use crate::parser2::run;
use crate::span::Span;
use crate::token::{Token, TokenKind};
use crate::written::bytes;
use crate::written::bytes::{next_is, stands};
use crate::written::document;
use crate::written::document::{Entry, Key, Layout, Node, Scalar};
use crate::written::queued;
use crate::written::queued::{after, before, clean, good, mach, maybe, settles, stops};
use crate::written::tokens;
use vstd::prelude::*;
use vstd::utf8::*;

verus! {

// --- brackets ---

/// A bracket in the place of a value.
proof fn lemma_open_value(
    src: Seq<u8>,
    p: nat,
    brace: bool,
    key_span: Span,
    stack: Seq<Context>,
)
    requires
        p < src.len(),
        src[p as int] == if brace {
            ascii::LBRACE
        } else {
            ascii::LPAREN
        },
        key_span.end < p,
        progress::fits(src, mach(p, State::AfterKey { key_span }, stack)),
    ensures
        ({
            let m = mach(p, State::AfterKey { key_span }, stack);
            let span = document::span_at(p as int, 1);
            if brace {
                let next = mach(
                    p + 1,
                    State::ExpectingEntry,
                    stack.push(Context::Object { implicit: false }),
                );
                &&& progress::fits(src, next)
                &&& run::run(src, m) == seq![
                    EventView::ObjectStart { span, separator: Separator::Comma },
                ] + run::run(src, next)
            } else {
                let next = mach(
                    p + 1,
                    State::ExpectingSequenceElement,
                    stack.push(Context::Sequence),
                );
                &&& progress::fits(src, next)
                &&& run::run(src, m) == seq![EventView::SequenceStart { span }] + run::run(
                    src,
                    next,
                )
            }
        }),
{
    let m = mach(p, State::AfterKey { key_span }, stack);
    tokens::law_marks(src, p);
    let kind = if brace {
        TokenKind::LBrace
    } else {
        TokenKind::LParen
    };
    queued::lemma_take(src, m, p, kind, p, p + 1);
    let (event, n) = machine::step(src, m);
    assert(n.queue =~= Seq::<EventView>::empty());
    queued::lemma_go(src, m, p + 1);
    let rest = run::run(src, clean(n, p + 1));
    assert(maybe(event) + n.queue + rest =~= maybe(event) + rest);
    if brace {
        assert(clean(n, p + 1) =~= mach(
            p + 1,
            State::ExpectingEntry,
            stack.push(Context::Object { implicit: false }),
        ));
    } else {
        assert(clean(n, p + 1) =~= mach(
            p + 1,
            State::ExpectingSequenceElement,
            stack.push(Context::Sequence),
        ));
    }
}

/// A bracket in the place of an element.
proof fn lemma_open_element(src: Seq<u8>, p: nat, brace: bool, stack: Seq<Context>)
    requires
        p < src.len(),
        src[p as int] == if brace {
            ascii::LBRACE
        } else {
            ascii::LPAREN
        },
        progress::fits(src, mach(p, State::ExpectingSequenceElement, stack)),
    ensures
        ({
            let m = mach(p, State::ExpectingSequenceElement, stack);
            let span = document::span_at(p as int, 1);
            if brace {
                let next = mach(
                    p + 1,
                    State::ExpectingEntry,
                    stack.push(Context::Object { implicit: false }),
                );
                &&& progress::fits(src, next)
                &&& run::run(src, m) == seq![
                    EventView::ObjectStart { span, separator: Separator::Comma },
                ] + run::run(src, next)
            } else {
                let next = mach(
                    p + 1,
                    State::ExpectingSequenceElement,
                    stack.push(Context::Sequence),
                );
                &&& progress::fits(src, next)
                &&& run::run(src, m) == seq![EventView::SequenceStart { span }] + run::run(
                    src,
                    next,
                )
            }
        }),
{
    let m = mach(p, State::ExpectingSequenceElement, stack);
    tokens::law_marks(src, p);
    let kind = if brace {
        TokenKind::LBrace
    } else {
        TokenKind::LParen
    };
    queued::lemma_take(src, m, p, kind, p, p + 1);
    let (event, n) = machine::step(src, m);
    assert(n.queue =~= Seq::<EventView>::empty());
    queued::lemma_go(src, m, p + 1);
    let rest = run::run(src, clean(n, p + 1));
    assert(maybe(event) + n.queue + rest =~= maybe(event) + rest);
    if brace {
        assert(clean(n, p + 1) =~= mach(
            p + 1,
            State::ExpectingEntry,
            stack.push(Context::Object { implicit: false }),
        ));
    } else {
        assert(clean(n, p + 1) =~= mach(
            p + 1,
            State::ExpectingSequenceElement,
            stack.push(Context::Sequence),
        ));
    }
}

/// The end of a sequence or of an object.
proof fn lemma_close(src: Seq<u8>, p: nat, brace: bool, stack: Seq<Context>)
    requires
        p < src.len(),
        src[p as int] == if brace {
            ascii::RBRACE
        } else {
            ascii::RPAREN
        },
        stack.len() > 0,
        good(stack),
        ({
            let inner = if brace {
                Context::Object { implicit: false }
            } else {
                Context::Sequence
            };
            let state = if brace {
                State::ExpectingEntry
            } else {
                State::ExpectingSequenceElement
            };
            progress::fits(src, mach(p, state, stack.push(inner)))
        }),
    ensures
        ({
            let inner = if brace {
                Context::Object { implicit: false }
            } else {
                Context::Sequence
            };
            let state = if brace {
                State::ExpectingEntry
            } else {
                State::ExpectingSequenceElement
            };
            let span = document::span_at(p as int, 1);
            let event = if brace {
                EventView::ObjectEnd { span }
            } else {
                EventView::SequenceEnd { span }
            };
            let next = mach(p + 1, after(stack), stack);
            &&& progress::fits(src, next)
            &&& run::run(src, mach(p, state, stack.push(inner))) == seq![event] + run::run(src, next)
        }),
{
    let inner = if brace {
        Context::Object { implicit: false }
    } else {
        Context::Sequence
    };
    let state = if brace {
        State::ExpectingEntry
    } else {
        State::ExpectingSequenceElement
    };
    let kind = if brace {
        TokenKind::RBrace
    } else {
        TokenKind::RParen
    };
    let m = mach(p, state, stack.push(inner));
    tokens::law_marks(src, p);
    queued::lemma_take(src, m, p, kind, p, p + 1);
    assert(stack.push(inner).drop_last() =~= stack);
    assert(stack[stack.len() - 1] != Context::AttributeObject);
    let (event, n) = machine::step(src, m);
    assert(n.queue =~= Seq::<EventView>::empty());
    queued::lemma_go(src, m, p + 1);
    let rest = run::run(src, clean(n, p + 1));
    assert(maybe(event) + n.queue + rest =~= maybe(event) + rest);
    assert(clean(n, p + 1) =~= mach(p + 1, after(stack), stack));
}

/// A comma between entries.
proof fn lemma_comma(src: Seq<u8>, p: nat, stack: Seq<Context>)
    requires
        p < src.len(),
        src[p as int] == ascii::COMMA,
        progress::fits(src, mach(p, State::ExpectingEntry, stack)),
    ensures
        progress::fits(src, mach(p + 1, State::ExpectingEntry, stack)),
        run::run(src, mach(p, State::ExpectingEntry, stack)) == run::run(
            src,
            mach(p + 1, State::ExpectingEntry, stack),
        ),
{
    let m = mach(p, State::ExpectingEntry, stack);
    tokens::law_marks(src, p);
    queued::lemma_take(src, m, p, TokenKind::Comma, p, p + 1);
    let (event, n) = machine::step(src, m);
    queued::lemma_go(src, m, p + 1);
    let rest = run::run(src, clean(n, p + 1));
    assert(maybe(event) + n.queue + rest =~= rest);
    assert(clean(n, p + 1) =~= mach(p + 1, State::ExpectingEntry, stack));
}

/// What is written before an element or an entry changes nothing.
proof fn lemma_lead(
    src: Seq<u8>,
    p: nat,
    layout: Layout,
    mark: u8,
    i: nat,
    state: State,
    stack: Seq<Context>,
)
    requires
        mark == ascii::SPACE && state == State::ExpectingSequenceElement || mark == ascii::COMMA
            && state == State::ExpectingEntry,
        stands(src, p, document::lead(layout, mark, i)),
        mark == ascii::SPACE ==> p + document::lead(layout, mark, i).len() < src.len()
            && !tokens::is_blank(src[(p + document::lead(layout, mark, i).len()) as int]),
        progress::fits(src, mach(p, state, stack)),
    ensures
        ({
            let q = p + document::lead(layout, mark, i).len();
            &&& progress::fits(src, mach(q, state, stack))
            &&& run::run(src, mach(p, state, stack)) == run::run(src, mach(q, state, stack))
        }),
{
    let m = mach(p, state, stack);
    match layout {
        Layout::Lines => {
            bytes::lemma_byte(src, p, ascii::LF);
            queued::lemma_line_break(src, m, p);
            assert(clean(m, p + 1) =~= mach(p + 1, state, stack));
        },
        Layout::Tight => {
            if i > 0 {
                bytes::lemma_byte(src, p, mark);
                if mark == ascii::SPACE {
                    queued::lemma_space(src, m, p);
                    assert(clean(m, p + 1) =~= mach(p + 1, state, stack));
                } else {
                    lemma_comma(src, p, stack);
                }
            }
        },
    }
}

/// What is written behind the last of a list changes nothing.
proof fn lemma_trail(src: Seq<u8>, p: nat, layout: Layout, state: State, stack: Seq<Context>)
    requires
        state == State::ExpectingSequenceElement || state == State::ExpectingEntry,
        stands(src, p, document::trail(layout)),
        progress::fits(src, mach(p, state, stack)),
    ensures
        ({
            let q = p + document::trail(layout).len();
            &&& progress::fits(src, mach(q, state, stack))
            &&& run::run(src, mach(p, state, stack)) == run::run(src, mach(q, state, stack))
        }),
{
    let m = mach(p, state, stack);
    if layout is Lines {
        bytes::lemma_byte(src, p, ascii::LF);
        queued::lemma_line_break(src, m, p);
        assert(clean(m, p + 1) =~= mach(p + 1, state, stack));
    }
}

// --- what things start with ---

/// A value starts with a byte that is neither a blank nor a line break.
pub proof fn lemma_node_start(src: Seq<u8>, p: nat, node: Node, element: bool)
    requires
        document::node_ok(node, element),
        stands(src, p, document::node_bytes(node)),
    ensures
        p < src.len(),
        !tokens::is_blank(src[p as int]),
{
    let b = document::node_bytes(node);
    bytes::lemma_bytes(src, p, b);
    match node {
        Node::Scalar(s) => {
            lemma_scalar_start(s);
        },
        Node::Attributes(list) => {
            lemma_word_start(list[0].key);
            assert(b[0] == encode_utf8(list[0].key)[0]);
        },
        _ => {},
    }
    assert(b.len() > 0);
    assert(src[p + 0int] == b[0]);
}

/// A word starts with a byte that is no blank.
proof fn lemma_word_start(said: Seq<char>)
    requires
        document::is_word(said),
    ensures
        encode_utf8(said).len() > 0,
        !tokens::is_blank(encode_utf8(said)[0]),
{
    assert(!tokens::ends_bare(encode_utf8(said)[0]));
}

/// A scalar starts with a byte that is no blank.
proof fn lemma_scalar_start(s: Scalar)
    requires
        document::scalar_ok(s),
    ensures
        document::scalar_bytes(s).len() > 0,
        !tokens::is_blank(document::scalar_bytes(s)[0]),
{
    if let Scalar::Bare(said) = s {
        lemma_word_start(said);
    }
}

/// Behind an element stands another one, or the end of the sequence.
proof fn lemma_items_follow(
    src: Seq<u8>,
    e: nat,
    layout: Layout,
    items: Seq<Node>,
    i: nat,
)
    requires
        0 < i <= items.len(),
        stands(src, e, document::items_bytes(layout, items, i)),
    ensures
        settles(src, e),
{
    if i < items.len() {
        bytes::lemma_split3(
            src,
            e,
            document::lead(layout, ascii::SPACE, i),
            document::node_bytes(items[i as int]),
            document::items_bytes(layout, items, i + 1),
        );
        bytes::lemma_byte(
            src,
            e,
            if layout is Lines {
                ascii::LF
            } else {
                ascii::SPACE
            },
        );
    } else {
        bytes::lemma_split(src, e, document::trail(layout), seq![ascii::RPAREN]);
        if layout is Lines {
            bytes::lemma_byte(src, e, ascii::LF);
        } else {
            bytes::lemma_byte(src, e, ascii::RPAREN);
        }
    }
}

/// Behind an entry stands another one, or the end of the object.
proof fn lemma_entries_follow(
    src: Seq<u8>,
    e: nat,
    layout: Layout,
    entries: Seq<Entry>,
    i: nat,
)
    requires
        0 < i <= entries.len(),
        stands(src, e, document::entries_bytes(layout, entries, i)),
    ensures
        stops(src, e),
{
    if i < entries.len() {
        bytes::lemma_split3(
            src,
            e,
            document::lead(layout, ascii::COMMA, i),
            document::entry_bytes(entries[i as int]),
            document::entries_bytes(layout, entries, i + 1),
        );
        bytes::lemma_byte(
            src,
            e,
            if layout is Lines {
                ascii::LF
            } else {
                ascii::COMMA
            },
        );
    } else {
        bytes::lemma_split(src, e, document::trail(layout), seq![ascii::RBRACE]);
        if layout is Lines {
            bytes::lemma_byte(src, e, ascii::LF);
        } else {
            bytes::lemma_byte(src, e, ascii::RBRACE);
        }
    }
}

// --- values ---

/// A value of an entry, attributes left out.
proof fn lemma_value(src: Seq<u8>, p: nat, node: Node, key_span: Span, stack: Seq<Context>)
    requires
        document::node_ok(node, false),
        !(node is Attributes),
        stands(src, p, document::node_bytes(node)),
        stops(src, p + document::node_bytes(node).len()),
        key_span.end < p,
        good(stack),
        stack.len() > 0,
        stack.last() is Object,
        progress::fits(src, mach(p, State::AfterKey { key_span }, stack)),
    ensures
        ({
            let e = p + document::node_bytes(node).len();
            let next = mach(e, State::AfterValue, stack);
            &&& progress::fits(src, next)
            &&& run::run(src, mach(p, State::AfterKey { key_span }, stack))
                == document::node_events(node, p as int) + run::run(src, next)
        }),
    decreases node, 0nat,
{
    let m = mach(p, State::AfterKey { key_span }, stack);
    let e = p + document::node_bytes(node).len();
    let next = mach(e, State::AfterValue, stack);
    let rest = run::run(src, next);
    match node {
        Node::Sequence(layout, items) => {
            let inside = document::items_bytes(layout, items, 0);
            bytes::lemma_split(src, p, seq![ascii::LPAREN], inside);
            bytes::lemma_byte(src, p, ascii::LPAREN);
            lemma_open_value(src, p, false, key_span, stack);
            lemma_items(src, p + 1, layout, items, 0, stack);
            let start = seq![EventView::SequenceStart { span: document::span_at(p as int, 1) }];
            let events = document::items_events(layout, items, 0, p + 1int);
            queued::lemma_assoc(start, events, rest);
        },
        Node::Object(layout, entries) => {
            let inside = document::entries_bytes(layout, entries, 0);
            bytes::lemma_split(src, p, seq![ascii::LBRACE], inside);
            bytes::lemma_byte(src, p, ascii::LBRACE);
            lemma_open_value(src, p, true, key_span, stack);
            lemma_entries(src, p + 1, layout, entries, 0, stack);
            let start = seq![
                EventView::ObjectStart {
                    span: document::span_at(p as int, 1),
                    separator: Separator::Comma,
                },
            ];
            let events = document::entries_events(layout, entries, 0, p + 1int);
            queued::lemma_assoc(start, events, rest);
        },
        _ => {
            queued::lemma_flat_value(src, p, node, key_span, stack);
        },
    }
}

/// A scalar, unit or tag without brackets as an element.
proof fn lemma_flat_element(src: Seq<u8>, p: nat, node: Node, stack: Seq<Context>)
    requires
        node is Scalar || node is Unit || node is Tag || node is TagUnit || node is TagQuoted,
        document::node_ok(node, true),
        stands(src, p, document::node_bytes(node)),
        settles(src, p + document::node_bytes(node).len()),
        progress::fits(src, mach(p, State::ExpectingSequenceElement, stack)),
    ensures
        ({
            let e = p + document::node_bytes(node).len();
            let next = mach(e, State::ExpectingSequenceElement, stack);
            &&& progress::fits(src, next)
            &&& run::run(src, mach(p, State::ExpectingSequenceElement, stack))
                == document::node_events(node, p as int) + run::run(src, next)
        }),
{
    let m = mach(p, State::ExpectingSequenceElement, stack);
    let e = p + document::node_bytes(node).len();
    let next = mach(e, State::ExpectingSequenceElement, stack);
    let (event, n) = machine::step(src, m);
    if let Node::Scalar(s) = node {
        bytes::lemma_scalar(src, p, s);
        queued::lemma_take(src, m, p, bytes::token_kind(s), p, e);
        let span = document::span_at(p as int, document::scalar_bytes(s).len() as int);
        assert(emit::scalar_text(src, span, document::kind_of(s), ShortUnicode::Kept)
            == document::text_of(s));
        assert(n.queue =~= Seq::<EventView>::empty());
        queued::lemma_go(src, m, e);
        assert(clean(n, e) =~= next);
    } else {
        queued::lemma_flat_at(src, p, m, node);
        queued::lemma_take(src, m, p, TokenKind::At, p, p + 1);
        queued::lemma_go(src, m, e);
        assert(clean(n, e) =~= next);
    }
    assert(run::run(src, m) =~= document::node_events(node, p as int) + run::run(src, next));
}

/// A tag whose payload is in brackets, as an element.
proof fn lemma_block_element(
    src: Seq<u8>,
    p: nat,
    name: Seq<char>,
    brace: bool,
    stack: Seq<Context>,
)
    requires
        document::is_name(name),
        stands(
            src,
            p,
            document::tag_bytes(name) + seq![
                if brace {
                    ascii::LBRACE
                } else {
                    ascii::LPAREN
                },
            ],
        ),
        progress::fits(src, mach(p, State::ExpectingSequenceElement, stack)),
    ensures
        ({
            let m = mach(p, State::ExpectingSequenceElement, stack);
            let e = p + document::tag_bytes(name).len();
            let tag = document::tag_event(
                name,
                p as int,
                document::tag_bytes(name).len() as int,
            );
            let span = document::span_at(e as int, 1);
            if brace {
                let next = mach(
                    e + 1,
                    State::ExpectingEntry,
                    stack.push(Context::Object { implicit: false }),
                );
                &&& progress::fits(src, next)
                &&& run::run(src, m) == seq![
                    tag,
                    EventView::ObjectStart { span, separator: Separator::Comma },
                ] + run::run(src, next)
            } else {
                let next = mach(
                    e + 1,
                    State::ExpectingSequenceElement,
                    stack.push(Context::Sequence),
                );
                &&& progress::fits(src, next)
                &&& run::run(src, m) == seq![tag, EventView::SequenceStart { span }] + run::run(
                    src,
                    next,
                )
            }
        }),
{
    let m = mach(p, State::ExpectingSequenceElement, stack);
    let e = p + document::tag_bytes(name).len();
    let b = document::tag_bytes(name) + seq![
        if brace {
            ascii::LBRACE
        } else {
            ascii::LPAREN
        },
    ];
    bytes::lemma_bytes(src, p, b);
    assert(src[p + 0int] == b[0]);
    tokens::law_marks(src, p);
    bytes::lemma_next(src, p, TokenKind::At, p + 1);
    queued::lemma_take(src, m, p, TokenKind::At, p, p + 1);
    queued::lemma_fits(src, m, p + 1);
    queued::lemma_tag_block(src, p, clean(m, p + 1), name, brace);
    let (event, n) = machine::step(src, m);
    queued::lemma_go(src, m, e + 1);
    let rest = run::run(src, clean(n, e + 1));
    if brace {
        assert(clean(n, e + 1) =~= mach(
            e + 1,
            State::ExpectingEntry,
            stack.push(Context::Object { implicit: false }),
        ));
    } else {
        assert(clean(n, e + 1) =~= mach(
            e + 1,
            State::ExpectingSequenceElement,
            stack.push(Context::Sequence),
        ));
    }
    assert(maybe(event) + n.queue + rest =~= seq![event->0, n.queue[0]] + rest);
}

/// A tag with a sequence as its payload, as an element.
proof fn lemma_tag_sequence(
    src: Seq<u8>,
    p: nat,
    name: Seq<char>,
    layout: Layout,
    items: Seq<Node>,
    stack: Seq<Context>,
)
    requires
        document::is_name(name),
        forall|k: int| 0 <= k < items.len() ==> document::node_ok(#[trigger] items[k], true),
        stands(
            src,
            p,
            document::tag_bytes(name) + seq![ascii::LPAREN] + document::items_bytes(
                layout,
                items,
                0,
            ),
        ),
        good(stack),
        stack.len() > 0,
        stack.last() == Context::Sequence,
        progress::fits(src, mach(p, State::ExpectingSequenceElement, stack)),
    ensures
        ({
            let n = document::tag_bytes(name).len();
            let e = p + n + 1 + document::items_bytes(layout, items, 0).len();
            let next = mach(e, State::ExpectingSequenceElement, stack);
            &&& progress::fits(src, next)
            &&& run::run(src, mach(p, State::ExpectingSequenceElement, stack)) == seq![
                document::tag_event(name, p as int, n as int),
                EventView::SequenceStart { span: document::span_at(p + n as int, 1) },
            ] + document::items_events(layout, items, 0, p + n + 1int) + run::run(src, next)
        }),
    decreases items, items.len() + 1,
{
    let n = document::tag_bytes(name).len();
    let inside = document::items_bytes(layout, items, 0);
    let front = document::tag_bytes(name) + seq![ascii::LPAREN];
    assert(front.len() == n + 1);
    bytes::lemma_split(src, p, front, inside);
    lemma_block_element(src, p, name, false, stack);
    lemma_items(src, p + n + 1, layout, items, 0, stack);
    let e = p + n + 1 + inside.len();
    let rest = run::run(src, mach(e, State::ExpectingSequenceElement, stack));
    let events = document::items_events(layout, items, 0, p + n + 1int);
    let start = seq![
        document::tag_event(name, p as int, n as int),
        EventView::SequenceStart { span: document::span_at(p + n as int, 1) },
    ];
    queued::lemma_assoc(start, events, rest);
}

/// A tag with an object as its payload, as an element.
proof fn lemma_tag_object(
    src: Seq<u8>,
    p: nat,
    name: Seq<char>,
    layout: Layout,
    entries: Seq<Entry>,
    stack: Seq<Context>,
)
    requires
        document::is_name(name),
        forall|k: int| 0 <= k < entries.len() ==> document::entry_ok(#[trigger] entries[k], false),
        stands(
            src,
            p,
            document::tag_bytes(name) + seq![ascii::LBRACE] + document::entries_bytes(
                layout,
                entries,
                0,
            ),
        ),
        good(stack),
        stack.len() > 0,
        stack.last() == Context::Sequence,
        progress::fits(src, mach(p, State::ExpectingSequenceElement, stack)),
    ensures
        ({
            let n = document::tag_bytes(name).len();
            let e = p + n + 1 + document::entries_bytes(layout, entries, 0).len();
            let next = mach(e, State::ExpectingSequenceElement, stack);
            &&& progress::fits(src, next)
            &&& run::run(src, mach(p, State::ExpectingSequenceElement, stack)) == seq![
                document::tag_event(name, p as int, n as int),
                EventView::ObjectStart { span: document::span_at(p + n as int, 1), separator: Separator::Comma },
            ] + document::entries_events(layout, entries, 0, p + n + 1int) + run::run(src, next)
        }),
    decreases entries, entries.len() + 1,
{
    let n = document::tag_bytes(name).len();
    let inside = document::entries_bytes(layout, entries, 0);
    let front = document::tag_bytes(name) + seq![ascii::LBRACE];
    assert(front.len() == n + 1);
    bytes::lemma_split(src, p, front, inside);
    lemma_block_element(src, p, name, true, stack);
    lemma_entries(src, p + n + 1, layout, entries, 0, stack);
    let e = p + n + 1 + inside.len();
    let rest = run::run(src, mach(e, State::ExpectingSequenceElement, stack));
    let events = document::entries_events(layout, entries, 0, p + n + 1int);
    let start = seq![
        document::tag_event(name, p as int, n as int),
        EventView::ObjectStart { span: document::span_at(p + n as int, 1), separator: Separator::Comma },
    ];
    queued::lemma_assoc(start, events, rest);
}

/// An element of a sequence.
#[verifier::rlimit(50)]
proof fn lemma_element(src: Seq<u8>, p: nat, node: Node, stack: Seq<Context>)
    requires
        document::node_ok(node, true),
        stands(src, p, document::node_bytes(node)),
        settles(src, p + document::node_bytes(node).len()),
        good(stack),
        stack.len() > 0,
        stack.last() == Context::Sequence,
        progress::fits(src, mach(p, State::ExpectingSequenceElement, stack)),
    ensures
        ({
            let e = p + document::node_bytes(node).len();
            let next = mach(e, State::ExpectingSequenceElement, stack);
            &&& progress::fits(src, next)
            &&& run::run(src, mach(p, State::ExpectingSequenceElement, stack))
                == document::node_events(node, p as int) + run::run(src, next)
        }),
    decreases node, 1nat,
{
    let m = mach(p, State::ExpectingSequenceElement, stack);
    let e = p + document::node_bytes(node).len();
    let next = mach(e, State::ExpectingSequenceElement, stack);
    let rest = run::run(src, next);
    match node {
        Node::Sequence(layout, items) => {
            let inside = document::items_bytes(layout, items, 0);
            bytes::lemma_split(src, p, seq![ascii::LPAREN], inside);
            bytes::lemma_byte(src, p, ascii::LPAREN);
            lemma_open_element(src, p, false, stack);
            lemma_items(src, p + 1, layout, items, 0, stack);
            let start = seq![EventView::SequenceStart { span: document::span_at(p as int, 1) }];
            let events = document::items_events(layout, items, 0, p + 1int);
            queued::lemma_assoc(start, events, rest);
        },
        Node::Object(layout, entries) => {
            let inside = document::entries_bytes(layout, entries, 0);
            bytes::lemma_split(src, p, seq![ascii::LBRACE], inside);
            bytes::lemma_byte(src, p, ascii::LBRACE);
            lemma_open_element(src, p, true, stack);
            lemma_entries(src, p + 1, layout, entries, 0, stack);
            let start = seq![
                EventView::ObjectStart {
                    span: document::span_at(p as int, 1),
                    separator: Separator::Comma,
                },
            ];
            let events = document::entries_events(layout, entries, 0, p + 1int);
            queued::lemma_assoc(start, events, rest);
        },
        Node::TagSequence(name, layout, items) => {
            let b = document::items_bytes(layout, items, 0);
            assert(document::node_bytes(node) == document::tag_bytes(name) + seq![ascii::LPAREN]
                + b);
            lemma_tag_sequence(src, p, name, layout, items, stack);
        },
        Node::TagObject(name, layout, entries) => {
            let b = document::entries_bytes(layout, entries, 0);
            assert(document::node_bytes(node) == document::tag_bytes(name) + seq![ascii::LBRACE]
                + b);
            lemma_tag_object(src, p, name, layout, entries, stack);
        },
        _ => {
            lemma_flat_element(src, p, node, stack);
        },
    }
}

/// The elements from number `i` on, and the end of the sequence.
proof fn lemma_items(
    src: Seq<u8>,
    p: nat,
    layout: Layout,
    items: Seq<Node>,
    i: nat,
    stack: Seq<Context>,
)
    requires
        i <= items.len(),
        forall|k: int| 0 <= k < items.len() ==> document::node_ok(#[trigger] items[k], true),
        stands(src, p, document::items_bytes(layout, items, i)),
        good(stack),
        stack.len() > 0,
        progress::fits(
            src,
            mach(p, State::ExpectingSequenceElement, stack.push(Context::Sequence)),
        ),
    ensures
        ({
            let e = p + document::items_bytes(layout, items, i).len();
            let next = mach(e, after(stack), stack);
            &&& progress::fits(src, next)
            &&& run::run(
                src,
                mach(p, State::ExpectingSequenceElement, stack.push(Context::Sequence)),
            ) == document::items_events(layout, items, i, p as int) + run::run(src, next)
        }),
    decreases items, items.len() - i,
{
    let inner = stack.push(Context::Sequence);
    let state = State::ExpectingSequenceElement;
    let end = p + document::items_bytes(layout, items, i).len();
    let rest = run::run(src, mach(end, after(stack), stack));
    if i < items.len() {
        let node = items[i as int];
        let lead = document::lead(layout, ascii::SPACE, i);
        let b = document::node_bytes(node);
        let more = document::items_bytes(layout, items, i + 1);
        bytes::lemma_split3(src, p, lead, b, more);
        let q = p + lead.len();
        let e = q + b.len();
        lemma_node_start(src, q, node, true);
        lemma_lead(src, p, layout, ascii::SPACE, i, state, inner);
        lemma_items_follow(src, e, layout, items, i + 1);
        lemma_element(src, q, node, inner);
        lemma_items(src, e, layout, items, i + 1, stack);
        let first = document::node_events(node, q as int);
        let later = document::items_events(layout, items, i + 1, e as int);
        queued::lemma_assoc(first, later, rest);
    } else {
        let trail = document::trail(layout);
        bytes::lemma_split(src, p, trail, seq![ascii::RPAREN]);
        let q = p + trail.len();
        bytes::lemma_byte(src, q, ascii::RPAREN);
        lemma_trail(src, p, layout, state, inner);
        lemma_close(src, q, false, stack);
    }
}

/// The entries from number `i` on, and the end of the object.
proof fn lemma_entries(
    src: Seq<u8>,
    p: nat,
    layout: Layout,
    entries: Seq<Entry>,
    i: nat,
    stack: Seq<Context>,
)
    requires
        i <= entries.len(),
        forall|k: int| 0 <= k < entries.len() ==> document::entry_ok(#[trigger] entries[k], false),
        stands(src, p, document::entries_bytes(layout, entries, i)),
        good(stack),
        stack.len() > 0,
        progress::fits(
            src,
            mach(p, State::ExpectingEntry, stack.push(Context::Object { implicit: false })),
        ),
    ensures
        ({
            let e = p + document::entries_bytes(layout, entries, i).len();
            let next = mach(e, after(stack), stack);
            &&& progress::fits(src, next)
            &&& run::run(
                src,
                mach(p, State::ExpectingEntry, stack.push(Context::Object { implicit: false })),
            ) == document::entries_events(layout, entries, i, p as int) + run::run(src, next)
        }),
    decreases entries, entries.len() - i,
{
    let inner = stack.push(Context::Object { implicit: false });
    let state = State::ExpectingEntry;
    let end = p + document::entries_bytes(layout, entries, i).len();
    let rest = run::run(src, mach(end, after(stack), stack));
    if i < entries.len() {
        let entry = entries[i as int];
        let lead = document::lead(layout, ascii::COMMA, i);
        let b = document::entry_bytes(entry);
        let more = document::entries_bytes(layout, entries, i + 1);
        bytes::lemma_split3(src, p, lead, b, more);
        let q = p + lead.len();
        let e = q + b.len();
        lemma_lead(src, p, layout, ascii::COMMA, i, state, inner);
        lemma_entries_follow(src, e, layout, entries, i + 1);
        lemma_entry(src, q, entry, inner, false);
        lemma_entries(src, e, layout, entries, i + 1, stack);
        let first = document::entry_events(entry, q as int);
        let later = document::entries_events(layout, entries, i + 1, e as int);
        queued::lemma_assoc(first, later, rest);
    } else {
        let trail = document::trail(layout);
        bytes::lemma_split(src, p, trail, seq![ascii::RBRACE]);
        let q = p + trail.len();
        bytes::lemma_byte(src, q, ascii::RBRACE);
        lemma_trail(src, p, layout, state, inner);
        lemma_close(src, q, true, stack);
    }
}

/// A key, with the doc comments that wait for its entry.
proof fn lemma_key(
    src: Seq<u8>,
    p: nat,
    key: Key,
    stack: Seq<Context>,
    docs: Seq<Span>,
    outermost: bool,
)
    requires
        document::key_ok(key, outermost),
        stack.len() > 0,
        stack.last() == (Context::Object { implicit: outermost }),
        stands(src, p, document::key_bytes(key)),
        queued::key_follows(src, p + document::key_bytes(key).len()),
        progress::fits(src, before(p, stack, docs)),
    ensures
        ({
            let e = p + document::key_bytes(key).len();
            let span = document::span_at(p as int, document::key_bytes(key).len() as int);
            let next = mach(e, State::AfterKey { key_span: span }, stack);
            &&& progress::fits(src, next)
            &&& run::run(src, before(p, stack, docs)) == seq![EventView::EntryStart]
                + machine::doc_events(src, docs) + seq![document::key_event(key, p as int)]
                + run::run(src, next)
        }),
{
    if let Key::Scalar(s) = key {
        queued::lemma_scalar_key(src, p, s, stack, docs);
    } else {
        queued::lemma_at_key(src, p, key, stack, docs, outermost);
    }
}

/// What follows a key: its value, and the end of the entry.
proof fn lemma_rest_of_entry(
    src: Seq<u8>,
    p: nat,
    entry: Entry,
    key_span: Span,
    stack: Seq<Context>,
)
    requires
        document::entry_ok(entry, true) || document::entry_ok(entry, false),
        stands(
            src,
            p,
            match entry.value {
                Some(node) => seq![ascii::SPACE] + document::node_bytes(node),
                None => Seq::empty(),
            },
        ),
        stops(
            src,
            p + match entry.value {
                Some(node) => seq![ascii::SPACE] + document::node_bytes(node),
                None => Seq::empty(),
            }.len(),
        ),
        key_span.end == p,
        good(stack),
        stack.len() > 0,
        stack.last() is Object,
        progress::fits(src, mach(p, State::AfterKey { key_span }, stack)),
    ensures
        ({
            let e = p + match entry.value {
                Some(node) => seq![ascii::SPACE] + document::node_bytes(node),
                None => Seq::empty(),
            }.len();
            let next = mach(e, State::ExpectingEntry, stack);
            &&& progress::fits(src, next)
            &&& run::run(src, mach(p, State::AfterKey { key_span }, stack)) == match entry.value {
                Some(node) => document::node_events(node, p + 1int),
                None => seq![EventView::Unit { span: key_span }],
            } + seq![EventView::EntryEnd] + run::run(src, next)
        }),
    decreases entry, 0nat,
{
    let m = mach(p, State::AfterKey { key_span }, stack);
    let entry_end = seq![EventView::EntryEnd];
    match entry.value {
        Some(node) => {
            bytes::lemma_split(src, p, seq![ascii::SPACE], document::node_bytes(node));
            bytes::lemma_byte(src, p, ascii::SPACE);
            lemma_node_start(src, p + 1, node, false);
            queued::lemma_space(src, m, p);
            assert(clean(m, p + 1) =~= mach(p + 1, State::AfterKey { key_span }, stack));
            let e = p + 1 + document::node_bytes(node).len();
            let rest = run::run(src, mach(e, State::ExpectingEntry, stack));
            let events = document::node_events(node, p + 1int);
            if let Node::Attributes(list) = node {
                queued::lemma_attributes(src, p + 1, list, key_span, stack);
            } else {
                lemma_value(src, p + 1, node, key_span, stack);
                queued::lemma_after_value(src, e, stack);
                queued::lemma_assoc(events, entry_end, rest);
            }
        },
        None => {
            let (kind, e2) = queued::lemma_stops(src, p);
            queued::lemma_take(src, m, p, kind, p, e2);
            let (event, n) = machine::step(src, m);
            let t = Token { kind, span: Span { start: p as u32, end: e2 as u32 } };
            let unit = EventView::Unit { span: key_span };
            assert(n.buffer =~= seq![t]);
            assert(n.queue =~= seq![unit, EventView::EntryEnd]);
            queued::lemma_go(src, m, p);
            let next = mach(p, State::ExpectingEntry, stack);
            assert(clean(n, p) =~= next);
            let rest = run::run(src, next);
            assert(maybe(event) + n.queue + rest =~= seq![unit] + entry_end + rest);
        },
    }
}

/// An entry.
pub proof fn lemma_entry(src: Seq<u8>, p: nat, entry: Entry, stack: Seq<Context>, outermost: bool)
    requires
        document::entry_ok(entry, outermost),
        stands(src, p, document::entry_bytes(entry)),
        stops(src, p + document::entry_bytes(entry).len()),
        good(stack),
        stack.len() > 0,
        stack.last() == (Context::Object { implicit: outermost }),
        progress::fits(src, mach(p, State::ExpectingEntry, stack)),
    ensures
        ({
            let e = p + document::entry_bytes(entry).len();
            let next = mach(e, State::ExpectingEntry, stack);
            &&& progress::fits(src, next)
            &&& run::run(src, mach(p, State::ExpectingEntry, stack)) == document::entry_events(
                entry,
                p as int,
            ) + run::run(src, next)
        }),
    decreases entry, 1nat,
{
    let notes = document::notes_bytes(entry.notes, 0);
    let key = document::key_bytes(entry.key);
    let value = match entry.value {
        Some(node) => seq![ascii::SPACE] + document::node_bytes(node),
        None => Seq::empty(),
    };
    bytes::lemma_split3(src, p, notes, key, value);
    let k = p + notes.len();
    let v = k + key.len();
    let e = v + value.len();
    assert(before(p, stack, Seq::empty()) == mach(p, State::ExpectingEntry, stack));
    let docs = queued::lemma_notes(src, p, entry.notes, 0, stack, Seq::empty());
    if let Some(node) = entry.value {
        bytes::lemma_split(src, v, seq![ascii::SPACE], document::node_bytes(node));
        bytes::lemma_byte(src, v, ascii::SPACE);
        lemma_node_start(src, v + 1, node, false);
    }
    lemma_key(src, k, entry.key, stack, docs, outermost);
    let span = document::span_at(k as int, key.len() as int);
    lemma_rest_of_entry(src, v, entry, span, stack);
    let comments = document::comment_events(entry.notes, 0, p as int);
    let in_docs = document::doc_events(entry.notes, 0, p as int);
    assert(machine::doc_events(src, Seq::empty()) + in_docs =~= in_docs);
    let start = seq![EventView::EntryStart];
    let key_event = seq![document::key_event(entry.key, k as int)];
    let in_value = match entry.value {
        Some(node) => document::node_events(node, v + 1int),
        None => seq![EventView::Unit { span }],
    };
    let rest = run::run(src, mach(e, State::ExpectingEntry, stack));
    let entry_end = seq![EventView::EntryEnd];
    assert(comments + (start + in_docs + key_event + (in_value + entry_end + rest)) =~= comments
        + start + in_docs + key_event + in_value + entry_end + rest);
}

// --- documents ---

/// The entries of a document from number `i` on, up to the end of the source.
pub proof fn lemma_document(src: Seq<u8>, p: nat, entries: Seq<Entry>, i: nat)
    requires
        0 < i <= entries.len(),
        forall|k: int| 0 <= k < entries.len() ==> document::entry_ok(#[trigger] entries[k], true),
        stands(src, p, document::document_bytes(entries, i)),
        p + document::document_bytes(entries, i).len() == src.len(),
        progress::fits(
            src,
            mach(p, State::ExpectingEntry, seq![Context::Object { implicit: true }]),
        ),
    ensures
        run::run(
            src,
            mach(p, State::ExpectingEntry, seq![Context::Object { implicit: true }]),
        ) == document::document_entries(entries, i, p as int) + seq![
            EventView::ObjectEnd { span: document::span_at(src.len() as int, 0) },
            EventView::DocumentEnd,
        ],
    decreases entries.len() - i,
{
    let stack = seq![Context::Object { implicit: true }];
    let m = mach(p, State::ExpectingEntry, stack);
    let ending = seq![
        EventView::ObjectEnd { span: document::span_at(src.len() as int, 0) },
        EventView::DocumentEnd,
    ];
    if i < entries.len() {
        let entry = entries[i as int];
        let b = document::entry_bytes(entry);
        let more = document::document_bytes(entries, i + 1);
        bytes::lemma_split3(src, p, seq![ascii::LF], b, more);
        bytes::lemma_byte(src, p, ascii::LF);
        queued::lemma_line_break(src, m, p);
        assert(clean(m, p + 1) =~= mach(p + 1, State::ExpectingEntry, stack));
        let e = p + 1 + b.len();
        lemma_document_follows(src, e, entries, i + 1);
        lemma_entry(src, p + 1, entry, stack, true);
        lemma_document(src, e, entries, i + 1);
        let first = document::entry_events(entry, p + 1int);
        let later = document::document_entries(entries, i + 1, e as int);
        queued::lemma_assoc(first, later, ending);
    } else {
        lemma_end(src, p, stack);
        assert(document::document_entries(entries, i, p as int) + ending =~= ending);
    }
}

/// Behind an entry of a document stands another one, or the end of the source.
pub proof fn lemma_document_follows(src: Seq<u8>, e: nat, entries: Seq<Entry>, i: nat)
    requires
        0 < i <= entries.len(),
        stands(src, e, document::document_bytes(entries, i)),
        e + document::document_bytes(entries, i).len() == src.len(),
    ensures
        stops(src, e),
{
    if i < entries.len() {
        let b = document::entry_bytes(entries[i as int]);
        bytes::lemma_split3(
            src,
            e,
            seq![ascii::LF],
            b,
            document::document_bytes(entries, i + 1),
        );
        bytes::lemma_byte(src, e, ascii::LF);
    }
}

/// The end of a document.
pub proof fn lemma_end(src: Seq<u8>, p: nat, stack: Seq<Context>)
    requires
        stack == seq![Context::Object { implicit: true }],
        p == src.len(),
        progress::fits(src, mach(p, State::ExpectingEntry, stack)),
    ensures
        run::run(src, mach(p, State::ExpectingEntry, stack)) == seq![
            EventView::ObjectEnd { span: document::span_at(p as int, 0) },
            EventView::DocumentEnd,
        ],
{
    let m = mach(p, State::ExpectingEntry, stack);
    queued::lemma_take(src, m, p, TokenKind::Eof, p, p);
    let (event, n) = machine::step(src, m);
    assert(n.stack =~= Seq::empty());
    assert(n.queue =~= seq![EventView::DocumentEnd]);
    queued::lemma_go(src, m, p);
    nesting::lemma_done(src, clean(n, p));
    assert(maybe(event) + n.queue + Seq::<EventView>::empty() =~= seq![
        EventView::ObjectEnd { span: document::span_at(p as int, 0) },
        EventView::DocumentEnd,
    ]);
}

/// The start of a document that starts with an entry.
pub proof fn lemma_start(src: Seq<u8>, kind: TokenKind, e: nat)
    requires
        lexer::source_fits(src),
        next_is(src, 0, kind, 0, e),
        kind == TokenKind::BareScalar || kind == TokenKind::QuotedScalar || kind
            == TokenKind::RawScalar || kind == TokenKind::At,
    ensures
        ({
            let next = mach(0, State::ExpectingEntry, seq![Context::Object { implicit: true }]);
            &&& progress::fits(src, next)
            &&& run::run(src, run::start(false)) == seq![
                EventView::DocumentStart,
                EventView::ObjectStart {
                    span: document::span_at(0, 0),
                    separator: Separator::Newline,
                },
            ] + run::run(src, next)
        }),
{
    run::lemma_start(src, false);
    let m0 = run::start(false);
    let n0 = machine::step(src, m0).1;
    queued::lemma_go(src, m0, 0);
    let m1 = mach(0, State::BeforeRoot, Seq::empty());
    assert(clean(n0, 0) =~= m1);
    queued::lemma_take(src, m1, 0, kind, 0, e);
    let (event, n1) = machine::step(src, m1);
    let t = Token { kind, span: Span { start: 0, end: e as u32 } };
    assert(n1.buffer =~= seq![t]);
    assert(n1.queue =~= Seq::<EventView>::empty());
    queued::lemma_go(src, m1, 0);
    let next = mach(0, State::ExpectingEntry, seq![Context::Object { implicit: true }]);
    assert(n1.stack =~= next.stack);
    assert(clean(n1, 0) =~= next);
    let rest = run::run(src, next);
    assert(maybe(Some(EventView::DocumentStart)) + n0.queue + (maybe(event) + n1.queue + rest)
        =~= seq![EventView::DocumentStart, event->0] + rest);
}

/// The start of a document whose first value stands behind a key and a space.
pub proof fn lemma_first_key(src: Seq<u8>, key: Scalar, stack: Seq<Context>)
    requires
        lexer::source_fits(src),
        document::scalar_ok(key),
        stands(src, 0, document::scalar_bytes(key)),
        document::scalar_bytes(key).len() + 1 < src.len(),
        src[document::scalar_bytes(key).len() as int] == ascii::SPACE,
        !tokens::is_blank(src[document::scalar_bytes(key).len() + 1int]),
        stack == seq![Context::Object { implicit: true }],
    ensures
        ({
            let n = document::scalar_bytes(key).len();
            let next = mach(n + 1, State::AfterKey { key_span: document::span_at(0, n as int) }, stack);
            &&& progress::fits(src, next)
            &&& run::run(src, run::start(false)) == seq![
                EventView::DocumentStart,
                EventView::ObjectStart { span: document::span_at(0, 0), separator: Separator::Newline },
                EventView::EntryStart,
                document::key_event(Key::Scalar(key), 0),
            ] + run::run(src, next)
        }),
{
    let b = document::scalar_bytes(key);
    let v = b.len() + 1;
    bytes::lemma_scalar(src, 0, key);
    lemma_start(src, bytes::token_kind(key), b.len());
    queued::lemma_scalar_key(src, 0, key, stack, Seq::empty());
    let key_span = document::span_at(0, b.len() as int);
    let m = mach(b.len(), State::AfterKey { key_span }, stack);
    queued::lemma_space(src, m, b.len());
    let m1 = mach(v, State::AfterKey { key_span }, stack);
    assert(clean(m, v) =~= m1);
    let rest = run::run(src, m1);
    assert(machine::doc_events(src, Seq::empty()) =~= Seq::<EventView>::empty());
    let all = run::run(src, run::start(false));
    let start = seq![
        EventView::DocumentStart,
        EventView::ObjectStart { span: document::span_at(0, 0), separator: Separator::Newline },
        EventView::EntryStart,
        document::key_event(Key::Scalar(key), 0),
    ];
    assert(all =~= start + rest);
}

/// The events of a document of one entry, joined.
pub proof fn lemma_joined(key: EventView, value: EventView, close: EventView)
    ensures
        ({
            let root = EventView::ObjectStart {
                span: document::span_at(0, 0),
                separator: Separator::Newline,
            };
            seq![EventView::DocumentStart, root, EventView::EntryStart, key] + (seq![value] + (seq![
                EventView::EntryEnd,
            ] + seq![close, EventView::DocumentEnd])) == seq![
                EventView::DocumentStart,
                root,
                EventView::EntryStart,
                key,
                value,
                EventView::EntryEnd,
                close,
                EventView::DocumentEnd,
            ]
        }),
{
}

/// The parser with a queue reads from every document, as it is written, the events
/// that it is made of: keys and scalars that say their texts, however they are
/// written, and sequences, objects, tags and attributes with what they hold.
pub proof fn law_written(src: Seq<u8>, entries: Seq<Entry>)
    requires
        lexer::source_fits(src),
        entries.len() > 0,
        entries[0].notes.len() == 0,
        forall|k: int| 0 <= k < entries.len() ==> document::entry_ok(#[trigger] entries[k], true),
        src == document::document_bytes(entries, 0),
    ensures
        run::run(src, run::start(false)) == document::document_events(entries),
{
    let stack = seq![Context::Object { implicit: true }];
    let entry = entries[0];
    let b = document::entry_bytes(entry);
    let more = document::document_bytes(entries, 1);
    assert(src.subrange(0, src.len() as int) =~= src);
    bytes::lemma_split(src, 0, b, more);
    let e = b.len();
    lemma_document_follows(src, e, entries, 1);
    let (kind, k) = lemma_first(src, entry);
    lemma_start(src, kind, k);
    lemma_entry(src, 0, entry, stack, true);
    lemma_document(src, e, entries, 1);
    let start = seq![
        EventView::DocumentStart,
        EventView::ObjectStart { span: document::span_at(0, 0), separator: Separator::Newline },
    ];
    let first = document::entry_events(entry, 0);
    let later = document::document_entries(entries, 1, e as int);
    let ending = seq![
        EventView::ObjectEnd { span: document::span_at(src.len() as int, 0) },
        EventView::DocumentEnd,
    ];
    queued::lemma_assoc(first, later, ending);
    queued::lemma_assoc(start, first + later, ending);
}

/// The first token of a document.
pub proof fn lemma_first(src: Seq<u8>, entry: Entry) -> (r: (TokenKind, nat))
    requires
        src.len() <= u32::MAX,
        document::entry_ok(entry, true),
        entry.notes.len() == 0,
        stands(src, 0, document::entry_bytes(entry)),
        stops(src, document::entry_bytes(entry).len()),
    ensures
        next_is(src, 0, r.0, 0, r.1),
        r.0 == TokenKind::BareScalar || r.0 == TokenKind::QuotedScalar || r.0
            == TokenKind::RawScalar || r.0 == TokenKind::At,
{
    let notes = document::notes_bytes(entry.notes, 0);
    let key = document::key_bytes(entry.key);
    let value = match entry.value {
        Some(node) => seq![ascii::SPACE] + document::node_bytes(node),
        None => Seq::empty(),
    };
    bytes::lemma_split3(src, 0, notes, key, value);
    assert(notes.len() == 0);
    if let Some(node) = entry.value {
        bytes::lemma_split(src, key.len(), seq![ascii::SPACE], document::node_bytes(node));
        bytes::lemma_byte(src, key.len(), ascii::SPACE);
    }
    if let Key::Scalar(s) = entry.key {
        bytes::lemma_scalar(src, 0, s);
        (bytes::token_kind(s), key.len())
    } else {
        bytes::lemma_bytes(src, 0, key);
        assert(src[0 + 0int] == key[0]);
        tokens::law_marks(src, 0);
        (TokenKind::At, 1)
    }
}

/// Where an opening bracket adjoins the name of a tag in the place of a value, it
/// starts the payload of the tag: the start of the object or the sequence is the
/// event after that of the tag, whatever follows.
#[verifier::rlimit(50)]
#[verifier::spinoff_prover]
pub proof fn law_adjoining_bracket(src: Seq<u8>, key: Scalar, name: Seq<char>, brace: bool)
    requires
        lexer::source_fits(src),
        document::scalar_ok(key),
        document::is_name(name),
        stands(
            src,
            0,
            document::scalar_bytes(key) + seq![ascii::SPACE] + (document::tag_bytes(name) + seq![
                if brace {
                    ascii::LBRACE
                } else {
                    ascii::LPAREN
                },
            ]),
        ),
    ensures
        ({
            let v = document::scalar_bytes(key).len() + 1;
            let n = document::tag_bytes(name).len();
            let span = document::span_at(v + n as int, 1);
            let start = seq![
                EventView::DocumentStart,
                EventView::ObjectStart {
                    span: document::span_at(0, 0),
                    separator: Separator::Newline,
                },
                EventView::EntryStart,
                document::key_event(Key::Scalar(key), 0),
                document::tag_event(name, v as int, n as int),
                if brace {
                    EventView::ObjectStart { span, separator: Separator::Comma }
                } else {
                    EventView::SequenceStart { span }
                },
            ];
            start.is_prefix_of(run::run(src, run::start(false)))
        }),
{
    let b = document::scalar_bytes(key);
    let bracket = if brace {
        ascii::LBRACE
    } else {
        ascii::LPAREN
    };
    let tagged = document::tag_bytes(name) + seq![bracket];
    bytes::lemma_split3(src, 0, b, seq![ascii::SPACE], tagged);
    bytes::lemma_byte(src, b.len(), ascii::SPACE);
    let v = b.len() + 1;
    let n = document::tag_bytes(name).len();
    bytes::lemma_bytes(src, v, tagged);
    assert(src[v + 0int] == tagged[0]);
    bytes::lemma_scalar(src, 0, key);
    lemma_start(src, bytes::token_kind(key), b.len());
    let stack = seq![Context::Object { implicit: true }];
    queued::lemma_scalar_key(src, 0, key, stack, Seq::empty());
    let span = document::span_at(0, b.len() as int);
    let m = mach(b.len(), State::AfterKey { key_span: span }, stack);
    queued::lemma_space(src, m, b.len());
    let m1 = mach(v, State::AfterKey { key_span: span }, stack);
    assert(clean(m, v) =~= m1);
    tokens::law_marks(src, v);
    queued::lemma_take(src, m1, v, TokenKind::At, v, v + 1);
    queued::lemma_fits(src, m1, v + 1);
    queued::lemma_tag_block(src, v, clean(m1, v + 1), name, brace);
    let (event, n1) = machine::step(src, m1);
    queued::lemma_go(src, m1, v + n + 1);
    let rest = run::run(src, clean(n1, v + n + 1));
    let all = run::run(src, run::start(false));
    let key_event = document::key_event(Key::Scalar(key), 0);
    assert(machine::doc_events(src, Seq::empty()) =~= Seq::<EventView>::empty());
    let root = EventView::ObjectStart {
        span: document::span_at(0, 0),
        separator: Separator::Newline,
    };
    let start = seq![
        EventView::DocumentStart,
        root,
        EventView::EntryStart,
        key_event,
        event->0,
        n1.queue[0],
    ];
    assert(all =~= start + rest);
}

} // verus!
