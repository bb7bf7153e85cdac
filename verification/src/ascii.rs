//! The ASCII bytes that Styx gives a meaning.
use vstd::prelude::*;

verus! {

/// tab
pub const TAB: u8 = 0x09;

/// line feed
pub const LF: u8 = 0x0a;

/// carriage return
pub const CR: u8 = 0x0d;

/// space
pub const SPACE: u8 = 0x20;

/// `"`
pub const QUOTE: u8 = 0x22;

/// `#`
pub const HASH: u8 = 0x23;

/// `(`
pub const LPAREN: u8 = 0x28;

/// `)`
pub const RPAREN: u8 = 0x29;

/// `,`
pub const COMMA: u8 = 0x2c;

/// `-`
pub const HYPHEN: u8 = 0x2d;

/// `.`
pub const DOT: u8 = 0x2e;

/// `/`
pub const SLASH: u8 = 0x2f;

/// `0`
pub const DIGIT_0: u8 = 0x30;

/// `9`
pub const DIGIT_9: u8 = 0x39;

/// `<`
pub const LT: u8 = 0x3c;

/// `=`
pub const EQUALS: u8 = 0x3d;

/// `>`
pub const GT: u8 = 0x3e;

/// `@`
pub const AT: u8 = 0x40;

/// `A`
pub const UPPER_A: u8 = 0x41;

/// `F`
pub const UPPER_F: u8 = 0x46;

/// `Z`
pub const UPPER_Z: u8 = 0x5a;

/// `\`
pub const BACKSLASH: u8 = 0x5c;

/// `_`
pub const UNDERSCORE: u8 = 0x5f;

/// `a`
pub const LOWER_A: u8 = 0x61;

/// `f`
pub const LOWER_F: u8 = 0x66;

/// `n`
pub const LOWER_N: u8 = 0x6e;

/// `r`
pub const LOWER_R: u8 = 0x72;

/// `t`
pub const LOWER_T: u8 = 0x74;

/// `u`
pub const LOWER_U: u8 = 0x75;

/// `z`
pub const LOWER_Z: u8 = 0x7a;

/// `{`
pub const LBRACE: u8 = 0x7b;

/// `}`
pub const RBRACE: u8 = 0x7d;

} // verus!
