//! Parsing and expansion of URI Templates as defined by RFC 6570, up to and
//! including Level 4.
//!
//! A [`Template`] is parsed from text with [`Template::parse`] and expanded
//! with [`Template::expand`], given the [`Values`] of its variables.

pub mod codec;
pub mod string;
pub mod template;
pub mod value;

pub use self::{
    string::satisfy::{
        is_general_delimiter_ascii,
        is_reserved_ascii,
        is_sub_delimiter_ascii,
        is_unreserved_ascii,
    },
    template::{
        expand::{
            Expand,
            ExpandError,
        },
        parse::{
            Parse,
            ParseError,
            TryParse,
        },
        Component,
        Expression,
        Literal,
        Modifier,
        Template,
    },
    value::{
        Value,
        Values,
    },
};
