//! The choice of a tokenizer by the name of its encoding.

use crate::text::{chars_of, same_chars};
use vstd::prelude::*;

verus! {

/// The encodings by which tokens can be counted.
#[derive(Clone, Copy, PartialEq, Eq, Debug)]
pub enum Encoding {
    Cl100k,
    P50k,
    P50kEdit,
    R50k,
}

/// The encoding that a name stands for: `p50k`, `p50k_edit`, and `r50k` or
/// `gpt2` for theirs; any other name, and no name, for `cl100k`.
pub open spec fn encoding_named(name: Option<Seq<char>>) -> Encoding {
    match name {
        Some(n) => if n == "p50k"@ {
            Encoding::P50k
        } else if n == "p50k_edit"@ {
            Encoding::P50kEdit
        } else if n == "r50k"@ || n == "gpt2"@ {
            Encoding::R50k
        } else {
            Encoding::Cl100k
        },
        None => Encoding::Cl100k,
    }
}

/// The models that an encoding is used for.
pub open spec fn model_info_text(encoding: Encoding) -> Seq<char> {
    match encoding {
        Encoding::Cl100k => "ChatGPT models, text-embedding-ada-002"@,
        Encoding::P50k => "Code models, text-davinci-002, text-davinci-003"@,
        Encoding::P50kEdit => "Edit models like text-davinci-edit-001, code-davinci-edit-001"@,
        Encoding::R50k => "GPT-3 models like davinci"@,
    }
}

/// The encoding for the name that the user gave, if any.
pub fn get_encoding(name: &Option<String>) -> (encoding: Encoding)
    ensures
        encoding == encoding_named(
            match *name {
                Some(n) => Some(n@),
                None => None,
            },
        ),
{
    match name {
        Some(n) => {
            let chars = chars_of(n.as_str());
            if same_chars(&chars, &chars_of("p50k")) {
                Encoding::P50k
            } else if same_chars(&chars, &chars_of("p50k_edit")) {
                Encoding::P50kEdit
            } else if same_chars(&chars, &chars_of("r50k")) || same_chars(&chars, &chars_of("gpt2")) {
                Encoding::R50k
            } else {
                Encoding::Cl100k
            }
        },
        None => Encoding::Cl100k,
    }
}

/// A line on the models that the encoding of the given name is used for.
pub fn get_model_info(name: &Option<String>) -> (info: String)
    ensures
        info@ == model_info_text(
            encoding_named(
                match *name {
                    Some(n) => Some(n@),
                    None => None,
                },
            ),
        ),
{
    match get_encoding(name) {
        Encoding::Cl100k => String::from_str("ChatGPT models, text-embedding-ada-002"),
        Encoding::P50k => String::from_str("Code models, text-davinci-002, text-davinci-003"),
        Encoding::P50kEdit => String::from_str(
            "Edit models like text-davinci-edit-001, code-davinci-edit-001",
        ),
        Encoding::R50k => String::from_str("GPT-3 models like davinci"),
    }
}

} // verus!
