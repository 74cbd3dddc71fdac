//! Bytes read as text.
use vstd::prelude::*;
use vstd::utf8::{decode_utf8, valid_utf8};

verus! {

/// Why bytes are no text.
#[derive(Debug)]
pub struct TextError {
    /// How many of the bytes, from the first on, are text.
    pub valid_up_to: usize,
    /// What is wrong with those behind them.
    pub message: String,
}

/// What a [`TextError`] stands for.
pub struct TextErrorView {
    pub valid_up_to: nat,
    pub message: Seq<char>,
}

impl View for TextError {
    type V = TextErrorView;

    open spec fn view(&self) -> TextErrorView {
        TextErrorView { valid_up_to: self.valid_up_to as nat, message: self.message@ }
    }
}

/// How long the longest beginning of the bytes is that is valid UTF-8.
pub open spec fn valid_length(bytes: Seq<u8>) -> nat
    decreases bytes.len(),
{
    if bytes.len() == 0 || valid_utf8(bytes) {
        bytes.len()
    } else {
        valid_length(bytes.drop_last())
    }
}

/// The bytes up to the length of the longest valid beginning are valid UTF-8, and no longer
/// beginning is.
pub proof fn law_valid_length(bytes: Seq<u8>)
    ensures
        valid_length(bytes) <= bytes.len(),
        valid_utf8(bytes.take(valid_length(bytes) as int)),
        forall|n: int|
            valid_length(bytes) < n <= bytes.len() ==> !valid_utf8(#[trigger] bytes.take(n)),
    decreases bytes.len(),
{
    assert(bytes.take(bytes.len() as int) =~= bytes);
    if bytes.len() > 0 && !valid_utf8(bytes) {
        let shorter = bytes.drop_last();
        law_valid_length(shorter);
        assert(bytes.take(valid_length(bytes) as int) =~= shorter.take(
            valid_length(bytes) as int,
        ));
        assert forall|n: int| valid_length(bytes) < n <= bytes.len() implies !valid_utf8(
            #[trigger] bytes.take(n),
        ) by {
            if n < bytes.len() {
                assert(bytes.take(n) =~= shorter.take(n));
            }
        }
    }
}

/// The message of the error that `str::from_utf8` gives on bytes that are no
/// valid UTF-8.
pub uninterp spec fn utf8_error_text(bytes: Seq<u8>) -> Seq<char>;

/// The error that `str::from_utf8` gives on bytes that are no valid UTF-8.
pub open spec fn utf8_error(bytes: Seq<u8>) -> TextErrorView {
    TextErrorView { valid_up_to: valid_length(bytes), message: utf8_error_text(bytes) }
}

/// `str::from_utf8`: the text that the bytes encode, or, if they are no valid
/// UTF-8, the error, which tells the greatest index up to which they are.
#[verifier::external_body]
pub(crate) fn decode_text(bytes: &Vec<u8>) -> (text: Result<&str, TextError>)
    ensures
        match text {
            Ok(text) => valid_utf8(bytes@) && text@ == decode_utf8(bytes@),
            Err(error) => {
                &&& !valid_utf8(bytes@)
                &&& error.valid_up_to == valid_length(bytes@)
                &&& error.message@ == utf8_error_text(bytes@)
            },
        },
{
    std::str::from_utf8(bytes).map_err(
        |error| TextError { valid_up_to: error.valid_up_to(), message: error.to_string() },
    )
}

} // verus!
