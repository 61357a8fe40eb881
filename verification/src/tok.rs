//! Calls into the `tokenizers` crate that feed the decoder.

use vstd::prelude::*;

verus! {

#[verifier::external_type_specification]
#[verifier::external_body]
pub struct ExTokenizer(tokenizers::Tokenizer);

/// Tokenization failure: the tokenizer rejected the input text, or its
/// stored truncation parameters are degenerate (see [`tokenize`]) and
/// encoding would panic instead of truncating.
#[derive(Clone, Copy, Debug, PartialEq, Eq, Structural)]
pub enum TokenizeError {
    Rejected,
}

/// A tokenized input: parallel sequences of token ids and character offsets.
#[derive(Debug)]
pub struct Tokenization {
    pub ids: Vec<u32>,
    pub offsets: Vec<(usize, usize)>,
}

impl Tokenization {
    /// The id and offset sequences are parallel: they have one length.
    pub open spec fn wf(self) -> bool {
        self.ids@.len() == self.offsets@.len()
    }
}

/// Relies on Tokenizer::encode together with Encoding::get_ids and
/// Encoding::get_offsets: an Encoding holds its ids and offsets as parallel
/// arrays of one length, built, merged, truncated and padded together.
/// Encoding panics instead of truncating when the stored truncation
/// parameters leave a stride no smaller than the length usable once the
/// post-processor's special tokens are added, so the body reads those
/// parameters first (Tokenizer::get_truncation, Tokenizer::get_post_processor
/// and PostProcessor::added_tokens) and rejects such a tokenizer outright,
/// whatever the text: the call is total.
#[verifier::external_body]
fn encode_raw(tokenizer: &tokenizers::Tokenizer, text: &str) -> (r: Result<
    (Vec<u32>, Vec<(usize, usize)>),
    TokenizeError,
>)
    ensures
        r matches Ok(p) ==> p.0@.len() == p.1@.len(),
{
    if let Some(params) = tokenizer.get_truncation() {
        let added = tokenizer
            .get_post_processor()
            .map_or(0, |p| tokenizers::PostProcessor::added_tokens(p, false));
        let degenerate = params.max_length < added
            || (params.max_length - added > 0 && params.stride >= params.max_length - added);
        if degenerate {
            return Err(TokenizeError::Rejected);
        }
    }
    match tokenizer.encode(text, true) {
        Ok(encoding) => Ok((encoding.get_ids().to_vec(), encoding.get_offsets().to_vec())),
        Err(_) => Err(TokenizeError::Rejected),
    }
}

/// Relies on Tokenizer::id_to_token: looks the id up in the vocabulary.
/// Nothing is assumed of the result; it depends on the tokenizer's state.
#[verifier::external_body]
fn id_to_token_raw(tokenizer: &tokenizers::Tokenizer, id: u32) -> (r: Option<String>) {
    tokenizer.id_to_token(id)
}

/// Tokenizes the text, with the model's special boundary tokens added, into
/// parallel token ids and character offsets.
///
/// A tokenizer whose stored truncation parameters are degenerate is
/// rejected up front, whatever the text: when the configured max_length
/// cannot hold the post-processor's added special tokens, or when the
/// stride is no smaller than the length left over for real tokens, encoding
/// a long enough text would panic inside the tokenizer instead of
/// truncating.
pub fn tokenize(tokenizer: &tokenizers::Tokenizer, text: &str) -> (r: Result<
    Tokenization,
    TokenizeError,
>)
    ensures
        r matches Ok(t) ==> t.wf(),
{
    match encode_raw(tokenizer, text) {
        Ok(p) => Ok(Tokenization { ids: p.0, offsets: p.1 }),
        Err(e) => Err(e),
    }
}

/// The token string of each id, where the vocabulary has one.
#[verifier::loop_isolation(false)]
pub fn token_texts(tokenizer: &tokenizers::Tokenizer, ids: &Vec<u32>) -> (r: Vec<Option<String>>)
    ensures
        r@.len() == ids@.len(),
{
    let mut out: Vec<Option<String>> = Vec::new();
    let mut i: usize = 0;
    while i < ids.len()
        invariant
            i <= ids@.len(),
            out@.len() == i,
        decreases ids@.len() - i,
    {
        out.push(id_to_token_raw(tokenizer, ids[i]));
        i += 1;
    }
    out
}

} // verus!
