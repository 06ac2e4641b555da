//! What a neural tokenizer hands back for one text, in the integer width
//! that a model runtime takes.
use vstd::prelude::*;

verus! {

/// The three columns of one tokenized text. They have one entry per token.
#[derive(Debug, Clone)]
pub struct TokenizerOutput {
    pub input_ids: Vec<i64>,
    pub token_type_ids: Vec<i64>,
    pub attention_mask: Vec<i64>,
}

/// `values`, each as a signed 64-bit number.
pub open spec fn widened(values: Seq<u32>) -> Seq<i64> {
    Seq::new(values.len(), |i: int| values[i] as i64)
}

/// `values`, each as a signed 64-bit number.
pub fn widen(values: &[u32]) -> (r: Vec<i64>)
    ensures
        r@ == widened(values@),
{
    let mut out: Vec<i64> = Vec::with_capacity(values.len());
    let mut i: usize = 0;
    while i < values.len()
        invariant
            i <= values.len(),
            out.len() == i,
            forall|k: int| 0 <= k < i ==> #[trigger] out[k] == values@[k] as i64,
        decreases values.len() - i,
    {
        out.push(values[i] as i64);
        i += 1;
    }
    assert(out@ =~= widened(values@));
    out
}

impl TokenizerOutput {
    /// The output for the given columns, value for value.
    pub fn from_columns(ids: &[u32], type_ids: &[u32], attention_mask: &[u32]) -> (r:
        TokenizerOutput)
        ensures
            r.input_ids@ == widened(ids@),
            r.token_type_ids@ == widened(type_ids@),
            r.attention_mask@ == widened(attention_mask@),
    {
        TokenizerOutput {
            input_ids: widen(ids),
            token_type_ids: widen(type_ids),
            attention_mask: widen(attention_mask),
        }
    }
}

} // verus!
