//! The model bundle: a vocabulary and the table it indexes, and what a
//! sentence asks of them.
//!
//! Encoding a sentence ends, in this crate, with the rows that are to be
//! pooled. Averaging them and scaling the average to unit length is
//! arithmetic on the components, which the caller does.
use vstd::prelude::*;
use crate::error::{EncodeError, EncodeErrorView, InitError};
use crate::segment::{normalized, words};
use crate::table::{embeddings_tensor, le_words, lemma_row_bounds, shape_fits, EmbeddingTable};
use crate::tokenizer::{is_vocab_id, lemma_words_tokens_ids, sentence_tokens, setencen2tok};
use crate::vocab::{entries_map, entries_valid, entry_view, Vocabulary};

verus! {

/// The published variants of the model.
#[derive(Debug, Clone, Copy, PartialEq, Eq, Structural)]
pub enum PotionModel {
    /// The retrieval model of 32 million parameters.
    RETRIEVAL32M,
    /// The base model of 8 million parameters.
    BASE8M,
    /// The base model of 4 million parameters.
    BASE4M,
    /// The base model of 2 million parameters.
    BASE2M,
}

impl PotionModel {
    /// The variant's name, as its directory is called.
    pub open spec fn spec_name(self) -> Seq<char> {
        match self {
            PotionModel::RETRIEVAL32M => "RETRIEVAL32M"@,
            PotionModel::BASE8M => "BASE8M"@,
            PotionModel::BASE4M => "BASE4M"@,
            PotionModel::BASE2M => "BASE2M"@,
        }
    }

    /// The variant's name, as its directory is called.
    pub fn name(&self) -> (r: &'static str)
        ensures
            r@ == self.spec_name(),
    {
        match self {
            PotionModel::RETRIEVAL32M => "RETRIEVAL32M",
            PotionModel::BASE8M => "BASE8M",
            PotionModel::BASE4M => "BASE4M",
            PotionModel::BASE2M => "BASE2M",
        }
    }
}

/// The name of the tensor container in a variant's directory.
pub fn tensor_file_name() -> (r: &'static str)
    ensures
        r@ == "model.safetensors"@,
{
    "model.safetensors"
}

/// The name of the tokenizer description in a variant's directory.
pub fn tokenizer_file_name() -> (r: &'static str)
    ensures
        r@ == "tokenizer.json"@,
{
    "tokenizer.json"
}

/// What is left to do for one sentence.
#[derive(Debug, Clone, PartialEq, Eq)]
pub enum Pooling<'a> {
    /// Nothing: the embedding is the zero vector of this many components.
    Zero(usize),
    /// The rows are to be averaged, and the average scaled to unit length.
    Mean(Vec<&'a [u32]>),
}

/// `Pooling` as sequences.
pub enum PoolingView {
    /// The embedding, component by component.
    Vector(Seq<u32>),
    /// The rows to be averaged.
    Mean(Seq<Seq<u32>>),
}

/// The zero vector of `d` components.
pub open spec fn zeros(d: int) -> Seq<u32> {
    Seq::new(d as nat, |i: int| 0u32)
}

impl<'a> View for Pooling<'a> {
    type V = PoolingView;

    open spec fn view(&self) -> PoolingView {
        match self {
            Pooling::Zero(d) => PoolingView::Vector(zeros(*d as int)),
            Pooling::Mean(rows) => PoolingView::Mean(Seq::new(rows@.len(), |i: int| rows@[i]@)),
        }
    }
}

/// What `encode` hands back, as sequences.
pub open spec fn encoded_view(r: Result<Pooling<'_>, EncodeError>) -> Result<
    PoolingView,
    EncodeErrorView,
> {
    match r {
        Ok(p) => Ok(p@),
        Err(e) => Err(e@),
    }
}

/// Whether a table of `rows` rows has a row for every id of `vocab`.
pub open spec fn table_serves(rows: int, vocab: Map<Seq<char>, i32>) -> bool {
    forall|k: Seq<char>| #[trigger] vocab.contains_key(k) ==> 0 <= vocab[k] < rows
}

/// The rows of `ids` in a table of rows of `d` components.
pub open spec fn rows_of(table: Seq<u32>, d: int, ids: Seq<i32>) -> Seq<Seq<u32>> {
    Seq::new(ids.len(), |i: int| table.subrange(ids[i] * d, ids[i] * d + d))
}

/// What a sentence asks of a table of rows of `d` components and a
/// vocabulary.
///
/// The empty sentence has the zero vector, and its words are not looked for.
/// Any other sentence has the rows of its token ids, in their order. A
/// sentence with a word that has no decomposition fails with that word; a
/// sentence without any token, though not empty, has nothing to average and
/// fails as degenerate.
pub open spec fn encoding(
    table: Seq<u32>,
    d: int,
    vocab: Map<Seq<char>, i32>,
    sentence: Seq<char>,
) -> Result<PoolingView, EncodeErrorView> {
    if sentence.len() == 0 {
        Ok(PoolingView::Vector(zeros(d)))
    } else {
        match sentence_tokens(vocab, sentence) {
            Err(word) => Err(EncodeErrorView::UnknownToken(word)),
            Ok(ids) => if ids.len() == 0 {
                Err(EncodeErrorView::DegenerateEmbedding)
            } else {
                Ok(PoolingView::Mean(rows_of(table, d, ids)))
            },
        }
    }
}

/// What each sentence of a batch asks, in the order of the batch.
pub open spec fn encoding_many(
    table: Seq<u32>,
    d: int,
    vocab: Map<Seq<char>, i32>,
    sentences: Seq<Seq<char>>,
) -> Seq<Result<PoolingView, EncodeErrorView>> {
    Seq::new(sentences.len(), |i: int| encoding(table, d, vocab, sentences[i]))
}

/// Whatever the sentence, what is to be pooled has the table's dimension:
/// the zero vector has `d` components, and so has each row to be averaged,
/// of which there is at least one.
pub proof fn lemma_encoding_dimension(
    table: Seq<u32>,
    rows: int,
    d: int,
    vocab: Map<Seq<char>, i32>,
    sentence: Seq<char>,
)
    requires
        0 <= d,
        0 <= rows,
        table.len() == rows * d,
        table_serves(rows, vocab),
    ensures
        match encoding(table, d, vocab, sentence) {
            Ok(PoolingView::Vector(v)) => v.len() == d,
            Ok(PoolingView::Mean(picked)) => picked.len() > 0 && forall|i: int|
                0 <= i < picked.len() ==> (#[trigger] picked[i]).len() == d,
            Err(_) => true,
        },
{
    if sentence.len() > 0 {
        if let Ok(ids) = sentence_tokens(vocab, sentence) {
            lemma_words_tokens_ids(vocab, words(normalized(sentence)));
            let picked = rows_of(table, d, ids);
            assert forall|i: int| 0 <= i < picked.len() implies (#[trigger] picked[i]).len()
                == d by {
                assert(is_vocab_id(vocab, ids[i]));
                let t = choose|t: Seq<char>| #[trigger] vocab.contains_key(t) && vocab[t] == ids[i];
                assert(vocab.contains_key(t));
                lemma_row_bounds(ids[i] as int, rows, d);
            }
        }
    }
}

/// The empty sentence has the zero vector of the table's dimension.
pub proof fn lemma_encoding_of_empty(table: Seq<u32>, d: int, vocab: Map<Seq<char>, i32>)
    requires
        0 <= d,
    ensures
        encoding(table, d, vocab, Seq::<char>::empty()) matches Ok(PoolingView::Vector(v))
            && v.len() == d && forall|i: int| 0 <= i < d ==> v[i] == 0,
{
}

/// Encoding is a function of what the bundle holds and of the characters of
/// the sentence: two bundles with the same table and vocabulary give two
/// sentences with the same characters the same result.
pub proof fn lemma_encode_is_function(a: RustPotion, b: RustPotion, s: &str, t: &str)
    requires
        a@.table == b@.table,
        a@.dimensions == b@.dimensions,
        a@.vocab == b@.vocab,
        s@ == t@,
    ensures
        a.spec_encode(s@) == b.spec_encode(t@),
{
}

/// In a batch each sentence is encoded by itself: a sentence has the same
/// result at any place in any batch, the one that it has alone.
pub proof fn lemma_batch_is_pointwise(
    table: Seq<u32>,
    d: int,
    vocab: Map<Seq<char>, i32>,
    xs: Seq<Seq<char>>,
    ys: Seq<Seq<char>>,
    i: int,
    j: int,
)
    requires
        0 <= i < xs.len(),
        0 <= j < ys.len(),
        xs[i] == ys[j],
    ensures
        encoding_many(table, d, vocab, xs).len() == xs.len(),
        encoding_many(table, d, vocab, xs)[i] == encoding(table, d, vocab, xs[i]),
        encoding_many(table, d, vocab, xs)[i] == encoding_many(table, d, vocab, ys)[j],
{
}

/// What a bundle holds, as sequences.
pub struct BundleView {
    /// All components of the table, row after row.
    pub table: Seq<u32>,
    /// The number of rows of the table.
    pub rows: int,
    /// The number of components of a row.
    pub dimensions: int,
    /// The vocabulary.
    pub vocab: Map<Seq<char>, i32>,
}

/// The bundle that a tensor and the entries of a vocabulary make, or why
/// they make none. The tensor is looked at first, then the entries, then
/// whether the two agree.
pub open spec fn bundle_of(shape: Seq<usize>, data: Seq<u8>, entries: Seq<(Seq<char>, i32)>) -> Result<
    BundleView,
    InitError,
> {
    if !shape_fits(shape, data) {
        Err(InitError::ShapeMismatch)
    } else if !entries_valid(entries) {
        Err(InitError::MalformedVocabulary)
    } else if !table_serves(shape[0] as int, entries_map(entries)) {
        Err(InitError::ShapeMismatch)
    } else {
        Ok(
            BundleView {
                table: le_words(data),
                rows: shape[0] as int,
                dimensions: shape[1] as int,
                vocab: entries_map(entries),
            },
        )
    }
}

/// The bundle that the tensor of a container and the entries of a
/// vocabulary make. A container without the tensor is malformed, and a
/// tensor of other elements than 32-bit floats has not the shape.
pub open spec fn bundle_of_container(
    tensor: Option<(bool, Seq<usize>, Seq<u8>)>,
    entries: Seq<(Seq<char>, i32)>,
) -> Result<BundleView, InitError> {
    match tensor {
        None => Err(InitError::MalformedTensorContainer),
        Some((float32, shape, data)) => if float32 {
            bundle_of(shape, data, entries)
        } else {
            Err(InitError::ShapeMismatch)
        },
    }
}

/// The entries of a vocabulary, as sequences.
pub open spec fn entries_view(entries: Seq<(String, i32)>) -> Seq<(Seq<char>, i32)> {
    entries.map_values(|e: (String, i32)| entry_view(e))
}

/// A vocabulary with the table that has a row for each of its ids.
pub struct RustPotion {
    table: EmbeddingTable,
    vocab: Vocabulary,
}

impl View for RustPotion {
    type V = BundleView;

    open spec fn view(&self) -> BundleView {
        BundleView {
            table: self.spec_table()@,
            rows: self.spec_table().rows() as int,
            dimensions: self.spec_table().dimensions() as int,
            vocab: self.spec_vocab()@,
        }
    }
}

impl RustPotion {
    #[verifier::type_invariant]
    spec fn inv(self) -> bool {
        self.vocab.id_bound() <= self.table.rows()
    }

    /// The table.
    pub closed spec fn spec_table(&self) -> EmbeddingTable {
        self.table
    }

    /// The vocabulary.
    pub closed spec fn spec_vocab(&self) -> Vocabulary {
        self.vocab
    }

    /// The number of components of an embedding.
    pub open spec fn spec_dimensions(&self) -> usize {
        self.spec_table().dimensions()
    }

    /// What `sentence` asks of this bundle.
    pub open spec fn spec_encode(&self, sentence: Seq<char>) -> Result<
        PoolingView,
        EncodeErrorView,
    > {
        encoding(self@.table, self@.dimensions, self@.vocab, sentence)
    }

    /// What each of `sentences` asks of this bundle.
    pub open spec fn spec_encode_many(&self, sentences: Seq<Seq<char>>) -> Seq<
        Result<PoolingView, EncodeErrorView>,
    > {
        encoding_many(self@.table, self@.dimensions, self@.vocab, sentences)
    }

    /// What building a bundle hands back, as sequences.
    pub open spec fn built_view(r: Result<RustPotion, InitError>) -> Result<BundleView, InitError> {
        match r {
            Ok(b) => Ok(b@),
            Err(e) => Err(e),
        }
    }

    /// The bundle of the tensor of the given shape and bytes and of the
    /// vocabulary that `entries` spell out: see `bundle_of`.
    pub fn from_parts(shape: &[usize], data: &[u8], entries: Vec<(String, i32)>) -> (r: Result<
        RustPotion,
        InitError,
    >)
        ensures
            Self::built_view(r) == bundle_of(shape@, data@, entries_view(entries@)),
    {
        let table = match EmbeddingTable::from_tensor(shape, data) {
            Ok(table) => table,
            Err(e) => {
                return Err(e);
            },
        };
        let vocab = match Vocabulary::from_entries(entries) {
            Ok(vocab) => vocab,
            Err(e) => {
                return Err(e);
            },
        };
        RustPotion::new(table, vocab)
    }

    /// The bundle of the tensor container `buffer` and of the vocabulary
    /// that `entries` spell out: see `bundle_of_container`.
    pub fn from_artifacts(buffer: &[u8], entries: Vec<(String, i32)>) -> (r: Result<
        RustPotion,
        InitError,
    >)
        ensures
            Self::built_view(r) == bundle_of_container(
                embeddings_tensor(buffer@),
                entries_view(entries@),
            ),
    {
        let table = match EmbeddingTable::load_embeddings(buffer) {
            Ok(table) => table,
            Err(e) => {
                return Err(e);
            },
        };
        let vocab = match Vocabulary::from_entries(entries) {
            Ok(vocab) => vocab,
            Err(e) => {
                return Err(e);
            },
        };
        RustPotion::new(table, vocab)
    }

    /// The bundle of `table` and `vocab`; `ShapeMismatch` where `vocab` has
    /// an id for which `table` has no row.
    pub fn new(table: EmbeddingTable, vocab: Vocabulary) -> (r: Result<RustPotion, InitError>)
        ensures
            match r {
                Ok(b) => table_serves(table.rows() as int, vocab@) && b.spec_table() == table
                    && b.spec_vocab() == vocab,
                Err(e) => !table_serves(table.rows() as int, vocab@) && e
                    == InitError::ShapeMismatch,
            },
    {
        let bound = vocab.id_bound();
        if bound <= table.rows() {
            Ok(RustPotion { table, vocab })
        } else {
            proof {
                let top = choose|k: Seq<char>| #[trigger]
                    vocab@.contains_key(k) && vocab@[k] == bound - 1;
                assert(vocab@.contains_key(top) && !(vocab@[top] < table.rows()));
            }
            Err(InitError::ShapeMismatch)
        }
    }

    /// The table.
    pub fn table(&self) -> (r: &EmbeddingTable)
        ensures
            *r == self.spec_table(),
    {
        &self.table
    }

    /// The vocabulary.
    pub fn vocab(&self) -> (r: &Vocabulary)
        ensures
            *r == self.spec_vocab(),
            table_serves(self.spec_table().rows() as int, r@),
    {
        proof {
            use_type_invariant(self);
        }
        let _ = self.vocab.id_bound();
        &self.vocab
    }

    /// The number of components of an embedding.
    #[verifier::when_used_as_spec(spec_dimensions)]
    pub fn dimensions(&self) -> (r: usize)
        ensures
            r == self.spec_dimensions(),
    {
        self.table.dimensions()
    }

    /// What is left to do for `sentence`: see `encoding`.
    pub fn encode<'a>(&'a self, sentence: &str) -> (r: Result<Pooling<'a>, EncodeError>)
        ensures
            encoded_view(r) == self.spec_encode(sentence@),
            r matches Ok(Pooling::Zero(d)) ==> d == self.spec_dimensions(),
            r matches Ok(Pooling::Mean(rows)) ==> rows@.len() > 0 && forall|i: int|
                0 <= i < rows@.len() ==> (#[trigger] rows@[i])@.len() == self.spec_dimensions(),
    {
        proof {
            use_type_invariant(self);
        }
        let d = self.table.dimensions();
        if sentence.is_empty() {
            return Ok(Pooling::Zero(d));
        }
        let ids = match setencen2tok(sentence, &self.vocab) {
            Ok(ids) => ids,
            Err(e) => {
                return Err(e);
            },
        };
        if ids.len() == 0 {
            return Err(EncodeError::DegenerateEmbedding);
        }
        let mut rows: Vec<&'a [u32]> = Vec::with_capacity(ids.len());
        let mut i: usize = 0;
        while i < ids.len()
            invariant
                i <= ids.len(),
                rows.len() == i,
                d == self.table.dimensions(),
                self.vocab.id_bound() <= self.table.rows(),
                forall|k: int| 0 <= k < ids.len() ==> 0 <= #[trigger] ids[k] < self.vocab.id_bound(),
                forall|k: int|
                    0 <= k < i ==> (#[trigger] rows@[k])@ == self.table@.subrange(
                        ids[k] * d,
                        ids[k] * d + d,
                    ) && rows@[k]@.len() == d,
            decreases ids.len() - i,
        {
            let id = ids[i] as usize;
            let row = self.table.row(id);
            rows.push(row);
            i += 1;
        }
        let result = Pooling::Mean(rows);
        assert(result@ =~= PoolingView::Mean(rows_of(self.table@, d as int, ids@))) by {
            assert(Seq::new(rows@.len(), |i: int| rows@[i]@) =~= rows_of(
                self.table@,
                d as int,
                ids@,
            ));
        }
        Ok(result)
    }

    /// What is left to do for each of `sentences`, in their order. One
    /// sentence's failure is its own: the others are encoded all the same.
    pub fn encode_many<'a>(&'a self, sentences: Vec<String>) -> (r: Vec<
        Result<Pooling<'a>, EncodeError>,
    >)
        ensures
            r@.len() == sentences@.len(),
            forall|i: int|
                0 <= i < r@.len() ==> encoded_view(#[trigger] r@[i]) == self.spec_encode(
                    sentences@[i]@,
                ),
            Seq::new(r@.len(), |i: int| encoded_view(r@[i])) == self.spec_encode_many(
                sentences.deep_view(),
            ),
    {
        let mut out: Vec<Result<Pooling<'a>, EncodeError>> = Vec::with_capacity(sentences.len());
        let mut i: usize = 0;
        while i < sentences.len()
            invariant
                i <= sentences.len(),
                out.len() == i,
                forall|k: int|
                    0 <= k < i ==> encoded_view(#[trigger] out@[k]) == self.spec_encode(
                        sentences@[k]@,
                    ),
            decreases sentences.len() - i,
        {
            let one = self.encode(sentences[i].as_str());
            out.push(one);
            i += 1;
        }
        assert(Seq::new(out@.len(), |i: int| encoded_view(out@[i])) =~= self.spec_encode_many(
            sentences.deep_view(),
        ));
        out
    }
}

} // verus!
