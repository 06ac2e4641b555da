//! The embedding table: one row of `D` components for each token id.
//!
//! The table is read from a tensor container, where the tensor named
//! `embeddings` holds it row after row, each component as four bytes in
//! little-endian order. A component is kept as the 32-bit word that those
//! four bytes spell; the table never computes with it.
use vstd::prelude::*;
use vstd::slice::slice_subrange;
use safetensors::Dtype;
use safetensors::SafeTensorError;
use safetensors::SafeTensors;
use crate::error::InitError;

verus! {

/// The word whose bytes are `b0` to `b3`, lowest byte first.
pub open spec fn le_word(b0: u8, b1: u8, b2: u8, b3: u8) -> u32 {
    (b0 as int + 256 * (b1 as int) + 65536 * (b2 as int) + 16777216 * (b3 as int)) as u32
}

/// The words that `bytes` spell, four bytes to a word. Up to three bytes
/// that are left over at the end spell nothing.
pub open spec fn le_words(bytes: Seq<u8>) -> Seq<u32> {
    Seq::new(
        (bytes.len() / 4) as nat,
        |i: int| le_word(bytes[4 * i], bytes[4 * i + 1], bytes[4 * i + 2], bytes[4 * i + 3]),
    )
}

/// Whether `bytes` can be a matrix of 32-bit words of the given shape: two
/// dimensions, and four bytes for each component.
pub open spec fn shape_fits(shape: Seq<usize>, bytes: Seq<u8>) -> bool {
    shape.len() == 2 && shape[0] * shape[1] * 4 == bytes.len()
}

/// The word whose bytes are `b0` to `b3`, lowest byte first.
pub fn word_from_le(b0: u8, b1: u8, b2: u8, b3: u8) -> (r: u32)
    ensures
        r == le_word(b0, b1, b2, b3),
{
    let low: u32 = b0 as u32 + 256 * (b1 as u32);
    let high: u32 = b2 as u32 + 256 * (b3 as u32);
    low + 65536 * high
}

/// The words that `bytes` spell, four bytes to a word.
pub fn words_from_le(bytes: &[u8]) -> (r: Vec<u32>)
    ensures
        r@ == le_words(bytes@),
{
    let len = bytes.len();
    let n = len / 4;
    let mut out: Vec<u32> = Vec::with_capacity(n);
    let mut i: usize = 0;
    while i < n
        invariant
            i <= n,
            len == bytes@.len(),
            n == len / 4,
            out.len() == i,
            forall|k: int| 0 <= k < i ==> #[trigger] out[k] == le_words(bytes@)[k],
        decreases n - i,
    {
        assert(4 * i + 3 < bytes@.len());
        let at = 4 * i;
        out.push(word_from_le(bytes[at], bytes[at + 1], bytes[at + 2], bytes[at + 3]));
        i += 1;
    }
    assert(out@ =~= le_words(bytes@));
    out
}

/// An ASCII digit.
pub open spec fn is_digit(b: u8) -> bool {
    48 <= b <= 57
}

/// Where a reader of a header stands: inside a string or not, right after a
/// backslash in a string or not, and how many digits it has just read in a
/// row outside of strings.
pub struct Lexing {
    /// Whether the reader is inside a string.
    pub in_string: bool,
    /// Whether the last byte was a backslash that escapes the next one.
    pub escaped: bool,
    /// The number of digits read in a row, outside of strings.
    pub digits: nat,
}

/// Where a reader stands before the first byte.
pub open spec fn lexing_start() -> Lexing {
    Lexing { in_string: false, escaped: false, digits: 0 }
}

/// Where a reader stands after the byte `b`. A string begins at a quote and
/// ends at the next quote that no backslash escapes; a backslash in a string
/// escapes the byte after it.
pub open spec fn lexing_step(l: Lexing, b: u8) -> Lexing {
    if l.in_string {
        if l.escaped {
            Lexing { in_string: true, escaped: false, digits: 0 }
        } else if b == 92 {
            Lexing { in_string: true, escaped: true, digits: 0 }
        } else if b == 34 {
            Lexing { in_string: false, escaped: false, digits: 0 }
        } else {
            Lexing { in_string: true, escaped: false, digits: 0 }
        }
    } else if b == 34 {
        Lexing { in_string: true, escaped: false, digits: 0 }
    } else if is_digit(b) {
        Lexing { in_string: false, escaped: false, digits: l.digits + 1 }
    } else {
        Lexing { in_string: false, escaped: false, digits: 0 }
    }
}

/// Where a reader stands after the first `k` bytes of `s`.
pub open spec fn lexing_after(s: Seq<u8>, k: nat) -> Lexing
    decreases k,
{
    if k == 0 || k > s.len() {
        lexing_start()
    } else {
        lexing_step(lexing_after(s, (k - 1) as nat), s[k - 1])
    }
}

/// Whether no run of digits outside of the strings of `s` is longer than
/// `limit`: every number that is written in `s` is then below the `limit`-th
/// power of ten.
pub open spec fn numbers_within(s: Seq<u8>, limit: nat) -> bool {
    forall|k: int| 0 <= k <= s.len() ==> (#[trigger] lexing_after(s, k as nat)).digits <= limit
}

/// The greatest length of a header that the parser takes.
pub open spec fn header_cap() -> int {
    100_000_000
}

/// The most digits that a number in a header may have: nineteen where the
/// machine counts in 64 bits, nine where it counts in 32. A number of so
/// many digits, the greatest length of a header and the eight bytes in front
/// of it add up within the machine's range.
pub open spec fn digit_limit() -> nat {
    if usize::MAX >= 10_000_000_000_100_000_008 {
        19
    } else {
        9
    }
}

/// The length that the first eight bytes of `buffer` give for its header, in
/// little-endian order.
pub open spec fn header_length(buffer: Seq<u8>) -> int
    recommends
        buffer.len() >= 8,
{
    le_word(buffer[0], buffer[1], buffer[2], buffer[3]) + 4294967296 * le_word(
        buffer[4],
        buffer[5],
        buffer[6],
        buffer[7],
    )
}

/// The header of `buffer`: the bytes after the first eight, as many as
/// these say, or `None` where `buffer` does not hold that many.
pub open spec fn header_of(buffer: Seq<u8>) -> Option<Seq<u8>> {
    if buffer.len() >= 8 && 8 + header_length(buffer) <= buffer.len() {
        Some(buffer.subrange(8, 8 + header_length(buffer)))
    } else {
        None
    }
}

/// Whether `buffer` is handed to the parser: it holds its header, and no
/// number in the header has more digits than `digit_limit`. An offset of
/// more digits is beyond any file, and the parser would add to it unchecked.
/// The digits inside a string, of a name or of a note, do not count: in a
/// header that the parser takes, every number stands outside of the strings.
pub open spec fn parsable(buffer: Seq<u8>) -> bool {
    header_of(buffer) matches Some(header) && numbers_within(header, digit_limit())
}

/// With no more digits than `digit_limit`, a number added to the greatest
/// header length and to eight stays within the machine's range.
pub proof fn lemma_digit_limit()
    ensures
        digit_limit() == 19 ==> 9_999_999_999_999_999_999 + header_cap() + 8 <= usize::MAX,
        digit_limit() == 9 ==> 999_999_999 + header_cap() + 8 <= usize::MAX,
        digit_limit() == 19 || digit_limit() == 9,
{
}

/// Whether `buffer[from..to]` has no run of digits longer than `limit`
/// outside of its strings.
fn check_numbers(buffer: &[u8], from: usize, to: usize, limit: usize) -> (r: bool)
    requires
        from <= to <= buffer@.len(),
        limit < usize::MAX,
    ensures
        r == numbers_within(buffer@.subrange(from as int, to as int), limit as nat),
{
    let ghost part = buffer@.subrange(from as int, to as int);
    let mut in_string = false;
    let mut escaped = false;
    let mut run: usize = 0;
    let mut i: usize = from;
    while i < to
        invariant
            from <= i <= to <= buffer@.len(),
            part == buffer@.subrange(from as int, to as int),
            run <= limit < usize::MAX,
            lexing_after(part, (i - from) as nat) == (Lexing {
                in_string,
                escaped,
                digits: run as nat,
            }),
            forall|k: int|
                0 <= k <= i - from ==> (#[trigger] lexing_after(part, k as nat)).digits <= limit,
        decreases to - i,
    {
        let b = buffer[i];
        let ghost before = lexing_after(part, (i - from) as nat);
        assert(part[i - from] == b);
        assert(lexing_after(part, (i - from + 1) as nat) == lexing_step(before, b));
        if in_string {
            if escaped {
                escaped = false;
            } else if b == 92 {
                escaped = true;
            } else if b == 34 {
                in_string = false;
            }
        } else if b == 34 {
            in_string = true;
            run = 0;
        } else if b >= 48 && b <= 57 {
            run += 1;
            if run > limit {
                assert(lexing_after(part, (i - from + 1) as nat).digits > limit);
                return false;
            }
        } else {
            run = 0;
        }
        i += 1;
    }
    true
}

/// Whether `buffer` is handed to the parser.
pub fn check_parsable(buffer: &[u8]) -> (r: bool)
    ensures
        r == parsable(buffer@),
{
    let len = buffer.len();
    if len < 8 {
        return false;
    }
    let low = word_from_le(buffer[0], buffer[1], buffer[2], buffer[3]);
    let high = word_from_le(buffer[4], buffer[5], buffer[6], buffer[7]);
    let length: u128 = low as u128 + 4294967296u128 * (high as u128);
    if length + 8 > len as u128 {
        return false;
    }
    let end: usize = (length + 8) as usize;
    let limit: usize = if usize::MAX as u128 >= 10_000_000_000_100_000_008u128 {
        19
    } else {
        9
    };
    check_numbers(buffer, 8, end, limit)
}

/// A tensor as it lies in a container: whether its elements are 32-bit
/// floats, its shape, and its bytes.
struct RawTensor<'a> {
    float32: bool,
    shape: Vec<usize>,
    data: &'a [u8],
}

/// The error of the safetensors crate. It is carried, and never looked into.
#[verifier::external_type_specification]
#[verifier::external_body]
pub struct ExSafeTensorError(SafeTensorError);

/// A parsed tensor container of the safetensors crate: the tensors of a
/// buffer, by name.
#[verifier::external_type_specification]
#[verifier::external_body]
pub struct ExSafeTensors<'data>(SafeTensors<'data>);

/// The tensors of a parsed container: for each name whether the elements
/// are 32-bit floats, the shape, and the bytes.
pub uninterp spec fn tensors_of(container: SafeTensors<'_>) -> Map<
    Seq<char>,
    (bool, Seq<usize>, Seq<u8>),
>;

/// The tensors of the container that `buffer` is, or `None` where it is
/// none.
pub uninterp spec fn container_tensors(buffer: Seq<u8>) -> Option<
    Map<Seq<char>, (bool, Seq<usize>, Seq<u8>)>,
>;

/// `SafeTensors::deserialize`. It reads the header of `buffer` and checks it
/// against the length of `buffer`; what it finds depends on the bytes alone,
/// and is named by them.
///
/// The one sum that it makes unchecked is of the end of the last tensor, as
/// the header gives it, the header's length, which it has found to be at
/// most `header_cap`, and eight. `requires` leaves out the buffers on which
/// that sum can leave the machine's range: see `lemma_digit_limit`.
#[verifier::external_body]
fn parse_container<'a>(buffer: &'a [u8]) -> (r: Result<SafeTensors<'a>, SafeTensorError>)
    requires
        parsable(buffer@),
    ensures
        match r {
            Ok(container) => container_tensors(buffer@) == Some(tensors_of(container)),
            Err(_) => container_tensors(buffer@) is None,
        },
{
    SafeTensors::deserialize(buffer)
}

/// `SafeTensors::tensor`: the tensor called `name`, or an error where the
/// container has none of that name. Of the tensor, `TensorView::dtype`,
/// `TensorView::shape` and `TensorView::data` are handed out, the first as
/// the answer whether it is `Dtype::F32`.
#[verifier::external_body]
fn find_tensor<'a>(container: &SafeTensors<'a>, name: &str) -> (r: Result<
    RawTensor<'a>,
    SafeTensorError,
>)
    ensures
        match r {
            Ok(t) => tensors_of(*container).contains_key(name@) && tensors_of(*container)[name@]
                == (t.float32, t.shape@, t.data@),
            Err(_) => !tensors_of(*container).contains_key(name@),
        },
{
    let view = container.tensor(name)?;
    let float32 = match view.dtype() {
        Dtype::F32 => true,
        _ => false,
    };
    Ok(RawTensor { float32, shape: view.shape().to_vec(), data: view.data() })
}

/// A matrix of 32-bit words, held row after row.
#[derive(Debug)]
pub struct EmbeddingTable {
    words: Vec<u32>,
    rows: usize,
    dimensions: usize,
}

impl View for EmbeddingTable {
    type V = Seq<u32>;

    /// All components, row after row.
    closed spec fn view(&self) -> Seq<u32> {
        self.words@
    }
}

impl EmbeddingTable {
    #[verifier::type_invariant]
    spec fn inv(self) -> bool {
        self.words@.len() == self.rows * self.dimensions
    }

    /// The number of rows.
    pub closed spec fn spec_rows(&self) -> usize {
        self.rows
    }

    /// The number of components of a row.
    pub closed spec fn spec_dimensions(&self) -> usize {
        self.dimensions
    }

    /// The row of token `id`.
    pub open spec fn spec_row(&self, id: int) -> Seq<u32> {
        self@.subrange(id * self.spec_dimensions(), id * self.spec_dimensions() + self.spec_dimensions())
    }

    /// The number of rows.
    #[verifier::when_used_as_spec(spec_rows)]
    pub fn rows(&self) -> (r: usize)
        ensures
            r == self.spec_rows(),
            self@.len() == r * self.spec_dimensions(),
    {
        proof {
            use_type_invariant(self);
        }
        self.rows
    }

    /// The number of components of a row.
    #[verifier::when_used_as_spec(spec_dimensions)]
    pub fn dimensions(&self) -> (r: usize)
        ensures
            r == self.spec_dimensions(),
            self@.len() == self.spec_rows() * r,
    {
        proof {
            use_type_invariant(self);
        }
        self.dimensions
    }

    /// All components, row after row.
    pub fn words(&self) -> (r: &[u32])
        ensures
            r@ == self@,
    {
        self.words.as_slice()
    }

    /// The table of `rows` rows of `dimensions` components that `words`
    /// holds; `ShapeMismatch` where `words` has another length.
    pub fn new(words: Vec<u32>, rows: usize, dimensions: usize) -> (r: Result<
        EmbeddingTable,
        InitError,
    >)
        ensures
            match r {
                Ok(t) => words@.len() == rows * dimensions && t@ == words@ && t.spec_rows() == rows
                    && t.spec_dimensions() == dimensions,
                Err(e) => words@.len() != rows * dimensions && e == InitError::ShapeMismatch,
            },
    {
        let len = words.len();
        match rows.checked_mul(dimensions) {
            Some(n) => {
                if n == len {
                    Ok(EmbeddingTable { words, rows, dimensions })
                } else {
                    Err(InitError::ShapeMismatch)
                }
            },
            None => Err(InitError::ShapeMismatch),
        }
    }

    /// The row of token `id`.
    pub fn row(&self, id: usize) -> (r: &[u32])
        requires
            id < self.spec_rows(),
        ensures
            r@ == self.spec_row(id as int),
            r@.len() == self.spec_dimensions(),
    {
        proof {
            use_type_invariant(self);
            lemma_row_bounds(id as int, self.rows as int, self.dimensions as int);
        }
        let _ = self.words.len();
        let start = id * self.dimensions;
        slice_subrange(self.words.as_slice(), start, start + self.dimensions)
    }

    /// The table that a tensor of the given shape and bytes holds;
    /// `ShapeMismatch` where the shape does not fit.
    pub fn from_tensor(shape: &[usize], data: &[u8]) -> (r: Result<EmbeddingTable, InitError>)
        ensures
            match r {
                Ok(t) => shape_fits(shape@, data@) && t@ == le_words(data@) && t.spec_rows()
                    == shape@[0] && t.spec_dimensions() == shape@[1],
                Err(e) => !shape_fits(shape@, data@) && e == InitError::ShapeMismatch,
            },
    {
        if shape.len() != 2 {
            return Err(InitError::ShapeMismatch);
        }
        let rows = shape[0];
        let dimensions = shape[1];
        let count = data.len() / 4;
        if data.len() % 4 != 0 {
            assert(rows * dimensions * 4 != data@.len()) by (nonlinear_arith)
                requires
                    data@.len() % 4 != 0,
            ;
            return Err(InitError::ShapeMismatch);
        }
        match rows.checked_mul(dimensions) {
            Some(n) => {
                if n != count {
                    return Err(InitError::ShapeMismatch);
                }
            },
            None => {
                return Err(InitError::ShapeMismatch);
            },
        }
        let words = words_from_le(data);
        Ok(EmbeddingTable { words, rows, dimensions })
    }

    /// The table of the container `buffer`: what its tensor `embeddings`
    /// holds. `MalformedTensorContainer` where `buffer` is not handed to the
    /// parser, is no container or has no such tensor; `ShapeMismatch` where
    /// the tensor is no matrix of 32-bit floats.
    pub fn load_embeddings(buffer: &[u8]) -> (r: Result<EmbeddingTable, InitError>)
        ensures
            match embeddings_tensor(buffer@) {
                None => r matches Err(e) && e == InitError::MalformedTensorContainer,
                Some((float32, shape, data)) => if float32 && shape_fits(shape, data) {
                    r matches Ok(t) && t@ == le_words(data) && t.spec_rows() == shape[0]
                        && t.spec_dimensions() == shape[1]
                } else {
                    r matches Err(e) && e == InitError::ShapeMismatch
                },
            },
    {
        if !check_parsable(buffer) {
            return Err(InitError::MalformedTensorContainer);
        }
        let container = match parse_container(buffer) {
            Ok(container) => container,
            Err(_) => {
                return Err(InitError::MalformedTensorContainer);
            },
        };
        match find_tensor(&container, "embeddings") {
            Ok(tensor) => {
                if tensor.float32 {
                    EmbeddingTable::from_tensor(tensor.shape.as_slice(), tensor.data)
                } else {
                    Err(InitError::ShapeMismatch)
                }
            },
            Err(_) => Err(InitError::MalformedTensorContainer),
        }
    }
}

/// The tensor of `buffer` that holds the table: the one called `embeddings`
/// of the container that `buffer` is. There is none where `buffer` is not
/// handed to the parser, is no container, or has no tensor of that name.
pub open spec fn embeddings_tensor(buffer: Seq<u8>) -> Option<(bool, Seq<usize>, Seq<u8>)> {
    if !parsable(buffer) {
        None
    } else {
        match container_tensors(buffer) {
            Some(m) => if m.contains_key("embeddings"@) {
                Some(m["embeddings"@])
            } else {
                None
            },
            None => None,
        }
    }
}

/// Row `id` of `rows` rows of `d` components lies inside the `rows * d`
/// components.
pub proof fn lemma_row_bounds(id: int, rows: int, d: int)
    requires
        0 <= id < rows,
        0 <= d,
    ensures
        0 <= id * d,
        id * d + d <= rows * d,
{
    assert(0 <= id * d) by (nonlinear_arith)
        requires
            0 <= id,
            0 <= d,
    ;
    assert(id * d + d <= rows * d) by (nonlinear_arith)
        requires
            id + 1 <= rows,
            0 <= d,
    ;
}

} // verus!
