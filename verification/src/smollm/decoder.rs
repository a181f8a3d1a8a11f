//! The shape of a decoder: its hyper-parameters, how workers share a step, the
//! length of its cache, and the layout of a weights file. The arithmetic on the
//! weights themselves stays outside.

use vstd::prelude::*;

use crate::unicode::same_text;

verus! {

/// The longest sequence where a configuration does not say.
pub const DEFAULT_MAX_POSITIONS: usize = 2048;

/// Weights per quantization block.
pub const BLOCK: usize = 32;

/// Hyper-parameters of a decoder.
pub struct LlamaConfig {
    /// Residual width.
    pub hidden_size: usize,
    /// Inner width of the feed-forward part.
    pub intermediate_size: usize,
    pub num_hidden_layers: usize,
    /// Query heads.
    pub num_attention_heads: usize,
    /// Key and value heads.
    pub num_key_value_heads: usize,
    pub vocab_size: usize,
    /// Longest supported sequence.
    pub max_position_embeddings: usize,
    /// The token that begins a sequence.
    pub bos_token_id: Option<u32>,
    /// The output layer reuses the token embedding.
    pub tie_word_embeddings: bool,
    pub model_type: String,
    /// Whether a rotary scaling is set.
    pub rope_scaling: bool,
    pub rope_interleaved: bool,
    pub attention_bias: bool,
    pub mlp_bias: bool,
}

/// Why a configuration is refused: the first unsupported feature.
#[derive(Clone, Copy, Debug, PartialEq, Eq, Structural)]
pub enum ConfigError {
    /// Another kind of model.
    ModelType,
    /// Scaled or interleaved rotary positions.
    Rope,
    /// Biases on projections.
    Biases,
    /// An output layer of its own.
    UntiedHead,
    /// Heads that do not divide the widths.
    Attention,
    /// Widths that are no multiples of the quantization block.
    Blocks,
}

/// The heads divide the width into an even part each, and the key heads divide
/// the query heads.
pub open spec fn attention_ok(c: LlamaConfig) -> bool {
    &&& c.num_attention_heads > 0
    &&& c.num_key_value_heads > 0
    &&& c.hidden_size % c.num_attention_heads == 0
    &&& c.num_attention_heads % c.num_key_value_heads == 0
    &&& (c.hidden_size / c.num_attention_heads) % 2 == 0
}

/// The first thing that is wrong with a configuration.
pub open spec fn config_error(c: LlamaConfig) -> Option<ConfigError> {
    if c.rope_scaling || c.rope_interleaved {
        Some(ConfigError::Rope)
    } else if c.attention_bias || c.mlp_bias {
        Some(ConfigError::Biases)
    } else if !c.tie_word_embeddings {
        Some(ConfigError::UntiedHead)
    } else if !attention_ok(c) {
        Some(ConfigError::Attention)
    } else if c.hidden_size % BLOCK != 0 || c.intermediate_size % BLOCK != 0 {
        Some(ConfigError::Blocks)
    } else {
        None
    }
}

impl LlamaConfig {
    /// Checks the shape constraints that the decoders rely on.
    pub fn validate(&self) -> (r: Result<(), ConfigError>)
        ensures
            match r {
                Ok(_) => config_error(*self) is None,
                Err(e) => config_error(*self) == Some(e),
            },
    {
        if self.rope_scaling || self.rope_interleaved {
            return Err(ConfigError::Rope);
        }
        if self.attention_bias || self.mlp_bias {
            return Err(ConfigError::Biases);
        }
        if !self.tie_word_embeddings {
            return Err(ConfigError::UntiedHead);
        }
        let heads: usize = self.num_attention_heads;
        let keys: usize = self.num_key_value_heads;
        let shaped = heads > 0 && keys > 0 && self.hidden_size % heads == 0 && heads % keys == 0
            && (self.hidden_size / heads) % 2 == 0;
        if !shaped {
            return Err(ConfigError::Attention);
        }
        if self.hidden_size % BLOCK != 0 || self.intermediate_size % BLOCK != 0 {
            return Err(ConfigError::Blocks);
        }
        Ok(())
    }

    /// Accepts a configuration that was read: the right kind of model, and a
    /// shape that the decoders can run.
    pub fn accept(&self) -> (r: Result<(), ConfigError>)
        ensures
            match r {
                Ok(_) => self.model_type@ == "llama"@ && config_error(*self) is None,
                Err(e) => if self.model_type@ != "llama"@ {
                    e == ConfigError::ModelType
                } else {
                    config_error(*self) == Some(e)
                },
            },
    {
        if !same_text(self.model_type.as_str(), "llama") {
            return Err(ConfigError::ModelType);
        }
        self.validate()
    }

    /// Width of one attention head.
    pub fn head_dim(&self) -> (n: usize)
        requires
            self.num_attention_heads > 0,
        ensures
            n == self.hidden_size / self.num_attention_heads,
    {
        self.hidden_size / self.num_attention_heads
    }
}

// ---------------------------------------------------------------------------
// Sharing a step among workers
// ---------------------------------------------------------------------------
/// Where the share of the worker `tid` starts.
pub open spec fn share_start(total: int, tid: int, threads: int) -> int {
    let base = total / threads;
    let extra = total % threads;
    tid * base + if tid < extra {
        tid
    } else {
        extra
    }
}

/// Where the model runs.
#[derive(Clone, Copy, Debug, PartialEq, Eq, Structural)]
pub enum Device {
    Metal,
    Cpu,
    /// Metal was asked for, and its device did not open.
    MetalFailed,
    /// Metal was asked for where there is none.
    MetalMissing,
}

/// Where the model runs: on Metal where the platform has it and its device
/// opens, unless another device is asked for by name.
pub fn choose_device(requested: Option<&str>, platform_has_metal: bool, opens: bool) -> (d: Device)
    ensures
        ({
            let cpu = requested matches Some(name) && name@ == "cpu"@;
            let metal = requested matches Some(name) && name@ == "metal"@;
            d == (if platform_has_metal && !cpu && opens {
                Device::Metal
            } else if metal && platform_has_metal {
                Device::MetalFailed
            } else if metal {
                Device::MetalMissing
            } else {
                Device::Cpu
            })
        }),
{
    let cpu = match requested {
        Some(name) => same_text(name, "cpu"),
        None => false,
    };
    let metal = match requested {
        Some(name) => same_text(name, "metal"),
        None => false,
    };
    proof {
        reveal_strlit("cpu");
        reveal_strlit("metal");
        assert("cpu"@.len() != "metal"@.len());
    }
    if platform_has_metal && !cpu {
        if opens {
            return Device::Metal;
        }
        if metal {
            return Device::MetalFailed;
        }
    }
    if metal {
        Device::MetalMissing
    } else {
        Device::Cpu
    }
}

/// The contiguous share of the worker `tid` when `0..total` is split `threads`
/// ways.
pub fn share(total: usize, tid: usize, threads: usize) -> (range: (usize, usize))
    requires
        tid < threads,
    ensures
        range.0 == share_start(total as int, tid as int, threads as int),
        range.1 == share_start(total as int, tid + 1, threads as int),
        range.0 <= range.1 <= total,
{
    let base: usize = total / threads;
    let extra: usize = total % threads;
    proof {
        lemma_share_bounds(total as int, tid as int, threads as int);
        lemma_share_bounds(total as int, tid + 1, threads as int);
        let b = base as int;
        assert(tid * b <= total) by (nonlinear_arith)
            requires
                tid * b + 0 <= share_start(total as int, tid as int, threads as int) <= total,
        {}
        assert((tid + 1) * b == tid * b + b) by (nonlinear_arith);
    }
    let start: usize = tid * base + if tid < extra {
        tid
    } else {
        extra
    };
    let more: usize = if tid < extra {
        1
    } else {
        0
    };
    (start, start + base + more)
}

proof fn lemma_share_bounds(total: int, tid: int, threads: int)
    requires
        0 <= total,
        0 <= tid <= threads,
        threads > 0,
    ensures
        0 <= tid * (total / threads) <= share_start(total, tid, threads) <= total,
{
    let base = total / threads;
    let extra = total % threads;
    assert(total == threads * base + extra && 0 <= extra < threads && 0 <= base)
        by (nonlinear_arith)
        requires
            0 <= total,
            threads > 0,
            base == total / threads,
            extra == total % threads,
    {}
    assert(0 <= tid * base <= threads * base) by (nonlinear_arith)
        requires
            0 <= tid <= threads,
            0 <= base,
    {}
    assert(tid * base + extra <= total) by (nonlinear_arith)
        requires
            total == threads * base + extra,
            0 <= tid <= threads,
            0 <= base,
    {}
}

/// The shares run from the first item to the last, each starting where the one
/// before ends, and no two sizes differ by more than one.
pub proof fn law_shares_partition_the_work(total: int, tid: int, threads: int)
    requires
        0 <= total,
        0 <= tid < threads,
    ensures
        share_start(total, 0, threads) == 0,
        share_start(total, threads, threads) == total,
        share_start(total, tid + 1, threads) - share_start(total, tid, threads) == total / threads
            + (if tid < total % threads {
            1int
        } else {
            0int
        }),
{
    let base = total / threads;
    let extra = total % threads;
    assert(0 * base == 0) by (nonlinear_arith);
    assert((tid + 1) * base == tid * base + base) by (nonlinear_arith);
    assert(total == threads * base + extra && 0 <= extra < threads) by (nonlinear_arith)
        requires
            0 <= total,
            threads > 0,
            base == total / threads,
            extra == total % threads,
    {}
}

// ---------------------------------------------------------------------------
// The cache
// ---------------------------------------------------------------------------
/// Why the decoder cannot do what is asked.
#[derive(Clone, Copy, Debug, PartialEq, Eq, Structural)]
pub enum CacheError {
    /// No row is asked for.
    NothingToScore,
    /// The sequence passes the position limit.
    TooLong,
    /// A token is not in the vocabulary.
    Token(u32),
    /// The cache is empty.
    Empty,
    /// The place lies behind the cached tokens.
    PastTheEnd,
    /// The snapshot has another size.
    OtherModel,
}

/// How much a decoder's cache holds.
pub struct CacheLen {
    /// Cached tokens.
    pub len: usize,
    /// Layers.
    pub layers: usize,
    /// Width of a layer's keys, and of its values.
    pub width: usize,
    /// The position limit.
    pub limit: usize,
    pub vocab: usize,
}

/// The first token that is not in the vocabulary.
pub open spec fn foreign_token(tokens: Seq<u32>, vocab: int, i: int) -> Option<u32>
    decreases tokens.len() - i,
{
    if i < 0 || i >= tokens.len() {
        None
    } else if tokens[i] >= vocab {
        Some(tokens[i])
    } else {
        foreign_token(tokens, vocab, i + 1)
    }
}

impl CacheLen {
    /// What is cached, and what can be, has sizes on this machine.
    pub open spec fn wf(&self) -> bool {
        &&& self.len * self.width <= usize::MAX
        &&& self.limit * self.width <= usize::MAX
        &&& 2 * self.width * self.layers <= usize::MAX
    }

    /// The place in the cache is a place of the same decoder.
    pub open spec fn same_decoder(&self, other: &CacheLen) -> bool {
        &&& self.layers == other.layers
        &&& self.width == other.width
        &&& self.limit == other.limit
        &&& self.vocab == other.vocab
    }

    /// What is wrong with scoring `tokens`.
    pub open spec fn score_error(&self, tokens: Seq<u32>, keep_from: int) -> Option<CacheError> {
        if keep_from >= tokens.len() {
            Some(CacheError::NothingToScore)
        } else if self.len + tokens.len() > self.limit {
            Some(CacheError::TooLong)
        } else {
            match foreign_token(tokens, self.vocab as int, 0) {
                Some(token) => Some(CacheError::Token(token)),
                None => None,
            }
        }
    }

    /// Drops cached tokens beyond `len`.
    pub fn truncate(&mut self, len: usize)
        requires
            old(self).wf(),
        ensures
            final(self).wf(),
            final(self).same_decoder(old(self)),
            final(self).len == (if len < old(self).len {
                len
            } else {
                old(self).len
            }),
    {
        if len < self.len {
            proof {
                let w = self.width as int;
                let n = self.len as int;
                let m = len as int;
                assert(m * w <= n * w) by (nonlinear_arith)
                    requires
                        0 <= m < n,
                        0 <= w,
                {}
            }
            self.len = len;
        }
    }

    /// Where the last cached token stands in a layer's keys and values.
    pub fn last_span(&self) -> (r: Result<(usize, usize), CacheError>)
        requires
            self.wf(),
        ensures
            match r {
                Ok((from, to)) => {
                    &&& self.len > 0
                    &&& from == (self.len - 1) * self.width
                    &&& to == self.len * self.width
                },
                Err(e) => self.len == 0 && e == CacheError::Empty,
            },
    {
        if self.len == 0 {
            return Err(CacheError::Empty);
        }
        proof {
            let w = self.width as int;
            let n = self.len as int;
            assert((n - 1) * w <= n * w && 0 <= (n - 1) * w) by (nonlinear_arith)
                requires
                    1 <= n,
                    0 <= w,
            {}
        }
        Ok(((self.len - 1) * self.width, self.len * self.width))
    }

    /// Puts a snapshot of `size` numbers back at `at`: the span that it fills in
    /// a layer, and a cache that ends behind it.
    pub fn restore(&mut self, at: usize, size: usize) -> (r: Result<(usize, usize), CacheError>)
        requires
            old(self).wf(),
            at <= old(self).len ==> at < usize::MAX && (at + 1) * old(self).width <= usize::MAX,
        ensures
            final(self).wf(),
            final(self).same_decoder(old(self)),
            match r {
                Ok((from, to)) => {
                    &&& at <= old(self).len
                    &&& size == 2 * old(self).width * old(self).layers
                    &&& from == at * old(self).width
                    &&& to == (at + 1) * old(self).width
                    &&& final(self).len == at + 1
                },
                Err(e) => {
                    &&& final(self).len == old(self).len
                    &&& if at > old(self).len {
                        e == CacheError::PastTheEnd
                    } else {
                        size != 2 * old(self).width * old(self).layers && e
                            == CacheError::OtherModel
                    }
                },
            },
    {
        if at > self.len {
            return Err(CacheError::PastTheEnd);
        }
        proof {
            let w = self.width as int;
            let a = at as int;
            let n = self.layers as int;
            assert(a * w <= (a + 1) * w && 0 <= a * w) by (nonlinear_arith)
                requires
                    0 <= a,
                    0 <= w,
            {}
            if n > 0 {
                assert(2 * w <= 2 * w * n) by (nonlinear_arith)
                    requires
                        n > 0,
                        0 <= w,
                {}
            }
        }
        if self.layers == 0 {
            assert(2 * self.width * 0 == 0) by (nonlinear_arith);
            if size != 0 {
                return Err(CacheError::OtherModel);
            }
        } else if size != 2 * self.width * self.layers {
            return Err(CacheError::OtherModel);
        }
        self.len = at + 1;
        Ok((at * self.width, (at + 1) * self.width))
    }

    /// Takes in tokens to score, of which rows from `keep_from` on are kept: the
    /// position of the first of them. A sequence that is too long, or holds a
    /// foreign token, leaves the cache empty.
    pub fn extend(&mut self, tokens: &[u32], keep_from: usize) -> (r: Result<usize, CacheError>)
        requires
            old(self).wf(),
        ensures
            final(self).wf(),
            final(self).same_decoder(old(self)),
            match r {
                Ok(at) => {
                    &&& old(self).score_error(tokens@, keep_from as int) is None
                    &&& at == old(self).len
                    &&& final(self).len == old(self).len + tokens@.len()
                },
                Err(e) => {
                    &&& old(self).score_error(tokens@, keep_from as int) == Some(e)
                    &&& final(self).len == (if e == CacheError::NothingToScore {
                        old(self).len
                    } else {
                        0
                    })
                },
            },
    {
        if keep_from >= tokens.len() {
            return Err(CacheError::NothingToScore);
        }
        let at: usize = self.len;
        if at > self.limit || tokens.len() > self.limit - at {
            self.len = 0;
            return Err(CacheError::TooLong);
        }
        let mut i: usize = 0;
        while i < tokens.len()
            invariant
                i <= tokens@.len(),
                foreign_token(tokens@, self.vocab as int, 0) == foreign_token(
                    tokens@,
                    self.vocab as int,
                    i as int,
                ),
                *self == *old(self),
                self.wf(),
                keep_from < tokens@.len(),
                self.len + tokens@.len() <= self.limit,
            decreases tokens@.len() - i,
        {
            let token: u32 = tokens[i];
            if token as u64 >= self.vocab as u64 {
                self.len = 0;
                return Err(CacheError::Token(token));
            }
            i = i + 1;
        }
        proof {
            let w = self.width as int;
            let n = at + tokens@.len();
            let top = self.limit as int;
            assert(n * w <= top * w && 0 * w == 0) by (nonlinear_arith)
                requires
                    0 <= n <= top,
                    0 <= w,
            {}
        }
        self.len = at + tokens.len();
        Ok(at)
    }
}

// ---------------------------------------------------------------------------
// The weights file
// ---------------------------------------------------------------------------
/// The longest plausible header of a weights file, in bytes.
pub const MAX_HEADER: u64 = 104_857_600;

/// Whether a header length is plausible.
pub fn header_plausible(len: u64) -> (r: bool)
    ensures
        r == (len < MAX_HEADER),
{
    len < MAX_HEADER
}

/// Why a tensor cannot be read.
#[derive(Clone, Copy, Debug, PartialEq, Eq, Structural)]
pub enum TensorError {
    /// Another element type.
    ElementType,
    /// The size does not match the shape.
    Size,
    /// Another shape than expected.
    Shape,
}

/// The product of the first `k` dimensions.
pub open spec fn elements(shape: Seq<usize>, k: int) -> int
    decreases k,
{
    if k <= 0 {
        1
    } else {
        elements(shape, k - 1) * shape[k - 1]
    }
}

/// The bytes of one element.
pub open spec fn element_width(dtype: Seq<char>) -> Option<int> {
    if dtype == "BF16"@ {
        Some(2)
    } else if dtype == "F32"@ {
        Some(4)
    } else {
        None
    }
}

/// All products of leading dimensions fit a machine word.
pub open spec fn shape_fits(shape: Seq<usize>) -> bool {
    forall|k: int| 0 <= k <= shape.len() ==> 0 <= 4 * #[trigger] elements(shape, k) <= usize::MAX
}

/// The element width and the number of bytes of a tensor, given its element
/// type, its shape and where its bytes stand.
pub fn tensor_layout(dtype: &str, shape: &Vec<usize>, start: u64, end: u64) -> (r: Result<
    (usize, usize),
    TensorError,
>)
    requires
        element_width(dtype@) is Some ==> start <= end && shape_fits(shape@),
    ensures
        match r {
            Ok((width, size)) => {
                &&& element_width(dtype@) == Some(width as int)
                &&& size == elements(shape@, shape@.len() as int) * width
                &&& end - start == size
            },
            Err(e) => match element_width(dtype@) {
                None => e == TensorError::ElementType,
                Some(width) => e == TensorError::Size && end - start != elements(
                    shape@,
                    shape@.len() as int,
                ) * width,
            },
        },
{
    proof {
        reveal_strlit("BF16");
        reveal_strlit("F32");
        assert("BF16"@.len() == 4 && "F32"@.len() == 3);
        assert("BF16"@ != "F32"@);
    }
    let width: usize = if same_text(dtype, "BF16") {
        2
    } else if same_text(dtype, "F32") {
        4
    } else {
        return Err(TensorError::ElementType);
    };
    let mut count: usize = 1;
    let mut i: usize = 0;
    assert(0 <= 4 * elements(shape@, 0) <= usize::MAX);
    while i < shape.len()
        invariant
            shape_fits(shape@),
            i <= shape@.len(),
            count == elements(shape@, i as int),
        decreases shape@.len() - i,
    {
        assert(0 <= 4 * elements(shape@, i + 1) <= usize::MAX);
        count = count * shape[i];
        i = i + 1;
    }
    assert(0 <= 4 * elements(shape@, shape@.len() as int) <= usize::MAX);
    let size: usize = count * width;
    if end - start != size as u64 {
        return Err(TensorError::Size);
    }
    Ok((width, size))
}

/// Whether a tensor has the shape that is expected of it.
pub fn expect_shape(actual: &Vec<usize>, expected: &Vec<usize>) -> (r: Result<(), TensorError>)
    ensures
        match r {
            Ok(_) => actual@ == expected@,
            Err(e) => actual@ != expected@ && e == TensorError::Shape,
        },
{
    if actual.len() != expected.len() {
        return Err(TensorError::Shape);
    }
    let mut i: usize = 0;
    while i < actual.len()
        invariant
            actual@.len() == expected@.len(),
            i <= actual@.len(),
            forall|k: int| 0 <= k < i ==> actual@[k] == expected@[k],
        decreases actual@.len() - i,
    {
        if actual[i] != expected[i] {
            return Err(TensorError::Shape);
        }
        i = i + 1;
    }
    assert(actual@ =~= expected@);
    Ok(())
}

/// The single-precision bit patterns of half-size elements: each is the upper
/// half of one.
pub fn widened(bytes: &[u8]) -> (out: Vec<u32>)
    ensures
        out@.len() == bytes@.len() / 2,
        forall|k: int|
            0 <= k < out@.len() ==> #[trigger] out@[k] == (bytes@[2 * k] + 256 * bytes@[2 * k + 1])
                * 65536,
{
    let mut out: Vec<u32> = Vec::new();
    let total: usize = bytes.len();
    let count: usize = total / 2;
    let mut i: usize = 0;
    while i < count
        invariant
            total == bytes@.len(),
            count == total / 2,
            i <= count,
            out@.len() == i,
            forall|k: int|
                0 <= k < i ==> #[trigger] out@[k] == (bytes@[2 * k] + 256 * bytes@[2 * k + 1])
                    * 65536,
        decreases count - i,
    {
        let low: u32 = bytes[2 * i] as u32;
        let high: u32 = bytes[2 * i + 1] as u32;
        out.push((low + 256 * high) * 65536);
        i = i + 1;
    }
    out
}

/// The single-precision bit patterns of little-endian elements.
pub fn words(bytes: &[u8]) -> (out: Vec<u32>)
    ensures
        out@.len() == bytes@.len() / 4,
        forall|k: int|
            0 <= k < out@.len() ==> #[trigger] out@[k] == bytes@[4 * k] + 0x100 * bytes@[4 * k + 1]
                + 0x1_0000 * bytes@[4 * k + 2] + 0x100_0000 * bytes@[4 * k + 3],
{
    let mut out: Vec<u32> = Vec::new();
    let total: usize = bytes.len();
    let count: usize = total / 4;
    let mut i: usize = 0;
    while i < count
        invariant
            total == bytes@.len(),
            count == total / 4,
            i <= count,
            out@.len() == i,
            forall|k: int|
                0 <= k < i ==> #[trigger] out@[k] == bytes@[4 * k] + 0x100 * bytes@[4 * k + 1]
                    + 0x1_0000 * bytes@[4 * k + 2] + 0x100_0000 * bytes@[4 * k + 3],
        decreases count - i,
    {
        let a: u32 = bytes[4 * i] as u32;
        let b: u32 = bytes[4 * i + 1] as u32;
        let c: u32 = bytes[4 * i + 2] as u32;
        let d: u32 = bytes[4 * i + 3] as u32;
        out.push(a + 0x100 * b + 0x1_0000 * c + 0x100_0000 * d);
        i = i + 1;
    }
    out
}

} // verus!
