//! Where each tensor of a quantized model file lies, and how the key/value
//! cache is addressed.
//!
//! After the header, a model file is a sequence of single-precision slots.
//! The tensors follow one another without gaps: the embedding table, the
//! attention norms, then for each quantized projection its block scales
//! (one per 32 weights) followed by its 8-bit weights (four per slot), the
//! feed-forward norms and projections, the final norm, the two rotary
//! tables and, when the classifier is not shared, the classifier.
use vstd::prelude::*;
use vstd::arithmetic::mul::{lemma_mul_inequality, lemma_mul_is_associative, lemma_mul_is_commutative, lemma_mul_is_distributive_add_other_way, lemma_mul_nonnegative};
use vstd::arithmetic::div_mod::{lemma_mul_hoist_inequality, lemma_fundamental_div_mod};
use crate::model::{Config, HEADER_BYTES};

verus! {

/// A run of `len` items starting at `start`.
#[derive(Debug, Clone, Copy, PartialEq, Eq, Structural)]
pub struct Span {
    pub start: usize,
    pub len: usize,
}

/// One quantized tensor: its block scales, counted in slots, and its 8-bit
/// weights, counted in bytes from the start of the weight data.
#[derive(Debug, Clone, Copy, PartialEq, Eq, Structural)]
pub struct Q8Span {
    pub scales: Span,
    pub weights: Span,
}

/// The tensors of one transformer layer.
#[derive(Debug, Clone, Copy, PartialEq, Eq, Structural)]
pub struct LayerLayout {
    pub rms_att_weight: Span,
    pub rms_ffn_weight: Span,
    pub wq: Q8Span,
    pub wk: Q8Span,
    pub wv: Q8Span,
    pub wo: Q8Span,
    pub w1: Q8Span,
    pub w2: Q8Span,
    pub w3: Q8Span,
}

/// Where every tensor of a model lies in its weight data.
pub struct WeightLayout {
    pub token_embedding_table: Span,
    pub layer: Vec<LayerLayout>,
    pub rms_final_weight: Span,
    pub freq_cis_real: Span,
    pub freq_cis_imag: Span,
    pub wcls: Option<Span>,
}

/// Why a model file cannot be laid out.
#[derive(Debug, Clone, Copy, PartialEq, Eq, Structural)]
pub enum LayoutError {
    /// A tensor size or offset does not fit in a machine word.
    Overflow,
    /// The tensors need `expected` slots but the file holds `found`.
    SizeMismatch { expected: usize, found: usize },
    /// A tensor runs past the end of the file.
    Truncated,
}

/// The width of one attention head.
pub open spec fn head_size(c: Config) -> int {
    c.dim as int / c.n_heads as int
}

/// Weights of one layer's query projection.
pub open spec fn q_elems(c: Config) -> int {
    c.dim * (c.n_heads * head_size(c))
}

/// Weights of one layer's key (or value) projection.
pub open spec fn kv_elems(c: Config) -> int {
    c.dim * (c.n_kv_heads * head_size(c))
}

/// Weights of one layer's feed-forward projection.
pub open spec fn ffn_elems(c: Config) -> int {
    c.hidden_dim * c.dim
}

/// Entries of each rotary table.
pub open spec fn freq_len(c: Config) -> int {
    c.seq_len * (head_size(c) / 2)
}

/// The number of slots of each tensor, in file order: embedding table,
/// attention norms, query scales and weights, key scales and weights, value
/// scales and weights, output scales and weights, feed-forward norms, the
/// three feed-forward projections (scales, weights), the final norm, the
/// two rotary tables and the classifier (empty when shared).
pub open spec fn section_sizes(c: Config) -> Seq<int> {
    let l = c.n_layers as int;
    seq![
        c.vocab_size * c.dim,
        l * c.dim,
        l * q_elems(c) / 32,
        l * q_elems(c) / 4,
        l * kv_elems(c) / 32,
        l * kv_elems(c) / 4,
        l * kv_elems(c) / 32,
        l * kv_elems(c) / 4,
        l * q_elems(c) / 32,
        l * q_elems(c) / 4,
        l * c.dim,
        l * ffn_elems(c) / 32,
        l * ffn_elems(c) / 4,
        l * ffn_elems(c) / 32,
        l * ffn_elems(c) / 4,
        l * ffn_elems(c) / 32,
        l * ffn_elems(c) / 4,
        c.dim as int,
        freq_len(c),
        freq_len(c),
        if c.shared_classifier {
            0
        } else {
            c.vocab_size * c.dim
        },
    ]
}

/// The number of tensor sections.
pub open spec fn n_sections() -> int {
    21
}

/// The sum of the first `k` entries of `s`.
pub open spec fn prefix_sum(s: Seq<int>, k: int) -> int
    decreases k,
{
    if k <= 0 {
        0
    } else {
        prefix_sum(s, k - 1) + s[k - 1]
    }
}

/// The slot at which section `k` starts.
pub open spec fn section_start(c: Config, k: int) -> int {
    prefix_sum(section_sizes(c), k)
}

/// The number of slots that all tensors take together.
pub open spec fn layout_total(c: Config) -> int {
    section_start(c, n_sections())
}

/// Every product and sum that laying out the tensors computes fits in a
/// machine word.
pub open spec fn layout_fits(c: Config) -> bool {
    &&& products_fit(c)
    &&& layout_total(c) <= usize::MAX
}

/// Every tensor size that laying out the tensors multiplies out fits in a
/// machine word.
pub open spec fn products_fit(c: Config) -> bool {
    let l = c.n_layers as int;
    let hs = head_size(c);
    &&& c.vocab_size * c.dim <= usize::MAX
    &&& l * c.dim <= usize::MAX
    &&& c.n_kv_heads * hs <= usize::MAX
    &&& (l * c.dim) * (c.n_heads * hs) <= usize::MAX
    &&& (l * c.dim) * (c.n_kv_heads * hs) <= usize::MAX
    &&& l * c.hidden_dim <= usize::MAX
    &&& (l * c.hidden_dim) * c.dim <= usize::MAX
    &&& c.seq_len * (hs / 2) <= usize::MAX
}

/// The number of slots after the header of a file of `file_len` bytes.
pub open spec fn float_count(file_len: int) -> int {
    (file_len - HEADER_BYTES) / 4
}

/// The span of section `k`.
pub open spec fn section_span(c: Config, k: int) -> Span {
    Span { start: section_start(c, k) as usize, len: section_sizes(c)[k] as usize }
}

/// Layer `l`'s share of a quantized tensor whose scales start at slot
/// `scale_start` and whose weights start at byte `byte_start`, with `size`
/// weights per layer.
pub open spec fn q8_layer_span(scale_start: int, byte_start: int, size: int, l: int) -> Q8Span {
    Q8Span {
        scales: Span { start: (scale_start + l * (size / 32)) as usize, len: (size / 32) as usize },
        weights: Span { start: (byte_start + l * size) as usize, len: size as usize },
    }
}

/// Layer `l`'s share of a quantized tensor stored in sections `k` (scales)
/// and `k + 1` (weights).
pub open spec fn q8_section_layer(c: Config, k: int, size: int, l: int) -> Q8Span {
    q8_layer_span(section_start(c, k), 4 * section_start(c, k + 1), size, l)
}

/// The tensors of layer `l`.
pub open spec fn layer_layout(c: Config, l: int) -> LayerLayout {
    LayerLayout {
        rms_att_weight: Span { start: (section_start(c, 1) + l * c.dim) as usize, len: c.dim },
        rms_ffn_weight: Span { start: (section_start(c, 10) + l * c.dim) as usize, len: c.dim },
        wq: q8_section_layer(c, 2, q_elems(c), l),
        wk: q8_section_layer(c, 4, kv_elems(c), l),
        wv: q8_section_layer(c, 6, kv_elems(c), l),
        wo: q8_section_layer(c, 8, q_elems(c), l),
        w1: q8_section_layer(c, 11, ffn_elems(c), l),
        w2: q8_section_layer(c, 13, ffn_elems(c), l),
        w3: q8_section_layer(c, 15, ffn_elems(c), l),
    }
}

/// Each section starts where the previous one ends.
pub proof fn lemma_section_start_step(c: Config, k: int)
    requires
        0 <= k,
    ensures
        section_start(c, k + 1) == section_start(c, k) + section_sizes(c)[k],
{
}

/// Section sizes are never negative, so section starts never decrease.
pub proof fn lemma_section_start_monotone(c: Config, j: int, k: int)
    requires
        c.n_heads > 0,
        0 <= j <= k <= n_sections(),
    ensures
        section_start(c, j) <= section_start(c, k),
        0 <= section_start(c, j),
    decreases k,
{
    lemma_sizes_nonnegative(c);
    if k > j {
        lemma_section_start_monotone(c, j, k - 1);
    } else if j > 0 {
        lemma_section_start_monotone(c, j - 1, j - 1);
    }
}

/// Every section size is a natural number.
pub proof fn lemma_sizes_nonnegative(c: Config)
    requires
        c.n_heads > 0,
    ensures
        section_sizes(c).len() == n_sections(),
        forall|k: int| 0 <= k < n_sections() ==> section_sizes(c)[k] >= 0,
{
    let l = c.n_layers as int;
    let hs = head_size(c);
    lemma_mul_nonnegative(c.vocab_size as int, c.dim as int);
    lemma_mul_nonnegative(l, c.dim as int);
    lemma_mul_nonnegative(c.n_heads as int, hs);
    lemma_mul_nonnegative(c.n_kv_heads as int, hs);
    lemma_mul_nonnegative(c.dim as int, c.n_heads * hs);
    lemma_mul_nonnegative(c.dim as int, c.n_kv_heads * hs);
    lemma_mul_nonnegative(l, q_elems(c));
    lemma_mul_nonnegative(l, kv_elems(c));
    lemma_mul_nonnegative(c.hidden_dim as int, c.dim as int);
    lemma_mul_nonnegative(l, ffn_elems(c));
    lemma_mul_nonnegative(c.seq_len as int, hs / 2);
}


/// A product, or `Overflow` when it does not fit in a machine word.
fn mul_or_overflow(a: usize, b: usize) -> (r: Result<usize, LayoutError>)
    ensures
        r matches Ok(p) ==> p == a * b,
        r is Err ==> a * b > usize::MAX && r == Err::<usize, LayoutError>(LayoutError::Overflow),
{
    match a.checked_mul(b) {
        Some(p) => Ok(p),
        None => Err(LayoutError::Overflow),
    }
}

/// Layer `l`'s share of a quantized tensor with `n` layers of `size`
/// weights each, whose scales start at slot `scale_start` and whose weights
/// start at slot `weight_slot_start`.
fn q8_layer(scale_start: usize, weight_slot_start: usize, size: usize, l: usize, n: usize) -> (s: Q8Span)
    requires
        l < n,
        scale_start + (n * size) / 32 <= usize::MAX,
        4 * weight_slot_start + n * size <= usize::MAX,
    ensures
        s == q8_layer_span(scale_start as int, 4 * weight_slot_start, size as int, l as int),
{
    let blocks = size / 32;
    proof {
        lemma_mul_inequality(l as int + 1, n as int, blocks as int);
        lemma_mul_hoist_inequality(n as int, size as int, 32);
        lemma_mul_is_distributive_add_other_way(blocks as int, l as int, 1);
        lemma_mul_is_commutative(blocks as int, l as int + 1);
        lemma_mul_is_commutative(blocks as int, l as int);
        lemma_mul_inequality(l as int + 1, n as int, size as int);
        lemma_mul_is_distributive_add_other_way(size as int, l as int, 1);
        lemma_mul_is_commutative(size as int, l as int + 1);
        lemma_mul_is_commutative(size as int, l as int);
        lemma_mul_nonnegative(l as int, blocks as int);
        lemma_mul_nonnegative(l as int, size as int);
    }
    let byte_start = 4 * weight_slot_start;
    Q8Span {
        scales: Span { start: scale_start + l * blocks, len: blocks },
        weights: Span { start: byte_start + l * size, len: size },
    }
}

/// The bounds that carving the layers of a quantized tensor out of its
/// sections `k` (scales) and `k + 1` (weights) relies on.
proof fn lemma_block_room(c: Config, k: int, elems: int, file_len: int)
    requires
        c.n_heads > 0,
        0 <= k,
        k + 2 <= n_sections(),
        elems >= 0,
        section_sizes(c)[k] == elems / 32,
        section_sizes(c)[k + 1] == elems / 4,
        layout_total(c) == float_count(file_len),
        HEADER_BYTES <= file_len <= usize::MAX,
    ensures
        section_start(c, k) + elems / 32 <= layout_total(c),
        4 * section_start(c, k + 1) + elems <= usize::MAX,
{
    lemma_section_start_step(c, k);
    lemma_section_start_step(c, k + 1);
    lemma_section_start_monotone(c, k + 2, n_sections());
    lemma_fundamental_div_mod(elems, 4);
}

/// Lays out the tensors of a model file of `file_len` bytes: the span of
/// every tensor, and each layer's share of the per-layer tensors. Fails
/// when a size does not fit in a machine word, or when the tensors do not
/// fill the file's slots exactly.
pub fn weight_layout(config: &Config, file_len: usize) -> (r: Result<WeightLayout, LayoutError>)
    requires
        config.n_heads > 0,
        file_len >= HEADER_BYTES,
    ensures
        match r {
            Ok(w) => {
                &&& layout_fits(*config)
                &&& layout_total(*config) == float_count(file_len as int)
                &&& w.token_embedding_table == section_span(*config, 0)
                &&& w.layer@.len() == config.n_layers
                &&& forall|l: int| 0 <= l < config.n_layers ==> #[trigger] w.layer@[l] == layer_layout(*config, l)
                &&& w.rms_final_weight == section_span(*config, 17)
                &&& w.freq_cis_real == section_span(*config, 18)
                &&& w.freq_cis_imag == section_span(*config, 19)
                &&& w.wcls == if config.shared_classifier {
                    None
                } else {
                    Some(section_span(*config, 20))
                }
            },
            Err(LayoutError::Overflow) => !layout_fits(*config),
            Err(LayoutError::SizeMismatch { expected, found }) => {
                &&& layout_fits(*config)
                &&& expected == layout_total(*config)
                &&& found == float_count(file_len as int)
                &&& expected != found
            },
            Err(LayoutError::Truncated) => false,
        },
{
    let c = *config;
    let ghost gc = *config;
    let dim = c.dim;
    let n_layers = c.n_layers;
    let hs = dim / c.n_heads;
    proof {
        lemma_fundamental_div_mod(dim as int, c.n_heads as int);
        lemma_sizes_nonnegative(gc);
    }
    let emb = mul_or_overflow(c.vocab_size, dim)?;
    let ld = mul_or_overflow(n_layers, dim)?;
    let kv_heads = mul_or_overflow(c.n_kv_heads, hs)?;
    assert(c.n_heads * hs <= dim);
    let q_heads = c.n_heads * hs;
    let q_total = mul_or_overflow(ld, q_heads)?;
    let kv_total = mul_or_overflow(ld, kv_heads)?;
    let lh = mul_or_overflow(n_layers, c.hidden_dim)?;
    let f_total = mul_or_overflow(lh, dim)?;
    let freq = mul_or_overflow(c.seq_len, hs / 2)?;
    proof {
        lemma_mul_is_associative(n_layers as int, dim as int, q_heads as int);
        lemma_mul_is_associative(n_layers as int, dim as int, kv_heads as int);
        lemma_mul_is_associative(n_layers as int, c.hidden_dim as int, dim as int);
    }
    let cls: usize = if c.shared_classifier { 0 } else { emb };
    let sizes: Vec<usize> = vec![
        emb, ld,
        q_total / 32, q_total / 4,
        kv_total / 32, kv_total / 4,
        kv_total / 32, kv_total / 4,
        q_total / 32, q_total / 4,
        ld,
        f_total / 32, f_total / 4,
        f_total / 32, f_total / 4,
        f_total / 32, f_total / 4,
        dim, freq, freq, cls,
    ];
    assert(sizes@.len() == n_sections());
    assert forall|k: int| 0 <= k < n_sections() implies sizes@[k] == section_sizes(gc)[k] by {}
    let mut starts: Vec<usize> = Vec::new();
    let mut off: usize = 0;
    let mut k: usize = 0;
    while k < 21
        invariant
            c == gc,
            gc == *config,
            gc.n_heads > 0,
            sizes@.len() == n_sections(),
            forall|j: int| 0 <= j < n_sections() ==> sizes@[j] == section_sizes(gc)[j],
            k <= n_sections(),
            starts@.len() == k,
            off == section_start(gc, k as int),
            forall|j: int| 0 <= j < k ==> starts@[j] == section_start(gc, j),
        decreases 21 - k,
    {
        starts.push(off);
        proof {
            lemma_section_start_step(gc, k as int);
        }
        match off.checked_add(sizes[k]) {
            Some(next) => {
                off = next;
            },
            None => {
                proof {
                    lemma_section_start_monotone(gc, k as int + 1, n_sections());
                }
                return Err(LayoutError::Overflow);
            },
        }
        k += 1;
    }
    assert(layout_fits(gc));
    let n_floats = (file_len - HEADER_BYTES) / 4;
    if off != n_floats {
        return Err(LayoutError::SizeMismatch { expected: off, found: n_floats });
    }
    proof {
        lemma_block_room(gc, 2, n_layers * q_elems(gc), file_len as int);
        lemma_block_room(gc, 4, n_layers * kv_elems(gc), file_len as int);
        lemma_block_room(gc, 6, n_layers * kv_elems(gc), file_len as int);
        lemma_block_room(gc, 8, n_layers * q_elems(gc), file_len as int);
        lemma_block_room(gc, 11, n_layers * ffn_elems(gc), file_len as int);
        lemma_block_room(gc, 13, n_layers * ffn_elems(gc), file_len as int);
        lemma_block_room(gc, 15, n_layers * ffn_elems(gc), file_len as int);
        lemma_section_start_step(gc, 1);
        lemma_section_start_step(gc, 10);
        lemma_section_start_monotone(gc, 2, n_sections());
        lemma_section_start_monotone(gc, 11, n_sections());
    }
    let mut layers: Vec<LayerLayout> = Vec::with_capacity(n_layers);
    let mut l: usize = 0;
    while l < n_layers
        invariant
            c == gc,
            gc == *config,
            gc.n_heads > 0,
            n_layers == gc.n_layers,
            dim == gc.dim,
            hs == head_size(gc),
            q_heads == gc.n_heads * head_size(gc),
            kv_heads == gc.n_kv_heads * head_size(gc),
            starts@.len() == n_sections(),
            forall|j: int| 0 <= j < n_sections() ==> starts@[j] == section_start(gc, j),
            section_start(gc, 2) == section_start(gc, 1) + n_layers * dim,
            section_start(gc, 11) == section_start(gc, 10) + n_layers * dim,
            section_start(gc, 2) <= layout_total(gc),
            section_start(gc, 11) <= layout_total(gc),
            layout_total(gc) <= usize::MAX,
            section_start(gc, 2) + (n_layers * q_elems(gc)) / 32 <= usize::MAX,
            4 * section_start(gc, 3) + n_layers * q_elems(gc) <= usize::MAX,
            section_start(gc, 4) + (n_layers * kv_elems(gc)) / 32 <= usize::MAX,
            4 * section_start(gc, 5) + n_layers * kv_elems(gc) <= usize::MAX,
            section_start(gc, 6) + (n_layers * kv_elems(gc)) / 32 <= usize::MAX,
            4 * section_start(gc, 7) + n_layers * kv_elems(gc) <= usize::MAX,
            section_start(gc, 8) + (n_layers * q_elems(gc)) / 32 <= usize::MAX,
            4 * section_start(gc, 9) + n_layers * q_elems(gc) <= usize::MAX,
            section_start(gc, 11) + (n_layers * ffn_elems(gc)) / 32 <= usize::MAX,
            4 * section_start(gc, 12) + n_layers * ffn_elems(gc) <= usize::MAX,
            section_start(gc, 13) + (n_layers * ffn_elems(gc)) / 32 <= usize::MAX,
            4 * section_start(gc, 14) + n_layers * ffn_elems(gc) <= usize::MAX,
            section_start(gc, 15) + (n_layers * ffn_elems(gc)) / 32 <= usize::MAX,
            4 * section_start(gc, 16) + n_layers * ffn_elems(gc) <= usize::MAX,
            l <= n_layers,
            layers@.len() == l,
            forall|j: int| 0 <= j < l ==> #[trigger] layers@[j] == layer_layout(gc, j),
        decreases n_layers - l,
    {
        proof {
            lemma_mul_inequality(l as int + 1, n_layers as int, dim as int);
            lemma_mul_is_distributive_add_other_way(dim as int, l as int, 1);
            lemma_mul_is_commutative(dim as int, l as int + 1);
            lemma_mul_is_commutative(dim as int, l as int);
            lemma_mul_nonnegative(l as int, dim as int);
            lemma_mul_nonnegative(n_layers as int, q_elems(gc));
            lemma_mul_inequality(1, n_layers as int, q_elems(gc));
            lemma_mul_nonnegative(n_layers as int, kv_elems(gc));
            lemma_mul_inequality(1, n_layers as int, kv_elems(gc));
            lemma_mul_nonnegative(n_layers as int, ffn_elems(gc));
            lemma_mul_inequality(1, n_layers as int, ffn_elems(gc));
        }
        let q_size = dim * q_heads;
        let k_size = dim * kv_heads;
        let ffn_size = c.hidden_dim * dim;
        let att_start = starts[1] + l * dim;
        let ffn_norm_start = starts[10] + l * dim;
        let layer = LayerLayout {
            rms_att_weight: Span { start: att_start, len: dim },
            rms_ffn_weight: Span { start: ffn_norm_start, len: dim },
            wq: q8_layer(starts[2], starts[3], q_size, l, n_layers),
            wk: q8_layer(starts[4], starts[5], k_size, l, n_layers),
            wv: q8_layer(starts[6], starts[7], k_size, l, n_layers),
            wo: q8_layer(starts[8], starts[9], q_size, l, n_layers),
            w1: q8_layer(starts[11], starts[12], ffn_size, l, n_layers),
            w2: q8_layer(starts[13], starts[14], ffn_size, l, n_layers),
            w3: q8_layer(starts[15], starts[16], ffn_size, l, n_layers),
        };
        assert(layer == layer_layout(gc, l as int));
        layers.push(layer);
        l += 1;
    }
    let token_embedding_table = Span { start: starts[0], len: sizes[0] };
    let rms_final_weight = Span { start: starts[17], len: sizes[17] };
    let freq_cis_real = Span { start: starts[18], len: sizes[18] };
    let freq_cis_imag = Span { start: starts[19], len: sizes[19] };
    let wcls = if c.shared_classifier {
        None
    } else {
        Some(Span { start: starts[20], len: sizes[20] })
    };
    Ok(WeightLayout { token_embedding_table, layer: layers, rms_final_weight, freq_cis_real, freq_cis_imag, wcls })
}


/// A model file of `file_len` bytes that lays out without error under `c`.
pub open spec fn layout_ok(c: Config, file_len: int) -> bool {
    &&& c.n_heads > 0
    &&& HEADER_BYTES <= file_len <= usize::MAX
    &&& layout_fits(c)
    &&& layout_total(c) == float_count(file_len)
}

/// The end of a span.
pub open spec fn span_end(s: Span) -> int {
    s.start + s.len
}

/// Section `k` holds the scales of a quantized tensor with `size` weights
/// per layer, and section `k + 1` its weights.
pub open spec fn is_q8_section(c: Config, k: int, size: int) -> bool {
    ||| k == 2 && size == q_elems(c)
    ||| k == 4 && size == kv_elems(c)
    ||| k == 6 && size == kv_elems(c)
    ||| k == 8 && size == q_elems(c)
    ||| k == 11 && size == ffn_elems(c)
    ||| k == 13 && size == ffn_elems(c)
    ||| k == 15 && size == ffn_elems(c)
}

/// The sections tile the file's slots: the first starts at slot 0, each
/// starts where the previous one ends, and the last ends at the end of the
/// file.
pub proof fn law_sections_tile_file(c: Config, file_len: int)
    requires
        layout_ok(c, file_len),
    ensures
        section_start(c, 0) == 0,
        forall|k: int|
            0 <= k < n_sections() ==> section_start(c, k) + section_sizes(c)[k] == section_start(
                c,
                k + 1,
            ) && #[trigger] section_start(c, k + 1) <= float_count(file_len),
        section_start(c, n_sections()) == float_count(file_len),
{
    assert forall|k: int| 0 <= k < n_sections() implies section_start(c, k) + section_sizes(c)[k]
        == section_start(c, k + 1) && #[trigger] section_start(c, k + 1) <= float_count(
        file_len,
    ) by {
        lemma_section_start_step(c, k);
        lemma_section_start_monotone(c, k + 1, n_sections());
    }
}

/// The sizes of a quantized section pair fit their per-layer tensors.
proof fn lemma_q8_section_sizes(c: Config, k: int, size: int)
    requires
        c.n_heads > 0,
        is_q8_section(c, k, size),
    ensures
        size >= 0,
        section_sizes(c)[k] == (c.n_layers * size) / 32,
        section_sizes(c)[k + 1] == (c.n_layers * size) / 4,
        k + 2 <= n_sections(),
{
    lemma_sizes_nonnegative(c);
    lemma_mul_nonnegative(c.n_heads as int, head_size(c));
    lemma_mul_nonnegative(c.n_kv_heads as int, head_size(c));
    lemma_mul_nonnegative(c.dim as int, c.n_heads * head_size(c));
    lemma_mul_nonnegative(c.dim as int, c.n_kv_heads * head_size(c));
    lemma_mul_nonnegative(c.hidden_dim as int, c.dim as int);
}

/// Each layer's share of a quantized tensor lies inside that tensor: its
/// scales inside the scales section and its weights inside the bytes that
/// start the weights section.
pub proof fn law_layer_share_within_tensor(c: Config, file_len: int, k: int, size: int, l: int)
    requires
        layout_ok(c, file_len),
        is_q8_section(c, k, size),
        0 <= l < c.n_layers,
    ensures
        q8_section_layer(c, k, size, l).scales.start == section_start(c, k) + l * (size / 32),
        q8_section_layer(c, k, size, l).scales.len == size / 32,
        q8_section_layer(c, k, size, l).weights.start == 4 * section_start(c, k + 1) + l * size,
        q8_section_layer(c, k, size, l).weights.len == size,
        section_start(c, k) <= q8_section_layer(c, k, size, l).scales.start,
        span_end(q8_section_layer(c, k, size, l).scales) <= section_start(c, k + 1),
        4 * section_start(c, k + 1) <= q8_section_layer(c, k, size, l).weights.start,
        span_end(q8_section_layer(c, k, size, l).weights) <= 4 * section_start(c, k + 1) + c.n_layers
            * size,
{
    lemma_q8_section_sizes(c, k, size);
    lemma_block_room(c, k, c.n_layers * size, file_len);
    lemma_section_start_step(c, k);
    let n = c.n_layers as int;
    let blocks = size / 32;
    lemma_mul_inequality(l + 1, n, blocks);
    lemma_mul_hoist_inequality(n, size, 32);
    lemma_mul_is_distributive_add_other_way(blocks, l, 1);
    lemma_mul_is_commutative(blocks, l + 1);
    lemma_mul_is_commutative(blocks, l);
    lemma_mul_inequality(l + 1, n, size);
    lemma_mul_is_distributive_add_other_way(size, l, 1);
    lemma_mul_is_commutative(size, l + 1);
    lemma_mul_is_commutative(size, l);
    lemma_mul_nonnegative(l, blocks);
    lemma_mul_nonnegative(l, size);
    lemma_section_start_monotone(c, 0, k);
}

/// The shares of two layers of a quantized tensor do not overlap: an
/// earlier layer's scales and weights end before a later layer's begin.
pub proof fn law_layer_shares_disjoint(c: Config, file_len: int, k: int, size: int, l1: int, l2: int)
    requires
        layout_ok(c, file_len),
        is_q8_section(c, k, size),
        0 <= l1 < l2 < c.n_layers,
    ensures
        span_end(q8_section_layer(c, k, size, l1).scales) <= q8_section_layer(
            c,
            k,
            size,
            l2,
        ).scales.start,
        span_end(q8_section_layer(c, k, size, l1).weights) <= q8_section_layer(
            c,
            k,
            size,
            l2,
        ).weights.start,
{
    law_layer_share_within_tensor(c, file_len, k, size, l1);
    law_layer_share_within_tensor(c, file_len, k, size, l2);
    let blocks = size / 32;
    lemma_mul_inequality(l1 + 1, l2, blocks);
    lemma_mul_is_distributive_add_other_way(blocks, l1, 1);
    lemma_mul_is_commutative(blocks, l1 + 1);
    lemma_mul_is_commutative(blocks, l1);
    lemma_mul_inequality(l1 + 1, l2, size);
    lemma_mul_is_distributive_add_other_way(size, l1, 1);
    lemma_mul_is_commutative(size, l1 + 1);
    lemma_mul_is_commutative(size, l1);
}


/// The width of the cached key (or value) vector of one position.
pub open spec fn kv_dim(c: Config) -> int {
    c.n_kv_heads * head_size(c)
}

/// Entries of each of the key and value caches: one vector per layer and position.
pub open spec fn kv_cache_elems(c: Config) -> int {
    c.n_layers * c.seq_len * kv_dim(c)
}

/// The products that sizing the caches computes fit in a machine word.
pub open spec fn kv_cache_fits(c: Config) -> bool {
    &&& c.n_layers * c.seq_len <= usize::MAX
    &&& kv_dim(c) <= usize::MAX
    &&& kv_cache_elems(c) <= usize::MAX
}

/// The number of entries of the key cache (and of the value cache), or
/// `None` when it does not fit in a machine word.
pub fn kv_cache_len(config: &Config) -> (r: Option<usize>)
    requires
        config.n_heads > 0,
    ensures
        r is Some <==> kv_cache_fits(*config),
        r matches Some(n) ==> n == kv_cache_elems(*config),
{
    let hs = config.dim / config.n_heads;
    let kvd = match config.n_kv_heads.checked_mul(hs) {
        Some(v) => v,
        None => {
            return None;
        },
    };
    let ls = match config.n_layers.checked_mul(config.seq_len) {
        Some(v) => v,
        None => {
            return None;
        },
    };
    ls.checked_mul(kvd)
}

/// The entry of the caches at which layer `layer`, position `pos` and
/// key/value head `kv_head` begin.
pub open spec fn cache_offset_spec(c: Config, layer: int, pos: int, kv_head: int) -> int {
    layer * c.seq_len * kv_dim(c) + pos * kv_dim(c) + kv_head * head_size(c)
}

/// Where one head's key (or value) of one layer and position lies in the
/// caches; the head's `head_size` entries start there.
pub fn cache_offset(config: &Config, layer: usize, pos: usize, kv_head: usize) -> (r: usize)
    requires
        config.n_heads > 0,
        kv_cache_fits(*config),
        layer < config.n_layers,
        pos < config.seq_len,
        kv_head < config.n_kv_heads,
    ensures
        r == cache_offset_spec(*config, layer as int, pos as int, kv_head as int),
        r + head_size(*config) <= kv_cache_elems(*config),
{
    let hs = config.dim / config.n_heads;
    let kvd = config.n_kv_heads * hs;
    let seq = config.seq_len;
    let n = config.n_layers;
    proof {
        lemma_cache_offset_bound(n as int, seq as int, config.n_kv_heads as int, hs as int, layer as int, pos as int, kv_head as int);
    }
    layer * seq * kvd + pos * kvd + kv_head * hs
}

/// Arithmetic behind `cache_offset`: the offset and the end of the head's
/// entries stay within the caches.
proof fn lemma_cache_offset_bound(n: int, seq: int, nkv: int, hs: int, l: int, p: int, h: int)
    requires
        0 <= l < n,
        0 <= p < seq,
        0 <= h < nkv,
        hs >= 0,
    ensures
        0 <= l * seq * (nkv * hs),
        l * seq * (nkv * hs) + p * (nkv * hs) + h * hs + hs <= n * seq * (nkv * hs),
        l * seq <= n * seq,
        p * (nkv * hs) + h * hs + hs <= seq * (nkv * hs),
{
    let kvd = nkv * hs;
    assert(h * hs + hs <= kvd) by (nonlinear_arith)
        requires
            0 <= h < nkv,
            hs >= 0,
            kvd == nkv * hs,
    ;
    assert(p * kvd + kvd <= seq * kvd) by (nonlinear_arith)
        requires
            0 <= p < seq,
            kvd >= 0,
    ;
    assert(l * seq * kvd + seq * kvd <= n * seq * kvd) by (nonlinear_arith)
        requires
            0 <= l < n,
            seq >= 0,
            kvd >= 0,
    ;
    assert(l * seq <= n * seq) by (nonlinear_arith)
        requires
            0 <= l < n,
            seq >= 0,
    ;
    assert(0 <= l * seq * kvd) by (nonlinear_arith)
        requires
            0 <= l,
            seq >= 0,
            kvd >= 0,
    ;
}

/// Distinct (layer, position, head) triples own disjoint runs of
/// `head_size` cache entries, and every run lies inside the caches.
pub proof fn law_cache_slots_disjoint(
    c: Config,
    l1: int,
    p1: int,
    h1: int,
    l2: int,
    p2: int,
    h2: int,
)
    requires
        c.n_heads > 0,
        0 <= l1 < c.n_layers,
        0 <= l2 < c.n_layers,
        0 <= p1 < c.seq_len,
        0 <= p2 < c.seq_len,
        0 <= h1 < c.n_kv_heads,
        0 <= h2 < c.n_kv_heads,
        (l1, p1, h1) != (l2, p2, h2),
    ensures
        cache_offset_spec(c, l1, p1, h1) + head_size(c) <= cache_offset_spec(c, l2, p2, h2)
            || cache_offset_spec(c, l2, p2, h2) + head_size(c) <= cache_offset_spec(c, l1, p1, h1),
        0 <= cache_offset_spec(c, l1, p1, h1),
        cache_offset_spec(c, l1, p1, h1) + head_size(c) <= kv_cache_elems(c),
{
    let seq = c.seq_len as int;
    let nkv = c.n_kv_heads as int;
    let hs = head_size(c);
    lemma_cache_offset_bound(c.n_layers as int, seq, nkv, hs, l1, p1, h1);
    let i1 = (l1 * seq + p1) * nkv + h1;
    let i2 = (l2 * seq + p2) * nkv + h2;
    assert(cache_offset_spec(c, l1, p1, h1) == i1 * hs) by (nonlinear_arith)
        requires
            i1 == (l1 * seq + p1) * nkv + h1,
            cache_offset_spec(c, l1, p1, h1) == l1 * seq * (nkv * hs) + p1 * (nkv * hs) + h1 * hs,
    ;
    assert(cache_offset_spec(c, l2, p2, h2) == i2 * hs) by (nonlinear_arith)
        requires
            i2 == (l2 * seq + p2) * nkv + h2,
            cache_offset_spec(c, l2, p2, h2) == l2 * seq * (nkv * hs) + p2 * (nkv * hs) + h2 * hs,
    ;
    assert(i1 != i2) by (nonlinear_arith)
        requires
            i1 == (l1 * seq + p1) * nkv + h1,
            i2 == (l2 * seq + p2) * nkv + h2,
            0 <= p1 < seq,
            0 <= p2 < seq,
            0 <= h1 < nkv,
            0 <= h2 < nkv,
            0 <= l1,
            0 <= l2,
            (l1, p1, h1) != (l2, p2, h2),
    {
        let a1 = l1 * seq + p1;
        let a2 = l2 * seq + p2;
        if a1 == a2 {
            if l1 < l2 {
                assert(l1 * seq + seq <= l2 * seq);
            } else if l2 < l1 {
                assert(l2 * seq + seq <= l1 * seq);
            }
        } else if a1 < a2 {
            assert(a1 * nkv + nkv <= a2 * nkv);
        } else {
            assert(a2 * nkv + nkv <= a1 * nkv);
        }
    }
    if i1 < i2 {
        assert(i1 * hs + hs <= i2 * hs) by (nonlinear_arith)
            requires
                i1 < i2,
                hs >= 0,
        ;
    } else {
        assert(i2 * hs + hs <= i1 * hs) by (nonlinear_arith)
            requires
                i2 < i1,
                hs >= 0,
        ;
    }
}

/// The key/value head that query head `h` reads, when heads are grouped
/// `n_heads / n_kv_heads` to a key/value head.
pub fn kv_head_for(config: &Config, h: usize) -> (r: usize)
    requires
        config.n_kv_heads > 0,
        config.n_heads / config.n_kv_heads > 0,
    ensures
        r == h / (config.n_heads / config.n_kv_heads),
{
    let kv_mul = config.n_heads / config.n_kv_heads;
    h / kv_mul
}

/// When the key/value heads divide the query heads evenly, every query head
/// reads an existing key/value head.
pub proof fn law_kv_head_in_range(c: Config, h: int)
    requires
        c.n_kv_heads > 0,
        c.n_heads % c.n_kv_heads == 0,
        c.n_heads / c.n_kv_heads > 0,
        0 <= h < c.n_heads,
    ensures
        h / (c.n_heads as int / c.n_kv_heads as int) < c.n_kv_heads,
{
    let m = c.n_heads as int / c.n_kv_heads as int;
    let nkv = c.n_kv_heads as int;
    lemma_fundamental_div_mod(c.n_heads as int, nkv);
    assert(h / m < nkv) by (nonlinear_arith)
        requires
            m > 0,
            nkv > 0,
            m * nkv == c.n_heads,
            0 <= h < c.n_heads,
    {
        lemma_fundamental_div_mod(h, m);
    }
}


/// The number of slots of each tensor of an unquantized model file, in
/// file order: embedding table, attention norms, the four attention
/// projections, feed-forward norms, the three feed-forward projections, the
/// final norm and the two rotary tables. A classifier may follow.
pub open spec fn f32_section_sizes(c: Config) -> Seq<int> {
    let l = c.n_layers as int;
    seq![
        c.vocab_size * c.dim,
        l * c.dim,
        l * q_elems(c),
        l * kv_elems(c),
        l * kv_elems(c),
        l * q_elems(c),
        l * c.dim,
        l * ffn_elems(c),
        l * ffn_elems(c),
        l * ffn_elems(c),
        c.dim as int,
        freq_len(c),
        freq_len(c),
    ]
}

/// The number of tensor sections before the optional classifier of an
/// unquantized file.
pub open spec fn n_f32_sections() -> int {
    13
}

/// The slot at which section `k` of an unquantized file starts.
pub open spec fn f32_section_start(c: Config, k: int) -> int {
    prefix_sum(f32_section_sizes(c), k)
}

/// The slots taken by the sections before the classifier.
pub open spec fn f32_total(c: Config) -> int {
    f32_section_start(c, n_f32_sections())
}

/// The span of section `k` of an unquantized file.
pub open spec fn f32_section_span(c: Config, k: int) -> Span {
    Span { start: f32_section_start(c, k) as usize, len: f32_section_sizes(c)[k] as usize }
}

/// Where every tensor of an unquantized model file lies in its slots.
pub struct F32Layout {
    pub sections: Vec<Span>,
    pub wcls: Option<Span>,
}

/// The classifier of an unquantized file: present when slots remain after
/// the other tensors, and then one embedding table long.
pub open spec fn f32_classifier(c: Config, n_floats: int) -> Option<Span> {
    if f32_total(c) < n_floats {
        Some(Span { start: f32_total(c) as usize, len: (c.vocab_size * c.dim) as usize })
    } else {
        None
    }
}

/// Section sizes of an unquantized file are never negative.
proof fn lemma_f32_sizes_nonnegative(c: Config)
    requires
        c.n_heads > 0,
    ensures
        f32_section_sizes(c).len() == n_f32_sections(),
        forall|k: int| 0 <= k < n_f32_sections() ==> f32_section_sizes(c)[k] >= 0,
{
    lemma_sizes_nonnegative(c);
}

/// Section starts of an unquantized file never decrease.
proof fn lemma_f32_start_monotone(c: Config, j: int, k: int)
    requires
        c.n_heads > 0,
        0 <= j <= k <= n_f32_sections(),
    ensures
        f32_section_start(c, j) <= f32_section_start(c, k),
        0 <= f32_section_start(c, j),
    decreases k,
{
    lemma_f32_sizes_nonnegative(c);
    if k > j {
        lemma_f32_start_monotone(c, j, k - 1);
    } else if j > 0 {
        lemma_f32_start_monotone(c, j - 1, j - 1);
    }
}

/// Lays out the tensors of an unquantized model file of `n_floats` slots.
/// Fails when a size does not fit in a machine word, or when a tensor runs
/// past the end of the file.
pub fn unquantized_layout(config: &Config, n_floats: usize) -> (r: Result<F32Layout, LayoutError>)
    requires
        config.n_heads > 0,
    ensures
        match r {
            Ok(w) => {
                &&& products_fit(*config)
                &&& f32_total(*config) <= n_floats
                &&& w.sections@.len() == n_f32_sections()
                &&& forall|k: int| 0 <= k < n_f32_sections() ==> #[trigger] w.sections@[k] == f32_section_span(*config, k)
                &&& w.wcls == f32_classifier(*config, n_floats as int)
                &&& f32_total(*config) < n_floats ==> f32_total(*config) + config.vocab_size * config.dim <= n_floats
            },
            Err(LayoutError::Overflow) => !(products_fit(*config) && f32_total(*config) <= usize::MAX),
            Err(LayoutError::Truncated) => {
                &&& products_fit(*config)
                &&& f32_total(*config) <= usize::MAX
                &&& (f32_total(*config) > n_floats || (f32_total(*config) < n_floats && f32_total(*config)
                    + config.vocab_size * config.dim > n_floats))
            },
            Err(LayoutError::SizeMismatch { .. }) => false,
        },
{
    let c = *config;
    let ghost gc = *config;
    let dim = c.dim;
    let n_layers = c.n_layers;
    let hs = dim / c.n_heads;
    proof {
        lemma_fundamental_div_mod(dim as int, c.n_heads as int);
        lemma_f32_sizes_nonnegative(gc);
    }
    let emb = mul_or_overflow(c.vocab_size, dim)?;
    let ld = mul_or_overflow(n_layers, dim)?;
    let kv_heads = mul_or_overflow(c.n_kv_heads, hs)?;
    assert(c.n_heads * hs <= dim);
    let q_heads = c.n_heads * hs;
    let q_total = mul_or_overflow(ld, q_heads)?;
    let kv_total = mul_or_overflow(ld, kv_heads)?;
    let lh = mul_or_overflow(n_layers, c.hidden_dim)?;
    let f_total = mul_or_overflow(lh, dim)?;
    let freq = mul_or_overflow(c.seq_len, hs / 2)?;
    proof {
        lemma_mul_is_associative(n_layers as int, dim as int, q_heads as int);
        lemma_mul_is_associative(n_layers as int, dim as int, kv_heads as int);
        lemma_mul_is_associative(n_layers as int, c.hidden_dim as int, dim as int);
    }
    let sizes: Vec<usize> = vec![
        emb, ld, q_total, kv_total, kv_total, q_total, ld, f_total, f_total, f_total, dim, freq,
        freq,
    ];
    assert forall|k: int| 0 <= k < n_f32_sections() implies sizes@[k] == f32_section_sizes(gc)[k] by {}
    let mut sections: Vec<Span> = Vec::new();
    let mut off: usize = 0;
    let mut k: usize = 0;
    while k < 13
        invariant
            c == gc,
            gc == *config,
            gc.n_heads > 0,
            sizes@.len() == n_f32_sections(),
            forall|j: int| 0 <= j < n_f32_sections() ==> sizes@[j] == f32_section_sizes(gc)[j],
            k <= n_f32_sections(),
            sections@.len() == k,
            off == f32_section_start(gc, k as int),
            forall|j: int| 0 <= j < k ==> #[trigger] sections@[j] == f32_section_span(gc, j),
        decreases 13 - k,
    {
        match off.checked_add(sizes[k]) {
            Some(next) => {
                sections.push(Span { start: off, len: sizes[k] });
                off = next;
            },
            None => {
                proof {
                    lemma_f32_start_monotone(gc, k as int + 1, n_f32_sections());
                }
                return Err(LayoutError::Overflow);
            },
        }
        k += 1;
    }
    if off > n_floats {
        return Err(LayoutError::Truncated);
    }
    let wcls = if off < n_floats {
        if n_floats - off < emb {
            return Err(LayoutError::Truncated);
        }
        Some(Span { start: off, len: emb })
    } else {
        None
    };
    Ok(F32Layout { sections, wcls })
}

/// The rotary tables of a quantized model file: each holds, for every
/// position up to the sequence length, half a head's width of entries
/// (`seq_len * (head_size / 2)`), and the two follow the final norm (one
/// `dim`-long vector) back to back.
pub proof fn law_rotary_tables(c: Config, file_len: int)
    requires
        layout_ok(c, file_len),
    ensures
        section_span(c, 17).len == c.dim,
        section_span(c, 18).len == c.seq_len * ((c.dim / c.n_heads) / 2),
        section_span(c, 19).len == c.seq_len * ((c.dim / c.n_heads) / 2),
        section_span(c, 18).start == section_span(c, 17).start + c.dim,
        section_span(c, 19).start == section_span(c, 18).start + section_span(c, 18).len,
{
    law_sections_tile_file(c, file_len);
    lemma_sizes_nonnegative(c);
    lemma_section_start_monotone(c, 17, n_sections());
    lemma_section_start_monotone(c, 18, n_sections());
    lemma_section_start_monotone(c, 19, n_sections());
    lemma_section_start_monotone(c, 20, n_sections());
    lemma_section_start_step(c, 17);
    lemma_section_start_step(c, 18);
    lemma_section_start_step(c, 19);
}

/// The rotary tables of an unquantized model file: each holds
/// `seq_len * (head_size / 2)` entries and they follow the final norm (one
/// `dim`-long vector) back to back.
pub proof fn law_f32_rotary_tables(c: Config)
    requires
        c.n_heads > 0,
        products_fit(c),
        f32_total(c) <= usize::MAX,
    ensures
        f32_section_sizes(c)[10] == c.dim,
        f32_section_sizes(c)[11] == c.seq_len * ((c.dim / c.n_heads) / 2),
        f32_section_sizes(c)[12] == c.seq_len * ((c.dim / c.n_heads) / 2),
        f32_section_span(c, 11).len == c.seq_len * ((c.dim / c.n_heads) / 2),
        f32_section_span(c, 12).len == c.seq_len * ((c.dim / c.n_heads) / 2),
        f32_section_span(c, 11).start == f32_section_span(c, 10).start + c.dim,
        f32_section_span(c, 12).start == f32_section_span(c, 11).start + f32_section_span(c, 11).len,
{
    lemma_f32_start_monotone(c, 10, n_f32_sections());
    lemma_f32_start_monotone(c, 11, n_f32_sections());
    lemma_f32_start_monotone(c, 12, n_f32_sections());
    lemma_f32_sizes_nonnegative(c);
    assert(f32_section_start(c, 11) == f32_section_start(c, 10) + f32_section_sizes(c)[10]);
    assert(f32_section_start(c, 12) == f32_section_start(c, 11) + f32_section_sizes(c)[11]);
    assert(f32_section_start(c, 13) == f32_section_start(c, 12) + f32_section_sizes(c)[12]);
}

/// Quantizing a model keeps the size of every tensor that stays in single
/// precision (embedding table, norms, rotary tables, classifier) and turns
/// each projection of `n` weights into `n / 32` slots of block scales and
/// `n / 4` slots of 8-bit weights, in the same order.
pub proof fn law_quantized_sections_follow_f32(c: Config)
    ensures
        section_sizes(c)[0] == f32_section_sizes(c)[0],
        section_sizes(c)[1] == f32_section_sizes(c)[1],
        section_sizes(c)[2] == f32_section_sizes(c)[2] / 32,
        section_sizes(c)[3] == f32_section_sizes(c)[2] / 4,
        section_sizes(c)[4] == f32_section_sizes(c)[3] / 32,
        section_sizes(c)[5] == f32_section_sizes(c)[3] / 4,
        section_sizes(c)[6] == f32_section_sizes(c)[4] / 32,
        section_sizes(c)[7] == f32_section_sizes(c)[4] / 4,
        section_sizes(c)[8] == f32_section_sizes(c)[5] / 32,
        section_sizes(c)[9] == f32_section_sizes(c)[5] / 4,
        section_sizes(c)[10] == f32_section_sizes(c)[6],
        section_sizes(c)[11] == f32_section_sizes(c)[7] / 32,
        section_sizes(c)[12] == f32_section_sizes(c)[7] / 4,
        section_sizes(c)[13] == f32_section_sizes(c)[8] / 32,
        section_sizes(c)[14] == f32_section_sizes(c)[8] / 4,
        section_sizes(c)[15] == f32_section_sizes(c)[9] / 32,
        section_sizes(c)[16] == f32_section_sizes(c)[9] / 4,
        section_sizes(c)[17] == f32_section_sizes(c)[10],
        section_sizes(c)[18] == f32_section_sizes(c)[11],
        section_sizes(c)[19] == f32_section_sizes(c)[12],
        section_sizes(c)[20] == if c.shared_classifier { 0 } else { f32_section_sizes(c)[0] },
{
}

/// The tensors of one layer of a quantized model file have the sizes of
/// the model: `dim`-long norms, query and output projections of
/// `dim * (n_heads * head_size)` weights, key and value projections of
/// `dim * (n_kv_heads * head_size)` weights, feed-forward projections of
/// `hidden_dim * dim` weights, each with one scale per 32 weights.
pub proof fn law_layer_tensor_sizes(c: Config, file_len: int, l: int)
    requires
        layout_ok(c, file_len),
        0 <= l < c.n_layers,
    ensures
        layer_layout(c, l).rms_att_weight.len == c.dim,
        layer_layout(c, l).rms_ffn_weight.len == c.dim,
        layer_layout(c, l).wq.weights.len == c.dim * (c.n_heads * (c.dim / c.n_heads)),
        layer_layout(c, l).wo.weights.len == c.dim * (c.n_heads * (c.dim / c.n_heads)),
        layer_layout(c, l).wk.weights.len == c.dim * (c.n_kv_heads * (c.dim / c.n_heads)),
        layer_layout(c, l).wv.weights.len == c.dim * (c.n_kv_heads * (c.dim / c.n_heads)),
        layer_layout(c, l).w1.weights.len == c.hidden_dim * c.dim,
        layer_layout(c, l).w2.weights.len == c.hidden_dim * c.dim,
        layer_layout(c, l).w3.weights.len == c.hidden_dim * c.dim,
        layer_layout(c, l).wq.scales.len == layer_layout(c, l).wq.weights.len / 32,
        layer_layout(c, l).wo.scales.len == layer_layout(c, l).wo.weights.len / 32,
        layer_layout(c, l).wk.scales.len == layer_layout(c, l).wk.weights.len / 32,
        layer_layout(c, l).wv.scales.len == layer_layout(c, l).wv.weights.len / 32,
        layer_layout(c, l).w1.scales.len == layer_layout(c, l).w1.weights.len / 32,
        layer_layout(c, l).w2.scales.len == layer_layout(c, l).w2.weights.len / 32,
        layer_layout(c, l).w3.scales.len == layer_layout(c, l).w3.weights.len / 32,
{
    law_layer_share_within_tensor(c, file_len, 2, q_elems(c), l);
    law_layer_share_within_tensor(c, file_len, 4, kv_elems(c), l);
    law_layer_share_within_tensor(c, file_len, 6, kv_elems(c), l);
    law_layer_share_within_tensor(c, file_len, 8, q_elems(c), l);
    law_layer_share_within_tensor(c, file_len, 11, ffn_elems(c), l);
    law_layer_share_within_tensor(c, file_len, 13, ffn_elems(c), l);
    law_layer_share_within_tensor(c, file_len, 15, ffn_elems(c), l);
}

} // verus!
