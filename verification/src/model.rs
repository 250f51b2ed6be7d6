use vstd::prelude::*;

verus! {

/// Size in bytes of the model header: seven little-endian `i32` values.
pub const HEADER_BYTES: usize = 28;

/// The hyper-parameters of a model, as stored in its header.
#[derive(Debug, Clone, Copy)]
pub struct Config {
    pub dim: usize,
    pub hidden_dim: usize,
    pub n_layers: usize,
    pub n_heads: usize,
    pub n_kv_heads: usize,
    pub vocab_size: usize,
    pub seq_len: usize,
    pub shared_classifier: bool,
}

/// Absolute value of a header field, as a mathematical integer.
pub open spec fn abs_int(x: int) -> int {
    if x < 0 { -x } else { x }
}

/// The configuration that the seven raw header fields describe. A positive
/// vocabulary size means that the classifier shares the embedding table; a
/// negative one means that a separate classifier follows the weights.
pub open spec fn spec_config(raw: Seq<i32>) -> Config {
    Config {
        dim: raw[0] as usize,
        hidden_dim: raw[1] as usize,
        n_layers: raw[2] as usize,
        n_heads: raw[3] as usize,
        n_kv_heads: raw[4] as usize,
        vocab_size: abs_int(raw[5] as int) as usize,
        seq_len: raw[6] as usize,
        shared_classifier: raw[5] > 0,
    }
}

/// The signed value of four bytes read as a little-endian two's-complement integer.
pub open spec fn le_i32(b0: u8, b1: u8, b2: u8, b3: u8) -> int {
    let u = b0 as int + 256 * (b1 as int) + 65536 * (b2 as int) + 16777216 * (b3 as int);
    if u >= 0x8000_0000 { u - 0x1_0000_0000 } else { u }
}

/// The little-endian `i32` stored at `bytes[off..off + 4]`.
pub open spec fn le_i32_at(bytes: Seq<u8>, off: int) -> int {
    le_i32(bytes[off], bytes[off + 1], bytes[off + 2], bytes[off + 3])
}

/// The seven header fields of a model file.
pub open spec fn header_fields(bytes: Seq<u8>) -> Seq<i32> {
    Seq::new(7, |i: int| le_i32_at(bytes, 4 * i) as i32)
}

impl Config {
    /// Builds a configuration from the seven raw header integers.
    pub fn from_raw(raw: [i32; 7]) -> (c: Self)
        requires
            raw@[5] != i32::MIN,
        ensures
            c == spec_config(raw@),
    {
        let raw_vocab_size = raw[5];
        let vocab_size: usize = if raw_vocab_size < 0 {
            (-raw_vocab_size) as usize
        } else {
            raw_vocab_size as usize
        };
        let shared_classifier = raw_vocab_size > 0;
        Config {
            dim: raw[0] as usize,
            hidden_dim: raw[1] as usize,
            n_layers: raw[2] as usize,
            n_heads: raw[3] as usize,
            n_kv_heads: raw[4] as usize,
            vocab_size,
            seq_len: raw[6] as usize,
            shared_classifier,
        }
    }
}

/// Reads a little-endian `i32` from four bytes.
pub fn i32_from_le(b0: u8, b1: u8, b2: u8, b3: u8) -> (v: i32)
    ensures
        v as int == le_i32(b0, b1, b2, b3),
{
    let u: u32 = b0 as u32 + 256 * (b1 as u32) + 65536 * (b2 as u32) + 16777216 * (b3 as u32);
    if u >= 0x8000_0000 {
        let low: u32 = u - 0x8000_0000;
        (low as i32) - 0x7fff_ffff - 1
    } else {
        u as i32
    }
}

/// Decodes the model header at the start of `bytes` into a configuration.
pub fn read_config(bytes: &[u8]) -> (c: Config)
    requires
        bytes@.len() >= HEADER_BYTES,
        le_i32_at(bytes@, 20) != i32::MIN,
    ensures
        c == spec_config(header_fields(bytes@)),
{
    let mut raw: [i32; 7] = [0i32; 7];
    let mut i: usize = 0;
    while i < 7
        invariant
            i <= 7,
            bytes@.len() >= HEADER_BYTES,
            forall|k: int| 0 <= k < i ==> raw@[k] as int == le_i32_at(bytes@, 4 * k),
        decreases 7 - i,
    {
        let start = i * 4;
        let v = i32_from_le(bytes[start], bytes[start + 1], bytes[start + 2], bytes[start + 3]);
        raw[i] = v;
        i += 1;
    }
    assert(raw@ =~= header_fields(bytes@));
    Config::from_raw(raw)
}


/// The four little-endian bytes of a signed 32-bit value.
pub open spec fn i32_le_bytes(x: i32) -> Seq<u8> {
    let u: int = if x < 0 { x + 0x1_0000_0000 } else { x as int };
    seq![(u % 256) as u8, ((u / 256) % 256) as u8, ((u / 65536) % 256) as u8, (u / 16777216) as u8]
}

/// The little-endian bytes of a signed 32-bit value.
pub fn i32_to_le(x: i32) -> (b: [u8; 4])
    ensures
        b@ == i32_le_bytes(x),
{
    let u: u32 = if x < 0 {
        ((x + 0x7fff_ffff + 1) as u32) + 0x8000_0000
    } else {
        x as u32
    };
    let b = [(u % 256) as u8, ((u / 256) % 256) as u8, ((u / 65536) % 256) as u8, (u / 16777216) as u8];
    assert(b@ =~= i32_le_bytes(x));
    b
}

/// The header of a model file holding the seven raw configuration fields.
pub open spec fn header_of(raw: Seq<i32>) -> Seq<u8> {
    i32_le_bytes(raw[0]) + i32_le_bytes(raw[1]) + i32_le_bytes(raw[2]) + i32_le_bytes(raw[3])
        + i32_le_bytes(raw[4]) + i32_le_bytes(raw[5]) + i32_le_bytes(raw[6])
}

/// Encodes the seven raw configuration fields as a model file header.
pub fn header_bytes(raw: [i32; 7]) -> (h: Vec<u8>)
    ensures
        h@ == header_of(raw@),
{
    let mut h: Vec<u8> = Vec::with_capacity(HEADER_BYTES);
    let mut i: usize = 0;
    while i < 7
        invariant
            i <= 7,
            h@.len() == 4 * i,
            forall|k: int| 0 <= k < 4 * i ==> #[trigger] h@[k] == header_of(raw@)[k],
        decreases 7 - i,
    {
        let b = i32_to_le(raw[i]);
        proof {
            lemma_header_bytes_at(raw@, i as int);
        }
        h.push(b[0]);
        h.push(b[1]);
        h.push(b[2]);
        h.push(b[3]);
        i += 1;
    }
    assert(h@ =~= header_of(raw@));
    h
}

/// The bytes of field `i` sit at `4 * i .. 4 * i + 4` in the header.
proof fn lemma_header_bytes_at(raw: Seq<i32>, i: int)
    requires
        raw.len() == 7,
        0 <= i < 7,
    ensures
        header_of(raw).len() == HEADER_BYTES,
        forall|j: int| 0 <= j < 4 ==> header_of(raw)[4 * i + j] == #[trigger] i32_le_bytes(raw[i])[j],
{
}

/// Decoding the little-endian bytes of a value gives the value back.
pub proof fn law_i32_le_round_trip(x: i32)
    ensures
        le_i32(i32_le_bytes(x)[0], i32_le_bytes(x)[1], i32_le_bytes(x)[2], i32_le_bytes(x)[3]) == x,
{
    let u: int = if x < 0 { x + 0x1_0000_0000 } else { x as int };
    assert(0 <= u < 0x1_0000_0000);
    assert(u % 256 + 256 * ((u / 256) % 256) + 65536 * ((u / 65536) % 256) + 16777216 * (u / 16777216) == u)
        by (nonlinear_arith)
        requires
            0 <= u < 0x1_0000_0000,
    ;
}

/// A written header reads back as the fields that were written: the seven
/// values, and so the configuration they describe.
pub proof fn law_header_round_trip(raw: Seq<i32>)
    requires
        raw.len() == 7,
    ensures
        header_of(raw).len() == HEADER_BYTES,
        header_fields(header_of(raw)) == raw,
        le_i32_at(header_of(raw), 20) == raw[5],
        raw[5] != i32::MIN ==> spec_config(header_fields(header_of(raw))) == spec_config(raw),
{
    let h = header_of(raw);
    assert forall|i: int| 0 <= i < 7 implies #[trigger] header_fields(h)[i] == raw[i] by {
        lemma_header_bytes_at(raw, i);
        law_i32_le_round_trip(raw[i]);
        assert(h[4 * i] == i32_le_bytes(raw[i])[0]);
        assert(h[4 * i + 1] == i32_le_bytes(raw[i])[1]);
        assert(h[4 * i + 2] == i32_le_bytes(raw[i])[2]);
        assert(h[4 * i + 3] == i32_le_bytes(raw[i])[3]);
    }
    lemma_header_bytes_at(raw, 5);
    law_i32_le_round_trip(raw[5]);
    assert(header_fields(h) =~= raw);
}

/// Each configuration field is read from its own place in the file: the
/// dimension from bytes 0..4, the hidden dimension from 4..8, the layer
/// count from 8..12, the head count from 12..16, the key/value head count
/// from 16..20, the vocabulary size (its magnitude, its sign telling whether
/// the classifier is shared) from 20..24 and the sequence length from 24..28.
pub proof fn law_config_field_offsets(bytes: Seq<u8>)
    requires
        bytes.len() >= HEADER_BYTES,
    ensures
        spec_config(header_fields(bytes)).dim == le_i32_at(bytes, 0) as usize,
        spec_config(header_fields(bytes)).hidden_dim == le_i32_at(bytes, 4) as usize,
        spec_config(header_fields(bytes)).n_layers == le_i32_at(bytes, 8) as usize,
        spec_config(header_fields(bytes)).n_heads == le_i32_at(bytes, 12) as usize,
        spec_config(header_fields(bytes)).n_kv_heads == le_i32_at(bytes, 16) as usize,
        le_i32_at(bytes, 20) >= 0 ==> spec_config(header_fields(bytes)).vocab_size == le_i32_at(bytes, 20) as usize,
        le_i32_at(bytes, 20) < 0 ==> spec_config(header_fields(bytes)).vocab_size == (-le_i32_at(bytes, 20)) as usize,
        spec_config(header_fields(bytes)).shared_classifier <==> le_i32_at(bytes, 20) > 0,
        spec_config(header_fields(bytes)).seq_len == le_i32_at(bytes, 24) as usize,
{
    let f = header_fields(bytes);
    assert forall|i: int| 0 <= i < 7 implies -0x8000_0000 <= #[trigger] le_i32_at(bytes, 4 * i) < 0x8000_0000 by {}
    assert(f[0] as int == le_i32_at(bytes, 0));
    assert(f[1] as int == le_i32_at(bytes, 4));
    assert(f[2] as int == le_i32_at(bytes, 8));
    assert(f[3] as int == le_i32_at(bytes, 12));
    assert(f[4] as int == le_i32_at(bytes, 16));
    assert(f[5] as int == le_i32_at(bytes, 20));
    assert(f[6] as int == le_i32_at(bytes, 24));
}

/// A header written from seven fields configures the model in the fixed
/// field order: dimension, hidden dimension, layers, heads, key/value heads,
/// signed vocabulary size, sequence length.
pub proof fn law_written_header_field_order(raw: Seq<i32>)
    requires
        raw.len() == 7,
        raw[5] != i32::MIN,
    ensures
        spec_config(header_fields(header_of(raw))).dim == raw[0] as usize,
        spec_config(header_fields(header_of(raw))).hidden_dim == raw[1] as usize,
        spec_config(header_fields(header_of(raw))).n_layers == raw[2] as usize,
        spec_config(header_fields(header_of(raw))).n_heads == raw[3] as usize,
        spec_config(header_fields(header_of(raw))).n_kv_heads == raw[4] as usize,
        spec_config(header_fields(header_of(raw))).vocab_size == (if raw[5] < 0 { -raw[5] } else { raw[5] as int }) as usize,
        spec_config(header_fields(header_of(raw))).shared_classifier <==> raw[5] > 0,
        spec_config(header_fields(header_of(raw))).seq_len == raw[6] as usize,
{
    law_header_round_trip(raw);
}

} // verus!
