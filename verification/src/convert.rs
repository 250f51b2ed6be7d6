//! The tensor handling of the checkpoint converter: looking a tensor up in
//! a set of safetensors files, and widening its bfloat16 values to
//! single-precision bit patterns, padded when the table must be longer.
use vstd::prelude::*;
use safetensors::SafeTensors;
use safetensors::SafeTensorError;
use crate::float_bits::bf16_to_f32_bits;

verus! {

#[verifier::external_type_specification]
#[verifier::external_body]
pub struct ExSafeTensors<'data>(SafeTensors<'data>);

#[verifier::external_type_specification]
#[verifier::external_body]
pub struct ExSafeTensorError(SafeTensorError);

/// Whether `SafeTensors::deserialize` accepts a buffer as a safetensors file.
pub uninterp spec fn safetensors_parses(file: Seq<u8>) -> bool;

/// The tensors that a safetensors file holds: each tensor's name with the
/// bytes between its data offsets.
pub uninterp spec fn safetensors_file_tensors(file: Seq<u8>) -> Map<Seq<char>, Seq<u8>>;

/// The tensors that a parsed safetensors value gives out: each name with
/// the bytes of that tensor's data.
pub uninterp spec fn safetensors_contents(tensors: SafeTensors) -> Map<Seq<char>, Seq<u8>>;

/// The tensor called `name` in a safetensors file, if it holds one.
pub open spec fn file_tensor(file: Seq<u8>, name: Seq<char>) -> Option<Seq<u8>> {
    if safetensors_file_tensors(file).contains_key(name) {
        Some(safetensors_file_tensors(file)[name])
    } else {
        None
    }
}

/// Whether a byte is an ASCII decimal digit.
pub open spec fn is_digit(b: u8) -> bool {
    48 <= b <= 57
}

/// The value of bytes read as a little-endian unsigned integer.
pub open spec fn le_value(s: Seq<u8>) -> int
    decreases s.len(),
{
    if s.len() == 0 {
        0
    } else {
        s[0] + 256 * le_value(s.drop_first())
    }
}

/// `256` raised to the power `e`.
pub open spec fn pow256(e: nat) -> int
    decreases e,
{
    if e == 0 {
        1
    } else {
        256 * pow256((e - 1) as nat)
    }
}

/// The JSON header of a safetensors buffer: the bytes after the eight-byte
/// length field, as many as that field gives or as many as there are.
pub open spec fn header_text(bytes: Seq<u8>) -> Seq<u8> {
    if bytes.len() < 8 {
        Seq::empty()
    } else {
        let n = le_value(bytes.subrange(0, 8));
        if 8 + n >= bytes.len() {
            bytes.subrange(8, bytes.len() as int)
        } else {
            bytes.subrange(8, 8 + n)
        }
    }
}

/// Where a left-to-right reading of a JSON text stands: inside a string
/// or not (`esc`: 0 outside an escape, 1 after a backslash, 2 to 5 before
/// the first to fourth hex digit of a `\u` escape, `hex_ok` whether the
/// digits so far spell the expected character), how many decoded
/// characters of the string so far spell a prefix of `data_offsets`
/// (`matched`; 13 once they cannot), how many brackets are open (`depth`),
/// and the `mode` of the surrounding text: 0 plain, 1 after a
/// `data_offsets` key of a tensor entry, 2 after its colon, 3 inside its
/// array.
#[derive(Clone, Copy)]
pub struct HeaderScan {
    pub in_string: bool,
    pub esc: u8,
    pub hex_ok: bool,
    pub matched: u8,
    pub mode: u8,
    pub depth: usize,
}

/// The reading state at the start of a text.
pub open spec fn scan_start() -> HeaderScan {
    HeaderScan { in_string: false, esc: 0, hex_ok: false, matched: 0, mode: 0, depth: 0 }
}

/// Byte `m` of the key `data_offsets`.
pub open spec fn key_byte(m: int) -> u8 {
    if m == 0 {
        100u8
    } else if m == 1 || m == 3 {
        97u8
    } else if m == 2 || m == 10 {
        116u8
    } else if m == 4 {
        95u8
    } else if m == 5 {
        111u8
    } else if m == 6 || m == 7 {
        102u8
    } else if m == 8 || m == 11 {
        115u8
    } else {
        101u8
    }
}

/// The value of a hex digit; 16 for any other byte.
pub open spec fn hex_value(c: u8) -> int {
    if 48 <= c <= 57 {
        c - 48
    } else if 97 <= c <= 102 {
        c - 87
    } else if 65 <= c <= 70 {
        c - 55
    } else {
        16
    }
}

/// The hex digit that a `\u` escape must have before its digit number
/// `esc - 2` to spell byte `m` of the key.
pub open spec fn key_nibble(m: int, esc: int) -> int {
    if esc <= 3 {
        0
    } else if esc == 4 {
        key_byte(m) as int / 16
    } else {
        key_byte(m) as int % 16
    }
}

/// Whether a byte is JSON white space.
pub open spec fn json_space(c: u8) -> bool {
    c == 32u8 || c == 9u8 || c == 10u8 || c == 13u8
}

/// The key-match count after one more decoded byte `c`.
pub open spec fn match_byte(matched: u8, c: u8) -> u8 {
    if matched < 12 && c == key_byte(matched as int) {
        (matched + 1) as u8
    } else {
        13u8
    }
}

/// The reading state after byte `c` inside a string.
pub open spec fn string_step(st: HeaderScan, c: u8) -> HeaderScan {
    if st.esc == 0 {
        if c == 92u8 {
            HeaderScan { esc: 1, ..st }
        } else if c == 34u8 {
            HeaderScan {
                in_string: false,
                mode: if st.matched == 12 && st.depth == 2 { 1u8 } else { 0u8 },
                ..st
            }
        } else {
            HeaderScan { matched: match_byte(st.matched, c), ..st }
        }
    } else if st.esc == 1 {
        if c == 117u8 {
            HeaderScan { esc: 2, hex_ok: st.matched < 12, ..st }
        } else {
            HeaderScan { esc: 0, matched: 13, ..st }
        }
    } else {
        let ok = st.hex_ok && hex_value(c) == key_nibble(st.matched as int, st.esc as int);
        if st.esc >= 5 {
            HeaderScan {
                esc: 0,
                matched: if ok && st.matched < 12 { (st.matched + 1) as u8 } else { 13u8 },
                ..st
            }
        } else {
            HeaderScan { esc: (st.esc + 1) as u8, hex_ok: ok, ..st }
        }
    }
}

/// The reading state after byte `c` outside strings, in plain text.
pub open spec fn plain_step(st: HeaderScan, c: u8) -> HeaderScan {
    if c == 34u8 {
        HeaderScan { in_string: true, esc: 0, matched: 0, mode: 0, ..st }
    } else if c == 123u8 || c == 91u8 {
        HeaderScan { depth: (st.depth + 1) as usize, mode: 0, ..st }
    } else if c == 125u8 || c == 93u8 {
        HeaderScan { depth: if st.depth > 0 { (st.depth - 1) as usize } else { 0 }, mode: 0, ..st }
    } else {
        HeaderScan { mode: 0, ..st }
    }
}

/// The reading state after byte `c`.
pub open spec fn scan_step(st: HeaderScan, c: u8) -> HeaderScan {
    if st.in_string {
        string_step(st, c)
    } else if st.mode == 1 && json_space(c) || st.mode == 2 && json_space(c) {
        st
    } else if st.mode == 1 && c == 58u8 {
        HeaderScan { mode: 2, ..st }
    } else if st.mode == 2 && c == 91u8 {
        HeaderScan { mode: 3, depth: (st.depth + 1) as usize, ..st }
    } else if st.mode == 3 && c != 34u8 && c != 123u8 && c != 91u8 && c != 125u8 && c != 93u8 {
        st
    } else {
        plain_step(st, c)
    }
}

/// The reading state of a JSON text before byte `k`.
pub open spec fn scan(h: Seq<u8>, k: int) -> HeaderScan
    decreases k,
{
    if k <= 0 {
        scan_start()
    } else {
        scan_step(scan(h, k - 1), h[k - 1])
    }
}

/// Whether byte `k` of a JSON text is a digit of a number written in the
/// `data_offsets` array of a tensor entry.
pub open spec fn offset_digit(h: Seq<u8>, k: int) -> bool {
    !scan(h, k).in_string && scan(h, k).mode == 3 && is_digit(h[k])
}

/// Whether `h[i..j]` is a non-empty run of offset digits.
pub open spec fn offset_run(h: Seq<u8>, i: int, j: int) -> bool {
    &&& 0 <= i < j <= h.len()
    &&& forall|k: int| i <= k < j ==> #[trigger] offset_digit(h, k)
}

/// The value of ASCII decimal digits.
pub open spec fn decimal(s: Seq<u8>) -> int
    decreases s.len(),
{
    if s.len() == 0 {
        0
    } else {
        10 * decimal(s.drop_last()) + (s.last() - 48)
    }
}

/// The largest end of tensor data that the safetensors crate can add to
/// the header's length and 8 without passing the largest machine word. A
/// header length above 10^8 is refused by the crate before that sum.
pub open spec fn offset_limit(bytes: Seq<u8>) -> int {
    let n = le_value(bytes.subrange(0, 8));
    if n <= 100_000_000 {
        usize::MAX - 8 - n
    } else {
        usize::MAX as int
    }
}

/// Whether the JSON header of a safetensors buffer writes, in the
/// `data_offsets` array of a tensor entry, a number larger than
/// `offset_limit`.
pub open spec fn has_oversized_offset(bytes: Seq<u8>) -> bool {
    let h = header_text(bytes);
    exists|i: int, j: int|
        #[trigger] offset_run(h, i, j) && decimal(h.subrange(i, j)) > offset_limit(bytes)
}

/// Calls `SafeTensors::deserialize` on a buffer. The contract claims that
/// it succeeds exactly on the buffers that the name `safetensors_parses`
/// accepts, and that the tensors it then gives out are those that the name
/// `safetensors_file_tensors` gives for the buffer; which buffers parse is
/// left to the crate (header length, JSON header, offsets covering the
/// data). The crate adds the end of the last tensor's data, the header
/// length and 8 without an overflow check. That end is the second number of
/// the `data_offsets` array of a tensor entry (a key at the second level of
/// the header object, compared after its escapes are decoded), so when no
/// number there exceeds `offset_limit` the sum cannot wrap and the call
/// cannot panic. Its other arithmetic is checked.
#[verifier::external_body]
fn deserialize<'data>(bytes: &'data [u8]) -> (r: Result<SafeTensors<'data>, SafeTensorError>)
    requires
        !has_oversized_offset(bytes@),
    ensures
        r is Ok <==> safetensors_parses(bytes@),
        r matches Ok(t) ==> safetensors_contents(t) == safetensors_file_tensors(bytes@),
{
    SafeTensors::deserialize(bytes)
}

/// Calls `SafeTensors::tensor` and takes the tensor's bytes
/// (`TensorView::data`). The contract claims that the result is the entry
/// for `name` in what the parsed value holds: the crate looks the name up
/// in its index and returns the bytes between the tensor's offsets.
#[verifier::external_body]
fn tensor_data<'data>(tensors: &SafeTensors<'data>, name: &str) -> (r: Option<&'data [u8]>)
    ensures
        match r {
            Some(d) => safetensors_contents(*tensors).contains_key(name@)
                && safetensors_contents(*tensors)[name@] == d@,
            None => !safetensors_contents(*tensors).contains_key(name@),
        },
{
    match tensors.tensor(name) {
        Ok(view) => Some(view.data()),
        Err(_) => None,
    }
}

/// The value of the eight-byte length field at the start of a buffer.
fn header_len_field(bytes: &[u8]) -> (n: u128)
    requires
        bytes@.len() >= 8,
    ensures
        n as int == le_value(bytes@.subrange(0, 8)),
{
    let mut n: u128 = 0;
    let mut k: usize = 8;
    proof {
        assert(bytes@.subrange(8, 8) =~= Seq::<u8>::empty());
        lemma_pow256_le(0, 8);
    }
    while k > 0
        invariant
            bytes@.len() >= 8,
            k <= 8,
            n as int == le_value(bytes@.subrange(k as int, 8)),
            n < pow256((8 - k) as nat),
            pow256((8 - k) as nat) <= pow256(8),
        decreases k,
    {
        k -= 1;
        proof {
            assert(bytes@.subrange(k as int, 8).drop_first() =~= bytes@.subrange(k + 1, 8));
            lemma_pow256_le((8 - k) as nat, 8);
        }
        n = n * 256 + bytes[k] as u128;
    }
    assert(bytes@.subrange(0, 8) =~= bytes@.subrange(k as int, 8));
    n
}

/// Powers of 256 grow with the exponent, and `256^8` fits in 65 bits.
proof fn lemma_pow256_le(a: nat, b: nat)
    requires
        a <= b,
    ensures
        1 <= pow256(a) <= pow256(b),
        pow256(8) == 0x1_0000_0000_0000_0000,
    decreases b,
{
    reveal_with_fuel(pow256, 9);
    if a < b {
        lemma_pow256_le(a, (b - 1) as nat);
    } else if a > 0 {
        lemma_pow256_le((a - 1) as nat, (a - 1) as nat);
    }
}

/// The value of digits with one more digit appended.
proof fn lemma_decimal_push(s: Seq<u8>, c: u8)
    ensures
        decimal(s.push(c)) == 10 * decimal(s) + (c - 48),
{
    assert(s.push(c).drop_last() =~= s);
}

/// Digits have a non-negative value, and dropping leading digits never
/// makes it larger.
proof fn lemma_decimal_suffix(s: Seq<u8>, i: int)
    requires
        0 <= i <= s.len(),
        forall|k: int| 0 <= k < s.len() ==> is_digit(#[trigger] s[k]),
    ensures
        0 <= decimal(s.subrange(i, s.len() as int)) <= decimal(s),
    decreases s.len(),
{
    if s.len() > 0 {
        let init = s.drop_last();
        if i == s.len() {
            lemma_decimal_suffix(init, 0);
            assert(init.subrange(0, init.len() as int) =~= init);
            assert(s.subrange(i, s.len() as int) =~= Seq::<u8>::empty());
        } else {
            lemma_decimal_suffix(init, i);
            assert(s.subrange(i, s.len() as int).drop_last() =~= init.subrange(i, init.len() as int));
            assert(s.subrange(i, s.len() as int).last() == s.last());
        }
    } else {
        assert(s.subrange(i, s.len() as int) =~= s);
    }
}

/// The reading state after byte `c`.
fn scan_step_exec(st: HeaderScan, c: u8) -> (r: HeaderScan)
    requires
        st.depth < usize::MAX,
    ensures
        r == scan_step(st, c),
{
    if st.in_string {
        if st.esc == 0 {
            if c == 92 {
                HeaderScan { esc: 1, ..st }
            } else if c == 34 {
                HeaderScan {
                    in_string: false,
                    mode: if st.matched == 12 && st.depth == 2 { 1u8 } else { 0u8 },
                    ..st
                }
            } else {
                let m = if st.matched < 12 && c == key_byte_exec(st.matched) {
                    st.matched + 1
                } else {
                    13u8
                };
                HeaderScan { matched: m, ..st }
            }
        } else if st.esc == 1 {
            if c == 117 {
                HeaderScan { esc: 2, hex_ok: st.matched < 12, ..st }
            } else {
                HeaderScan { esc: 0, matched: 13, ..st }
            }
        } else {
            let ok = st.hex_ok && hex_value_exec(c) == key_nibble_exec(st.matched, st.esc);
            if st.esc >= 5 {
                HeaderScan {
                    esc: 0,
                    matched: if ok && st.matched < 12 { st.matched + 1 } else { 13u8 },
                    ..st
                }
            } else {
                HeaderScan { esc: st.esc + 1, hex_ok: ok, ..st }
            }
        }
    } else {
        let space = c == 32 || c == 9 || c == 10 || c == 13;
        if st.mode == 1 && space || st.mode == 2 && space {
            st
        } else if st.mode == 1 && c == 58 {
            HeaderScan { mode: 2, ..st }
        } else if st.mode == 2 && c == 91 {
            HeaderScan { mode: 3, depth: st.depth + 1, ..st }
        } else if st.mode == 3 && c != 34 && c != 123 && c != 91 && c != 125 && c != 93 {
            st
        } else if c == 34 {
            HeaderScan { in_string: true, esc: 0, matched: 0, mode: 0, ..st }
        } else if c == 123 || c == 91 {
            HeaderScan { depth: st.depth + 1, mode: 0, ..st }
        } else if c == 125 || c == 93 {
            HeaderScan { depth: if st.depth > 0 { st.depth - 1 } else { 0 }, mode: 0, ..st }
        } else {
            HeaderScan { mode: 0, ..st }
        }
    }
}

/// Byte `m` of the key `data_offsets`.
fn key_byte_exec(m: u8) -> (b: u8)
    ensures
        b == key_byte(m as int),
{
    if m == 0 {
        100
    } else if m == 1 || m == 3 {
        97
    } else if m == 2 || m == 10 {
        116
    } else if m == 4 {
        95
    } else if m == 5 {
        111
    } else if m == 6 || m == 7 {
        102
    } else if m == 8 || m == 11 {
        115
    } else {
        101
    }
}

/// The value of a hex digit; 16 for any other byte.
fn hex_value_exec(c: u8) -> (v: u8)
    ensures
        v as int == hex_value(c),
{
    if 48 <= c && c <= 57 {
        c - 48
    } else if 97 <= c && c <= 102 {
        c - 87
    } else if 65 <= c && c <= 70 {
        c - 55
    } else {
        16
    }
}

/// The hex digit that a `\u` escape must have before its digit number
/// `esc - 2` to spell byte `m` of the key.
fn key_nibble_exec(m: u8, esc: u8) -> (v: u8)
    ensures
        v as int == key_nibble(m as int, esc as int),
{
    if esc <= 3 {
        0
    } else if esc == 4 {
        key_byte_exec(m) / 16
    } else {
        key_byte_exec(m) % 16
    }
}

/// Whether the JSON header of a safetensors buffer writes, in the
/// `data_offsets` array of a tensor entry, a number larger than
/// `offset_limit`: one that could make the crate's unchecked size sum wrap.
pub fn oversized_offset(bytes: &[u8]) -> (r: bool)
    ensures
        r == has_oversized_offset(bytes@),
{
    if bytes.len() < 8 {
        return false;
    }
    let n = header_len_field(bytes);
    let avail: u128 = (bytes.len() - 8) as u128;
    let end: usize = if n >= avail {
        bytes.len()
    } else {
        8 + n as usize
    };
    let ghost h = header_text(bytes@);
    assert(h =~= bytes@.subrange(8, end as int));
    let limit: u128 = if n <= 100_000_000 {
        usize::MAX as u128 - 8 - n
    } else {
        usize::MAX as u128
    };
    assert(limit as int == offset_limit(bytes@));
    let mut st = HeaderScan { in_string: false, esc: 0, hex_ok: false, matched: 0, mode: 0, depth: 0 };
    let mut run_start: usize = 8;
    let mut value: u128 = 0;
    let mut k: usize = 8;
    while k < end
        invariant
            8 <= run_start <= k <= end <= bytes@.len(),
            h == bytes@.subrange(8, end as int),
            h == header_text(bytes@),
            limit == offset_limit(bytes@),
            limit <= usize::MAX,
            st == scan(h, k - 8),
            st.depth <= k - 8,
            forall|q: int| run_start - 8 <= q < k - 8 ==> #[trigger] offset_digit(h, q),
            run_start > 8 ==> !offset_digit(h, run_start - 8 - 1),
            value <= limit + 1,
            value == limit + 1 || value == decimal(h.subrange(run_start - 8, k - 8)),
            value <= decimal(h.subrange(run_start - 8, k - 8)),
            forall|i: int, j: int|
                #[trigger] offset_run(h, i, j) && j <= k - 8 ==> decimal(h.subrange(i, j)) <= limit,
        decreases end - k,
    {
        let t: usize = k - 8;
        let c = bytes[k];
        assert(c == h[t as int]);
        let digit = !st.in_string && st.mode == 3 && 48 <= c && c <= 57;
        assert(digit == offset_digit(h, t as int));
        let ghost run = h.subrange(run_start - 8, t as int);
        proof {
            assert forall|q: int| 0 <= q < run.len() implies is_digit(#[trigger] run[q]) by {
                assert(offset_digit(h, run_start - 8 + q));
            }
        }
        if digit {
            let d: u128 = (c - 48) as u128;
            let next: u128 = value * 10 + d;
            proof {
                lemma_decimal_push(run, c);
                assert(h.subrange(run_start - 8, t + 1) =~= run.push(c));
                lemma_decimal_suffix(run, 0);
                assert(run.subrange(0, run.len() as int) =~= run);
            }
            value = if next > limit + 1 {
                limit + 1
            } else {
                next
            };
            if value > limit {
                proof {
                    let i = run_start - 8;
                    let j = t + 1;
                    assert(offset_run(h, i, j));
                }
                return true;
            }
        } else {
            run_start = k + 1;
            value = 0;
            proof {
                assert(h.subrange(t + 1, t + 1) =~= Seq::<u8>::empty());
            }
        }
        proof {
            assert forall|i: int, j: int|
                #[trigger] offset_run(h, i, j) && j <= t + 1 implies decimal(h.subrange(i, j)) <= limit by {
                if j == t + 1 {
                    let rs = run_start - 8;
                    assert(offset_digit(h, t as int));
                    if i < rs {
                        assert(offset_digit(h, rs - 1));
                    }
                    let whole = h.subrange(rs, t + 1);
                    assert forall|q: int| 0 <= q < whole.len() implies is_digit(#[trigger] whole[q]) by {
                        assert(offset_digit(h, rs + q));
                    }
                    lemma_decimal_suffix(whole, i - rs);
                    assert(whole.subrange(i - rs, whole.len() as int) =~= h.subrange(i, j));
                }
            }
        }
        st = scan_step_exec(st, c);
        k += 1;
    }
    false
}

/// A safetensors file together with its bytes; the parsed value always
/// holds the tensors that the bytes hold.
pub struct TensorFile<'data> {
    bytes: &'data [u8],
    tensors: SafeTensors<'data>,
}

/// Why a buffer cannot be read as a safetensors file.
#[derive(Debug, Clone, Copy, PartialEq, Eq, Structural)]
pub enum TensorFileError {
    /// The header writes a data offset so large that the crate's size sum
    /// could wrap; it is refused before parsing.
    OversizedOffset,
    /// The safetensors crate refused the header, its JSON or its offsets.
    Malformed,
}

impl<'data> TensorFile<'data> {
    /// The bytes of the file.
    pub closed spec fn bytes(&self) -> Seq<u8> {
        self.bytes@
    }

    #[verifier::type_invariant]
    closed spec fn parsed_from_bytes(&self) -> bool {
        safetensors_contents(self.tensors) == safetensors_file_tensors(self.bytes@)
    }

    /// Parses a safetensors file held in memory. A header that writes a
    /// data offset above `offset_limit` is refused before parsing. Where the
    /// crate would parse the header, that refusal comes exactly where its
    /// size sum would overflow, but for a header that names a tensor twice:
    /// the crate keeps only the later entry, and an oversized offset in the
    /// earlier one is refused here all the same.
    pub fn open(bytes: &'data [u8]) -> (r: Result<TensorFile<'data>, TensorFileError>)
        ensures
            has_oversized_offset(bytes@) ==> r == Err::<TensorFile<'data>, TensorFileError>(
                TensorFileError::OversizedOffset,
            ),
            !has_oversized_offset(bytes@) ==> (r is Ok <==> safetensors_parses(bytes@)),
            !has_oversized_offset(bytes@) && r is Err ==> r == Err::<TensorFile<'data>, TensorFileError>(
                TensorFileError::Malformed,
            ),
            r matches Ok(f) ==> f.bytes() == bytes@,
    {
        if oversized_offset(bytes) {
            return Err(TensorFileError::OversizedOffset);
        }
        match deserialize(bytes) {
            Ok(tensors) => Ok(TensorFile { bytes, tensors }),
            Err(_) => Err(TensorFileError::Malformed),
        }
    }

    /// The bytes of the tensor called `name`, if the file holds it.
    pub fn tensor(&self, name: &str) -> (r: Option<&'data [u8]>)
        ensures
            match r {
                Some(d) => file_tensor(self.bytes(), name@) == Some(d@),
                None => file_tensor(self.bytes(), name@) is None,
            },
    {
        proof {
            use_type_invariant(self);
        }
        tensor_data(&self.tensors, name)
    }
}

/// The data of the tensor `name` in the first of `files` that holds it.
pub open spec fn first_tensor(files: Seq<Seq<u8>>, name: Seq<char>) -> Option<Seq<u8>>
    decreases files.len(),
{
    if files.len() == 0 {
        None
    } else {
        match file_tensor(files[0], name) {
            Some(d) => Some(d),
            None => first_tensor(files.drop_first(), name),
        }
    }
}

/// Finds the tensor `name` in the first of `files` that holds it.
pub fn find_tensor<'data>(files: &[TensorFile<'data>], name: &str) -> (r: Option<&'data [u8]>)
    ensures
        match r {
            Some(d) => first_tensor(files@.map_values(|f: TensorFile<'data>| f.bytes()), name@) == Some(
                d@,
            ),
            None => first_tensor(files@.map_values(|f: TensorFile<'data>| f.bytes()), name@) is None,
        },
{
    let ghost all = files@.map_values(|f: TensorFile<'data>| f.bytes());
    let mut i: usize = 0;
    assert(all.skip(0) =~= all);
    while i < files.len()
        invariant
            all == files@.map_values(|f: TensorFile<'data>| f.bytes()),
            i <= files@.len(),
            first_tensor(all, name@) == first_tensor(all.skip(i as int), name@),
        decreases files@.len() - i,
    {
        let ghost rest = all.skip(i as int);
        assert(rest[0] == files@[i as int].bytes());
        assert(rest.drop_first() =~= all.skip(i + 1));
        match files[i].tensor(name) {
            Some(d) => {
                return Some(d);
            },
            None => {},
        }
        i += 1;
    }
    assert(all.skip(i as int) =~= Seq::<Seq<u8>>::empty());
    None
}

/// The single-precision bit patterns of a bfloat16 tensor, padded with
/// zeros up to `pad_to` entries when it is given and the tensor is shorter.
pub open spec fn padded_f32_bits(data: Seq<u8>, pad_to: Option<usize>) -> Seq<u32> {
    let base = Seq::new(
        data.len() / 2,
        |i: int| ((data[2 * i] as int + 256 * data[2 * i + 1] as int) * 65536) as u32,
    );
    match pad_to {
        Some(n) if base.len() < n => base + Seq::new((n - base.len()) as nat, |i: int| 0u32),
        _ => base,
    }
}

/// Widens a bfloat16 tensor to single-precision bit patterns, padding it
/// with zeros to `pad_to` entries when it is shorter.
pub fn tensor_f32_bits(data: &[u8], pad_to: Option<usize>) -> (out: Vec<u32>)
    ensures
        out@ == padded_f32_bits(data@, pad_to),
{
    let mut out = bf16_to_f32_bits(data);
    let ghost base = out@;
    assert(base =~= Seq::new(
        data@.len() / 2,
        |i: int| ((data@[2 * i] as int + 256 * data@[2 * i + 1] as int) * 65536) as u32,
    ));
    if let Some(n) = pad_to {
        if out.len() < n {
            let start = out.len();
            let mut k: usize = start;
            while k < n
                invariant
                    start == base.len(),
                    start <= k <= n,
                    out@ =~= base + Seq::new((k - start) as nat, |i: int| 0u32),
                decreases n - k,
            {
                out.push(0u32);
                k += 1;
            }
        }
    }
    out
}

} // verus!
